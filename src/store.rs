use vstd::prelude::*;

use crate::digest::{digest_hex, md5_hex_of};
use crate::token::fresh_token;
use vstd::string::*;
use crate::payload::{
    FileInfo, GetOneFileResponse, GetPartsResponse, Status, SubmitPayload, SubmitResponse,
    TransferError,
};

verus! {

/// Largest accepted chunk: 4 MiB.
pub const MAX_CHUNK: usize = 4194304;

/// Largest number of parts one session may hold.
pub const MAX_PARTS: usize = 1000000000;

/// Lifetime, in seconds, of a session that has not been finalized yet.
pub const PROVISIONAL_LIFETIME: i64 = 86400;

/// One accepted chunk: its storage key, its 1-based offset, its digest and its bytes.
pub struct Part {
    pub identifier: String,
    pub offset: u64,
    pub hash: String,
    pub bytes: Vec<u8>,
}

/// A file record: an open upload session while `identifier` is `None`, a
/// published file once it holds the public read token.
pub struct StoredFile {
    pub secret_key: String,
    pub identifier: Option<String>,
    pub name: String,
    pub expires_at: i64,
    pub max_downloads: usize,
    pub download_count: usize,
    pub parts: Vec<Part>,
}

/// The metadata records together with the part bytes they own.
pub struct PartStore {
    pub files: Vec<StoredFile>,
}

/// The `k`-th part (0-based) of an owner is well formed.
pub open spec fn part_ok(p: Part, k: int) -> bool {
    &&& p.offset == k + 1
    &&& p.hash@ == md5_hex_of(p.bytes@)
    &&& p.bytes@.len() <= MAX_CHUNK
}

/// Offsets run 1, 2, 3, ... with no gap, and every part matches its digest.
pub open spec fn file_ok(f: StoredFile) -> bool {
    &&& f.parts@.len() <= MAX_PARTS
    &&& forall|k: int| 0 <= k < f.parts@.len() ==> part_ok(#[trigger] f.parts@[k], k)
}

/// The bytes of a sequence of parts, concatenated in order.
pub open spec fn content(parts: Seq<Part>) -> Seq<u8>
    decreases parts.len(),
{
    if parts.len() == 0 {
        Seq::empty()
    } else {
        content(parts.drop_last()) + parts.last().bytes@
    }
}

/// Whether `id` is the public identifier of `f`.
pub open spec fn published_as(f: StoredFile, id: Seq<char>) -> bool {
    f.identifier matches Some(x) && x@ == id
}

/// A chunk that repeats the newest part of the session: same position, same digest.
pub open spec fn is_retry(parts: Seq<Part>, claimed_offset: u64, digest: Seq<char>) -> bool {
    &&& parts.len() > 0
    &&& claimed_offset == parts.len()
    &&& parts.last().hash@ == digest
}

/// `g` is `f` with `p` appended to its parts and nothing else changed.
pub open spec fn appended(f: StoredFile, g: StoredFile, p: Part) -> bool {
    &&& g.secret_key == f.secret_key
    &&& g.identifier == f.identifier
    &&& g.name == f.name
    &&& g.expires_at == f.expires_at
    &&& g.max_downloads == f.max_downloads
    &&& g.download_count == f.download_count
    &&& g.parts@ == f.parts@.push(p)
}

/// Every file is well formed; secret keys, public identifiers and part
/// storage keys are unique.
pub open spec fn files_wf(files: Seq<StoredFile>) -> bool {
    &&& forall|i: int| 0 <= i < files.len() ==> file_ok(#[trigger] files[i])
    &&& forall|i: int, j: int|
        0 <= i < files.len() && 0 <= j < files.len() && i != j
            ==> #[trigger] files[i].secret_key@ != #[trigger] files[j].secret_key@
    &&& forall|i: int, j: int, id: Seq<char>|
        0 <= i < files.len() && 0 <= j < files.len() && i != j
            && #[trigger] published_as(files[i], id)
            ==> !#[trigger] published_as(files[j], id)
    &&& part_ids_unique(files)
}

/// No two parts, of one record or of two, share a storage key.
pub open spec fn part_ids_unique(files: Seq<StoredFile>) -> bool {
    forall|i: int, k: int, j: int, l: int|
        0 <= i < files.len() && 0 <= j < files.len() && 0 <= k < files[i].parts@.len() && 0 <= l
            < files[j].parts@.len() && (i != j || k != l)
            ==> #[trigger] files[i].parts@[k].identifier@ != #[trigger] files[j].parts@[l].identifier@
}

/// `new` is `old` with one fresh open session for `key` added at the end.
pub open spec fn opened(old: Seq<StoredFile>, new: Seq<StoredFile>, key: Seq<char>, now: i64) -> bool {
    &&& new.len() == old.len() + 1
    &&& new.drop_last() == old
    &&& new.last().secret_key@ == key
    &&& new.last().identifier is None
    &&& new.last().parts@.len() == 0
    &&& new.last().download_count == 0
    &&& new.last().expires_at == if now <= i64::MAX - PROVISIONAL_LIFETIME {
        now + PROVISIONAL_LIFETIME
    } else {
        i64::MAX as int
    }
}

/// `new` is `old` with the record at `i` published under `id` as `payload` asks.
pub open spec fn published(
    old: Seq<StoredFile>,
    new: Seq<StoredFile>,
    i: int,
    id: String,
    payload: SubmitPayload,
) -> bool {
    let f = old[i];
    let g = new[i];
    &&& new == old.update(i, g)
    &&& g.secret_key == f.secret_key
    &&& g.identifier == Some(id)
    &&& g.name == payload.name
    &&& g.expires_at == payload.expire
    &&& g.max_downloads == match payload.max_download {
        Some(m) => m,
        None => 10000,
    }
    &&& g.download_count == f.download_count
    &&& g.parts == f.parts
}

/// The records whose expiry time lies after `now`, in their order.
pub open spec fn live(files: Seq<StoredFile>, now: i64) -> Seq<StoredFile> {
    files.filter(|f: StoredFile| now < f.expires_at)
}

/// Whether some part of some record is stored under `id`.
pub open spec fn holds_part(files: Seq<StoredFile>, id: Seq<char>) -> bool {
    exists|i: int, k: int|
        0 <= i < files.len() && 0 <= k < files[i].parts@.len()
            && #[trigger] files[i].parts@[k].identifier@ == id
}

proof fn lemma_remove_wf(files: Seq<StoredFile>, r: int)
    requires
        files_wf(files),
        0 <= r < files.len(),
    ensures
        files_wf(files.remove(r)),
{
    let s = files.remove(r);
    assert forall|i: int| 0 <= i < s.len() implies file_ok(#[trigger] s[i]) by {
        if i < r {
            assert(s[i] == files[i]);
        } else {
            assert(s[i] == files[i + 1]);
        }
    }
    assert forall|i: int, j: int|
        0 <= i < s.len() && 0 <= j < s.len() && i != j
            implies #[trigger] s[i].secret_key@ != #[trigger] s[j].secret_key@ by {
        let a = if i < r { i } else { i + 1 };
        let b = if j < r { j } else { j + 1 };
        assert(s[i] == files[a]);
        assert(s[j] == files[b]);
        assert(files[a].secret_key@ != files[b].secret_key@);
    }
    assert forall|i: int, j: int, id: Seq<char>|
        0 <= i < s.len() && 0 <= j < s.len() && i != j && #[trigger] published_as(s[i], id)
            implies !#[trigger] published_as(s[j], id) by {
        let a = if i < r { i } else { i + 1 };
        let b = if j < r { j } else { j + 1 };
        assert(s[i] == files[a]);
        assert(s[j] == files[b]);
        assert(published_as(files[a], id));
        assert(!published_as(files[b], id));
    }
}

proof fn lemma_content_step(parts: Seq<Part>, k: int)
    requires
        0 <= k < parts.len(),
    ensures
        content(parts.take(k + 1)) == content(parts.take(k)) + parts[k].bytes@,
{
    assert(parts.take(k + 1).drop_last() =~= parts.take(k));
}

proof fn lemma_live_step(files: Seq<StoredFile>, now: i64, k: int)
    requires
        0 <= k < files.len(),
    ensures
        live(files.take(k + 1), now) == if now < files[k].expires_at {
            live(files.take(k), now).push(files[k])
        } else {
            live(files.take(k), now)
        },
{
    reveal(Seq::filter);
    assert(files.take(k + 1).drop_last() =~= files.take(k));
    assert(files.take(k + 1).last() == files[k]);
}

/// Byte sequences concatenated in order.
pub open spec fn flatten(chunks: Seq<Seq<u8>>) -> Seq<u8>
    decreases chunks.len(),
{
    if chunks.len() == 0 {
        Seq::empty()
    } else {
        flatten(chunks.drop_last()) + chunks.last()
    }
}

/// Storing a chunk extends a record's content by exactly the chunk's bytes.
pub proof fn lemma_append_extends_content(f: StoredFile, g: StoredFile, p: Part)
    requires
        appended(f, g, p),
    ensures
        content(g.parts@) == content(f.parts@) + p.bytes@,
{
    assert(g.parts@.drop_last() =~= f.parts@);
}

/// Round trip: parts that hold the chunks of an upload, one for one and in
/// order, have as content the chunks concatenated, which is what reading the
/// parts back in offset order yields.
pub proof fn lemma_round_trip(parts: Seq<Part>, chunks: Seq<Seq<u8>>)
    requires
        parts.len() == chunks.len(),
        forall|k: int| 0 <= k < parts.len() ==> (#[trigger] parts[k]).bytes@ == chunks[k],
    ensures
        content(parts) == flatten(chunks),
    decreases parts.len(),
{
    if parts.len() > 0 {
        let a = parts.drop_last();
        let b = chunks.drop_last();
        assert forall|k: int| 0 <= k < a.len() implies (#[trigger] a[k]).bytes@ == b[k] by {
            assert(a[k] == parts[k]);
        }
        lemma_round_trip(a, b);
    }
}

/// Flattening distributes over concatenation.
pub proof fn lemma_flatten_concat(a: Seq<Seq<u8>>, b: Seq<Seq<u8>>)
    ensures
        flatten(a + b) == flatten(a) + flatten(b),
    decreases b.len(),
{
    if b.len() == 0 {
        assert(a + b =~= a);
        assert(flatten(b) =~= Seq::<u8>::empty());
        assert(flatten(a) + flatten(b) =~= flatten(a));
    } else {
        lemma_flatten_concat(a, b.drop_last());
        assert((a + b).drop_last() =~= a + b.drop_last());
        assert((a + b).last() == b.last());
        assert(flatten(a) + flatten(b.drop_last()) + b.last() =~= flatten(a) + (flatten(
            b.drop_last(),
        ) + b.last()));
    }
}

/// A download resumed after `n` parts: a destination holding the first `n`
/// parts, with the remaining parts appended in order and none of the first
/// `n` again, holds the whole file.
pub proof fn lemma_resumed_download_is_whole(parts: Seq<Seq<u8>>, n: int)
    requires
        0 <= n <= parts.len(),
    ensures
        flatten(parts.take(n)) + flatten(parts.skip(n)) == flatten(parts),
{
    lemma_flatten_concat(parts.take(n), parts.skip(n));
    assert(parts.take(n) + parts.skip(n) =~= parts);
}

/// The offsets that `accept_chunk` returns follow the newest part, whatever
/// offset the caller claimed: a repeat is answered with its claimed offset,
/// which is then the newest part's own, and any other chunk gets the number
/// of parts plus one, the offset right after the newest. No gap can arise.
pub proof fn lemma_assigned_offset_follows_newest(
    f: StoredFile,
    claimed_offset: u64,
    digest: Seq<char>,
)
    requires
        file_ok(f),
    ensures
        f.parts@.len() > 0 ==> f.parts@.last().offset == f.parts@.len(),
        is_retry(f.parts@, claimed_offset, digest) ==> claimed_offset == f.parts@.last().offset,
{
    if f.parts@.len() > 0 {
        assert(part_ok(f.parts@[f.parts@.len() - 1], f.parts@.len() - 1));
    }
}

/// The parts of a well-formed store carry the offsets 1, 2, 3, ... in order:
/// strictly increasing and without gaps.
pub proof fn lemma_offsets_sequential(files: Seq<StoredFile>, i: int, a: int, b: int)
    requires
        files_wf(files),
        0 <= i < files.len(),
        0 <= a < b < files[i].parts@.len(),
    ensures
        files[i].parts@[a].offset == a + 1,
        files[i].parts@[a].offset < files[i].parts@[b].offset,
        files[i].parts@[b].offset == files[i].parts@[a].offset + (b - a),
{
    assert(file_ok(files[i]));
    assert(part_ok(files[i].parts@[a], a));
    assert(part_ok(files[i].parts@[b], b));
}

/// After a sweep at `now`, every remaining record expires after `now`, every
/// such record of before remains, and no record that had expired, nor any
/// of its parts, is left.
pub proof fn lemma_sweep_leaves_only_live(files: Seq<StoredFile>, now: i64)
    ensures
        forall|i: int|
            0 <= i < live(files, now).len() ==> now < (#[trigger] live(files, now)[i]).expires_at,
        forall|i: int|
            0 <= i < files.len() && now < files[i].expires_at ==> live(files, now).contains(
                #[trigger] files[i],
            ),
        forall|i: int|
            0 <= i < files.len() && files[i].expires_at <= now ==> !live(files, now).contains(
                #[trigger] files[i],
            ),
{
    let pred = |f: StoredFile| now < f.expires_at;
    assert forall|i: int| 0 <= i < live(files, now).len() implies now < (#[trigger] live(
        files,
        now,
    )[i]).expires_at by {
        files.lemma_filter_pred(pred, i);
    }
    assert forall|i: int| 0 <= i < files.len() && now < files[i].expires_at implies live(
        files,
        now,
    ).contains(#[trigger] files[i]) by {
        files.lemma_filter_contains(pred, i);
    }
    assert forall|i: int| 0 <= i < files.len() && files[i].expires_at <= now implies !live(
        files,
        now,
    ).contains(#[trigger] files[i]) by {
        if live(files, now).contains(files[i]) {
            let j = choose|j: int| 0 <= j < live(files, now).len() && live(files, now)[j] == files[i];
            files.lemma_filter_pred(pred, j);
        }
    }
}

impl PartStore {
    /// The records are well formed.
    pub open spec fn wf(&self) -> bool {
        files_wf(self.files@)
    }

    /// Some record, open or published, has this secret key.
    pub open spec fn has_key(&self, key: Seq<char>) -> bool {
        exists|i: int| 0 <= i < self.files@.len() && #[trigger] self.files@[i].secret_key@ == key
    }

    /// The index of the record with this secret key.
    pub open spec fn key_index(&self, key: Seq<char>) -> int {
        choose|i: int| 0 <= i < self.files@.len() && #[trigger] self.files@[i].secret_key@ == key
    }

    /// An upload session with this secret key is open.
    pub open spec fn is_open(&self, key: Seq<char>) -> bool {
        self.has_key(key) && self.files@[self.key_index(key)].identifier is None
    }

    /// Some record is published under this identifier.
    pub open spec fn is_published(&self, id: Seq<char>) -> bool {
        exists|i: int| 0 <= i < self.files@.len() && #[trigger] published_as(self.files@[i], id)
    }

    /// The index of the record published under this identifier.
    pub open spec fn published_index(&self, id: Seq<char>) -> int {
        choose|i: int| 0 <= i < self.files@.len() && #[trigger] published_as(self.files@[i], id)
    }

    /// An empty store.
    pub fn new() -> (r: PartStore)
        ensures
            r.wf(),
            r.files@.len() == 0,
    {
        PartStore { files: Vec::new() }
    }

    fn find_key(&self, key: &String) -> (r: Option<usize>)
        requires
            self.wf(),
        ensures
            match r {
                Some(i) => i == self.key_index(key@) && self.has_key(key@),
                None => !self.has_key(key@),
            },
    {
        let mut i: usize = 0;
        while i < self.files.len()
            invariant
                self.wf(),
                i <= self.files@.len(),
                forall|j: int| 0 <= j < i ==> #[trigger] self.files@[j].secret_key@ != key@,
            decreases self.files@.len() - i,
        {
            if self.files[i].secret_key == *key {
                assert(self.has_key(key@));
                let ghost k = self.key_index(key@);
                assert(self.files@[i as int].secret_key@ == key@);
                proof {
                    if k != i as int {
                        assert(self.files@[k].secret_key@ != self.files@[i as int].secret_key@);
                    }
                }
                return Some(i);
            }
            i = i + 1;
        }
        None
    }

    /// Opens an upload session under `secret_key`, expiring after the
    /// provisional lifetime (saturating at the largest time).
    pub fn open_session_with(&mut self, secret_key: String, now: i64) -> (r: Result<(), TransferError>)
        requires
            old(self).wf(),
        ensures
            final(self).wf(),
            old(self).has_key(secret_key@) ==> r == Err::<(), TransferError>(TransferError::StorageFault)
                && final(self).files@ == old(self).files@,
            !old(self).has_key(secret_key@) ==> r is Ok && opened(
                old(self).files@,
                final(self).files@,
                secret_key@,
                now,
            ),
    {
        if self.find_key(&secret_key).is_some() {
            return Err(TransferError::StorageFault);
        }
        let expires_at: i64 = match now.checked_add(PROVISIONAL_LIFETIME) {
            Some(t) => t,
            None => i64::MAX,
        };
        let f = StoredFile {
            secret_key,
            identifier: None,
            name: String::new(),
            expires_at,
            max_downloads: 0,
            download_count: 0,
            parts: Vec::new(),
        };
        let ghost old_files = self.files@;
        let ghost key = f.secret_key@;
        assert(forall|j: int| 0 <= j < old_files.len() ==> #[trigger] old_files[j].secret_key@ != key);
        self.files.push(f);
        assert(self.files@.drop_last() =~= old_files);
        assert forall|i: int, j: int|
            0 <= i < self.files@.len() && 0 <= j < self.files@.len() && i != j
                implies #[trigger] self.files@[i].secret_key@ != #[trigger] self.files@[j].secret_key@ by {
            if i == old_files.len() {
                assert(old_files[j] == self.files@[j]);
                assert(old_files[j].secret_key@ != key);
            } else if j == old_files.len() {
                assert(old_files[i] == self.files@[i]);
                assert(old_files[i].secret_key@ != key);
            } else {
                assert(old_files[i] == self.files@[i]);
                assert(old_files[j] == self.files@[j]);
                assert(old_files[i].secret_key@ != old_files[j].secret_key@);
            }
        }
        Ok(())
    }

    /// The records keep their keys and public identifiers, position by position.
    pub open spec fn same_tokens(&self, other: &PartStore) -> bool {
        &&& self.files@.len() == other.files@.len()
        &&& forall|i: int| 0 <= i < self.files@.len() ==> {
            &&& (#[trigger] self.files@[i]).secret_key == other.files@[i].secret_key
            &&& self.files@[i].identifier == other.files@[i].identifier
        }
    }

    proof fn lemma_tokens_unique(&self, other: &PartStore)
        requires
            other.wf(),
            self.same_tokens(other),
            forall|i: int| 0 <= i < self.files@.len() ==> file_ok(#[trigger] self.files@[i]),
            part_ids_unique(self.files@),
        ensures
            self.wf(),
    {
        assert forall|i: int, j: int|
            0 <= i < self.files@.len() && 0 <= j < self.files@.len() && i != j
                implies #[trigger] self.files@[i].secret_key@ != #[trigger] self.files@[j].secret_key@ by {
            assert(other.files@[i].secret_key@ != other.files@[j].secret_key@);
        }
        assert forall|i: int, j: int, id: Seq<char>|
            0 <= i < self.files@.len() && 0 <= j < self.files@.len() && i != j
                && #[trigger] published_as(self.files@[i], id)
                implies !#[trigger] published_as(self.files@[j], id) by {
            assert(self.files@[i].identifier == other.files@[i].identifier);
            assert(self.files@[j].identifier == other.files@[j].identifier);
            assert(published_as(other.files@[i], id));
            assert(!published_as(other.files@[j], id));
        }
    }

    fn find_published(&self, id: &String) -> (r: Option<usize>)
        requires
            self.wf(),
        ensures
            match r {
                Some(i) => i == self.published_index(id@) && self.is_published(id@),
                None => !self.is_published(id@),
            },
    {
        let mut i: usize = 0;
        while i < self.files.len()
            invariant
                self.wf(),
                i <= self.files@.len(),
                forall|j: int| 0 <= j < i ==> !#[trigger] published_as(self.files@[j], id@),
            decreases self.files@.len() - i,
        {
            let hit = match &self.files[i].identifier {
                Some(x) => *x == *id,
                None => false,
            };
            if hit {
                assert(published_as(self.files@[i as int], id@));
                assert(self.is_published(id@));
                let ghost k = self.published_index(id@);
                proof {
                    if k != i as int {
                        assert(published_as(self.files@[k], id@));
                    }
                }
                return Some(i);
            }
            i = i + 1;
        }
        None
    }

    /// The newest committed part of the open session `secret_key`: its
    /// offset, digest and size. `NotFound` when no such session is open or it
    /// holds no part yet.
    pub fn get_status(&self, secret_key: &String) -> (r: Result<Status, TransferError>)
        requires
            self.wf(),
        ensures
            r is Ok <==> self.is_open(secret_key@)
                && self.files@[self.key_index(secret_key@)].parts@.len() > 0,
            r is Err ==> r == Err::<Status, TransferError>(TransferError::NotFound),
            r matches Ok(st) ==> {
                let parts = self.files@[self.key_index(secret_key@)].parts@;
                &&& st.offset == Some(parts.len() as i64)
                &&& st.hash == Some(parts.last().hash)
                &&& st.file_size == Some(parts.last().bytes@.len() as i64)
            },
    {
        let idx = match self.find_key(secret_key) {
            Some(i) => i,
            None => {
                return Err(TransferError::NotFound);
            },
        };
        if self.files[idx].identifier.is_some() || self.files[idx].parts.len() == 0 {
            return Err(TransferError::NotFound);
        }
        let n = self.files[idx].parts.len();
        let last = &self.files[idx].parts[n - 1];
        assert(part_ok(self.files@[idx as int].parts@[n - 1], n - 1));
        Ok(
            Status {
                offset: Some(n as i64),
                hash: Some(last.hash.clone()),
                file_size: Some(last.bytes.len() as i64),
            },
        )
    }

    /// Closes the open session `secret_key` and publishes it under
    /// `public_id`, with the payload's name, expiry time and download quota
    /// (ten thousand when none is given). `NotFound` when no such session is
    /// open; `StorageFault` when `public_id` is already taken.
    pub fn finalize_with_identifier(
        &mut self,
        secret_key: &String,
        payload: &SubmitPayload,
        public_id: String,
    ) -> (r: Result<SubmitResponse, TransferError>)
        requires
            old(self).wf(),
        ensures
            final(self).wf(),
            !old(self).is_open(secret_key@) ==> r == Err::<SubmitResponse, TransferError>(
                TransferError::NotFound,
            ),
            old(self).is_open(secret_key@) && old(self).is_published(public_id@) ==> r == Err::<
                SubmitResponse,
                TransferError,
            >(TransferError::StorageFault),
            r is Err ==> final(self).files@ == old(self).files@,
            old(self).is_open(secret_key@) && !old(self).is_published(public_id@) ==> {
                &&& r matches Ok(resp) && resp.identifier == Some(public_id) && resp.expired_at
                    == Some(payload.expire)
                &&& published(
                    old(self).files@,
                    final(self).files@,
                    old(self).key_index(secret_key@),
                    public_id,
                    *payload,
                )
            },
    {
        let idx = match self.find_key(secret_key) {
            Some(i) => i,
            None => {
                return Err(TransferError::NotFound);
            },
        };
        if self.files[idx].identifier.is_some() {
            return Err(TransferError::NotFound);
        }
        if self.find_published(&public_id).is_some() {
            return Err(TransferError::StorageFault);
        }
        let max_downloads = match payload.max_download {
            Some(m) => m,
            None => 10000,
        };
        let ghost old_store = *self;
        let f = self.files.remove(idx);
        let g = StoredFile {
            secret_key: f.secret_key,
            identifier: Some(public_id.clone()),
            name: payload.name.clone(),
            expires_at: payload.expire,
            max_downloads,
            download_count: f.download_count,
            parts: f.parts,
        };
        self.files.insert(idx, g);
        proof {
            let s = self.files@;
            let o = old_store.files@;
            assert(s =~= o.update(idx as int, s[idx as int]));
            assert forall|i: int| 0 <= i < s.len() implies file_ok(#[trigger] s[i]) by {
                if i != idx {
                    assert(s[i] == o[i]);
                }
            }
            assert forall|i: int, j: int|
                0 <= i < s.len() && 0 <= j < s.len() && i != j
                    implies #[trigger] s[i].secret_key@ != #[trigger] s[j].secret_key@ by {
                assert(o[i].secret_key@ != o[j].secret_key@);
            }
            assert forall|i: int, j: int, id: Seq<char>|
                0 <= i < s.len() && 0 <= j < s.len() && i != j && #[trigger] published_as(s[i], id)
                    implies !#[trigger] published_as(s[j], id) by {
                if i == idx {
                    assert(!published_as(o[j], id));
                } else if j == idx {
                    assert(published_as(o[i], id));
                } else {
                    assert(published_as(o[i], id));
                    assert(!published_as(o[j], id));
                }
            }
        }
        Ok(SubmitResponse { identifier: Some(public_id), expired_at: Some(payload.expire) })
    }

    /// The published file `identifier`, when it has not expired by `now`:
    /// its name, expiry, total size and its parts in offset order.
    pub fn get_file_info(&self, identifier: &String, now: i64) -> (r: Result<
        FileInfo,
        TransferError,
    >)
        requires
            self.wf(),
        ensures
            r is Ok <==> self.is_published(identifier@) && now < self.files@[self.published_index(
                identifier@,
            )].expires_at,
            r is Err ==> r == Err::<FileInfo, TransferError>(TransferError::NotFound),
            r matches Ok(info) ==> {
                let f = self.files@[self.published_index(identifier@)];
                &&& info.file.name == Some(f.name)
                &&& info.file.expired_at == Some(f.expires_at)
                &&& info.file.file_size == Some(content(f.parts@).len() as i64)
                &&& info.parts@.len() == f.parts@.len()
                &&& forall|k: int|
                    0 <= k < f.parts@.len() ==> {
                        &&& (#[trigger] info.parts@[k]).identifier == f.parts@[k].identifier
                        &&& info.parts@[k].hash == f.parts@[k].hash
                        &&& info.parts@[k].offset == k + 1
                        &&& info.parts@[k].file_size == f.parts@[k].bytes@.len()
                    }
            },
    {
        let idx = match self.find_published(identifier) {
            Some(i) => i,
            None => {
                return Err(TransferError::NotFound);
            },
        };
        let f = &self.files[idx];
        if f.expires_at <= now {
            return Err(TransferError::NotFound);
        }
        assert(file_ok(*f));
        let mut parts: Vec<GetPartsResponse> = Vec::new();
        let mut total: u64 = 0;
        let mut k: usize = 0;
        while k < f.parts.len()
            invariant
                file_ok(*f),
                k <= f.parts@.len(),
                total == content(f.parts@.take(k as int)).len(),
                total <= k * MAX_CHUNK,
                parts@.len() == k,
                forall|j: int|
                    0 <= j < k ==> {
                        &&& (#[trigger] parts@[j]).identifier == f.parts@[j].identifier
                        &&& parts@[j].hash == f.parts@[j].hash
                        &&& parts@[j].offset == j + 1
                        &&& parts@[j].file_size == f.parts@[j].bytes@.len()
                    },
            decreases f.parts@.len() - k,
        {
            let p = &f.parts[k];
            assert(part_ok(f.parts@[k as int], k as int));
            proof {
                lemma_content_step(f.parts@, k as int);
            }
            total = total + p.bytes.len() as u64;
            parts.push(
                GetPartsResponse {
                    file_size: p.bytes.len() as i64,
                    identifier: p.identifier.clone(),
                    hash: p.hash.clone(),
                    offset: p.offset as i64,
                },
            );
            k = k + 1;
        }
        assert(f.parts@.take(k as int) =~= f.parts@);
        Ok(
            FileInfo {
                file: GetOneFileResponse {
                    file_size: Some(total as i64),
                    expired_at: Some(f.expires_at),
                    name: Some(f.name.clone()),
                },
                parts,
            },
        )
    }

    fn find_part(&self, part_id: &String) -> (r: Option<(usize, usize)>)
        ensures
            r is None <==> !holds_part(self.files@, part_id@),
            r matches Some((i, k)) ==> i < self.files@.len() && k < self.files@[i as int].parts@.len()
                && self.files@[i as int].parts@[k as int].identifier@ == part_id@,
    {
        let mut i: usize = 0;
        while i < self.files.len()
            invariant
                i <= self.files@.len(),
                forall|a: int, k: int|
                    0 <= a < i && 0 <= k < self.files@[a].parts@.len()
                        ==> #[trigger] self.files@[a].parts@[k].identifier@ != part_id@,
            decreases self.files@.len() - i,
        {
            let parts = &self.files[i].parts;
            let mut k: usize = 0;
            while k < parts.len()
                invariant
                    i < self.files@.len(),
                    parts == self.files@[i as int].parts,
                    k <= parts@.len(),
                    forall|a: int, k: int|
                        0 <= a < i && 0 <= k < self.files@[a].parts@.len()
                            ==> #[trigger] self.files@[a].parts@[k].identifier@ != part_id@,
                    forall|j: int| 0 <= j < k ==> #[trigger] parts@[j].identifier@ != part_id@,
                decreases parts@.len() - k,
            {
                if parts[k].identifier == *part_id {
                    assert(self.files@[i as int].parts@[k as int].identifier@ == part_id@);
                    return Some((i, k));
                }
                k = k + 1;
            }
            i = i + 1;
        }
        None
    }

    /// The bytes stored under the part identifier `part_id`; `NotFound` when
    /// no record holds such a part.
    pub fn fetch_part(&self, part_id: &String) -> (r: Result<Vec<u8>, TransferError>)
        requires
            self.wf(),
        ensures
            r is Ok <==> holds_part(self.files@, part_id@),
            r is Err ==> r == Err::<Vec<u8>, TransferError>(TransferError::NotFound),
            r matches Ok(b) ==> forall|i: int, k: int|
                0 <= i < self.files@.len() && 0 <= k < self.files@[i].parts@.len()
                    && #[trigger] self.files@[i].parts@[k].identifier@ == part_id@
                    ==> b@ == self.files@[i].parts@[k].bytes@,
    {
        match self.find_part(part_id) {
            Some((i, k)) => {
                let b = self.files[i].parts[k].bytes.clone();
                assert(b@ =~= self.files@[i as int].parts@[k as int].bytes@);
                assert forall|a: int, l: int|
                    0 <= a < self.files@.len() && 0 <= l < self.files@[a].parts@.len()
                        && #[trigger] self.files@[a].parts@[l].identifier@ == part_id@
                        implies b@ == self.files@[a].parts@[l].bytes@ by {
                    if a != i || l != k {
                        assert(self.files@[a].parts@[l].identifier@
                            != self.files@[i as int].parts@[k as int].identifier@);
                    }
                }
                Ok(b)
            },
            None => Err(TransferError::NotFound),
        }
    }

    /// Deletes the record with this secret key, open or published, together
    /// with all its parts; `NotFound` when no record has the key.
    pub fn delete_file(&mut self, secret_key: &String) -> (r: Result<(), TransferError>)
        requires
            old(self).wf(),
        ensures
            final(self).wf(),
            r is Ok <==> old(self).has_key(secret_key@),
            r is Err ==> r == Err::<(), TransferError>(TransferError::NotFound),
            r is Err ==> final(self).files@ == old(self).files@,
            r is Ok ==> final(self).files@ == old(self).files@.remove(
                old(self).key_index(secret_key@),
            ),
    {
        let idx = match self.find_key(secret_key) {
            Some(i) => i,
            None => {
                return Err(TransferError::NotFound);
            },
        };
        proof {
            lemma_remove_wf(self.files@, idx as int);
        }
        self.files.remove(idx);
        Ok(())
    }

    /// One sweep of the expiry collector: drops every record whose expiry
    /// time is at or before `now`, with all its parts, keeps the others in
    /// their order, and returns how many records were dropped.
    pub fn collect_expired(&mut self, now: i64) -> (r: usize)
        requires
            old(self).wf(),
        ensures
            final(self).wf(),
            final(self).files@ == live(old(self).files@, now),
            r == old(self).files@.len() - final(self).files@.len(),
    {
        let ghost o = self.files@;
        let initial_len = self.files.len();
        let ghost mut k: int = 0;
        let mut i: usize = 0;
        let mut removed: usize = 0;
        while i < self.files.len()
            invariant
                files_wf(self.files@),
                0 <= k <= o.len(),
                i <= self.files@.len(),
                self.files@.take(i as int) == live(o.take(k), now),
                self.files@.skip(i as int) == o.skip(k),
                removed == k - i,
                o.len() == initial_len,
            decreases o.len() - k,
        {
            proof {
                assert(self.files@.skip(i as int).len() == o.skip(k).len());
                lemma_live_step(o, now, k);
                assert(self.files@[i as int] == o[k]) by {
                    assert(self.files@.skip(i as int)[0] == o.skip(k)[0]);
                }
            }
            let ghost before = self.files@;
            if self.files[i].expires_at <= now {
                proof {
                    lemma_remove_wf(self.files@, i as int);
                }
                self.files.remove(i);
                assert(self.files@.take(i as int) =~= before.take(i as int));
                assert forall|m: int| 0 <= m < self.files@.skip(i as int).len()
                    implies self.files@.skip(i as int)[m] == o.skip(k + 1)[m] by {
                    assert(before.skip(i as int)[m + 1] == o.skip(k)[m + 1]);
                }
                assert(self.files@.skip(i as int) =~= o.skip(k + 1));
                removed = removed + 1;
            } else {
                assert(self.files@.take(i + 1) =~= before.take(i as int).push(o[k]));
                assert forall|m: int| 0 <= m < self.files@.skip(i + 1).len()
                    implies #[trigger] self.files@.skip(i + 1)[m] == o.skip(k + 1)[m] by {
                    assert(before.skip(i as int)[m + 1] == o.skip(k)[m + 1]);
                }
                assert(self.files@.skip(i + 1) =~= o.skip(k + 1));
                i = i + 1;
            }
            proof {
                k = k + 1;
            }
        }
        proof {
            assert(self.files@.take(i as int) =~= self.files@);
            assert(o.skip(k).len() == 0);
            assert(o.take(k) =~= o);
        }
        removed
    }

    /// Opens an upload session under a fresh random secret key and returns
    /// the key with the session's provisional expiry time. Success is certain
    /// when no record has a key of a token's length (36 characters), as in an
    /// empty store; otherwise `StorageFault` comes only if the random key is
    /// taken.
    pub fn open_session(&mut self, now: i64) -> (r: Result<(String, i64), TransferError>)
        requires
            old(self).wf(),
        ensures
            final(self).wf(),
            (forall|j: int|
                0 <= j < old(self).files@.len() ==> (#[trigger] old(self).files@[j]).secret_key@.len()
                    != 36) ==> r is Ok,
            r is Err ==> r == Err::<(String, i64), TransferError>(TransferError::StorageFault)
                && final(self).files@ == old(self).files@,
            r matches Ok((key, expires_at)) ==> key@.len() == 36 && !old(self).has_key(key@)
                && opened(old(self).files@, final(self).files@, key@, now) && expires_at
                == final(self).files@.last().expires_at,
    {
        let key = fresh_token();
        let copy = key.clone();
        match self.open_session_with(copy, now) {
            Ok(()) => {
                let n = self.files.len();
                let expires_at = self.files[n - 1].expires_at;
                Ok((key, expires_at))
            },
            Err(e) => Err(e),
        }
    }

    /// Closes the open session `secret_key` and publishes it under a fresh
    /// eight-character identifier, the prefix of a random token. `NotFound`
    /// when no such session is open. Success is certain for an open session
    /// when no record is published under an eight-character identifier;
    /// otherwise `StorageFault` comes only if the random identifier is taken.
    pub fn finalize(&mut self, secret_key: &String, payload: &SubmitPayload) -> (r: Result<
        SubmitResponse,
        TransferError,
    >)
        requires
            old(self).wf(),
        ensures
            final(self).wf(),
            r is Err ==> final(self).files@ == old(self).files@,
            !old(self).is_open(secret_key@) ==> r == Err::<SubmitResponse, TransferError>(
                TransferError::NotFound,
            ),
            old(self).is_open(secret_key@) && r is Err ==> r == Err::<SubmitResponse, TransferError>(
                TransferError::StorageFault,
            ),
            old(self).is_open(secret_key@) && (forall|j: int, id: Seq<char>|
                0 <= j < old(self).files@.len() && #[trigger] published_as(old(self).files@[j], id)
                    ==> id.len() != 8) ==> r is Ok,
            r matches Ok(resp) ==> resp.expired_at == Some(payload.expire) && (
            resp.identifier matches Some(id) && id@.len() == 8 && old(self).is_open(secret_key@)
                && published(
                old(self).files@,
                final(self).files@,
                old(self).key_index(secret_key@),
                id,
                *payload,
            )),
    {
        let token = fresh_token();
        let public_id = token.as_str().substring_char(0, 8).to_owned();
        self.finalize_with_identifier(secret_key, payload, public_id)
    }

    /// Accepts one chunk as `accept_chunk_with_id` does, storing it under a
    /// fresh random part identifier. Where `accept_chunk_with_id` would store
    /// the chunk, success is certain when no part has an identifier of a
    /// token's length (36 characters); otherwise `StorageFault` comes only if
    /// the random identifier is taken.
    pub fn accept_chunk(
        &mut self,
        secret_key: &String,
        claimed_offset: u64,
        digest: &String,
        bytes: Vec<u8>,
    ) -> (r: Result<u64, TransferError>)
        requires
            old(self).wf(),
        ensures
            final(self).wf(),
            bytes@.len() > MAX_CHUNK ==> r == Err::<u64, TransferError>(
                TransferError::PayloadTooLarge,
            ),
            bytes@.len() <= MAX_CHUNK && md5_hex_of(bytes@) != digest@ ==> r == Err::<
                u64,
                TransferError,
            >(TransferError::IntegrityViolation),
            bytes@.len() <= MAX_CHUNK && md5_hex_of(bytes@) == digest@ && !old(self).is_open(
                secret_key@,
            ) ==> r == Err::<u64, TransferError>(TransferError::NotFound),
            r is Err ==> final(self).files@ == old(self).files@,
            bytes@.len() <= MAX_CHUNK && md5_hex_of(bytes@) == digest@ && old(self).is_open(
                secret_key@,
            ) ==> {
                let i = old(self).key_index(secret_key@);
                let parts = old(self).files@[i].parts@;
                if is_retry(parts, claimed_offset, digest@) {
                    r == Ok::<u64, TransferError>(claimed_offset) && final(self).files@ == old(
                        self,
                    ).files@
                } else if parts.len() == MAX_PARTS {
                    r == Err::<u64, TransferError>(TransferError::StorageFault)
                } else if r is Ok || (forall|j: int, k: int|
                    0 <= j < old(self).files@.len() && 0 <= k < old(self).files@[j].parts@.len()
                        ==> (#[trigger] old(self).files@[j].parts@[k]).identifier@.len() != 36) {
                    &&& r == Ok::<u64, TransferError>((parts.len() + 1) as u64)
                    &&& final(self).files@ == old(self).files@.update(i, final(self).files@[i])
                    &&& final(self).files@[i].parts@.len() == parts.len() + 1
                    &&& appended(
                        old(self).files@[i],
                        final(self).files@[i],
                        final(self).files@[i].parts@.last(),
                    )
                    &&& final(self).files@[i].parts@.last().offset == parts.len() + 1
                    &&& final(self).files@[i].parts@.last().hash == *digest
                    &&& final(self).files@[i].parts@.last().bytes == bytes
                } else {
                    r == Err::<u64, TransferError>(TransferError::StorageFault)
                }
            },
    {
        let part_id = fresh_token();
        self.accept_chunk_with_id(secret_key, claimed_offset, digest, bytes, part_id)
    }

    /// Accepts one chunk for the open session `secret_key`. The chunk is
    /// refused when larger than the cap, when `digest` is not its digest, or
    /// when the session is unknown or closed. A repeat of the newest part
    /// (same claimed offset, same digest) is acknowledged without storing
    /// anything. Otherwise the chunk is stored under `part_id` at the next
    /// offset, whatever offset the caller claimed, and that offset is
    /// returned; `StorageFault` when the session is full or `part_id` is
    /// already taken.
    pub fn accept_chunk_with_id(
        &mut self,
        secret_key: &String,
        claimed_offset: u64,
        digest: &String,
        bytes: Vec<u8>,
        part_id: String,
    ) -> (r: Result<u64, TransferError>)
        requires
            old(self).wf(),
        ensures
            final(self).wf(),
            bytes@.len() > MAX_CHUNK ==> r == Err::<u64, TransferError>(
                TransferError::PayloadTooLarge,
            ),
            bytes@.len() <= MAX_CHUNK && md5_hex_of(bytes@) != digest@ ==> r == Err::<
                u64,
                TransferError,
            >(TransferError::IntegrityViolation),
            bytes@.len() <= MAX_CHUNK && md5_hex_of(bytes@) == digest@ && !old(self).is_open(
                secret_key@,
            ) ==> r == Err::<u64, TransferError>(TransferError::NotFound),
            r is Err ==> final(self).files@ == old(self).files@,
            bytes@.len() <= MAX_CHUNK && md5_hex_of(bytes@) == digest@ && old(self).is_open(
                secret_key@,
            ) ==> {
                let i = old(self).key_index(secret_key@);
                let parts = old(self).files@[i].parts@;
                if is_retry(parts, claimed_offset, digest@) {
                    r == Ok::<u64, TransferError>(claimed_offset) && final(self).files@ == old(
                        self,
                    ).files@
                } else if parts.len() == MAX_PARTS || holds_part(old(self).files@, part_id@) {
                    r == Err::<u64, TransferError>(TransferError::StorageFault)
                } else {
                    &&& r == Ok::<u64, TransferError>((parts.len() + 1) as u64)
                    &&& final(self).files@ == old(self).files@.update(i, final(self).files@[i])
                    &&& appended(
                        old(self).files@[i],
                        final(self).files@[i],
                        (Part {
                            identifier: part_id,
                            offset: (parts.len() + 1) as u64,
                            hash: *digest,
                            bytes: bytes,
                        }),
                    )
                }
            },
    {
        if bytes.len() > MAX_CHUNK {
            return Err(TransferError::PayloadTooLarge);
        }
        if digest_hex(bytes.as_slice()) != *digest {
            return Err(TransferError::IntegrityViolation);
        }
        let idx = match self.find_key(secret_key) {
            Some(i) => i,
            None => {
                return Err(TransferError::NotFound);
            },
        };
        if self.files[idx].identifier.is_some() {
            return Err(TransferError::NotFound);
        }
        let n = self.files[idx].parts.len();
        if n > 0 && claimed_offset == n as u64 && self.files[idx].parts[n - 1].hash == *digest {
            return Ok(claimed_offset);
        }
        if n >= MAX_PARTS || self.find_part(&part_id).is_some() {
            return Err(TransferError::StorageFault);
        }
        let offset = (n + 1) as u64;
        let part = Part { identifier: part_id, offset, hash: digest.clone(), bytes };
        let ghost old_store = *self;
        let mut f = self.files.remove(idx);
        f.parts.push(part);
        self.files.insert(idx, f);
        proof {
            assert(self.files@ =~= old_store.files@.update(idx as int, self.files@[idx as int]));
            let g = self.files@[idx as int];
            assert forall|k: int| 0 <= k < g.parts@.len() implies part_ok(#[trigger] g.parts@[k], k) by {
                if k < n {
                    assert(g.parts@[k] == old_store.files@[idx as int].parts@[k]);
                }
            }
            assert(file_ok(g));
            assert forall|i: int| 0 <= i < self.files@.len() implies file_ok(#[trigger] self.files@[i]) by {
                if i != idx {
                    assert(self.files@[i] == old_store.files@[i]);
                }
            }
            let s = self.files@;
            let o = old_store.files@;
            assert forall|a: int, k: int, b: int, l: int|
                0 <= a < s.len() && 0 <= b < s.len() && 0 <= k < s[a].parts@.len() && 0 <= l
                    < s[b].parts@.len() && (a != b || k != l)
                    implies #[trigger] s[a].parts@[k].identifier@ != #[trigger] s[b].parts@[l].identifier@ by {
                let fresh = |x: int, y: int| x == idx && y == n;
                if !fresh(a, k) && !fresh(b, l) {
                    assert(s[a].parts@[k] == o[a].parts@[k]);
                    assert(s[b].parts@[l] == o[b].parts@[l]);
                    assert(o[a].parts@[k].identifier@ != o[b].parts@[l].identifier@);
                } else if fresh(a, k) {
                    assert(s[b].parts@[l] == o[b].parts@[l]);
                    assert(o[b].parts@[l].identifier@ != part_id@);
                } else {
                    assert(s[a].parts@[k] == o[a].parts@[k]);
                    assert(o[a].parts@[k].identifier@ != part_id@);
                }
            }
            self.lemma_tokens_unique(&old_store);
        }
        Ok(offset)
    }
}

} // verus!
