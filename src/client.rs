use vstd::prelude::*;

use crate::digest::{digest_hex, md5_hex_of};
use crate::payload::{FileInfo, Status, TransferError};
use crate::store::{flatten, MAX_CHUNK};

verus! {

/// What an uploader keeps on disk for one source path: the session's secret
/// key, how many bytes of the source the server has acknowledged, and the
/// offset of the newest acknowledged chunk.
pub struct UploadProgress {
    pub secret_key: String,
    pub path: String,
    pub file_offset: u64,
    pub curr_offset: i64,
}

/// Where an upload starts: a new session, or the old one from a byte
/// position of the source and an offset.
#[derive(Clone, Copy, Debug, PartialEq, Eq, Structural)]
pub enum UploadStart {
    Fresh,
    Resume { file_offset: u64, curr_offset: i64 },
}

/// The resume point, from what the server reports as its newest part: the
/// server is the authority, whatever was recorded locally. An upload sends
/// full chunks until the last, so a session whose newest part is part `n`
/// of `size` bytes holds `(n - 1)` full chunks and then `size` bytes: resume
/// right after them, at offset `n`. A reply that no open session gives (no
/// part, a size beyond the cap, a position beyond 64 bits) starts afresh.
pub open spec fn resume_start(server_offset: Option<i64>, server_size: Option<i64>) -> UploadStart {
    match (server_offset, server_size) {
        (Some(n), Some(size)) => if 1 <= n && 0 <= size <= MAX_CHUNK && (n - 1) * MAX_CHUNK
            + size <= u64::MAX {
            UploadStart::Resume {
                file_offset: ((n - 1) * MAX_CHUNK + size) as u64,
                curr_offset: n,
            }
        } else {
            UploadStart::Fresh
        },
        _ => UploadStart::Fresh,
    }
}

/// Decides where an interrupted upload continues from the server's answer
/// to a status request for the saved session: "not found" starts afresh,
/// a status resumes where the server's parts end.
pub fn plan_resume(server: &Result<Status, TransferError>) -> (r: UploadStart)
    ensures
        match server {
            Ok(st) => r == resume_start(st.offset, st.file_size),
            Err(_) => r == UploadStart::Fresh,
        },
{
    let st = match server {
        Ok(st) => st,
        Err(_) => {
            return UploadStart::Fresh;
        },
    };
    match (st.offset, st.file_size) {
        (Some(n), Some(size)) => {
            if n < 1 || size < 0 || size > MAX_CHUNK as i64 {
                return UploadStart::Fresh;
            }
            let full = match ((n - 1) as u64).checked_mul(MAX_CHUNK as u64) {
                Some(x) => x,
                None => {
                    return UploadStart::Fresh;
                },
            };
            match full.checked_add(size as u64) {
                Some(pos) => UploadStart::Resume { file_offset: pos, curr_offset: n },
                None => UploadStart::Fresh,
            }
        },
        _ => UploadStart::Fresh,
    }
}

impl UploadProgress {
    /// Records that the server acknowledged a chunk of `chunk_len` bytes at
    /// `offset`.
    pub fn record_ack(&mut self, chunk_len: u64, offset: i64)
        requires
            old(self).file_offset + chunk_len <= u64::MAX,
        ensures
            final(self).secret_key == old(self).secret_key,
            final(self).path == old(self).path,
            final(self).file_offset == old(self).file_offset + chunk_len,
            final(self).curr_offset == offset,
    {
        self.file_offset = self.file_offset + chunk_len;
        self.curr_offset = offset;
    }
}

proof fn lemma_full_chunks_len(chunks: Seq<Seq<u8>>)
    requires
        chunks.len() >= 1,
        forall|k: int| 0 <= k < chunks.len() - 1 ==> (#[trigger] chunks[k]).len() == MAX_CHUNK,
    ensures
        flatten(chunks).len() == (chunks.len() - 1) * MAX_CHUNK + chunks.last().len(),
    decreases chunks.len(),
{
    if chunks.len() > 1 {
        let a = chunks.drop_last();
        assert forall|k: int| 0 <= k < a.len() - 1 implies (#[trigger] a[k]).len() == MAX_CHUNK by {
            assert(a[k] == chunks[k]);
        }
        lemma_full_chunks_len(a);
        assert(a.last() == chunks[chunks.len() - 2]);
        assert(a.last().len() == MAX_CHUNK);
        assert(flatten(chunks) == flatten(a) + chunks.last());
        assert(flatten(chunks).len() == flatten(a).len() + chunks.last().len());
    } else {
        assert(chunks.drop_last().len() == 0);
        assert(flatten(chunks.drop_last()).len() == 0);
        assert(flatten(chunks) == flatten(chunks.drop_last()) + chunks.last());
    }
}

/// Resuming never sends an acknowledged byte again, however many
/// acknowledgements were lost before a crash: when the server holds the
/// first `n` chunks of an upload (full chunks, then one of at most the cap),
/// its status leads to the source position right after all of them, at
/// offset `n`, whatever the local record says.
pub proof fn lemma_resume_after_acknowledged_chunks(chunks: Seq<Seq<u8>>)
    requires
        1 <= chunks.len() <= i64::MAX,
        forall|k: int| 0 <= k < chunks.len() - 1 ==> (#[trigger] chunks[k]).len() == MAX_CHUNK,
        chunks.last().len() <= MAX_CHUNK,
        flatten(chunks).len() <= u64::MAX,
    ensures
        resume_start(Some(chunks.len() as i64), Some(chunks.last().len() as i64))
            == (UploadStart::Resume {
            file_offset: flatten(chunks).len() as u64,
            curr_offset: chunks.len() as i64,
        }),
{
    lemma_full_chunks_len(chunks);
}

/// The length of the chunk that starts at byte `pos` of a source of
/// `file_len` bytes: a full chunk, the shorter rest, or nothing at the end.
pub fn next_chunk_len(file_len: u64, pos: u64) -> (r: u64)
    ensures
        pos >= file_len ==> r == 0,
        pos < file_len ==> r == if file_len - pos < MAX_CHUNK {
            file_len - pos
        } else {
            MAX_CHUNK as int
        },
{
    if pos >= file_len {
        0
    } else if file_len - pos < MAX_CHUNK as u64 {
        file_len - pos
    } else {
        MAX_CHUNK as u64
    }
}

/// The byte sequences held by a list of chunks.
pub open spec fn chunk_views(chunks: Seq<Vec<u8>>) -> Seq<Seq<u8>> {
    chunks.map_values(|c: Vec<u8>| c@)
}

/// Splits a source into the chunks an upload sends: full chunks of the cap,
/// then a shorter rest if any; nothing for an empty source. Concatenated in
/// order they give the source back.
pub fn split_chunks(data: &Vec<u8>) -> (r: Vec<Vec<u8>>)
    ensures
        flatten(chunk_views(r@)) == data@,
        forall|k: int|
            0 <= k < r@.len() ==> 0 < (#[trigger] r@[k])@.len() <= MAX_CHUNK,
        forall|k: int| 0 <= k < r@.len() - 1 ==> (#[trigger] r@[k])@.len() == MAX_CHUNK,
{
    let mut chunks: Vec<Vec<u8>> = Vec::new();
    let mut pos: usize = 0;
    let len = data.len();
    assert(data@.take(0) =~= flatten(chunk_views(chunks@)));
    while pos < len
        invariant
            len == data@.len(),
            pos <= len,
            flatten(chunk_views(chunks@)) == data@.take(pos as int),
            forall|k: int| 0 <= k < chunks@.len() ==> 0 < (#[trigger] chunks@[k])@.len() <= MAX_CHUNK,
            forall|k: int|
                0 <= k < chunks@.len() && (k < chunks@.len() - 1 || pos < len)
                    ==> (#[trigger] chunks@[k])@.len() == MAX_CHUNK,
        decreases len - pos,
    {
        let end = if len - pos < MAX_CHUNK {
            len
        } else {
            pos + MAX_CHUNK
        };
        let mut chunk: Vec<u8> = Vec::new();
        let mut j: usize = pos;
        while j < end
            invariant
                pos <= j <= end <= len,
                len == data@.len(),
                chunk@ == data@.subrange(pos as int, j as int),
            decreases end - j,
        {
            chunk.push(data[j]);
            assert(chunk@ =~= data@.subrange(pos as int, j + 1));
            j = j + 1;
        }
        let ghost before = chunks@;
        chunks.push(chunk);
        proof {
            assert(chunk_views(chunks@).drop_last() =~= chunk_views(before));
            assert(data@.take(end as int) =~= data@.take(pos as int) + data@.subrange(
                pos as int,
                end as int,
            ));
        }
        pos = end;
        assert(pos < len ==> chunk@.len() == MAX_CHUNK);
    }
    assert(data@.take(len as int) =~= data@);
    chunks
}

/// What a downloader keeps on disk for one public identifier: the file's
/// part list, the destination, and how many parts are already written.
pub struct DownloadProgress {
    pub identifier: String,
    pub file: FileInfo,
    pub path: String,
    pub written: usize,
}

/// The index of the next part to fetch after `written` of `count` parts.
pub open spec fn next_index(written: int, count: int) -> Option<int> {
    if written < count {
        Some(written)
    } else {
        None
    }
}

impl DownloadProgress {
    /// Progress of a download that has written nothing yet.
    pub fn new(identifier: String, file: FileInfo, path: String) -> (r: DownloadProgress)
        ensures
            r.identifier == identifier,
            r.file == file,
            r.path == path,
            r.written == 0,
    {
        DownloadProgress { identifier, file, path, written: 0 }
    }

    /// The index of the next part to fetch, `None` once all are written.
    pub fn next_part(&self) -> (r: Option<usize>)
        ensures
            r matches Some(k) ==> next_index(self.written as int, self.file.parts@.len() as int)
                == Some(k as int),
            r is None ==> next_index(self.written as int, self.file.parts@.len() as int) is None,
    {
        if self.written < self.file.parts.len() {
            Some(self.written)
        } else {
            None
        }
    }

    /// Checks the bytes fetched for the next part against its recorded
    /// digest and, when they match, counts the part as written. A mismatch
    /// is an `IntegrityViolation` and changes nothing.
    pub fn accept_part(&mut self, bytes: &[u8]) -> (r: Result<(), TransferError>)
        requires
            old(self).written < old(self).file.parts@.len(),
        ensures
            final(self).identifier == old(self).identifier,
            final(self).file == old(self).file,
            final(self).path == old(self).path,
            r is Ok <==> md5_hex_of(bytes@) == old(self).file.parts@[old(self).written as int].hash@,
            r is Ok ==> final(self).written == old(self).written + 1,
            r is Err ==> r == Err::<(), TransferError>(TransferError::IntegrityViolation)
                && final(self).written == old(self).written,
    {
        let count = self.file.parts.len();
        assert(self.written < count);
        let computed = digest_hex(bytes);
        if computed != self.file.parts[self.written].hash {
            return Err(TransferError::IntegrityViolation);
        }
        self.written = self.written + 1;
        Ok(())
    }

    /// Whether a destination of `len` bytes holds the whole file: every part
    /// written and the length equal to the file's size.
    pub fn is_complete(&self, len: u64) -> (r: bool)
        ensures
            r == (self.written >= self.file.parts@.len() && self.file.file.file_size == Some(
                len as i64,
            ) && len <= i64::MAX),
    {
        if self.written < self.file.parts.len() || len > i64::MAX as u64 {
            return false;
        }
        match self.file.file.file_size {
            Some(size) => size == len as i64,
            None => false,
        }
    }
}

/// A download resumed after `n` of `m` parts were written asks next for part
/// `n` (0-based), never one of the first `n`; and each part accepted moves it
/// on by exactly one.
pub proof fn lemma_download_resumes_after_written(n: int, m: int)
    requires
        0 <= n < m,
    ensures
        next_index(n, m) == Some(n),
        next_index(n + 1, m) == if n + 1 < m {
            Some(n + 1)
        } else {
            None::<int>
        },
{
}

} // verus!
