use chunkdrop::{
    digest_matches, expiry_deadline, next_chunk_len, parse_duration, plan_resume, split_chunks,
    DownloadProgress, FileInfo, PartStore, Status, SubmitPayload, TransferError, UploadProgress,
    UploadStart, MAX_CHUNK,
};

const NOW: i64 = 1_700_000_000;

fn hex(bytes: &[u8]) -> String {
    format!("{:x}", md5::compute(bytes))
}

fn payload(expire: &str, name: &str, max_download: Option<usize>) -> SubmitPayload {
    SubmitPayload::from_request(NOW, expire, name.to_string(), max_download).unwrap()
}

fn published_with(chunks: &[Vec<u8>], expire: &str) -> (PartStore, String, String) {
    let mut store = PartStore::new();
    let (key, _) = store.open_session(NOW).unwrap();
    for (i, c) in chunks.iter().enumerate() {
        let offset = store.accept_chunk(&key, i as u64 + 1, &hex(c), c.clone()).unwrap();
        assert_eq!(offset, i as u64 + 1);
    }
    let resp = store.finalize(&key, &payload(expire, "data.bin", None)).unwrap();
    (store, key, resp.identifier.unwrap())
}

#[test]
fn ten_byte_upload_is_published_and_readable() {
    let bytes: Vec<u8> = (0u8..10).collect();
    let mut store = PartStore::new();
    let (key, expires_at) = store.open_session(NOW).unwrap();
    assert_eq!(key.len(), 36);
    assert_eq!(expires_at, NOW + 86400);
    assert_eq!(store.accept_chunk(&key, 1, &hex(&bytes), bytes.clone()), Ok(1));
    let resp = store.finalize(&key, &payload("1h", "ten.bin", Some(5))).unwrap();
    let id = resp.identifier.unwrap();
    assert_eq!(id.len(), 8);
    assert_eq!(resp.expired_at, Some(NOW + 3600));
    let info = store.get_file_info(&id, NOW).unwrap();
    assert_eq!(info.parts.len(), 1);
    assert_eq!(info.parts[0].file_size, 10);
    assert_eq!(info.parts[0].offset, 1);
    assert_eq!(info.parts[0].hash, hex(&bytes));
    assert_eq!(info.file.file_size, Some(10));
    assert_eq!(info.file.name, Some("ten.bin".to_string()));
    assert_eq!(info.file.expired_at, Some(NOW + 3600));
    assert_eq!(store.fetch_part(&info.parts[0].identifier), Ok(bytes));
    assert_eq!(store.files[0].max_downloads, 5);
}

#[test]
fn oversized_chunk_is_refused_and_nothing_stored() {
    let mut store = PartStore::new();
    let (key, _) = store.open_session(NOW).unwrap();
    let big = vec![7u8; 5 * 1024 * 1024];
    let digest = hex(&big);
    assert_eq!(store.accept_chunk(&key, 1, &digest, big), Err(TransferError::PayloadTooLarge));
    assert_eq!(store.files[0].parts.len(), 0);
    assert!(matches!(store.get_status(&key), Err(TransferError::NotFound)));
}

#[test]
fn chunk_of_exactly_the_cap_is_accepted() {
    let mut store = PartStore::new();
    let (key, _) = store.open_session(NOW).unwrap();
    let full = vec![1u8; MAX_CHUNK];
    assert_eq!(store.accept_chunk(&key, 1, &hex(&full), full), Ok(1));
}

#[test]
fn delete_unknown_then_known_secret_key() {
    let (mut store, key, id) = published_with(&[b"hello".to_vec()], "1d");
    assert_eq!(store.delete_file(&"no-such-key".to_string()), Err(TransferError::NotFound));
    assert!(store.get_file_info(&id, NOW).is_ok());
    assert_eq!(store.delete_file(&key), Ok(()));
    assert!(matches!(store.get_file_info(&id, NOW), Err(TransferError::NotFound)));
    assert_eq!(store.files.len(), 0);
}

#[test]
fn wrong_digest_is_refused_and_nothing_stored() {
    let mut store = PartStore::new();
    let (key, _) = store.open_session(NOW).unwrap();
    let bytes = b"abc".to_vec();
    let wrong = hex(b"abd");
    assert_eq!(store.accept_chunk(&key, 1, &wrong, bytes), Err(TransferError::IntegrityViolation));
    assert_eq!(store.files[0].parts.len(), 0);
    assert!(matches!(store.get_status(&key), Err(TransferError::NotFound)));
}

#[test]
fn offsets_ignore_the_claimed_hint() {
    let mut store = PartStore::new();
    let (key, _) = store.open_session(NOW).unwrap();
    let a = b"first".to_vec();
    let b = b"second".to_vec();
    let c = b"third".to_vec();
    assert_eq!(store.accept_chunk(&key, 7, &hex(&a), a), Ok(1));
    assert_eq!(store.accept_chunk(&key, 0, &hex(&b), b), Ok(2));
    assert_eq!(store.accept_chunk(&key, 99, &hex(&c), c), Ok(3));
    let offsets: Vec<u64> = store.files[0].parts.iter().map(|p| p.offset).collect();
    assert_eq!(offsets, vec![1, 2, 3]);
}

#[test]
fn retry_of_newest_chunk_stores_nothing() {
    let mut store = PartStore::new();
    let (key, _) = store.open_session(NOW).unwrap();
    let a = b"chunk".to_vec();
    assert_eq!(store.accept_chunk(&key, 1, &hex(&a), a.clone()), Ok(1));
    assert_eq!(store.accept_chunk(&key, 1, &hex(&a), a.clone()), Ok(1));
    assert_eq!(store.files[0].parts.len(), 1);
    // The same bytes sent as the next chunk are a new part.
    assert_eq!(store.accept_chunk(&key, 2, &hex(&a), a), Ok(2));
    assert_eq!(store.files[0].parts.len(), 2);
}

#[test]
fn status_reports_newest_part() {
    let mut store = PartStore::new();
    let (key, _) = store.open_session(NOW).unwrap();
    let a = vec![1u8; 4];
    let b = vec![2u8; 3];
    store.accept_chunk(&key, 1, &hex(&a), a).unwrap();
    store.accept_chunk(&key, 2, &hex(&b), b.clone()).unwrap();
    let st: Status = store.get_status(&key).unwrap();
    assert_eq!(st.offset, Some(2));
    assert_eq!(st.hash, Some(hex(&b)));
    assert_eq!(st.file_size, Some(3));
}

#[test]
fn closed_session_takes_no_more_chunks() {
    let (mut store, key, _) = published_with(&[b"x".to_vec()], "7d");
    let more = b"y".to_vec();
    assert_eq!(store.accept_chunk(&key, 2, &hex(&more), more), Err(TransferError::NotFound));
    assert!(matches!(store.get_status(&key), Err(TransferError::NotFound)));
    assert!(matches!(
        store.finalize(&key, &payload("1h", "again", None)),
        Err(TransferError::NotFound)
    ));
}

#[test]
fn unknown_session_is_not_found() {
    let mut store = PartStore::new();
    let a = b"a".to_vec();
    let key = "missing".to_string();
    assert_eq!(store.accept_chunk(&key, 1, &hex(&a), a), Err(TransferError::NotFound));
    assert!(matches!(
        store.finalize(&key, &payload("1h", "n", None)),
        Err(TransferError::NotFound)
    ));
}

#[test]
fn taken_tokens_are_storage_faults() {
    let mut store = PartStore::new();
    assert_eq!(store.open_session_with("k1".to_string(), NOW), Ok(()));
    assert_eq!(store.open_session_with("k1".to_string(), NOW), Err(TransferError::StorageFault));
    assert_eq!(store.open_session_with("k2".to_string(), NOW), Ok(()));
    let p = payload("1h", "n", None);
    assert!(store.finalize_with_identifier(&"k1".to_string(), &p, "pub1".to_string()).is_ok());
    assert!(matches!(
        store.finalize_with_identifier(&"k2".to_string(), &p, "pub1".to_string()),
        Err(TransferError::StorageFault)
    ));
    assert_eq!(store.files[1].identifier, None);
}

#[test]
fn default_quota_and_provisional_expiry() {
    let mut store = PartStore::new();
    store.open_session_with("k".to_string(), NOW).unwrap();
    assert_eq!(store.files[0].expires_at, NOW + 86400);
    store.open_session_with("late".to_string(), i64::MAX - 5).unwrap();
    assert_eq!(store.files[1].expires_at, i64::MAX);
    store.finalize_with_identifier(&"k".to_string(), &payload("1h", "n", None), "id".to_string()).unwrap();
    assert_eq!(store.files[0].max_downloads, 10000);
}

#[test]
fn sweep_removes_expired_files_and_parts() {
    let (mut store, _, id) = published_with(&[b"old".to_vec()], "1h");
    let part_id = store.get_file_info(&id, NOW).unwrap().parts[0].identifier.clone();
    store.open_session(NOW).unwrap();
    assert_eq!(store.collect_expired(NOW + 3599), 0);
    assert!(store.get_file_info(&id, NOW + 3599).is_ok());
    // The provisional session (24h) outlives the published one (1h).
    assert_eq!(store.collect_expired(NOW + 3600), 1);
    assert_eq!(store.files.len(), 1);
    assert!(matches!(store.get_file_info(&id, NOW + 3600), Err(TransferError::NotFound)));
    assert_eq!(store.fetch_part(&part_id), Err(TransferError::NotFound));
}

#[test]
fn expired_file_is_hidden_before_the_sweep() {
    let (store, _, id) = published_with(&[b"old".to_vec()], "1h");
    assert!(matches!(store.get_file_info(&id, NOW + 3600), Err(TransferError::NotFound)));
}

#[test]
fn upload_then_download_round_trip() {
    let data: Vec<u8> = (0..(2 * MAX_CHUNK + 5)).map(|i| (i % 251) as u8).collect();
    let chunks = split_chunks(&data);
    assert_eq!(chunks.len(), 3);
    assert_eq!(chunks[0].len(), MAX_CHUNK);
    assert_eq!(chunks[2].len(), 5);
    let (store, _, id) = published_with(&chunks, "7d");
    let info: FileInfo = store.get_file_info(&id, NOW).unwrap();
    assert_eq!(info.file.file_size, Some(data.len() as i64));
    let mut progress = DownloadProgress::new(id, info, "out".to_string());
    let mut out = Vec::new();
    while let Some(k) = progress.next_part() {
        let bytes = store.fetch_part(&progress.file.parts[k].identifier).unwrap();
        progress.accept_part(&bytes).unwrap();
        out.extend_from_slice(&bytes);
    }
    assert!(progress.is_complete(out.len() as u64));
    assert_eq!(out, data);
}

#[test]
fn split_of_empty_source_is_empty() {
    assert!(split_chunks(&Vec::new()).is_empty());
    let one = split_chunks(&vec![9u8; MAX_CHUNK]);
    assert_eq!(one.len(), 1);
}

#[test]
fn resume_after_unrecorded_acknowledgement() {
    // Saved progress said two chunks; the server acknowledged a third,
    // short one before the crash.
    let server = Ok(Status { offset: Some(3), hash: Some("h".to_string()), file_size: Some(100) });
    assert_eq!(
        plan_resume(&server),
        UploadStart::Resume { file_offset: 2 * MAX_CHUNK as u64 + 100, curr_offset: 3 }
    );
    let in_step = Ok(Status { offset: Some(2), hash: None, file_size: Some(4194304) });
    assert_eq!(
        plan_resume(&in_step),
        UploadStart::Resume { file_offset: 8 * 1024 * 1024, curr_offset: 2 }
    );
    let first = Ok(Status { offset: Some(1), hash: None, file_size: Some(1) });
    assert_eq!(plan_resume(&first), UploadStart::Resume { file_offset: 1, curr_offset: 1 });
    assert_eq!(plan_resume(&Err(TransferError::NotFound)), UploadStart::Fresh);
}

#[test]
fn resume_after_several_unrecorded_acknowledgements() {
    let server = Ok(Status { offset: Some(5), hash: None, file_size: Some(MAX_CHUNK as i64) });
    assert_eq!(
        plan_resume(&server),
        UploadStart::Resume { file_offset: 5 * MAX_CHUNK as u64, curr_offset: 5 }
    );
}

#[test]
fn resume_through_the_store_status() {
    let data: Vec<u8> = (0..(MAX_CHUNK + 7)).map(|i| (i % 13) as u8).collect();
    let chunks = split_chunks(&data);
    let mut store = PartStore::new();
    let (key, _) = store.open_session(NOW).unwrap();
    for (i, c) in chunks.iter().enumerate() {
        store.accept_chunk(&key, i as u64 + 1, &hex(c), c.clone()).unwrap();
    }
    assert_eq!(
        plan_resume(&store.get_status(&key)),
        UploadStart::Resume { file_offset: data.len() as u64, curr_offset: 2 }
    );
}

#[test]
fn impossible_status_starts_afresh() {
    let none = Ok(Status { offset: Some(0), hash: None, file_size: Some(0) });
    assert_eq!(plan_resume(&none), UploadStart::Fresh);
    let too_big = Ok(Status { offset: Some(1), hash: None, file_size: Some(MAX_CHUNK as i64 + 1) });
    assert_eq!(plan_resume(&too_big), UploadStart::Fresh);
}

#[test]
fn record_ack_moves_progress() {
    let mut local = UploadProgress {
        secret_key: "k".to_string(),
        path: "p".to_string(),
        file_offset: 10,
        curr_offset: 1,
    };
    local.record_ack(5, 2);
    assert_eq!(local.file_offset, 15);
    assert_eq!(local.curr_offset, 2);
}

#[test]
fn download_resumes_at_next_unwritten_part() {
    let (store, _, id) = published_with(&[b"aa".to_vec(), b"bb".to_vec(), b"cc".to_vec()], "7d");
    let info = store.get_file_info(&id, NOW).unwrap();
    let mut progress = DownloadProgress::new(id, info, "out".to_string());
    progress.written = 2;
    assert_eq!(progress.next_part(), Some(2));
    let bytes = store.fetch_part(&progress.file.parts[2].identifier).unwrap();
    assert_eq!(bytes, b"cc".to_vec());
    assert_eq!(progress.accept_part(&bytes), Ok(()));
    assert_eq!(progress.next_part(), None);
    assert!(progress.is_complete(6));
    assert!(!progress.is_complete(5));
}

#[test]
fn tampered_part_is_refused() {
    let (store, _, id) = published_with(&[b"aa".to_vec()], "7d");
    let info = store.get_file_info(&id, NOW).unwrap();
    let mut progress = DownloadProgress::new(id, info, "out".to_string());
    assert_eq!(progress.accept_part(b"ab"), Err(TransferError::IntegrityViolation));
    assert_eq!(progress.written, 0);
}

#[test]
fn durations_parse() {
    assert_eq!(parse_duration("90s"), Some(90));
    assert_eq!(parse_duration("1d12h"), Some(129600));
    assert_eq!(parse_duration("2m"), Some(120));
    assert_eq!(parse_duration("2M"), Some(5356800));
    assert_eq!(parse_duration("7d"), Some(604800));
    assert_eq!(parse_duration(""), None);
    assert_eq!(parse_duration("5"), None);
    assert_eq!(parse_duration("3x4s"), None);
    assert_eq!(parse_duration("s"), None);
    assert_eq!(parse_duration("1h5"), None);
    assert_eq!(parse_duration("1hm"), None);
    assert_eq!(parse_duration("99999999999999999999s"), None);
    assert_eq!(expiry_deadline(100, "1m"), Some(160));
    assert_eq!(expiry_deadline(i64::MAX - 10, "11s"), None);
}

#[test]
fn digests_are_checked() {
    assert_eq!(hex(b"abc"), "900150983cd24fb0d6963f7d28e17f72");
    assert!(digest_matches(b"abc", &"900150983cd24fb0d6963f7d28e17f72".to_string()));
    assert!(!digest_matches(b"abc", &"abc".to_string()));
    assert!(digest_matches(b"", &"d41d8cd98f00b204e9800998ecf8427e".to_string()));
}

#[test]
fn chunk_lengths() {
    assert_eq!(next_chunk_len(10, 0), 10);
    assert_eq!(next_chunk_len(10, 10), 0);
    assert_eq!(next_chunk_len(10 * 1024 * 1024, 0), MAX_CHUNK as u64);
    assert_eq!(next_chunk_len(10 * 1024 * 1024, 8 * 1024 * 1024), 2 * 1024 * 1024);
}
