//! A resumable, chunked file-transfer core: a content-checked part store with
//! sequential offsets, publication of finished uploads, expiry collection, and
//! the client-side decisions that resume interrupted uploads and downloads.

mod client;
mod digest;
mod expiry;
mod payload;
mod store;
mod token;

pub use client::{
    chunk_views, lemma_download_resumes_after_written, lemma_resume_after_acknowledged_chunks,
    next_chunk_len, next_index, plan_resume, resume_start, split_chunks, DownloadProgress,
    UploadProgress, UploadStart,
};
pub use digest::{digest, digest_matches, md5_hex_of};
pub use expiry::{
    duration_seconds, expiry_deadline, is_digit, is_unit, parse_duration, scan, scan_fits,
    tokens_ok, unit_seconds, well_formed,
};
pub use payload::{
    FileInfo, GetOneFileResponse, GetPartsResponse, Status, SubmitPayload, SubmitResponse,
    TransferError,
};
pub use store::{
    appended, content, file_ok, files_wf, flatten, holds_part, is_retry,
    lemma_append_extends_content, lemma_assigned_offset_follows_newest, lemma_flatten_concat,
    lemma_offsets_sequential, lemma_resumed_download_is_whole, lemma_round_trip,
    lemma_sweep_leaves_only_live, live, opened, part_ids_unique, part_ok, published, published_as,
    Part, PartStore, StoredFile, MAX_CHUNK, MAX_PARTS, PROVISIONAL_LIFETIME,
};
