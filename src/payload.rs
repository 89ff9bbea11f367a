use vstd::prelude::*;

verus! {

/// What an uploader asks for when it closes its session: the absolute expiry
/// time (seconds since the epoch), the published name and an optional quota.
pub struct SubmitPayload {
    pub expire: i64,
    pub name: String,
    pub max_download: Option<usize>,
}

/// The newest committed part of an open session.
pub struct Status {
    pub offset: Option<i64>,
    pub hash: Option<String>,
    pub file_size: Option<i64>,
}

/// The public reference produced when a session is closed.
pub struct SubmitResponse {
    pub identifier: Option<String>,
    pub expired_at: Option<i64>,
}

/// Summary of a published file.
pub struct GetOneFileResponse {
    pub file_size: Option<i64>,
    pub expired_at: Option<i64>,
    pub name: Option<String>,
}

/// One entry of a published file's ordered part list.
pub struct GetPartsResponse {
    pub file_size: i64,
    pub identifier: String,
    pub hash: String,
    pub offset: i64,
}

/// A published file together with its parts in offset order.
pub struct FileInfo {
    pub file: GetOneFileResponse,
    pub parts: Vec<GetPartsResponse>,
}

/// The ways a transfer operation can fail.
#[derive(Clone, Copy, Debug, PartialEq, Eq, Structural)]
pub enum TransferError {
    /// Unknown or closed capability, unknown part, or an expired file.
    NotFound,
    /// A digest did not match the bytes it was supplied with.
    IntegrityViolation,
    /// A chunk exceeds the per-chunk size cap.
    PayloadTooLarge,
    /// The store cannot take the record (a token already in use, a full session).
    StorageFault,
}

} // verus!
