use vstd::prelude::*;

verus! {

/// A file of a fetched manifest has been listed.
pub struct DownloadFileAdded {
    pub name: String,
    pub icon: String,
    pub size: u64,
}

/// A file's download has advanced: percent of its size (0 to 100) and bytes per second.
pub struct DownloadFileProgress {
    pub name: String,
    pub progress: u64,
    pub speed: u64,
}

/// A file has been written to its destination.
pub struct DownloadFileCompleted {
    pub name: String,
    pub path: String,
}

/// A file's download was stopped on request.
pub struct DownloadFileAborted {
    pub name: String,
    pub reason: String,
}

/// A file's download failed.
pub struct DownloadFileError {
    pub name: String,
    pub error: String,
}

/// A local file has been located by the transport and is being ingested.
pub struct UploadFileAdded {
    pub name: String,
    pub icon: String,
    pub path: String,
    pub size: u64,
}

/// Ingestion has advanced: percent of the file's size (0 to 100).
pub struct UploadFileProgress {
    pub path: String,
    pub progress: u64,
}

/// A published file has been withdrawn.
pub struct UploadFileRemoved {
    pub name: String,
}

/// A local file has been fully ingested.
pub struct UploadFileCompleted {
    pub name: String,
}

/// A local file could not be published or withdrawn.
pub struct UploadFileError {
    pub name: String,
    pub error: String,
}

} // verus!
