//! The download-level data model: one record per user-visible transfer, and
//! one per sub-range of it, as the download store family keeps them.

use vstd::prelude::*;

verus! {

/// The identifier of a whole download.
pub type DownloadId = u64;

/// The identifier of one sub-download of a download.
pub type SubDownloadId = u64;

/// Mathematical view of a download record.
#[verifier::ext_equal]
pub struct DownloadModel {
    pub id: int,
    pub uri: Seq<char>,
    pub progress_bits: u64,
    pub path: Seq<char>,
}

/// A model of a download.
#[derive(Debug, Clone, PartialEq)]
pub struct Download {
    /// The ID of the download.
    pub id: DownloadId,
    /// URI of the request; the scheme should be HTTP(S) but is not checked here.
    pub uri: String,
    /// The total progress of the download, carried as the raw bits of the
    /// embedder's floating-point fraction; the store never reads it.
    pub progress_bits: u64,
    /// The path to the file.
    pub path: String,
}

impl View for Download {
    type V = DownloadModel;

    open spec fn view(&self) -> DownloadModel {
        DownloadModel {
            id: self.id as int,
            uri: self.uri@,
            progress_bits: self.progress_bits,
            path: self.path@,
        }
    }
}

impl DeepView for Download {
    type V = DownloadModel;

    open spec fn deep_view(&self) -> DownloadModel {
        self@
    }
}

impl Download {
    /// Create a new download.
    pub fn new(id: DownloadId, uri: String, progress_bits: u64, path: String) -> (r: Download)
        ensures
            r@ == (DownloadModel { id: id as int, uri: uri@, progress_bits, path: path@ }),
    {
        Download { id, uri, progress_bits, path }
    }

    /// Copy this record, field for field.
    pub fn duplicate(&self) -> (r: Download)
        ensures
            r@ == self@,
    {
        Download {
            id: self.id,
            uri: self.uri.clone(),
            progress_bits: self.progress_bits,
            path: self.path.clone(),
        }
    }
}

/// Mathematical view of a sub-download record.
#[verifier::ext_equal]
pub struct SubDownloadModel {
    pub id: int,
    pub parent_id: int,
    pub offset: int,
    pub uri: Seq<char>,
    pub progress_bits: u64,
}

/// A model of a sub segment of a download.
#[derive(Debug, Clone, PartialEq)]
pub struct SubDownload {
    /// The ID of the sub download.
    pub id: SubDownloadId,
    /// The ID of the parent that represents the entire download.
    pub parent_id: DownloadId,
    /// Where the file should be seeked to before new data is written; moves
    /// after each write.
    pub offset: usize,
    /// The URI of the sub request; in practice it carries the range header.
    pub uri: String,
    /// The progress of this sub download, carried as raw floating-point bits.
    pub progress_bits: u64,
}

impl View for SubDownload {
    type V = SubDownloadModel;

    open spec fn view(&self) -> SubDownloadModel {
        SubDownloadModel {
            id: self.id as int,
            parent_id: self.parent_id as int,
            offset: self.offset as int,
            uri: self.uri@,
            progress_bits: self.progress_bits,
        }
    }
}

impl DeepView for SubDownload {
    type V = SubDownloadModel;

    open spec fn deep_view(&self) -> SubDownloadModel {
        self@
    }
}

impl SubDownload {
    /// Create a new sub download.
    pub fn new(
        id: SubDownloadId,
        parent_id: DownloadId,
        offset: usize,
        uri: String,
        progress_bits: u64,
    ) -> (r: SubDownload)
        ensures
            r@ == (SubDownloadModel {
                id: id as int,
                parent_id: parent_id as int,
                offset: offset as int,
                uri: uri@,
                progress_bits,
            }),
    {
        SubDownload { id, parent_id, offset, uri, progress_bits }
    }

    /// Copy this record, field for field.
    pub fn duplicate(&self) -> (r: SubDownload)
        ensures
            r@ == self@,
    {
        SubDownload {
            id: self.id,
            parent_id: self.parent_id,
            offset: self.offset,
            uri: self.uri.clone(),
            progress_bits: self.progress_bits,
        }
    }
}

} // verus!
