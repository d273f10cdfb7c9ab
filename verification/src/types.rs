use vstd::prelude::*;

verus! {

/// How a folder behaves over time.
#[derive(Debug, Clone, Copy, PartialEq, Eq, Structural)]
pub enum ChurnClass {
    Cold,
    Hot,
    Volatile,
}

/// How well a folder's contents would compress.
#[derive(Debug, Clone, Copy, PartialEq, Eq, Structural)]
pub enum EntropyClass {
    Compressible,
    Mixed,
    Dense,
}

/// One file found by a scan.
#[derive(Debug)]
pub struct FileNode {
    pub path: String,
    pub size_bytes: u64,
    /// Last modification, in whole seconds since the Unix epoch.
    pub modified: u64,
}

/// What the classifier reads of a file: its path, size and modification second.
pub struct FileView {
    pub path: Seq<char>,
    pub size_bytes: u64,
    pub modified: u64,
}

impl View for FileNode {
    type V = FileView;

    open spec fn view(&self) -> FileView {
        FileView { path: self.path@, size_bytes: self.size_bytes, modified: self.modified }
    }
}

impl Clone for FileNode {
    fn clone(&self) -> (out: Self)
        ensures
            out@ == self@,
    {
        FileNode { path: self.path.clone(), size_bytes: self.size_bytes, modified: self.modified }
    }
}

/// Aggregate numbers and classes of one folder.
#[derive(Debug)]
pub struct FolderStats {
    pub path: String,
    pub total_size: u64,
    pub file_count: u64,
    pub churn: ChurnClass,
    pub entropy_class: EntropyClass,
}

pub struct FolderView {
    pub path: Seq<char>,
    pub total_size: u64,
    pub file_count: u64,
    pub churn: ChurnClass,
    pub entropy_class: EntropyClass,
}

impl View for FolderStats {
    type V = FolderView;

    open spec fn view(&self) -> FolderView {
        FolderView {
            path: self.path@,
            total_size: self.total_size,
            file_count: self.file_count,
            churn: self.churn,
            entropy_class: self.entropy_class,
        }
    }
}

impl Clone for FolderStats {
    fn clone(&self) -> (out: Self)
        ensures
            out@ == self@,
    {
        FolderStats {
            path: self.path.clone(),
            total_size: self.total_size,
            file_count: self.file_count,
            churn: self.churn,
            entropy_class: self.entropy_class,
        }
    }
}

/// The views of a sequence of files.
pub open spec fn files_view(files: Seq<FileNode>) -> Seq<FileView> {
    files.map_values(|f: FileNode| f@)
}

/// The views of a sequence of folders.
pub open spec fn folders_view(folders: Seq<FolderStats>) -> Seq<FolderView> {
    folders.map_values(|f: FolderStats| f@)
}

/// Full point-in-time picture of a scan.
#[derive(Debug)]
pub struct DiskSnapshot {
    pub drive: String,
    pub total_bytes: u64,
    pub free_bytes: u64,
    pub files: Vec<FileNode>,
    pub folders: Vec<FolderStats>,
    pub scan_complete: bool,
    pub files_scanned: u64,
}

impl Default for DiskSnapshot {
    fn default() -> (out: Self)
        ensures
            out.drive@ == Seq::<char>::empty(),
            out.total_bytes == 0,
            out.free_bytes == 0,
            out.files@.len() == 0,
            out.folders@.len() == 0,
            !out.scan_complete,
            out.files_scanned == 0,
    {
        DiskSnapshot {
            drive: String::new(),
            total_bytes: 0,
            free_bytes: 0,
            files: Vec::new(),
            folders: Vec::new(),
            scan_complete: false,
            files_scanned: 0,
        }
    }
}

} // verus!
