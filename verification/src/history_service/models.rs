//! The records the history store holds.

use vstd::prelude::*;

verus! {

/// One hash seen for a path, with the time it was backed up.
pub struct CacheEntryModel {
    pub hsh: String,
    pub backup_ts: i64,
}

/// One stored version of a file's content.  A missing `hsh` marks a
/// tombstone: the file group is considered deleted as of `backup_ts`.
/// Timestamps are microseconds since the Unix epoch.
#[derive(Clone, Debug)]
pub struct FileModel {
    pub version: i64,
    pub id: i64,
    pub file_name: String,
    pub backup_ts: i64,
    pub hsh: Option<String>,
}

/// The mathematical mirror of a `FileModel`.
pub ghost struct FileRec {
    pub version: int,
    pub id: int,
    pub file_name: Seq<char>,
    pub backup_ts: int,
    pub hsh: Option<Seq<char>>,
}

impl View for FileModel {
    type V = FileRec;

    open spec fn view(&self) -> FileRec {
        FileRec {
            version: self.version as int,
            id: self.id as int,
            file_name: self.file_name@,
            backup_ts: self.backup_ts as int,
            hsh: match self.hsh {
                Some(h) => Some(h@),
                None => None,
            },
        }
    }
}

/// One node of the directory tree.  A missing `parent_dir_id` marks a root.
pub struct DirModel {
    pub id: i64,
    pub parent_dir_id: Option<i64>,
    pub dir_name: String,
}

/// The mathematical mirror of a `DirModel`.
pub ghost struct DirRec {
    pub id: int,
    pub parent_dir_id: Option<int>,
    pub dir_name: Seq<char>,
}

impl View for DirModel {
    type V = DirRec;

    open spec fn view(&self) -> DirRec {
        DirRec {
            id: self.id as int,
            parent_dir_id: match self.parent_dir_id {
                Some(p) => Some(p as int),
                None => None,
            },
            dir_name: self.dir_name@,
        }
    }
}

} // verus!
