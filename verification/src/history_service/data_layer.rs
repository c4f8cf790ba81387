//! The interface of the history store, and its in-memory implementation.

use vstd::prelude::*;

use super::models::{DirModel, DirRec, FileModel, FileRec};
use crate::data_layer_error::DataLayerError;
use crate::collections::str_eq_str;

verus! {

/// The record version number written with every new file entry.
pub const VERSION: i64 = 1;

/// One file version as the store keeps it, with the directory it belongs to.
pub ghost struct StoredFile {
    pub dir_id: int,
    pub version: int,
    pub id: int,
    pub file_name: Seq<char>,
    pub backup_ts: int,
    pub hsh: Option<Seq<char>>,
}

/// Everything a history store holds.
pub ghost struct StoreModel {
    pub dirs: Seq<DirRec>,
    pub files: Seq<StoredFile>,
}

/// The record of a stored file, without its directory.
pub open spec fn to_rec(sf: StoredFile) -> FileRec {
    FileRec {
        version: sf.version,
        id: sf.id,
        file_name: sf.file_name,
        backup_ts: sf.backup_ts,
        hsh: sf.hsh,
    }
}

/// Whether a stored file belongs to the `(dir_id, file_name)` group.
pub open spec fn in_group(sf: StoredFile, dir_id: int, file_name: Seq<char>) -> bool {
    sf.dir_id == dir_id && sf.file_name == file_name
}

/// The largest file id the store holds, or 0 if it holds none.
pub open spec fn max_file_id(files: Seq<StoredFile>) -> int
    decreases files.len(),
{
    if files.len() == 0 {
        0
    } else {
        let m = max_file_id(files.drop_last());
        if files.last().id > m {
            files.last().id
        } else {
            m
        }
    }
}

/// The records of a `(dir_id, file_name)` group, in store order.
pub open spec fn group_files(files: Seq<StoredFile>, dir_id: int, file_name: Seq<char>) -> Seq<
    FileRec,
>
    decreases files.len(),
{
    if files.len() == 0 {
        Seq::empty()
    } else {
        group_files(files.drop_last(), dir_id, file_name) + (if in_group(
            files.last(),
            dir_id,
            file_name,
        ) {
            seq![to_rec(files.last())]
        } else {
            Seq::empty()
        })
    }
}

/// Whether some dir of the list carries the `(parent, name)` pair.
pub open spec fn has_child(dirs: Seq<DirRec>, parent: Option<int>, name: Seq<char>) -> bool {
    exists|k: int|
        0 <= k < dirs.len() && dirs[k].parent_dir_id == parent && dirs[k].dir_name == name
}

/// The id of the dir carrying the `(parent, name)` pair, if any.  Under
/// `dirs_wf` at most one dir carries it, so the value is determined.
pub open spec fn child_of(dirs: Seq<DirRec>, parent: Option<int>, name: Seq<char>) -> Option<
    int,
> {
    if has_child(dirs, parent, name) {
        let k = choose|k: int|
            0 <= k < dirs.len() && dirs[k].parent_dir_id == parent && dirs[k].dir_name == name;
        Some(dirs[k].id)
    } else {
        None
    }
}

/// Dir ids are distinct, and so are `(parent, name)` pairs: the tree has no
/// twin nodes.
pub open spec fn dirs_wf(dirs: Seq<DirRec>) -> bool {
    forall|i: int, j: int|
        0 <= i < j < dirs.len() ==> dirs[i].id != dirs[j].id && !(dirs[i].parent_dir_id
            == dirs[j].parent_dir_id && dirs[i].dir_name == dirs[j].dir_name)
}

/// File ids are distinct.
pub open spec fn file_ids_distinct(files: Seq<StoredFile>) -> bool {
    forall|i: int, j: int| 0 <= i < j < files.len() ==> files[i].id != files[j].id
}

/// The id reached by walking `segs` from `cur` down the tree.
pub open spec fn lookup_path_from(dirs: Seq<DirRec>, cur: int, segs: Seq<Seq<char>>) -> Option<
    int,
>
    decreases segs.len(),
{
    if segs.len() == 0 {
        Some(cur)
    } else {
        match child_of(dirs, Some(cur), segs[0]) {
            Some(d) => lookup_path_from(dirs, d, segs.drop_first()),
            None => None,
        }
    }
}

/// The id reached by walking `segs` from the roots of the tree: the first
/// segment names a root, the rest descend.
pub open spec fn lookup_path(dirs: Seq<DirRec>, segs: Seq<Seq<char>>) -> Option<int> {
    if segs.len() == 0 {
        None
    } else {
        match child_of(dirs, None, segs[0]) {
            Some(root) => lookup_path_from(dirs, root, segs.drop_first()),
            None => None,
        }
    }
}

/// Every record of the `(dir_id, file_name)` group was written strictly
/// before `ts`.
pub open spec fn group_stale(
    files: Seq<StoredFile>,
    dir_id: int,
    file_name: Seq<char>,
    ts: int,
) -> bool {
    forall|j: int|
        0 <= j < files.len() && in_group(#[trigger] files[j], dir_id, file_name)
            ==> files[j].backup_ts < ts
}

/// The group holds at least one record.
pub open spec fn group_exists(files: Seq<StoredFile>, dir_id: int, file_name: Seq<char>) -> bool {
    exists|j: int| 0 <= j < files.len() && in_group(#[trigger] files[j], dir_id, file_name)
}


/// The position of the record the store reports as the newest of the
/// `(dir_id, file_name)` group: the earliest record that no later record
/// of the group outdates.  Meaningful only where the group holds a record.
pub open spec fn latest_index(files: Seq<StoredFile>, dir_id: int, file_name: Seq<char>) -> int
    decreases files.len(),
{
    if files.len() == 0 {
        0
    } else {
        let r = latest_index(files.drop_last(), dir_id, file_name);
        if in_group(files.last(), dir_id, file_name) && (!group_exists(
            files.drop_last(),
            dir_id,
            file_name,
        ) || files.last().backup_ts > files[r].backup_ts) {
            files.len() - 1
        } else {
            r
        }
    }
}

/// The group's newest record carries exactly the given hash.
pub open spec fn latest_matches(
    files: Seq<StoredFile>,
    dir_id: int,
    file_name: Seq<char>,
    hsh: Seq<char>,
) -> bool {
    &&& group_exists(files, dir_id, file_name)
    &&& files[latest_index(files, dir_id, file_name)].hsh == Some(hsh)
}

/// Where the group holds a record, `latest_index` points at a member of
/// the group that no member outdates.
pub proof fn lemma_latest_index_props(files: Seq<StoredFile>, dir_id: int, file_name: Seq<char>)
    requires
        group_exists(files, dir_id, file_name),
    ensures
        0 <= latest_index(files, dir_id, file_name) < files.len(),
        in_group(files[latest_index(files, dir_id, file_name)], dir_id, file_name),
        forall|l: int|
            0 <= l < files.len() && in_group(#[trigger] files[l], dir_id, file_name)
                ==> files[l].backup_ts <= files[latest_index(files, dir_id, file_name)].backup_ts,
    decreases files.len(),
{
    let dl = files.drop_last();
    let li = latest_index(files, dir_id, file_name);
    if group_exists(dl, dir_id, file_name) {
        lemma_latest_index_props(dl, dir_id, file_name);
        assert(files[latest_index(dl, dir_id, file_name)] == dl[latest_index(
            dl,
            dir_id,
            file_name,
        )]);
        assert forall|l: int|
            0 <= l < files.len() && in_group(#[trigger] files[l], dir_id, file_name) implies files[l].backup_ts
            <= files[li].backup_ts by {
            if l < files.len() - 1 {
                assert(files[l] == dl[l]);
            }
        }
    } else {
        assert forall|l: int|
            0 <= l < files.len() && in_group(#[trigger] files[l], dir_id, file_name) implies l
            == files.len() - 1 by {
            if l < files.len() - 1 {
                assert(dl[l] == files[l]);
            }
        }
        let w = choose|j: int|
            0 <= j < files.len() && in_group(#[trigger] files[j], dir_id, file_name);
        assert(w == files.len() - 1);
    }
}

/// Appending a node keeps the rest of the tree as it was.
pub proof fn lemma_dirs_wf_shrink(dirs: Seq<DirRec>, d: DirRec)
    requires
        dirs_wf(dirs.push(d)),
    ensures
        dirs_wf(dirs),
{
    let ds2 = dirs.push(d);
    assert forall|i: int, j: int|
        0 <= i < j < dirs.len() implies dirs[i].id != dirs[j].id && !(dirs[i].parent_dir_id
        == dirs[j].parent_dir_id && dirs[i].dir_name == dirs[j].dir_name) by {
        assert(dirs[i] == ds2[i] && dirs[j] == ds2[j]);
    }
}

/// The lookup of a `(parent, name)` pair that node `j` carries finds that
/// node's id: the tree has no twin pairs.
pub proof fn lemma_child_of_found(dirs: Seq<DirRec>, j: int, parent: Option<int>, name: Seq<char>)
    requires
        dirs_wf(dirs),
        0 <= j < dirs.len(),
        dirs[j].parent_dir_id == parent,
        dirs[j].dir_name == name,
    ensures
        child_of(dirs, parent, name) == Some(dirs[j].id),
{
    assert(has_child(dirs, parent, name));
    let k = choose|k: int|
        0 <= k < dirs.len() && dirs[k].parent_dir_id == parent && dirs[k].dir_name == name;
    if k != j {
        let a = if k < j {
            k
        } else {
            j
        };
        let b = if k < j {
            j
        } else {
            k
        };
        assert(!(dirs[a].parent_dir_id == dirs[b].parent_dir_id && dirs[a].dir_name
            == dirs[b].dir_name));
    }
}

/// Appending a node changes lookups only at the node's own `(parent, name)`
/// pair.
pub proof fn lemma_child_of_push(dirs: Seq<DirRec>, d: DirRec, parent: Option<int>, name: Seq<char>)
    requires
        dirs_wf(dirs.push(d)),
    ensures
        child_of(dirs.push(d), parent, name) == (if d.parent_dir_id == parent && d.dir_name
            == name {
            Some(d.id)
        } else {
            child_of(dirs, parent, name)
        }),
{
    let ds2 = dirs.push(d);
    lemma_dirs_wf_shrink(dirs, d);
    if d.parent_dir_id == parent && d.dir_name == name {
        assert(ds2[ds2.len() - 1] == d);
        lemma_child_of_found(ds2, ds2.len() - 1, parent, name);
    } else {
        if has_child(dirs, parent, name) {
            let k = choose|k: int|
                0 <= k < dirs.len() && dirs[k].parent_dir_id == parent && dirs[k].dir_name == name;
            assert(ds2[k] == dirs[k]);
            lemma_child_of_found(ds2, k, parent, name);
            lemma_child_of_found(dirs, k, parent, name);
        } else {
            assert(!has_child(ds2, parent, name)) by {
                if has_child(ds2, parent, name) {
                    let k = choose|k: int|
                        0 <= k < ds2.len() && ds2[k].parent_dir_id == parent && ds2[k].dir_name
                            == name;
                    if k < dirs.len() {
                        assert(dirs[k] == ds2[k]);
                    } else {
                        assert(ds2[k] == d);
                    }
                }
            }
        }
    }
}

/// A walk that succeeds is unchanged by appending a node.
pub proof fn lemma_lookup_from_push(dirs: Seq<DirRec>, d: DirRec, cur: int, segs: Seq<Seq<char>>)
    requires
        dirs_wf(dirs.push(d)),
    ensures
        lookup_path_from(dirs, cur, segs) matches Some(x) ==> lookup_path_from(
            dirs.push(d),
            cur,
            segs,
        ) == Some(x),
    decreases segs.len(),
{
    if segs.len() > 0 && lookup_path_from(dirs, cur, segs) is Some {
        lemma_child_of_push(dirs, d, Some(cur), segs[0]);
        match child_of(dirs, Some(cur), segs[0]) {
            Some(c) => {
                assert(!(d.parent_dir_id == Some(cur) && d.dir_name == segs[0])) by {
                    if d.parent_dir_id == Some(cur) && d.dir_name == segs[0] {
                        let k = choose|k: int|
                            0 <= k < dirs.len() && dirs[k].parent_dir_id == Some(cur)
                                && dirs[k].dir_name == segs[0];
                        assert(dirs.push(d)[k] == dirs[k]);
                        assert(dirs.push(d)[dirs.len() as int] == d);
                    }
                }
                lemma_lookup_from_push(dirs, d, c, segs.drop_first());
            }
            None => {}
        }
    }
}

/// A rooted lookup that succeeds is unchanged by appending a node.
pub proof fn lemma_lookup_path_push(dirs: Seq<DirRec>, d: DirRec, segs: Seq<Seq<char>>)
    requires
        dirs_wf(dirs.push(d)),
    ensures
        lookup_path(dirs, segs) matches Some(x) ==> lookup_path(dirs.push(d), segs) == Some(x),
{
    if segs.len() > 0 && lookup_path(dirs, segs) is Some {
        lemma_child_of_push(dirs, d, None, segs[0]);
        match child_of(dirs, None, segs[0]) {
            Some(root) => {
                assert(!(d.parent_dir_id is None && d.dir_name == segs[0])) by {
                    if d.parent_dir_id is None && d.dir_name == segs[0] {
                        let k = choose|k: int|
                            0 <= k < dirs.len() && dirs[k].parent_dir_id is None && dirs[k].dir_name
                                == segs[0];
                        assert(dirs.push(d)[k] == dirs[k]);
                        assert(dirs.push(d)[dirs.len() as int] == d);
                    }
                }
                lemma_lookup_from_push(dirs, d, root, segs.drop_first());
            }
            None => {}
        }
    }
}

/// Walking one more segment takes one more step down.
proof fn lemma_lookup_from_snoc(dirs: Seq<DirRec>, cur: int, segs: Seq<Seq<char>>, x: Seq<char>)
    ensures
        lookup_path_from(dirs, cur, segs.push(x)) == (match lookup_path_from(dirs, cur, segs) {
            Some(c) => child_of(dirs, Some(c), x),
            None => None::<int>,
        }),
    decreases segs.len(),
{
    let sx = segs.push(x);
    if segs.len() == 0 {
        assert(sx.drop_first() =~= Seq::<Seq<char>>::empty());
        match child_of(dirs, Some(cur), x) {
            Some(c) => {
                assert(lookup_path_from(dirs, c, sx.drop_first()) == Some(c));
            }
            None => {}
        }
    } else {
        assert(sx[0] == segs[0]);
        assert(sx.drop_first() =~= segs.drop_first().push(x));
        match child_of(dirs, Some(cur), segs[0]) {
            Some(c) => {
                lemma_lookup_from_snoc(dirs, c, segs.drop_first(), x);
            }
            None => {}
        }
    }
}

/// The rooted lookup of one more segment takes one more step down.
pub proof fn lemma_lookup_take_succ(dirs: Seq<DirRec>, segs: Seq<Seq<char>>, k: int)
    requires
        1 <= k < segs.len(),
    ensures
        lookup_path(dirs, segs.take(k + 1)) == (match lookup_path(dirs, segs.take(k)) {
            Some(c) => child_of(dirs, Some(c), segs[k]),
            None => None::<int>,
        }),
{
    assert(segs.take(k + 1) =~= segs.take(k).push(segs[k]));
    assert(segs.take(k + 1)[0] == segs[0]);
    match child_of(dirs, None, segs[0]) {
        Some(root) => {
            assert(segs.take(k + 1).drop_first() =~= segs.take(k).drop_first().push(segs[k]));
            lemma_lookup_from_snoc(dirs, root, segs.take(k).drop_first(), segs[k]);
        }
        None => {}
    }
}

/// A prefix of a lookup that succeeds succeeds too.
pub proof fn lemma_lookup_prefix_some(dirs: Seq<DirRec>, segs: Seq<Seq<char>>, k: int)
    requires
        1 <= k <= segs.len(),
        lookup_path(dirs, segs) is Some,
    ensures
        lookup_path(dirs, segs.take(k)) is Some,
    decreases segs.len() - k,
{
    if k < segs.len() {
        lemma_lookup_prefix_some(dirs, segs, k + 1);
        lemma_lookup_take_succ(dirs, segs, k);
    } else {
        assert(segs.take(k) =~= segs);
    }
}

/// What the deletion sweep leaves behind: the old records untouched, and
/// after them one fresh-id tombstone at `ts`, exactly one for each group
/// whose newest record is older than `ts`.
pub open spec fn sweep_post(fso: Seq<StoredFile>, fsn: Seq<StoredFile>, ts: int) -> bool {
    &&& fsn.len() >= fso.len()
    &&& fsn.take(fso.len() as int) == fso
    &&& forall|x: int|
        #![auto]
        fso.len() <= x < fsn.len() ==> {
            &&& fsn[x].hsh is None
            &&& fsn[x].version == VERSION as int
            &&& fsn[x].backup_ts == ts
            &&& group_exists(fso, fsn[x].dir_id, fsn[x].file_name)
            &&& group_stale(fso, fsn[x].dir_id, fsn[x].file_name, ts)
            &&& forall|j: int| 0 <= j < fso.len() ==> (#[trigger] fso[j]).id != fsn[x].id
        }
    &&& forall|x: int, y: int|
        #![auto]
        fso.len() <= x < y < fsn.len() ==> fsn[x].id != fsn[y].id && !(fsn[x].dir_id
            == fsn[y].dir_id && fsn[x].file_name == fsn[y].file_name)
    &&& forall|d: int, n: Seq<char>|
        group_exists(fso, d, n) && #[trigger] group_stale(fso, d, n, ts) ==> exists|x: int|
            #![auto]
            fso.len() <= x < fsn.len() && fsn[x].dir_id == d && fsn[x].file_name == n
}

/// The record list with every record carrying `file_id` taken out.
pub open spec fn remove_file_id(files: Seq<StoredFile>, file_id: int) -> Seq<StoredFile>
    decreases files.len(),
{
    if files.len() == 0 {
        Seq::empty()
    } else {
        remove_file_id(files.drop_last(), file_id) + (if files.last().id != file_id {
            seq![files.last()]
        } else {
            Seq::empty()
        })
    }
}

/// The interface of the history store.  The engine depends only on these
/// contracts; `MemoryDataLayer` is the implementation verified against them,
/// and a store backed by outside persistence can stand in for it unverified.
/// Every method may fail with a `DataLayerError`; a failed mutation leaves
/// the store as it was.
pub trait DataLayer: Sized {
    /// The directories and file version records the layer holds.
    spec fn store(&self) -> StoreModel;

    /// The largest file id the store holds, or 0 if it holds none.
    fn get_max_file_id(&self) -> (r: Result<i64, DataLayerError>)
        ensures
            r matches Ok(m) ==> m as int == max_file_id(self.store().files),
    ;

    /// The root directory carrying `dir_name`, if any.
    fn get_dir(&self, dir_name: &str) -> (r: Result<Option<DirModel>, DataLayerError>)
        ensures
            r matches Ok(d) ==> match d {
                Some(dir) => {
                    &&& exists|k: int|
                        0 <= k < self.store().dirs.len() && #[trigger] self.store().dirs[k]
                            == dir@
                    &&& dir@.parent_dir_id is None
                    &&& dir@.dir_name == dir_name@
                },
                None => !has_child(self.store().dirs, None, dir_name@),
            },
    ;

    /// All directories whose parent is `dir_id`.
    fn get_sub_dirs(&self, dir_id: i64) -> (r: Result<Vec<DirModel>, DataLayerError>)
        ensures
            r matches Ok(v) ==> {
                &&& forall|k: int|
                    0 <= k < v@.len() ==> (exists|j: int|
                        0 <= j < self.store().dirs.len() && #[trigger] self.store().dirs[j] == (
                        #[trigger] v@[k])@) && v@[k]@.parent_dir_id == Some(dir_id as int)
                &&& forall|j: int|
                    0 <= j < self.store().dirs.len() && (#[trigger] self.store().dirs[j]).parent_dir_id
                        == Some(dir_id as int) ==> exists|k: int|
                        0 <= k < v@.len() && (#[trigger] v@[k])@ == self.store().dirs[j]
            },
    ;

    /// The record of the `(dir_id, file_name)` group with the newest
    /// `backup_ts`, if the group holds one.
    fn get_latest_file(&self, dir_id: i64, file_name: &str) -> (r: Result<
        Option<FileModel>,
        DataLayerError,
    >)
        ensures
            r matches Ok(o) ==> match o {
                Some(f) => group_exists(self.store().files, dir_id as int, file_name@) && f@
                    == to_rec(
                    self.store().files[latest_index(self.store().files, dir_id as int, file_name@)],
                ),
                None => !group_exists(self.store().files, dir_id as int, file_name@),
            },
    ;

    /// All records of the `(dir_id, file_name)` group, in store order.
    fn get_dir_files(&self, dir_id: i64, file_name: &str) -> (r: Result<
        Vec<FileModel>,
        DataLayerError,
    >)
        ensures
            r matches Ok(v) ==> v@.map_values(|f: FileModel| f@) == group_files(
                self.store().files,
                dir_id as int,
                file_name@,
            ),
    ;

    /// Appends a directory under a fresh id and returns the id.
    fn create_dir(&mut self, dir_name: &str, parent_dir_id: Option<i64>) -> (r: Result<
        i64,
        DataLayerError,
    >)
        ensures
            final(self).store().files == old(self).store().files,
            r matches Ok(id) ==> {
                &&& final(self).store().dirs == old(self).store().dirs.push(
                    DirRec {
                        id: id as int,
                        parent_dir_id: (match parent_dir_id {
                            Some(p) => Some(p as int),
                            None => None,
                        }),
                        dir_name: dir_name@,
                    },
                )
                &&& forall|j: int|
                    0 <= j < old(self).store().dirs.len() ==> (#[trigger] old(
                        self,
                    ).store().dirs[j]).id != id as int
            },
            r is Err ==> final(self).store() == old(self).store(),
    ;

    /// Appends a new file version record at `ts` with the given hash.
    fn create_file_entry(
        &mut self,
        dir_id: i64,
        file_id: i64,
        file_name: &str,
        file_hsh: &str,
        ts: i64,
    ) -> (r: Result<(), DataLayerError>)
        ensures
            final(self).store().dirs == old(self).store().dirs,
            r is Ok ==> final(self).store().files == old(self).store().files.push(
                StoredFile {
                    dir_id: dir_id as int,
                    version: VERSION as int,
                    id: file_id as int,
                    file_name: file_name@,
                    backup_ts: ts as int,
                    hsh: Some(file_hsh@),
                },
            ),
            r is Err ==> final(self).store() == old(self).store(),
    ;

    /// Moves the newest record of the `(dir_id, file_name)` group to `ts`.
    fn update_latest_hsh_ts(&mut self, dir_id: i64, file_name: &str, ts: i64) -> (r: Result<
        (),
        DataLayerError,
    >)
        requires
            group_exists(old(self).store().files, dir_id as int, file_name@),
        ensures
            final(self).store().dirs == old(self).store().dirs,
            r is Ok ==> final(self).store().files == old(self).store().files.update(
                latest_index(old(self).store().files, dir_id as int, file_name@),
                StoredFile {
                    backup_ts: ts as int,
                    ..old(self).store().files[latest_index(
                        old(self).store().files,
                        dir_id as int,
                        file_name@,
                    )]
                },
            ),
            r is Err ==> final(self).store() == old(self).store(),
    ;

    /// Appends one tombstone at `current_run_ts` for every group whose
    /// newest record is older than it, each under a fresh id.
    fn mark_all_deleted_files(&mut self, current_run_ts: i64) -> (r: Result<(), DataLayerError>)
        ensures
            final(self).store().dirs == old(self).store().dirs,
            r is Ok ==> sweep_post(
                old(self).store().files,
                final(self).store().files,
                current_run_ts as int,
            ),
            r is Err ==> final(self).store() == old(self).store(),
    ;

    /// Removes every record carrying `file_id`.
    fn delete_file_entry(&mut self, file_id: i64) -> (r: Result<(), DataLayerError>)
        ensures
            final(self).store().dirs == old(self).store().dirs,
            r is Ok ==> final(self).store().files == remove_file_id(
                old(self).store().files,
                file_id as int,
            ),
            r is Err ==> final(self).store() == old(self).store(),
    ;
}


/// Whether the key list carries the `(dir_id, file_name)` pair.
pub open spec fn has_key(ks: Seq<(int, Seq<char>)>, d: int, n: Seq<char>) -> bool {
    exists|k: int| 0 <= k < ks.len() && (#[trigger] ks[k]).0 == d && ks[k].1 == n
}

/// The distinct `(dir_id, file_name)` pairs of the record list, in order of
/// first appearance.
pub open spec fn distinct_keys(files: Seq<StoredFile>) -> Seq<(int, Seq<char>)>
    decreases files.len(),
{
    if files.len() == 0 {
        Seq::empty()
    } else {
        let r = distinct_keys(files.drop_last());
        if has_key(r, files.last().dir_id, files.last().file_name) {
            r
        } else {
            r.push((files.last().dir_id, files.last().file_name))
        }
    }
}

/// The mathematical pairs of an exec key list.
pub open spec fn key_views(ks: Seq<(i64, String)>) -> Seq<(int, Seq<char>)> {
    ks.map_values(|p: (i64, String)| (p.0 as int, p.1@))
}

/// The distinct keys name exactly the groups of the record list, each once.
proof fn lemma_dk_props(files: Seq<StoredFile>)
    ensures
        forall|k: int|
            #![trigger distinct_keys(files)[k]]
            0 <= k < distinct_keys(files).len() ==> group_exists(
                files,
                distinct_keys(files)[k].0,
                distinct_keys(files)[k].1,
            ),
        forall|j: int|
            0 <= j < files.len() ==> has_key(
                distinct_keys(files),
                (#[trigger] files[j]).dir_id,
                files[j].file_name,
            ),
        forall|k1: int, k2: int|
            #![trigger distinct_keys(files)[k1], distinct_keys(files)[k2]]
            0 <= k1 < k2 < distinct_keys(files).len() ==> !(distinct_keys(files)[k1].0
                == distinct_keys(files)[k2].0 && distinct_keys(files)[k1].1
                == distinct_keys(files)[k2].1),
    decreases files.len(),
{
    if files.len() > 0 {
        let dl = files.drop_last();
        lemma_dk_props(dl);
        let r = distinct_keys(dl);
        let dk = distinct_keys(files);
        let last = files.last();
        assert forall|k: int|
            0 <= k < dk.len() implies group_exists(files, (#[trigger] dk[k]).0, dk[k].1) by {
            if k < r.len() {
                assert(dk[k] == r[k]);
                assert(group_exists(dl, r[k].0, r[k].1));
                let j = choose|j: int| 0 <= j < dl.len() && in_group(#[trigger] dl[j], r[k].0, r[k].1);
                assert(files[j] == dl[j]);
                assert(in_group(files[j], dk[k].0, dk[k].1));
            } else {
                assert(dk[k] == (last.dir_id, last.file_name));
                assert(in_group(files[files.len() - 1], dk[k].0, dk[k].1));
            }
        }
        assert forall|j: int|
            0 <= j < files.len() implies has_key(
            dk,
            (#[trigger] files[j]).dir_id,
            files[j].file_name,
        ) by {
            if j < files.len() - 1 {
                assert(files[j] == dl[j]);
                assert(has_key(r, dl[j].dir_id, dl[j].file_name));
                let k = choose|k: int|
                    0 <= k < r.len() && (#[trigger] r[k]).0 == dl[j].dir_id && r[k].1
                        == dl[j].file_name;
                assert(dk[k] == r[k]);
            } else {
                if has_key(r, last.dir_id, last.file_name) {
                    let k = choose|k: int|
                        0 <= k < r.len() && (#[trigger] r[k]).0 == last.dir_id && r[k].1
                            == last.file_name;
                    assert(dk[k] == r[k]);
                } else {
                    assert(dk[dk.len() - 1] == (last.dir_id, last.file_name));
                }
            }
        }
        assert forall|k1: int, k2: int|
            0 <= k1 < k2 < dk.len() implies !((#[trigger] dk[k1]).0 == (#[trigger] dk[k2]).0
            && dk[k1].1 == dk[k2].1) by {
            if k2 < r.len() {
                assert(dk[k1] == r[k1] && dk[k2] == r[k2]);
            } else {
                assert(dk[k1] == r[k1]);
                assert(dk[k2] == (last.dir_id, last.file_name));
                if dk[k1].0 == last.dir_id && dk[k1].1 == last.file_name {
                    assert(has_key(r, last.dir_id, last.file_name));
                    assert(false);
                }
            }
        }
    }
}

/// Taking records out keeps every survivor a member of the old list, keeps
/// ids distinct, and leaves no record with the removed id.
pub proof fn lemma_remove_file_id_props(files: Seq<StoredFile>, file_id: int)
    requires
        file_ids_distinct(files),
    ensures
        forall|x: int|
            0 <= x < remove_file_id(files, file_id).len() ==> exists|j: int|
                0 <= j < files.len() && #[trigger] remove_file_id(files, file_id)[x] == files[j],
        file_ids_distinct(remove_file_id(files, file_id)),
        forall|x: int|
            0 <= x < remove_file_id(files, file_id).len() ==> (#[trigger] remove_file_id(
                files,
                file_id,
            )[x]).id != file_id,
    decreases files.len(),
{
    if files.len() > 0 {
        let dl = files.drop_last();
        assert forall|i: int, j: int| 0 <= i < j < dl.len() implies dl[i].id != dl[j].id by {
            assert(dl[i] == files[i] && dl[j] == files[j]);
        }
        lemma_remove_file_id_props(dl, file_id);
        let r0 = remove_file_id(dl, file_id);
        let r = remove_file_id(files, file_id);
        assert forall|x: int|
            0 <= x < r.len() implies exists|j: int| 0 <= j < files.len() && #[trigger] r[x]
            == files[j] by {
            if x < r0.len() {
                assert(r[x] == r0[x]);
                let j0 = choose|j: int| 0 <= j < dl.len() && #[trigger] r0[x] == dl[j];
                assert(r[x] == files[j0]);
            } else {
                assert(r[x] == files[files.len() - 1]);
            }
        }
        assert forall|x: int, y: int| 0 <= x < y < r.len() implies r[x].id != r[y].id by {
            if y < r0.len() {
                assert(r[x] == r0[x] && r[y] == r0[y]);
            } else {
                assert(r[x] == r0[x] && r[y] == files[files.len() - 1]);
                let j0 = choose|j: int| 0 <= j < dl.len() && #[trigger] r0[x] == dl[j];
                assert(files[j0].id != files[files.len() - 1].id);
            }
        }
    }
}

/// A member's id never exceeds the maximum.
pub proof fn lemma_max_file_id_bound(files: Seq<StoredFile>, j: int)
    requires
        0 <= j < files.len(),
    ensures
        files[j].id <= max_file_id(files),
    decreases files.len(),
{
    if j < files.len() - 1 {
        lemma_max_file_id_bound(files.drop_last(), j);
    }
}

/// An exec file record as the in-memory store keeps it, with its directory.
pub struct MemFile {
    pub dir_id: i64,
    pub version: i64,
    pub id: i64,
    pub file_name: String,
    pub backup_ts: i64,
    pub hsh: Option<String>,
}

impl View for MemFile {
    type V = StoredFile;

    open spec fn view(&self) -> StoredFile {
        StoredFile {
            dir_id: self.dir_id as int,
            version: self.version as int,
            id: self.id as int,
            file_name: self.file_name@,
            backup_ts: self.backup_ts as int,
            hsh: match self.hsh {
                Some(h) => Some(h@),
                None => None,
            },
        }
    }
}

/// The in-memory history store: the implementation of `DataLayer` that the
/// proofs and tests run against.
pub struct MemoryDataLayer {
    dirs: Vec<DirModel>,
    files: Vec<MemFile>,
}

impl MemoryDataLayer {
    /// Creates an empty store.
    pub fn new() -> (r: Self)
        ensures
            r.store().dirs.len() == 0,
            r.store().files.len() == 0,
    {
        let r = Self { dirs: Vec::new(), files: Vec::new() };
        proof {
            assert(r.store().dirs =~= Seq::<DirRec>::empty());
            assert(r.store().files =~= Seq::<StoredFile>::empty());
        }
        r
    }

    /// One slot per `(dir_id, file_name)` group the store holds.
    #[verifier::rlimit(100)]
    #[verifier::spinoff_prover]
    fn collect_group_keys(&self) -> (keys: Vec<(i64, String)>)
        ensures
            forall|k: int|
                #![trigger keys@[k]]
                0 <= k < keys@.len() ==> group_exists(
                    self.store().files,
                    keys@[k].0 as int,
                    keys@[k].1@,
                ),
            forall|j: int|
                0 <= j < self.store().files.len() ==> exists|k: int|
                    #![trigger keys@[k]]
                    0 <= k < keys@.len() && (#[trigger] self.store().files[j]).dir_id == keys@[k].0 as int
                        && self.store().files[j].file_name == keys@[k].1@,
            forall|k1: int, k2: int|
                #![trigger keys@[k1], keys@[k2]]
                0 <= k1 < k2 < keys@.len() ==> !(keys@[k1].0 == keys@[k2].0 && keys@[k1].1@
                    == keys@[k2].1@),
    {
        let ghost fs = self.store().files;
        proof {
            assert(fs.take(0) =~= Seq::<StoredFile>::empty());
            assert(key_views(Seq::<(i64, String)>::empty()) =~= distinct_keys(fs.take(0)));
        }
        let n = self.files.len();
        let mut keys: Vec<(i64, String)> = Vec::new();
        let mut i: usize = 0;
        while i < n
            invariant
                i <= n == self.files@.len(),
                fs == self.store().files,
                fs.len() == n,
                key_views(keys@) == distinct_keys(fs.take(i as int)),
            decreases n - i,
        {
            proof {
                assert(fs.take(i + 1).drop_last() =~= fs.take(i as int));
                assert(fs.take(i + 1).last() == fs[i as int]);
                assert(fs[i as int] == self.files@[i as int]@);
            }
            let kn = keys.len();
            let mut t: usize = 0;
            let mut found: bool = false;
            while t < kn && !found
                invariant
                    t <= kn == keys@.len(),
                    i < n == self.files@.len(),
                    found ==> t < kn && keys@[t as int].0 == self.files@[i as int].dir_id
                        && keys@[t as int].1@ == self.files@[i as int].file_name@,
                    !found ==> forall|k: int|
                        #![trigger keys@[k]]
                        0 <= k < t ==> !(keys@[k].0 == self.files@[i as int].dir_id && keys@[k].1@
                            == self.files@[i as int].file_name@),
                decreases kn - t + (if found { 0int } else { 1int }),
            {
                if keys[t].0 == self.files[i].dir_id && str_eq_str(
                    keys[t].1.as_str(),
                    self.files[i].file_name.as_str(),
                ) {
                    found = true;
                } else {
                    t += 1;
                }
            }
            let ghost old_views = key_views(keys@);
            if found {
                proof {
                    assert(old_views[t as int] == (fs[i as int].dir_id, fs[i as int].file_name));
                    assert(has_key(old_views, fs[i as int].dir_id, fs[i as int].file_name));
                    assert(key_views(keys@) =~= distinct_keys(fs.take(i + 1)));
                }
            } else {
                proof {
                    assert forall|k: int|
                        0 <= k < old_views.len() implies !((#[trigger] old_views[k]).0
                        == fs[i as int].dir_id && old_views[k].1 == fs[i as int].file_name) by {
                        assert(old_views[k] == (keys@[k].0 as int, keys@[k].1@));
                    }
                    assert(!has_key(old_views, fs[i as int].dir_id, fs[i as int].file_name));
                }
                let fm = &self.files[i];
                keys.push((fm.dir_id, fm.file_name.clone()));
                proof {
                    assert(key_views(keys@) =~= old_views.push(
                        (fs[i as int].dir_id, fs[i as int].file_name),
                    ));
                    assert(key_views(keys@) =~= distinct_keys(fs.take(i + 1)));
                }
            }
            i += 1;
        }
        proof {
            assert(fs.take(n as int) =~= fs);
            lemma_dk_props(fs);
            let kv = key_views(keys@);
            assert forall|k: int|
                #![trigger keys@[k]]
                0 <= k < keys@.len() implies group_exists(fs, keys@[k].0 as int, keys@[k].1@) by {
                assert(kv[k] == (keys@[k].0 as int, keys@[k].1@));
                assert(group_exists(fs, kv[k].0, kv[k].1));
            }
            assert forall|j: int|
                0 <= j < fs.len() implies exists|k: int|
                #![trigger keys@[k]]
                0 <= k < keys@.len() && (#[trigger] fs[j]).dir_id == keys@[k].0 as int
                    && fs[j].file_name == keys@[k].1@ by {
                assert(has_key(kv, fs[j].dir_id, fs[j].file_name));
                let k = choose|k: int|
                    0 <= k < kv.len() && (#[trigger] kv[k]).0 == fs[j].dir_id && kv[k].1
                        == fs[j].file_name;
                assert(kv[k] == (keys@[k].0 as int, keys@[k].1@));
                assert(fs[j].dir_id == keys@[k].0 as int && fs[j].file_name == keys@[k].1@);
            }
            assert forall|k1: int, k2: int|
                #![trigger keys@[k1], keys@[k2]]
                0 <= k1 < k2 < keys@.len() implies !(keys@[k1].0 == keys@[k2].0 && keys@[k1].1@
                    == keys@[k2].1@) by {
                assert(kv[k1] == (keys@[k1].0 as int, keys@[k1].1@));
                assert(kv[k2] == (keys@[k2].0 as int, keys@[k2].1@));
            }
        }
        keys
    }

    /// The largest backup timestamp of the `(dir_id, file_name)` group,
    /// which must hold a record.
    #[verifier::spinoff_prover]
    fn group_max_ts(&self, dir_id: i64, file_name: &str) -> (m: i64)
        requires
            group_exists(self.store().files, dir_id as int, file_name@),
        ensures
            exists|j: int|
                0 <= j < self.store().files.len() && in_group(
                    #[trigger] self.store().files[j],
                    dir_id as int,
                    file_name@,
                ) && self.store().files[j].backup_ts == m as int,
            forall|j: int|
                0 <= j < self.store().files.len() && in_group(
                    #[trigger] self.store().files[j],
                    dir_id as int,
                    file_name@,
                ) ==> self.store().files[j].backup_ts <= m as int,
    {
        let ghost fs = self.store().files;
        let n = self.files.len();
        let mut best: Option<usize> = None;
        let mut i: usize = 0;
        while i < n
            invariant
                i <= n == self.files@.len(),
                fs == self.store().files,
                fs.len() == n,
                match best {
                    None => !group_exists(fs.take(i as int), dir_id as int, file_name@),
                    Some(b) => {
                        &&& b < i
                        &&& group_exists(fs.take(i as int), dir_id as int, file_name@)
                        &&& b as int == latest_index(fs.take(i as int), dir_id as int, file_name@)
                        &&& in_group(fs[b as int], dir_id as int, file_name@)
                    },
                },
            decreases n - i,
        {
            proof {
                assert(fs.take(i + 1).drop_last() =~= fs.take(i as int));
                assert(fs.take(i + 1).last() == fs[i as int]);
                assert(fs[i as int] == self.files@[i as int]@);
                assert(forall|r: int| 0 <= r < i ==> fs.take(i + 1)[r] == fs[r]);
            }
            if self.files[i].dir_id == dir_id && str_eq_str(
                self.files[i].file_name.as_str(),
                file_name,
            ) {
                proof {
                    assert(group_exists(fs.take(i + 1), dir_id as int, file_name@)) by {
                        assert(in_group(fs.take(i + 1)[i as int], dir_id as int, file_name@));
                    }
                }
                match best {
                    None => {
                        best = Some(i);
                    }
                    Some(b) => {
                        if self.files[i].backup_ts > self.files[b].backup_ts {
                            best = Some(i);
                        }
                    }
                }
            } else {
                proof {
                    assert(!in_group(fs[i as int], dir_id as int, file_name@));
                    if group_exists(fs.take(i + 1), dir_id as int, file_name@) {
                        let w = choose|j: int|
                            0 <= j < fs.take(i + 1).len() && in_group(
                                #[trigger] fs.take(i + 1)[j],
                                dir_id as int,
                                file_name@,
                            );
                        assert(w < i);
                        assert(in_group(fs.take(i as int)[w], dir_id as int, file_name@));
                    }
                }
            }
            i += 1;
        }
        proof {
            assert(fs.take(n as int) =~= fs);
        }
        match best {
            Some(b) => {
                proof {
                    assert(fs[b as int] == self.files@[b as int]@);
                    assert(b as int == latest_index(fs, dir_id as int, file_name@));
                    lemma_latest_index_props(fs, dir_id as int, file_name@);
                }
                self.files[b].backup_ts
            }
            None => {
                proof {
                    assert(!group_exists(fs, dir_id as int, file_name@));
                    assert(false);
                }
                0
            }
        }
    }

    /// One fresh-id tombstone per key whose group is older than
    /// `current_run_ts`.
    #[verifier::rlimit(100)]
    #[verifier::spinoff_prover]
    fn build_tombstones(
        &self,
        keys: &Vec<(i64, String)>,
        base: i64,
        current_run_ts: i64,
    ) -> (r: Result<Vec<MemFile>, DataLayerError>)
        requires
            base as int == max_file_id(self.store().files),
            forall|k: int|
                #![trigger keys@[k]]
                0 <= k < keys@.len() ==> group_exists(
                    self.store().files,
                    keys@[k].0 as int,
                    keys@[k].1@,
                ),
            forall|k1: int, k2: int|
                #![trigger keys@[k1], keys@[k2]]
                0 <= k1 < k2 < keys@.len() ==> !(keys@[k1].0 == keys@[k2].0 && keys@[k1].1@
                    == keys@[k2].1@),
        ensures
            r matches Ok(toms) ==> {
                &&& forall|x: int|
                    #![trigger toms@[x]]
                    0 <= x < toms@.len() ==> {
                        &&& toms@[x]@.hsh is None
                        &&& toms@[x]@.version == VERSION as int
                        &&& toms@[x]@.backup_ts == current_run_ts as int
                        &&& group_exists(self.store().files, toms@[x]@.dir_id, toms@[x]@.file_name)
                        &&& group_stale(
                            self.store().files,
                            toms@[x]@.dir_id,
                            toms@[x]@.file_name,
                            current_run_ts as int,
                        )
                        &&& base < toms@[x]@.id
                    }
                &&& forall|x: int, y: int|
                    #![trigger toms@[x], toms@[y]]
                    0 <= x < y < toms@.len() ==> toms@[x]@.id != toms@[y]@.id && !(toms@[x]@.dir_id
                        == toms@[y]@.dir_id && toms@[x]@.file_name == toms@[y]@.file_name)
                &&& forall|k: int|
                    #![trigger keys@[k]]
                    0 <= k < keys@.len() && group_stale(
                        self.store().files,
                        keys@[k].0 as int,
                        keys@[k].1@,
                        current_run_ts as int,
                    ) ==> exists|x: int|
                        #![trigger toms@[x]]
                        0 <= x < toms@.len() && toms@[x]@.dir_id == keys@[k].0 as int
                            && toms@[x]@.file_name == keys@[k].1@
            },
    {
        let ghost fs = self.store().files;
        let kn = keys.len();
        let mut toms: Vec<MemFile> = Vec::new();
        let mut next: i64 = base;
        let mut t: usize = 0;
        while t < kn
            invariant
                t <= kn == keys@.len(),
                fs == self.store().files,
                base as int == max_file_id(fs),
                base <= next,
                forall|k: int|
                    #![trigger keys@[k]]
                    0 <= k < keys@.len() ==> group_exists(fs, keys@[k].0 as int, keys@[k].1@),
                forall|k1: int, k2: int|
                    #![trigger keys@[k1], keys@[k2]]
                    0 <= k1 < k2 < keys@.len() ==> !(keys@[k1].0 == keys@[k2].0 && keys@[k1].1@
                        == keys@[k2].1@),
                forall|x: int|
                    #![trigger toms@[x]]
                    0 <= x < toms@.len() ==> {
                        &&& toms@[x]@.hsh is None
                        &&& toms@[x]@.version == VERSION as int
                        &&& toms@[x]@.backup_ts == current_run_ts as int
                        &&& group_exists(fs, toms@[x]@.dir_id, toms@[x]@.file_name)
                        &&& group_stale(fs, toms@[x]@.dir_id, toms@[x]@.file_name, current_run_ts as int)
                        &&& base < toms@[x]@.id <= next
                    },
                forall|x: int, y: int|
                    #![trigger toms@[x], toms@[y]]
                    0 <= x < y < toms@.len() ==> toms@[x]@.id < toms@[y]@.id && !(toms@[x]@.dir_id
                        == toms@[y]@.dir_id && toms@[x]@.file_name == toms@[y]@.file_name),
                forall|x: int|
                    #![trigger toms@[x]]
                    0 <= x < toms@.len() ==> exists|k: int|
                        #![trigger keys@[k]]
                        0 <= k < t && keys@[k].0 as int == toms@[x]@.dir_id && keys@[k].1@
                            == toms@[x]@.file_name,
                forall|k: int|
                    #![trigger keys@[k]]
                    0 <= k < t && group_stale(fs, keys@[k].0 as int, keys@[k].1@, current_run_ts as int)
                        ==> exists|x: int|
                        #![trigger toms@[x]]
                        0 <= x < toms@.len() && toms@[x]@.dir_id == keys@[k].0 as int
                            && toms@[x]@.file_name == keys@[k].1@,
            decreases kn - t,
        {
            let m = self.group_max_ts(keys[t].0, keys[t].1.as_str());
            if m < current_run_ts {
                if next == i64::MAX {
                    return Err(DataLayerError { err: "file id space exhausted".to_owned() });
                }
                next = next + 1;
                let k = &keys[t];
                let ghost old_toms = toms@;
                toms.push(
                    MemFile {
                        dir_id: k.0,
                        version: VERSION,
                        id: next,
                        file_name: k.1.clone(),
                        backup_ts: current_run_ts,
                        hsh: None,
                    },
                );
                proof {
                    let x = toms@.len() - 1;
                    assert(toms@[x]@.dir_id == keys@[t as int].0 as int);
                    assert(toms@[x]@.file_name == keys@[t as int].1@);
                    assert forall|jj: int|
                        0 <= jj < fs.len() && in_group(
                            #[trigger] fs[jj],
                            toms@[x]@.dir_id,
                            toms@[x]@.file_name,
                        ) implies fs[jj].backup_ts < current_run_ts as int by {
                        assert(fs[jj].backup_ts <= m as int);
                    }
                    assert forall|k: int|
                        #![trigger keys@[k]]
                        0 <= k < t + 1 && group_stale(
                            fs,
                            keys@[k].0 as int,
                            keys@[k].1@,
                            current_run_ts as int,
                        ) implies exists|x2: int|
                        #![trigger toms@[x2]]
                        0 <= x2 < toms@.len() && toms@[x2]@.dir_id == keys@[k].0 as int
                            && toms@[x2]@.file_name == keys@[k].1@ by {
                        if k == t {
                            assert(toms@[x]@.dir_id == keys@[k].0 as int && toms@[x]@.file_name
                                == keys@[k].1@);
                        } else {
                            let x0 = choose|x2: int|
                                0 <= x2 < old_toms.len() && (#[trigger] old_toms[x2])@.dir_id
                                    == keys@[k].0 as int && old_toms[x2]@.file_name == keys@[k].1@;
                            assert(toms@[x0] == old_toms[x0]);
                        }
                    }
                }
            } else {
                proof {
                    assert(!group_stale(fs, keys@[t as int].0 as int, keys@[t as int].1@, current_run_ts as int)) by {
                        let jw = choose|j: int|
                            0 <= j < fs.len() && in_group(
                                #[trigger] fs[j],
                                keys@[t as int].0 as int,
                                keys@[t as int].1@,
                            ) && fs[j].backup_ts == m as int;
                        assert(fs[jw].backup_ts >= current_run_ts as int);
                    }
                }
            }
            t += 1;
        }
        Ok(toms)
    }
}

impl DataLayer for MemoryDataLayer {
    closed spec fn store(&self) -> StoreModel {
        StoreModel {
            dirs: self.dirs@.map_values(|d: DirModel| d@),
            files: self.files@.map_values(|f: MemFile| f@),
        }
    }

    fn get_max_file_id(&self) -> (r: Result<i64, DataLayerError>) {
        let ghost fs = self.store().files;
        proof {
            assert(fs.take(0) =~= Seq::<StoredFile>::empty());
        }
        let n = self.files.len();
        let mut m: i64 = 0;
        let mut i: usize = 0;
        while i < n
            invariant
                i <= n == self.files@.len(),
                fs == self.store().files,
                fs.len() == n,
                m as int == max_file_id(fs.take(i as int)),
            decreases n - i,
        {
            proof {
                assert(fs.take(i + 1).drop_last() =~= fs.take(i as int));
                assert(fs.take(i + 1).last() == fs[i as int]);
                assert(fs[i as int] == self.files@[i as int]@);
            }
            if self.files[i].id > m {
                m = self.files[i].id;
            }
            i += 1;
        }
        proof {
            assert(fs.take(n as int) =~= fs);
        }
        Ok(m)
    }

    fn get_dir(&self, dir_name: &str) -> (r: Result<Option<DirModel>, DataLayerError>) {
        let ghost ds = self.store().dirs;
        let n = self.dirs.len();
        let mut i: usize = 0;
        while i < n
            invariant
                i <= n == self.dirs@.len(),
                ds == self.store().dirs,
                ds.len() == n,
                forall|j: int|
                    0 <= j < i ==> !((#[trigger] ds[j]).parent_dir_id is None && ds[j].dir_name
                        == dir_name@),
            decreases n - i,
        {
            proof {
                assert(ds[i as int] == self.dirs@[i as int]@);
            }
            if self.dirs[i].parent_dir_id.is_none() && str_eq_str(
                self.dirs[i].dir_name.as_str(),
                dir_name,
            ) {
                let d = &self.dirs[i];
                let out = DirModel {
                    id: d.id,
                    parent_dir_id: d.parent_dir_id,
                    dir_name: d.dir_name.clone(),
                };
                proof {
                    assert(out@ == ds[i as int]);
                }
                return Ok(Some(out));
            }
            i += 1;
        }
        proof {
            assert(!has_child(ds, None, dir_name@));
        }
        Ok(None)
    }

    fn get_sub_dirs(&self, dir_id: i64) -> (r: Result<Vec<DirModel>, DataLayerError>) {
        let ghost ds = self.store().dirs;
        let n = self.dirs.len();
        let mut out: Vec<DirModel> = Vec::new();
        let mut i: usize = 0;
        while i < n
            invariant
                i <= n == self.dirs@.len(),
                ds == self.store().dirs,
                ds.len() == n,
                forall|k: int|
                    0 <= k < out@.len() ==> (exists|j: int|
                        0 <= j < i && #[trigger] ds[j] == (#[trigger] out@[k])@) && out@[k]@.parent_dir_id
                        == Some(dir_id as int),
                forall|j: int|
                    0 <= j < i && (#[trigger] ds[j]).parent_dir_id == Some(dir_id as int)
                        ==> exists|k: int| 0 <= k < out@.len() && (#[trigger] out@[k])@ == ds[j],
            decreases n - i,
        {
            proof {
                assert(ds[i as int] == self.dirs@[i as int]@);
            }
            let matches_parent = match self.dirs[i].parent_dir_id {
                Some(p) => p == dir_id,
                None => false,
            };
            if matches_parent {
                let d = &self.dirs[i];
                let ghost old_out = out@;
                out.push(
                    DirModel { id: d.id, parent_dir_id: d.parent_dir_id, dir_name: d.dir_name.clone() },
                );
                proof {
                    assert(out@[out@.len() - 1]@ == ds[i as int]);
                    assert(forall|k: int| 0 <= k < old_out.len() ==> out@[k] == old_out[k]);
                }
            }
            i += 1;
        }
        Ok(out)
    }

    fn get_latest_file(&self, dir_id: i64, file_name: &str) -> (r: Result<
        Option<FileModel>,
        DataLayerError,
    >) {
        let ghost fs = self.store().files;
        let n = self.files.len();
        let mut best: Option<usize> = None;
        let mut i: usize = 0;
        while i < n
            invariant
                i <= n == self.files@.len(),
                fs == self.store().files,
                fs.len() == n,
                match best {
                    None => !group_exists(fs.take(i as int), dir_id as int, file_name@),
                    Some(b) => {
                        &&& b < i
                        &&& group_exists(fs.take(i as int), dir_id as int, file_name@)
                        &&& b as int == latest_index(fs.take(i as int), dir_id as int, file_name@)
                        &&& in_group(fs[b as int], dir_id as int, file_name@)
                    },
                },
            decreases n - i,
        {
            proof {
                assert(fs.take(i + 1).drop_last() =~= fs.take(i as int));
                assert(fs.take(i + 1).last() == fs[i as int]);
                assert(fs[i as int] == self.files@[i as int]@);
                assert(forall|r: int| 0 <= r < i ==> fs.take(i + 1)[r] == fs[r]);
            }
            if self.files[i].dir_id == dir_id && str_eq_str(
                self.files[i].file_name.as_str(),
                file_name,
            ) {
                proof {
                    assert(group_exists(fs.take(i + 1), dir_id as int, file_name@)) by {
                        assert(in_group(fs.take(i + 1)[i as int], dir_id as int, file_name@));
                    }
                }
                match best {
                    None => {
                        best = Some(i);
                    }
                    Some(b) => {
                        if self.files[i].backup_ts > self.files[b].backup_ts {
                            best = Some(i);
                        }
                    }
                }
            } else {
                proof {
                    assert(!in_group(fs[i as int], dir_id as int, file_name@));
                    if group_exists(fs.take(i + 1), dir_id as int, file_name@) {
                        let w = choose|j: int|
                            0 <= j < fs.take(i + 1).len() && in_group(
                                #[trigger] fs.take(i + 1)[j],
                                dir_id as int,
                                file_name@,
                            );
                        assert(w < i);
                        assert(in_group(fs.take(i as int)[w], dir_id as int, file_name@));
                    }
                }
            }
            i += 1;
        }
        proof {
            assert(fs.take(n as int) =~= fs);
        }
        match best {
            Some(b) => {
                let f = &self.files[b];
                let out = FileModel {
                    version: f.version,
                    id: f.id,
                    file_name: f.file_name.clone(),
                    backup_ts: f.backup_ts,
                    hsh: match &f.hsh {
                        Some(h) => Some(h.clone()),
                        None => None,
                    },
                };
                proof {
                    assert(fs[b as int] == self.files@[b as int]@);
                    assert(to_rec(fs[b as int]) == out@);
                    assert(b as int == latest_index(fs, dir_id as int, file_name@));
                }
                Ok(Some(out))
            }
            None => {
                proof {
                    assert(!group_exists(fs, dir_id as int, file_name@));
                }
                Ok(None)
            }
        }
    }

    fn get_dir_files(&self, dir_id: i64, file_name: &str) -> (r: Result<
        Vec<FileModel>,
        DataLayerError,
    >) {
        let ghost fs = self.store().files;
        proof {
            assert(fs.take(0) =~= Seq::<StoredFile>::empty());
            assert(Seq::<FileModel>::empty().map_values(|f: FileModel| f@) =~= group_files(
                fs.take(0),
                dir_id as int,
                file_name@,
            ));
        }
        let n = self.files.len();
        let mut out: Vec<FileModel> = Vec::new();
        let mut i: usize = 0;
        while i < n
            invariant
                i <= n == self.files@.len(),
                fs == self.store().files,
                fs.len() == n,
                out@.map_values(|f: FileModel| f@) == group_files(
                    fs.take(i as int),
                    dir_id as int,
                    file_name@,
                ),
            decreases n - i,
        {
            proof {
                assert(fs.take(i + 1).drop_last() =~= fs.take(i as int));
                assert(fs.take(i + 1).last() == fs[i as int]);
                assert(fs[i as int] == self.files@[i as int]@);
            }
            let ghost old_map = out@.map_values(|f: FileModel| f@);
            if self.files[i].dir_id == dir_id && str_eq_str(
                self.files[i].file_name.as_str(),
                file_name,
            ) {
                let f = &self.files[i];
                out.push(
                    FileModel {
                        version: f.version,
                        id: f.id,
                        file_name: f.file_name.clone(),
                        backup_ts: f.backup_ts,
                        hsh: match &f.hsh {
                            Some(h) => Some(h.clone()),
                            None => None,
                        },
                    },
                );
                proof {
                    assert(out@[out@.len() - 1]@ == to_rec(fs[i as int]));
                    assert(out@.map_values(|f: FileModel| f@) =~= old_map.push(
                        to_rec(fs[i as int]),
                    ));
                    assert(group_files(fs.take(i + 1), dir_id as int, file_name@) =~= old_map.push(
                        to_rec(fs[i as int]),
                    ));
                }
            } else {
                proof {
                    assert(group_files(fs.take(i + 1), dir_id as int, file_name@) =~= old_map);
                }
            }
            i += 1;
        }
        proof {
            assert(fs.take(n as int) =~= fs);
        }
        Ok(out)
    }

    fn create_dir(&mut self, dir_name: &str, parent_dir_id: Option<i64>) -> (r: Result<
        i64,
        DataLayerError,
    >) {
        let ghost ds = self.store().dirs;
        let n = self.dirs.len();
        let mut m: i64 = 0;
        let mut i: usize = 0;
        while i < n
            invariant
                i <= n == self.dirs@.len(),
                ds == self.store().dirs,
                ds.len() == n,
                m >= 0,
                forall|j: int| 0 <= j < i ==> (#[trigger] ds[j]).id <= m as int,
            decreases n - i,
        {
            proof {
                assert(ds[i as int] == self.dirs@[i as int]@);
            }
            if self.dirs[i].id > m {
                m = self.dirs[i].id;
            }
            i += 1;
        }
        if m == i64::MAX {
            return Err(DataLayerError { err: "directory id space exhausted".to_owned() });
        }
        let id = m + 1;
        self.dirs.push(DirModel { id, parent_dir_id, dir_name: dir_name.to_owned() });
        proof {
            assert(self.store().dirs =~= ds.push(
                DirRec {
                    id: id as int,
                    parent_dir_id: (match parent_dir_id {
                        Some(p) => Some(p as int),
                        None => None,
                    }),
                    dir_name: dir_name@,
                },
            ));
            assert(self.store().files =~= old(self).store().files);
        }
        Ok(id)
    }

    fn create_file_entry(
        &mut self,
        dir_id: i64,
        file_id: i64,
        file_name: &str,
        file_hsh: &str,
        ts: i64,
    ) -> (r: Result<(), DataLayerError>) {
        self.files.push(
            MemFile {
                dir_id,
                version: VERSION,
                id: file_id,
                file_name: file_name.to_owned(),
                backup_ts: ts,
                hsh: Some(file_hsh.to_owned()),
            },
        );
        proof {
            assert(self.store().files =~= old(self).store().files.push(
                StoredFile {
                    dir_id: dir_id as int,
                    version: VERSION as int,
                    id: file_id as int,
                    file_name: file_name@,
                    backup_ts: ts as int,
                    hsh: Some(file_hsh@),
                },
            ));
            assert(self.store().dirs =~= old(self).store().dirs);
        }
        Ok(())
    }

    fn update_latest_hsh_ts(&mut self, dir_id: i64, file_name: &str, ts: i64) -> (r: Result<
        (),
        DataLayerError,
    >) {
        let ghost fs = self.store().files;
        let n = self.files.len();
        let mut best: Option<usize> = None;
        let mut i: usize = 0;
        while i < n
            invariant
                i <= n == self.files@.len(),
                fs == self.store().files,
                fs.len() == n,
                match best {
                    None => !group_exists(fs.take(i as int), dir_id as int, file_name@),
                    Some(b) => {
                        &&& b < i
                        &&& group_exists(fs.take(i as int), dir_id as int, file_name@)
                        &&& b as int == latest_index(fs.take(i as int), dir_id as int, file_name@)
                        &&& in_group(fs[b as int], dir_id as int, file_name@)
                    },
                },
            decreases n - i,
        {
            proof {
                assert(fs.take(i + 1).drop_last() =~= fs.take(i as int));
                assert(fs.take(i + 1).last() == fs[i as int]);
                assert(fs[i as int] == self.files@[i as int]@);
                assert(forall|r: int| 0 <= r < i ==> fs.take(i + 1)[r] == fs[r]);
            }
            if self.files[i].dir_id == dir_id && str_eq_str(
                self.files[i].file_name.as_str(),
                file_name,
            ) {
                proof {
                    assert(group_exists(fs.take(i + 1), dir_id as int, file_name@)) by {
                        assert(in_group(fs.take(i + 1)[i as int], dir_id as int, file_name@));
                    }
                }
                match best {
                    None => {
                        best = Some(i);
                    }
                    Some(b) => {
                        if self.files[i].backup_ts > self.files[b].backup_ts {
                            best = Some(i);
                        }
                    }
                }
            } else {
                proof {
                    assert(!in_group(fs[i as int], dir_id as int, file_name@));
                    if group_exists(fs.take(i + 1), dir_id as int, file_name@) {
                        let w = choose|j: int|
                            0 <= j < fs.take(i + 1).len() && in_group(
                                #[trigger] fs.take(i + 1)[j],
                                dir_id as int,
                                file_name@,
                            );
                        assert(w < i);
                        assert(in_group(fs.take(i as int)[w], dir_id as int, file_name@));
                    }
                }
            }
            i += 1;
        }
        proof {
            assert(fs.take(n as int) =~= fs);
        }
        match best {
            Some(b) => {
                let e = &mut self.files[b];
                e.backup_ts = ts;
                proof {
                    assert(self.store().files =~= fs.update(
                        b as int,
                        StoredFile { backup_ts: ts as int, ..fs[b as int] },
                    ));
                    assert(self.store().dirs =~= old(self).store().dirs);
                }
                Ok(())
            }
            None => {
                proof {
                    assert(!group_exists(fs, dir_id as int, file_name@));
                    assert(false);
                }
                Err(DataLayerError { err: "no record to refresh".to_owned() })
            }
        }
    }

    fn mark_all_deleted_files(&mut self, current_run_ts: i64) -> (r: Result<(), DataLayerError>) {
        let ghost fs = self.store().files;
        let keys = self.collect_group_keys();
        let base = match self.get_max_file_id() {
            Ok(m) => m,
            Err(e) => {
                return Err(e);
            }
        };
        let toms = match self.build_tombstones(&keys, base, current_run_ts) {
            Ok(t) => t,
            Err(e) => {
                return Err(e);
            }
        };
        let ghost toms_view = toms@;
        let mut toms = toms;
        self.files.append(&mut toms);
        proof {
            assert(self.files@ =~= old(self).files@ + toms_view);
            let fsn = self.store().files;
            assert(fsn =~= fs + toms_view.map_values(|f: MemFile| f@));
            assert(fsn.take(fs.len() as int) =~= fs);
            assert(self.store().dirs =~= old(self).store().dirs);
            assert forall|x: int|
                #![auto]
                fs.len() <= x < fsn.len() implies {
                    &&& fsn[x].hsh is None
                    &&& fsn[x].version == VERSION as int
                    &&& fsn[x].backup_ts == current_run_ts as int
                    &&& group_exists(fs, fsn[x].dir_id, fsn[x].file_name)
                    &&& group_stale(fs, fsn[x].dir_id, fsn[x].file_name, current_run_ts as int)
                    &&& forall|j: int| 0 <= j < fs.len() ==> (#[trigger] fs[j]).id != fsn[x].id
                } by {
                assert(fsn[x] == toms_view[x - fs.len()]@);
                assert forall|j: int| 0 <= j < fs.len() implies (#[trigger] fs[j]).id != fsn[x].id by {
                    lemma_max_file_id_bound(fs, j);
                }
            }
            assert forall|x: int, y: int|
                #![auto]
                fs.len() <= x < y < fsn.len() implies fsn[x].id != fsn[y].id && !(fsn[x].dir_id
                    == fsn[y].dir_id && fsn[x].file_name == fsn[y].file_name) by {
                assert(fsn[x] == toms_view[x - fs.len()]@);
                assert(fsn[y] == toms_view[y - fs.len()]@);
            }
            assert forall|d: int, nm: Seq<char>|
                group_exists(fs, d, nm) && #[trigger] group_stale(fs, d, nm, current_run_ts as int)
                    implies exists|x: int|
                    #![auto]
                    fs.len() <= x < fsn.len() && fsn[x].dir_id == d && fsn[x].file_name == nm by {
                let j = choose|j: int| 0 <= j < fs.len() && in_group(#[trigger] fs[j], d, nm);
                let k = choose|k: int|
                    #![trigger keys@[k]]
                    0 <= k < keys@.len() && fs[j].dir_id == keys@[k].0 as int && fs[j].file_name
                        == keys@[k].1@;
                assert(keys@[k].0 as int == d && keys@[k].1@ == nm);
                assert(group_stale(fs, keys@[k].0 as int, keys@[k].1@, current_run_ts as int));
                let x = choose|x: int|
                    #![trigger toms_view[x]]
                    0 <= x < toms_view.len() && toms_view[x]@.dir_id == keys@[k].0 as int
                        && toms_view[x]@.file_name == keys@[k].1@;
                assert(fsn[x + fs.len()] == toms_view[x]@);
            }
            assert(sweep_post(fs, fsn, current_run_ts as int));
        }
        Ok(())
    }

    fn delete_file_entry(&mut self, file_id: i64) -> (r: Result<(), DataLayerError>) {
        let ghost fs = self.store().files;
        proof {
            assert(fs.take(0) =~= Seq::<StoredFile>::empty());
            assert(Seq::<MemFile>::empty().map_values(|f: MemFile| f@) =~= remove_file_id(
                fs.take(0),
                file_id as int,
            ));
        }
        let n = self.files.len();
        let mut out: Vec<MemFile> = Vec::new();
        let mut i: usize = 0;
        while i < n
            invariant
                i <= n == self.files@.len(),
                fs == self.store().files,
                fs.len() == n,
                out@.map_values(|f: MemFile| f@) == remove_file_id(fs.take(i as int), file_id as int),
            decreases n - i,
        {
            proof {
                assert(fs.take(i + 1).drop_last() =~= fs.take(i as int));
                assert(fs.take(i + 1).last() == fs[i as int]);
                assert(fs[i as int] == self.files@[i as int]@);
            }
            let ghost old_map = out@.map_values(|f: MemFile| f@);
            if self.files[i].id != file_id {
                let f = &self.files[i];
                out.push(
                    MemFile {
                        dir_id: f.dir_id,
                        version: f.version,
                        id: f.id,
                        file_name: f.file_name.clone(),
                        backup_ts: f.backup_ts,
                        hsh: match &f.hsh {
                            Some(h) => Some(h.clone()),
                            None => None,
                        },
                    },
                );
                proof {
                    assert(out@[out@.len() - 1]@ == fs[i as int]);
                    assert(out@.map_values(|f: MemFile| f@) =~= old_map.push(fs[i as int]));
                    assert(remove_file_id(fs.take(i + 1), file_id as int) =~= old_map.push(
                        fs[i as int],
                    ));
                }
            } else {
                proof {
                    assert(remove_file_id(fs.take(i + 1), file_id as int) =~= old_map);
                }
            }
            i += 1;
        }
        self.files = out;
        proof {
            assert(fs.take(n as int) =~= fs);
            assert(self.store().dirs =~= old(self).store().dirs);
        }
        Ok(())
    }
}

} // verus!
