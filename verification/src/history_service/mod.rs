//! The history and versioning engine: directory-tree resolution, change
//! detection, retention eviction, and deletion tombstoning.

pub mod data_layer;
pub mod error;
pub mod models;

use vstd::prelude::*;

use crate::collections::str_eq_str;
use crate::time_provider::TimeProvider;
use data_layer::{
    dirs_wf, file_ids_distinct, group_exists, group_files, has_child, in_group, latest_index,
    latest_matches, lemma_child_of_found, lemma_latest_index_props, lemma_lookup_path_push,
    lemma_lookup_prefix_some, lemma_lookup_take_succ, lookup_path, max_file_id, remove_file_id,
    DataLayer, StoreModel, StoredFile, VERSION,
};
use models::DirRec;
use error::Error;

verus! {

/// What a run should do with one file: back it up under a fresh id, or
/// leave it, its content being unchanged.
pub enum FileStatus {
    NeedsBackup { sub_dir_id: i64, file_id: i64, file_name: String },
    DoesNotNeedBackup,
}

/// How many records of the list carry a hash (tombstones do not).
pub open spec fn live_len(rs: Seq<models::FileRec>) -> int
    decreases rs.len(),
{
    if rs.len() == 0 {
        0
    } else {
        live_len(rs.drop_last()) + (if rs.last().hsh is Some {
            1int
        } else {
            0int
        })
    }
}

/// The mathematical segments of an exec path.
pub open spec fn seg_views(ss: Seq<String>) -> Seq<Seq<char>> {
    Seq::new(ss.len(), |i: int| ss[i]@)
}

/// Keeps the directory and version history of the backed-up files and
/// decides, one file at a time, what the current run owes each of them.
pub struct FileHistoryService<D: DataLayer, T: TimeProvider> {
    data_layer: D,
    time_provider: T,
    next_file_id: i64,
    max_copies: i32,
}

impl<D: DataLayer, T: TimeProvider> FileHistoryService<D, T> {
    /// The history store as the service sees it.
    pub closed spec fn store(self) -> StoreModel {
        self.data_layer.store()
    }

    /// The next file id the service will hand out.
    pub closed spec fn next_id(self) -> int {
        self.next_file_id as int
    }

    /// The timestamp the whole run works at.
    pub closed spec fn run_ts(self) -> int {
        self.time_provider.start() as int
    }

    /// The retention limit: how many live copies a file group may keep.
    pub closed spec fn copies(self) -> int {
        self.max_copies as int
    }

    /// The directory tree has no twin nodes, file ids are distinct and all
    /// lie below the next id to be handed out, and the retention limit is a
    /// count.
    pub closed spec fn wf(self) -> bool {
        &&& dirs_wf(self.store().dirs)
        &&& file_ids_distinct(self.store().files)
        &&& forall|j: int|
            0 <= j < self.store().files.len() ==> (#[trigger] self.store().files[j]).id
                < self.next_id()
        &&& self.copies() >= 0
    }

    /// Hands the history store back, ending the service's run.
    pub fn into_data_layer(self) -> (r: D)
        ensures
            r.store() == self.store(),
    {
        self.data_layer
    }

    /// Builds the service over a store and a time source, seeding the id
    /// counter just past the largest id on record.
    pub fn new(data_layer: D, time_provider: T, max_copies: i32) -> (r: Result<Self, Error>)
        requires
            max_file_id(data_layer.store().files) < i64::MAX,
            dirs_wf(data_layer.store().dirs),
            file_ids_distinct(data_layer.store().files),
            max_copies >= 0,
        ensures
            r matches Ok(svc) ==> {
                &&& svc.wf()
                &&& svc.store() == data_layer.store()
                &&& svc.next_id() == max_file_id(data_layer.store().files) + 1
                &&& svc.run_ts() == time_provider.start()
                &&& svc.copies() == max_copies as int
            },
    {
        let m = match data_layer.get_max_file_id() {
            Ok(m) => m,
            Err(e) => {
                return Err(Error::DataLayerError(e));
            }
        };
        proof {
            assert forall|j: int|
                0 <= j < data_layer.store().files.len() implies (#[trigger] data_layer.store().files[j]).id
                < m as int + 1 by {
                data_layer::lemma_max_file_id_bound(data_layer.store().files, j);
            }
        }
        Ok(Self { data_layer, time_provider, next_file_id: m + 1, max_copies })
    }

    /// Finds the root node carrying `name`, creating it when asked to and
    /// it is missing.
    fn resolve_root(&mut self, name: &str, create_dirs: bool) -> (r: Result<Option<i64>, Error>)
        requires
            old(self).wf(),
        ensures
            final(self).wf(),
            final(self).next_id() == old(self).next_id(),
            final(self).run_ts() == old(self).run_ts(),
            final(self).copies() == old(self).copies(),
            final(self).store().files == old(self).store().files,
            final(self).store().dirs.len() >= old(self).store().dirs.len(),
            final(self).store().dirs.take(old(self).store().dirs.len() as int) == old(self).store().dirs,
            !create_dirs ==> final(self).store().dirs == old(self).store().dirs,
            has_child(old(self).store().dirs, None, name@) ==> final(self).store().dirs == old(self).store().dirs,
            create_dirs && r is Ok ==> r matches Ok(Some(_)),
            r matches Ok(Some(id)) ==> data_layer::child_of(final(self).store().dirs, None, name@)
                == Some(id as int),
            r matches Ok(None) ==> !has_child(old(self).store().dirs, None, name@),
    {
        let ghost dirs0 = self.store().dirs;
        let root = match self.data_layer.get_dir(name) {
            Ok(d) => d,
            Err(e) => {
                proof {
                    assert(self.store().dirs.take(dirs0.len() as int) =~= dirs0);
                }
                return Err(Error::DataLayerError(e));
            }
        };
        match root {
            Some(d) => {
                proof {
                    let ds = self.store().dirs;
                    let kk = choose|kk: int| 0 <= kk < ds.len() && #[trigger] ds[kk] == d@;
                    lemma_child_of_found(ds, kk, None, name@);
                    assert(ds.take(dirs0.len() as int) =~= dirs0);
                }
                Ok(Some(d.id))
            }
            None => {
                if create_dirs {
                    let id = match self.data_layer.create_dir(name, None) {
                        Ok(id) => id,
                        Err(e) => {
                            proof {
                                assert(self.store().dirs.take(dirs0.len() as int) =~= dirs0);
                            }
                            return Err(Error::DataLayerError(e));
                        }
                    };
                    proof {
                        lemma_dirs_wf_push(old(self).store().dirs, self.store().dirs);
                        let ds = self.store().dirs;
                        assert(ds[ds.len() - 1].parent_dir_id is None && ds[ds.len() - 1].dir_name
                            == name@ && ds[ds.len() - 1].id == id as int);
                        lemma_child_of_found(ds, ds.len() - 1, None, name@);
                        assert(ds.take(dirs0.len() as int) =~= dirs0);
                    }
                    Ok(Some(id))
                } else {
                    proof {
                        assert(self.store().dirs.take(dirs0.len() as int) =~= dirs0);
                    }
                    Ok(None)
                }
            }
        }
    }

    /// The id of the first listed directory carrying `name`, if any.
    fn find_child(children: &Vec<models::DirModel>, name: &str) -> (r: Option<i64>)
        ensures
            r matches Some(id) ==> exists|x: int|
                0 <= x < children@.len() && (#[trigger] children@[x])@.dir_name == name@
                    && children@[x]@.id == id as int,
            r is None ==> forall|x: int|
                0 <= x < children@.len() ==> (#[trigger] children@[x])@.dir_name != name@,
    {
        let cn = children.len();
        let mut t: usize = 0;
        while t < cn
            invariant
                t <= cn == children@.len(),
                forall|x: int| 0 <= x < t ==> (#[trigger] children@[x])@.dir_name != name@,
            decreases cn - t,
        {
            if str_eq_str(children[t].dir_name.as_str(), name) {
                return Some(children[t].id);
            }
            t += 1;
        }
        None
    }

    /// Descends from the root node along the path's middle segments,
    /// creating missing nodes when asked to.
    #[verifier::rlimit(100)]
    #[verifier::spinoff_prover]
    fn walk_prefix(&mut self, path: &Vec<String>, create_dirs: bool, root_id: i64) -> (r: Result<
        Option<i64>,
        Error,
    >)
        requires
            old(self).wf(),
            path@.len() >= 2,
            lookup_path(old(self).store().dirs, seg_views(path@).take(1)) == Some(root_id as int),
        ensures
            final(self).wf(),
            final(self).next_id() == old(self).next_id(),
            final(self).run_ts() == old(self).run_ts(),
            final(self).copies() == old(self).copies(),
            final(self).store().files == old(self).store().files,
            final(self).store().dirs.len() >= old(self).store().dirs.len(),
            final(self).store().dirs.take(old(self).store().dirs.len() as int) == old(self).store().dirs,
            !create_dirs ==> final(self).store().dirs == old(self).store().dirs,
            create_dirs && r is Ok ==> r matches Ok(Some(_)),
            r matches Ok(Some(id)) ==> lookup_path(
                final(self).store().dirs,
                seg_views(path@).take(path@.len() - 1),
            ) == Some(id as int),
            create_dirs && lookup_path(
                old(self).store().dirs,
                seg_views(path@).take(path@.len() - 1),
            ) is Some ==> final(self).store().dirs == old(self).store().dirs,
            !create_dirs ==> (r matches Ok(o) ==> (o is None <==> lookup_path(
                old(self).store().dirs,
                seg_views(path@).take(path@.len() - 1),
            ) is None)),
    {
        let ghost dirs0 = self.store().dirs;
        let ghost segv = seg_views(path@);
        let ghost prefix = segv.take(path@.len() - 1);
        let n = path.len();
        let mut cur: i64 = root_id;
        let mut k: usize = 1;
        while k < n - 1
            invariant
                1 <= k <= n - 1,
                n == path@.len(),
                segv == seg_views(path@),
                prefix == segv.take(n - 1),
                self.wf(),
                self.next_id() == old(self).next_id(),
                self.run_ts() == old(self).run_ts(),
                self.copies() == old(self).copies(),
                self.store().files == old(self).store().files,
                dirs0 == old(self).store().dirs,
                self.store().dirs.len() >= dirs0.len(),
                self.store().dirs.take(dirs0.len() as int) == dirs0,
                !create_dirs ==> self.store().dirs == dirs0,
                lookup_path(self.store().dirs, segv.take(k as int)) == Some(cur as int),
                create_dirs && lookup_path(dirs0, prefix) is Some ==> self.store().dirs == dirs0,
            decreases n - 1 - k,
        {
            let children = match self.data_layer.get_sub_dirs(cur) {
                Ok(v) => v,
                Err(e) => {
                    return Err(Error::DataLayerError(e));
                }
            };
            let ghost dirs_k = self.store().dirs;
            let found = Self::find_child(&children, path[k].as_str());
            match found {
                Some(id) => {
                    proof {
                        let x = choose|x: int|
                            0 <= x < children@.len() && (#[trigger] children@[x])@.dir_name
                                == path@[k as int]@ && children@[x]@.id == id as int;
                        let j = choose|j: int|
                            0 <= j < dirs_k.len() && #[trigger] dirs_k[j] == children@[x]@;
                        lemma_child_of_found(dirs_k, j, Some(cur as int), path@[k as int]@);
                        lemma_lookup_take_succ(dirs_k, segv, k as int);
                        assert(lookup_path(dirs_k, segv.take(k + 1)) == Some(id as int));
                    }
                    cur = id;
                }
                None => {
                    proof {
                        assert forall|j: int|
                            0 <= j < dirs_k.len() implies !((#[trigger] dirs_k[j]).parent_dir_id
                            == Some(cur as int) && dirs_k[j].dir_name == path@[k as int]@) by {
                            if dirs_k[j].parent_dir_id == Some(cur as int) {
                                let x = choose|x: int|
                                    0 <= x < children@.len() && (#[trigger] children@[x])@
                                        == dirs_k[j];
                                assert(children@[x]@.dir_name != path@[k as int]@);
                            }
                        }
                        assert(!has_child(dirs_k, Some(cur as int), path@[k as int]@));
                        if lookup_path(dirs0, prefix) is Some {
                            lemma_lookup_prefix_some(dirs0, prefix, k + 1);
                            assert(prefix.take(k as int) =~= segv.take(k as int));
                            assert(prefix.take(k + 1) =~= segv.take(k + 1));
                            lemma_lookup_take_succ(dirs0, segv, k as int);
                            assert(lookup_path(dirs0, segv.take(k + 1)) is Some);
                            assert(self.store().dirs == dirs0 || !create_dirs);
                            assert(has_child(dirs0, Some(cur as int), segv[k as int]));
                            assert(false);
                        }
                    }
                    if create_dirs {
                        cur = match self.data_layer.create_dir(path[k].as_str(), Some(cur)) {
                            Ok(id) => id,
                            Err(e) => {
                                return Err(Error::DataLayerError(e));
                            }
                        };
                        proof {
                            let ds = self.store().dirs;
                            let d_new = ds[ds.len() - 1];
                            lemma_dirs_wf_push(dirs_k, ds);
                            assert(ds =~= dirs_k.push(d_new));
                            lemma_lookup_path_push(dirs_k, d_new, segv.take(k as int));
                            lemma_child_of_found(
                                ds,
                                ds.len() - 1,
                                d_new.parent_dir_id,
                                d_new.dir_name,
                            );
                            lemma_lookup_take_succ(ds, segv, k as int);
                            assert(lookup_path(ds, segv.take(k + 1)) == Some(cur as int));
                            assert(ds.take(dirs0.len() as int) =~= dirs0);
                        }
                    } else {
                        return Ok(None);
                    }
                }
            }
            k += 1;
        }
        proof {
            assert(prefix =~= segv.take(n - 1));
        }
        Ok(Some(cur))
    }

    /// Walks the directory tree along all path segments but the last (the
    /// file name is not a directory), creating missing nodes on the way
    /// when asked to, and returns the id of the node the walked prefix
    /// names.  The walk never makes a second node for a `(parent, name)`
    /// pair that exists, and a prefix that already resolves leaves the
    /// tree untouched.
    fn traverse_to_subdir(&mut self, path: &Vec<String>, create_dirs: bool) -> (r: Result<
        Option<i64>,
        Error,
    >)
        requires
            old(self).wf(),
            path@.len() >= 1,
        ensures
            final(self).wf(),
            final(self).next_id() == old(self).next_id(),
            final(self).run_ts() == old(self).run_ts(),
            final(self).copies() == old(self).copies(),
            final(self).store().files == old(self).store().files,
            final(self).store().dirs.len() >= old(self).store().dirs.len(),
            final(self).store().dirs.take(old(self).store().dirs.len() as int) == old(self).store().dirs,
            !create_dirs ==> final(self).store().dirs == old(self).store().dirs,
            create_dirs && path@.len() >= 2 && r is Ok ==> r matches Ok(Some(_)),
            r matches Ok(Some(id)) ==> path@.len() >= 2 && lookup_path(
                final(self).store().dirs,
                seg_views(path@).take(path@.len() - 1),
            ) == Some(id as int),
            create_dirs && path@.len() >= 2 && lookup_path(
                old(self).store().dirs,
                seg_views(path@).take(path@.len() - 1),
            ) is Some ==> final(self).store().dirs == old(self).store().dirs,
            !create_dirs && path@.len() >= 2 ==> (r matches Ok(o) ==> (o is None <==> lookup_path(
                old(self).store().dirs,
                seg_views(path@).take(path@.len() - 1),
            ) is None)),
    {
        let ghost dirs0 = self.store().dirs;
        let ghost segv = seg_views(path@);
        let ghost prefix = segv.take(path@.len() - 1);
        let n = path.len();
        proof {
            if n >= 2 {
                assert(prefix[0] == path@[0]@);
                if lookup_path(dirs0, prefix) is Some {
                    assert(has_child(dirs0, None, path@[0]@));
                }
            }
        }
        let root = match self.resolve_root(path[0].as_str(), create_dirs) {
            Ok(o) => o,
            Err(e) => {
                return Err(e);
            }
        };
        let root_id = match root {
            Some(id) => id,
            None => {
                proof {
                    if n >= 2 {
                        assert(lookup_path(dirs0, prefix) is None);
                    }
                }
                return Ok(None);
            }
        };
        if n == 1 {
            return Ok(None);
        }
        proof {
            assert(segv.take(1) =~= seq![path@[0]@]);
            assert(segv.take(1).drop_first() =~= Seq::<Seq<char>>::empty());
            assert(lookup_path(self.store().dirs, segv.take(1)) == Some(root_id as int));
        }
        let ghost dirs_mid = self.store().dirs;
        let r = self.walk_prefix(path, create_dirs, root_id);
        proof {
            lemma_take_chain(self.store().dirs, dirs_mid, dirs0);
            if create_dirs && lookup_path(dirs0, prefix) is Some {
                assert(dirs_mid == dirs0);
            }
        }
        r
    }

    /// Decides whether the file at `path` (its '/'-split segments, root
    /// first, file name last) needs a new backup.  The path's directory
    /// prefix is resolved, creating missing nodes; if the resolved group's
    /// newest record carries exactly `hsh`, that record's timestamp moves
    /// to the run's time and nothing more is owed; anything else — no
    /// record, a tombstone, or another hash — reserves a fresh id,
    /// strictly greater than every id on record, which the caller must
    /// follow with `create_file_entry` to commit.
    pub fn get_file_status(&mut self, path: &Vec<String>, hsh: &str) -> (r: Result<
        FileStatus,
        Error,
    >)
        requires
            old(self).wf(),
            path@.len() >= 2,
            old(self).next_id() < i64::MAX,
        ensures
            final(self).wf(),
            final(self).run_ts() == old(self).run_ts(),
            final(self).copies() == old(self).copies(),
            final(self).store().dirs.len() >= old(self).store().dirs.len(),
            final(self).store().dirs.take(old(self).store().dirs.len() as int) == old(self).store().dirs,
            lookup_path(old(self).store().dirs, seg_views(path@).take(path@.len() - 1)) is Some
                ==> final(self).store().dirs == old(self).store().dirs,
            r is Err ==> final(self).store().files == old(self).store().files && final(self).next_id() == old(self).next_id(),
            r matches Ok(FileStatus::DoesNotNeedBackup) ==> lookup_path(
                final(self).store().dirs,
                seg_views(path@).take(path@.len() - 1),
            ) matches Some(d) && {
                let name = path@[path@.len() - 1]@;
                let li = latest_index(old(self).store().files, d, name);
                &&& final(self).next_id() == old(self).next_id()
                &&& latest_matches(old(self).store().files, d, name, hsh@)
                &&& final(self).store().files == old(self).store().files.update(
                    li,
                    StoredFile {
                        backup_ts: old(self).run_ts(),
                        ..old(self).store().files[li]
                    },
                )
            },
            r matches Ok(FileStatus::NeedsBackup { sub_dir_id, file_id, file_name }) ==> {
                &&& lookup_path(
                    final(self).store().dirs,
                    seg_views(path@).take(path@.len() - 1),
                ) == Some(sub_dir_id as int)
                &&& !latest_matches(
                    old(self).store().files,
                    sub_dir_id as int,
                    path@[path@.len() - 1]@,
                    hsh@,
                )
                &&& file_id as int == old(self).next_id()
                &&& final(self).next_id() == old(self).next_id() + 1
                &&& final(self).store().files == old(self).store().files
                &&& file_name@ == path@[path@.len() - 1]@
                &&& forall|j: int|
                    0 <= j < old(self).store().files.len() ==> (#[trigger] old(self).store().files[j]).id < file_id as int
            },
    {
        let n = path.len();
        let sub_dir = match self.traverse_to_subdir(path, true) {
            Ok(o) => o,
            Err(e) => {
                return Err(e);
            }
        };
        let sub_dir_id = match sub_dir {
            Some(id) => id,
            None => {
                proof {
                    assert(false);
                }
                return Err(Error::DataLayerError(
                    crate::data_layer_error::DataLayerError {
                        err: "directory resolution failed".to_owned(),
                    },
                ));
            }
        };
        let file_name = &path[n - 1];
        let ghost fs0 = self.store().files;
        let ghost name = path@[n - 1]@;
        let latest = match self.data_layer.get_latest_file(sub_dir_id, file_name.as_str()) {
            Ok(o) => o,
            Err(e) => {
                return Err(Error::DataLayerError(e));
            }
        };
        let mut unchanged: bool = false;
        match &latest {
            Some(f) => {
                match &f.hsh {
                    Some(lh) => {
                        if str_eq_str(lh.as_str(), hsh) {
                            unchanged = true;
                        }
                    }
                    None => {}
                }
            }
            None => {}
        }
        proof {
            assert(unchanged == latest_matches(fs0, sub_dir_id as int, name, hsh@)) by {
                match latest {
                    Some(f) => {
                        assert(f@ == data_layer::to_rec(
                            fs0[latest_index(fs0, sub_dir_id as int, name)],
                        ));
                    }
                    None => {}
                }
            }
        }
        if unchanged {
            proof {
                assert(group_exists(self.store().files, sub_dir_id as int, name));
            }
            let ts = self.time_provider.naive_utc_start();
            match self.data_layer.update_latest_hsh_ts(sub_dir_id, file_name.as_str(), ts) {
                Ok(u) => {
                    proof {
                        let li = latest_index(fs0, sub_dir_id as int, name);
                        lemma_latest_index_props(fs0, sub_dir_id as int, name);
                        assert forall|l: int|
                            0 <= l < self.store().files.len() implies (
                        #[trigger] self.store().files[l]).id < self.next_id() by {
                            assert(self.store().files[l].id == fs0[l].id);
                        }
                        assert forall|i: int, l: int|
                            0 <= i < l < self.store().files.len() implies self.store().files[i].id
                            != self.store().files[l].id by {
                            assert(self.store().files[i].id == fs0[i].id);
                            assert(self.store().files[l].id == fs0[l].id);
                        }
                    }
                    Ok(FileStatus::DoesNotNeedBackup)
                }
                Err(e) => Err(Error::DataLayerError(e)),
            }
        } else {
            let file_id = self.next_file_id;
            self.next_file_id = self.next_file_id + 1;
            Ok(FileStatus::NeedsBackup { sub_dir_id, file_id, file_name: file_name.clone() })
        }
    }

    /// Commits a new version record for `(dir_id, file_name)` under the
    /// reserved `file_id` at the run's timestamp.  If the group then holds
    /// more live copies than the retention limit allows, the live record
    /// with the smallest timestamp is deleted and its id handed back, so
    /// that the caller can drop its artifact; tombstones are never evicted.
    pub fn create_file_entry(&mut self, dir_id: i64, file_id: i64, file_name: &str, hsh: &str) -> (r:
        Result<Option<i64>, Error>)
        requires
            old(self).wf(),
            forall|j: int|
                0 <= j < old(self).store().files.len() ==> (#[trigger] old(self).store().files[j]).id != file_id as int,
            (file_id as int) < old(self).next_id(),
        ensures
            final(self).wf(),
            final(self).next_id() == old(self).next_id(),
            final(self).run_ts() == old(self).run_ts(),
            final(self).copies() == old(self).copies(),
            final(self).store().dirs == old(self).store().dirs,
            ({
                let new_rec = StoredFile {
                    dir_id: dir_id as int,
                    version: VERSION as int,
                    id: file_id as int,
                    file_name: file_name@,
                    backup_ts: old(self).run_ts(),
                    hsh: Some(hsh@),
                };
                let mid = old(self).store().files.push(new_rec);
                let g = group_files(mid, dir_id as int, file_name@);
                &&& (r is Err ==> final(self).store().files == old(self).store().files || final(self).store().files == mid)
                &&& (r matches Ok(None) ==> final(self).store().files == mid && live_len(g) <= old(self).copies())
                &&& (r matches Ok(Some(eid)) ==> {
                    &&& final(self).store().files == remove_file_id(mid, eid as int)
                    &&& live_len(g) > old(self).copies()
                    &&& exists|x: int|
                        #![auto]
                        0 <= x < g.len() && g[x].id == eid as int && g[x].hsh is Some && (forall|
                            y: int,
                        |
                            0 <= y < g.len() && (#[trigger] g[y]).hsh is Some ==> g[x].backup_ts
                                <= g[y].backup_ts)
                })
            }),
    {
        let ts = self.time_provider.naive_utc_start();
        match self.data_layer.create_file_entry(dir_id, file_id, file_name, hsh, ts) {
            Ok(u) => {}
            Err(e) => {
                return Err(Error::DataLayerError(e));
            }
        }
        let ghost mid = self.store().files;
        proof {
            assert forall|i: int, l: int|
                0 <= i < l < mid.len() implies mid[i].id != mid[l].id by {
                if l < mid.len() - 1 {
                    assert(mid[i] == old(self).store().files[i]);
                    assert(mid[l] == old(self).store().files[l]);
                } else {
                    assert(mid[i] == old(self).store().files[i]);
                }
            }
            assert forall|j: int|
                0 <= j < mid.len() implies (#[trigger] mid[j]).id < self.next_id() by {
                if j < mid.len() - 1 {
                    assert(mid[j] == old(self).store().files[j]);
                }
            }
        }
        let files_vec = match self.data_layer.get_dir_files(dir_id, file_name) {
            Ok(v) => v,
            Err(e) => {
                return Err(Error::DataLayerError(e));
            }
        };
        let ghost g = group_files(mid, dir_id as int, file_name@);
        proof {
            assert(g.take(0) =~= Seq::<models::FileRec>::empty());
        }
        let m = files_vec.len();
        let mut live: usize = 0;
        let mut best: Option<usize> = None;
        let mut x: usize = 0;
        while x < m
            invariant
                x <= m == files_vec@.len(),
                files_vec@.map_values(|f: models::FileModel| f@) == g,
                live as int == live_len(g.take(x as int)),
                live <= x,
                match best {
                    None => forall|y: int| 0 <= y < x ==> !((#[trigger] g[y]).hsh is Some),
                    Some(b) => {
                        &&& b < x
                        &&& g[b as int].hsh is Some
                        &&& forall|y: int|
                            0 <= y < x && (#[trigger] g[y]).hsh is Some ==> g[b as int].backup_ts
                                <= g[y].backup_ts
                    },
                },
            decreases m - x,
        {
            proof {
                assert(g.take(x + 1).drop_last() =~= g.take(x as int));
                assert(g.take(x + 1).last() == g[x as int]);
                assert(g[x as int] == files_vec@[x as int]@);
            }
            if files_vec[x].hsh.is_some() {
                live += 1;
                match best {
                    None => {
                        best = Some(x);
                    }
                    Some(b) => {
                        if files_vec[x].backup_ts < files_vec[b].backup_ts {
                            best = Some(x);
                        }
                    }
                }
            }
            x += 1;
        }
        proof {
            assert(g.take(m as int) =~= g);
        }
        let limit: usize = self.max_copies as usize;
        if live > limit {
            match best {
                Some(b) => {
                    proof {
                        assert(g[b as int] == files_vec@[b as int]@);
                    }
                    let eid = files_vec[b].id;
                    match self.data_layer.delete_file_entry(eid) {
                        Ok(u) => {
                            proof {
                                data_layer::lemma_remove_file_id_props(mid, eid as int);
                                let fsn = self.store().files;
                                assert forall|j: int|
                                    0 <= j < fsn.len() implies (#[trigger] fsn[j]).id
                                    < self.next_id() by {
                                    let j0 = choose|j0: int|
                                        0 <= j0 < mid.len() && #[trigger] fsn[j] == mid[j0];
                                }
                            }
                            Ok(Some(eid))
                        }
                        Err(e) => Err(Error::DataLayerError(e)),
                    }
                }
                None => {
                    proof {
                        lemma_live_len_zero(g);
                        assert(false);
                    }
                    Err(Error::DataLayerError(
                        crate::data_layer_error::DataLayerError {
                            err: "no live record to evict".to_owned(),
                        },
                    ))
                }
            }
        } else {
            Ok(None)
        }
    }

    /// Ends the run: every `(directory, file name)` group that the run did
    /// not touch receives one tombstone at the run's timestamp, recording
    /// that the file is gone while its history stays.  Only distinct ids
    /// are needed of the store, so the sweep may run again — a second pass
    /// within the same run finds every group already at the run's time and
    /// appends nothing.
    pub fn mark_all_deleted_files(&mut self) -> (r: Result<(), Error>)
        requires
            file_ids_distinct(old(self).store().files),
        ensures
            final(self).run_ts() == old(self).run_ts(),
            final(self).copies() == old(self).copies(),
            final(self).store().dirs == old(self).store().dirs,
            file_ids_distinct(final(self).store().files),
            r is Err ==> final(self).store().files == old(self).store().files,
            r is Ok ==> data_layer::sweep_post(
                old(self).store().files,
                final(self).store().files,
                old(self).run_ts(),
            ),
    {
        let ts = self.time_provider.naive_utc_start();
        match self.data_layer.mark_all_deleted_files(ts) {
            Ok(u) => {
                proof {
                    let fso = old(self).store().files;
                    let fsn = self.store().files;
                    assert forall|i: int, l: int|
                        0 <= i < l < fsn.len() implies fsn[i].id != fsn[l].id by {
                        if l < fso.len() {
                            assert(fsn[i] == fso[i] && fsn[l] == fso[l]);
                        } else if i < fso.len() {
                            assert(fsn[i] == fso[i]);
                        }
                    }
                }
                Ok(())
            }
            Err(e) => Err(Error::DataLayerError(e)),
        }
    }
}

/// A list none of whose records carries a hash has no live records.
proof fn lemma_live_len_zero(rs: Seq<models::FileRec>)
    requires
        forall|y: int| 0 <= y < rs.len() ==> !((#[trigger] rs[y]).hsh is Some),
    ensures
        live_len(rs) == 0,
    decreases rs.len(),
{
    if rs.len() > 0 {
        assert forall|y: int|
            0 <= y < rs.drop_last().len() implies !((#[trigger] rs.drop_last()[y]).hsh
            is Some) by {
            assert(rs.drop_last()[y] == rs[y]);
        }
        lemma_live_len_zero(rs.drop_last());
    }
}


/// A prefix of a prefix is a prefix.
proof fn lemma_take_chain(c: Seq<DirRec>, b: Seq<DirRec>, a: Seq<DirRec>)
    requires
        c.len() >= b.len() >= a.len(),
        c.take(b.len() as int) == b,
        b.take(a.len() as int) == a,
    ensures
        c.take(a.len() as int) == a,
{
    assert(c.take(a.len() as int) =~= a);
}

/// Appending a directory under a fresh id and a `(parent, name)` pair the
/// tree does not carry keeps the tree well formed.
proof fn lemma_dirs_wf_push(dirs: Seq<DirRec>, dirs2: Seq<DirRec>)
    requires
        dirs_wf(dirs),
        dirs2.len() == dirs.len() + 1,
        forall|j: int| 0 <= j < dirs.len() ==> dirs2[j] == dirs[j],
        forall|j: int| 0 <= j < dirs.len() ==> (#[trigger] dirs[j]).id != dirs2[dirs.len() as int].id,
        !has_child(dirs, dirs2[dirs.len() as int].parent_dir_id, dirs2[dirs.len() as int].dir_name),
    ensures
        dirs_wf(dirs2),
{
    assert forall|i: int, j: int|
        0 <= i < j < dirs2.len() implies dirs2[i].id != dirs2[j].id && !(dirs2[i].parent_dir_id
        == dirs2[j].parent_dir_id && dirs2[i].dir_name == dirs2[j].dir_name) by {
        if j < dirs.len() {
            assert(dirs2[i] == dirs[i] && dirs2[j] == dirs[j]);
        } else {
            assert(dirs2[i] == dirs[i]);
            if dirs2[i].parent_dir_id == dirs2[j].parent_dir_id && dirs2[i].dir_name
                == dirs2[j].dir_name {
                assert(has_child(dirs, dirs2[j].parent_dir_id, dirs2[j].dir_name));
            }
        }
    }
}

} // verus!
