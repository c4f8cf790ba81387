//! A generic storage for path-keyed entries, organised as a trie of
//! '/'-separated path segments.

use vstd::prelude::*;
use vstd::string::StrSliceExecFns;

verus! {

/// The position of the first '/' in `p`, or `p.len()` if there is none.
pub closed spec fn first_sep(p: Seq<char>) -> int
    decreases p.len(),
{
    if p.len() == 0 {
        0
    } else if p[0] == '/' {
        0
    } else {
        1 + first_sep(p.drop_first())
    }
}

pub proof fn lemma_first_sep(p: Seq<char>)
    ensures
        0 <= first_sep(p) <= p.len(),
        first_sep(p) < p.len() ==> p[first_sep(p)] == '/',
        forall|i: int| 0 <= i < first_sep(p) ==> p[i] != '/',
    decreases p.len(),
{
    if p.len() != 0 && p[0] != '/' {
        lemma_first_sep(p.drop_first());
        assert forall|i: int| 0 <= i < first_sep(p) implies p[i] != '/' by {
            if i > 0 {
                assert(p.drop_first()[i - 1] != '/');
            }
        }
    }
}

/// The first separator is the unique position that is preceded by no '/'
/// and either holds one or is the end of the path.
pub proof fn lemma_first_sep_unique(p: Seq<char>, k: int)
    requires
        0 <= k <= p.len(),
        k < p.len() ==> p[k] == '/',
        forall|i: int| 0 <= i < k ==> p[i] != '/',
    ensures
        first_sep(p) == k,
    decreases p.len(),
{
    if p.len() != 0 && p[0] != '/' {
        assert(k >= 1);
        lemma_first_sep_unique(p.drop_first(), k - 1);
    }
}

/// The '/'-separated segments of a path.  A path with no separator is a
/// single segment; otherwise the head segment is what precedes the first
/// separator and the rest are the segments of what follows it.
pub closed spec fn segments(p: Seq<char>) -> Seq<Seq<char>>
    decreases p.len(),
    via segments_dec
{
    if first_sep(p) == p.len() {
        seq![p]
    } else {
        seq![p.take(first_sep(p))] + segments(p.skip(first_sep(p) + 1))
    }
}

#[via_fn]
proof fn segments_dec(p: Seq<char>) {
    lemma_first_sep(p);
}

/// How `segments` unfolds at the first separator.
pub proof fn lemma_segments_unfold(p: Seq<char>)
    ensures
        segments(p).len() >= 1,
        first_sep(p) == p.len() ==> segments(p) == seq![p],
        first_sep(p) < p.len() ==> {
            &&& segments(p)[0] == p.take(first_sep(p))
            &&& segments(p).drop_first() == segments(p.skip(first_sep(p) + 1))
            &&& segments(p).len() >= 2
        },
    decreases p.len(),
{
    lemma_first_sep(p);
    if first_sep(p) < p.len() {
        let fs = first_sep(p);
        assert(segments(p) == seq![p.take(fs)] + segments(p.skip(fs + 1)));
        lemma_segments_unfold(p.skip(fs + 1));
        assert(segments(p).drop_first() =~= segments(p.skip(fs + 1)));
    }
}

/// A storage for path-based entries.
///
/// A path such as `"a/b/c"` names the entry `"c"` inside the sub-cache
/// `"b"` inside the sub-cache `"a"`.  Sub-caches and entries are kept as
/// association vectors keyed by the segment name; the first pair with a
/// matching name is the one that counts.
pub struct Cache<T> {
    sub_caches: Vec<(String, Cache<T>)>,
    entries: Vec<(String, T)>,
}

/// The sub-cache stored under `name`, if any (first match).
pub closed spec fn sub_at<T>(subs: Seq<(String, Cache<T>)>, name: Seq<char>) -> Option<Cache<T>>
    decreases subs.len(),
{
    if subs.len() == 0 {
        None
    } else if subs[0].0@ == name {
        Some(subs[0].1)
    } else {
        sub_at(subs.drop_first(), name)
    }
}

/// The entry stored under `name`, if any (first match).
pub closed spec fn entry_at<T>(entries: Seq<(String, T)>, name: Seq<char>) -> Option<T>
    decreases entries.len(),
{
    if entries.len() == 0 {
        None
    } else if entries[0].0@ == name {
        Some(entries[0].1)
    } else {
        entry_at(entries.drop_first(), name)
    }
}

/// The value reached from `c` by walking the segment list `segs`: all but
/// the last segment name sub-caches, the last names an entry.
pub closed spec fn cache_at<T>(c: Cache<T>, segs: Seq<Seq<char>>) -> Option<T>
    decreases segs.len(),
{
    if segs.len() == 0 {
        None
    } else if segs.len() == 1 {
        entry_at(c.entries@, segs[0])
    } else {
        match sub_at(c.sub_caches@, segs[0]) {
            Some(sub) => cache_at(sub, segs.drop_first()),
            None => None,
        }
    }
}

/// Every cache in the pair list is well formed.
pub closed spec fn subs_wf<T>(subs: Seq<(String, Cache<T>)>) -> bool
    decreases subs,
{
    if subs.len() == 0 {
        true
    } else {
        subs[0].1.wf() && subs_wf(subs.drop_first())
    }
}

/// A member of a well-formed pair list is well formed.
proof fn lemma_subs_wf_index<T>(subs: Seq<(String, Cache<T>)>, j: int)
    requires
        subs_wf(subs),
        0 <= j < subs.len(),
    ensures
        subs[j].1.wf(),
    decreases subs.len(),
{
    if j > 0 {
        lemma_subs_wf_index(subs.drop_first(), j - 1);
    }
}

/// A pair list whose members are all well formed is well formed.
proof fn lemma_subs_wf_build<T>(subs: Seq<(String, Cache<T>)>)
    requires
        forall|j: int| 0 <= j < subs.len() ==> (#[trigger] subs[j]).1.wf(),
    ensures
        subs_wf(subs),
    decreases subs.len(),
{
    if subs.len() > 0 {
        assert forall|j: int|
            0 <= j < subs.drop_first().len() implies (#[trigger] subs.drop_first()[j]).1.wf() by {
            assert(subs.drop_first()[j] == subs[j + 1]);
        }
        lemma_subs_wf_build(subs.drop_first());
    }
}

/// The sub-cache reached from `c` by walking every segment of `segs` as a
/// sub-cache name.
pub closed spec fn sub_tree_at<T>(c: Cache<T>, segs: Seq<Seq<char>>) -> Option<Cache<T>>
    decreases segs.len(),
{
    if segs.len() == 0 {
        Some(c)
    } else {
        match sub_at(c.sub_caches@, segs[0]) {
            Some(sub) => sub_tree_at(sub, segs.drop_first()),
            None => None,
        }
    }
}

/// A cache holding exactly one fresh chain: one sub-cache per leading
/// segment, and at the bottom one entry named by the last segment.
pub open spec fn chain_shape<T>(c: Cache<T>, segs: Seq<Seq<char>>) -> bool
    decreases segs.len(),
{
    if segs.len() <= 1 {
        &&& c.sub_names() == Seq::<Seq<char>>::empty()
        &&& c.entry_names() == seq![segs[0]]
    } else {
        &&& c.entry_names() == Seq::<Seq<char>>::empty()
        &&& c.sub_names() == seq![segs[0]]
        &&& c.spec_sub(segs[0]) matches Some(sub) && chain_shape(sub, segs.drop_first())
    }
}

/// What one insert makes of each level it walks: at the last segment an
/// entry is replaced or appended; above it, only the sub-cache named by
/// the head segment changes, freshly created when missing; every other
/// name keeps what it held.
pub open spec fn insert_shape<T>(c_old: Cache<T>, c_new: Cache<T>, segs: Seq<Seq<char>>) -> bool
    decreases segs.len(),
{
    if segs.len() <= 1 {
        &&& c_new.sub_names() == c_old.sub_names()
        &&& (forall|m: Seq<char>| #[trigger] c_new.spec_sub(m) == c_old.spec_sub(m))
        &&& c_new.entry_names() == (if c_old.spec_entry(segs[0]) is Some {
            c_old.entry_names()
        } else {
            c_old.entry_names().push(segs[0])
        })
    } else {
        &&& c_new.entry_names() == c_old.entry_names()
        &&& (forall|m: Seq<char>| #[trigger] c_new.spec_entry(m) == c_old.spec_entry(m))
        &&& c_new.sub_names() == (if c_old.spec_sub(segs[0]) is Some {
            c_old.sub_names()
        } else {
            c_old.sub_names().push(segs[0])
        })
        &&& (forall|m: Seq<char>| m != segs[0] ==> #[trigger] c_new.spec_sub(m) == c_old.spec_sub(m))
        &&& c_new.spec_sub(segs[0]) matches Some(sub_new) && (match c_old.spec_sub(segs[0]) {
            Some(sub_old) => insert_shape(sub_old, sub_new, segs.drop_first()),
            None => chain_shape(sub_new, segs.drop_first()),
        })
    }
}

/// An insert into an empty cache leaves exactly the fresh chain.
proof fn lemma_chain_from_empty<T>(e: Cache<T>, c: Cache<T>, segs: Seq<Seq<char>>)
    requires
        segs.len() >= 1,
        e.sub_names() == Seq::<Seq<char>>::empty(),
        e.entry_names() == Seq::<Seq<char>>::empty(),
        forall|m: Seq<char>| #[trigger] e.spec_sub(m) is None,
        forall|m: Seq<char>| #[trigger] e.spec_entry(m) is None,
        insert_shape(e, c, segs),
    ensures
        chain_shape(c, segs),
{
    if segs.len() == 1 {
        assert(c.entry_names() =~= seq![segs[0]]);
    } else {
        assert(c.sub_names() =~= seq![segs[0]]);
    }
}

impl<T> Cache<T> {
    /// Each level of the trie keys its sub-caches and its entries by
    /// distinct names, and every sub-cache is itself well formed.
    pub closed spec fn wf(self) -> bool
        decreases self,
    {
        &&& (forall|i: int, j: int|
            0 <= i < j < self.sub_caches@.len() ==> self.sub_caches@[i].0@
                != self.sub_caches@[j].0@)
        &&& (forall|i: int, j: int|
            0 <= i < j < self.entries@.len() ==> self.entries@[i].0@ != self.entries@[j].0@)
        &&& subs_wf(self.sub_caches@)
    }

    /// The names of the direct sub-caches, in insertion order.
    pub closed spec fn sub_names(self) -> Seq<Seq<char>> {
        self.sub_caches@.map_values(|p: (String, Cache<T>)| p.0@)
    }

    /// The names of the entries stored directly at this level, in insertion order.
    pub closed spec fn entry_names(self) -> Seq<Seq<char>> {
        self.entries@.map_values(|p: (String, T)| p.0@)
    }

    /// The sub-cache this level stores directly under `name`, if any.
    pub closed spec fn spec_sub(self, name: Seq<char>) -> Option<Cache<T>> {
        sub_at(self.sub_caches@, name)
    }

    /// The entry this level stores directly under `name`, if any.
    pub closed spec fn spec_entry(self, name: Seq<char>) -> Option<T> {
        entry_at(self.entries@, name)
    }

    /// Creates a new, empty `Cache`.
    pub fn new() -> (r: Self)
        ensures
            r.wf(),
            r.sub_names() == Seq::<Seq<char>>::empty(),
            r.entry_names() == Seq::<Seq<char>>::empty(),
            forall|q: Seq<Seq<char>>| cache_at(r, q) is None,
            forall|q: Seq<Seq<char>>| q.len() != 0 ==> sub_tree_at(r, q) is None,
            forall|m: Seq<char>| #[trigger] r.spec_sub(m) is None,
            forall|m: Seq<char>| #[trigger] r.spec_entry(m) is None,
    {
        let r = Self { sub_caches: Vec::new(), entries: Vec::new() };
        proof {
            assert(r.sub_names() =~= Seq::<Seq<char>>::empty());
            assert(r.entry_names() =~= Seq::<Seq<char>>::empty());
            assert forall|q: Seq<Seq<char>>| cache_at(r, q) is None by {
                if q.len() == 1 {
                    assert(entry_at(r.entries@, q[0]) is None);
                } else if q.len() > 1 {
                    assert(sub_at(r.sub_caches@, q[0]) is None);
                }
            }
            assert forall|q: Seq<Seq<char>>| q.len() != 0 implies sub_tree_at(r, q) is None by {
                assert(sub_at(r.sub_caches@, q[0]) is None);
            }
        }
        r
    }

    /// How many entries are stored directly at this level.
    pub fn entry_count(&self) -> (n: usize)
        ensures
            n == self.entry_names().len(),
    {
        self.entries.len()
    }

    /// How many sub-caches hang directly off this level.
    pub fn sub_cache_count(&self) -> (n: usize)
        ensures
            n == self.sub_names().len(),
    {
        self.sub_caches.len()
    }

    /// The sub-cache stored directly under `name`, if any.
    pub fn sub_cache(&self, name: &str) -> (r: Option<&Cache<T>>)
        ensures
            match r {
                Some(c) => self.spec_sub(name@) == Some(*c),
                None => self.spec_sub(name@) is None,
            },
    {
        let n = self.sub_caches.len();
        let mut i: usize = 0;
        while i < n
            invariant
                i <= n == self.sub_caches@.len(),
                forall|j: int| 0 <= j < i ==> self.sub_caches@[j].0@ != name@,
            decreases n - i,
        {
            if str_eq_str(self.sub_caches[i].0.as_str(), name) {
                proof {
                    lemma_assoc_sub_found(self.sub_caches@, name@, i as int);
                }
                return Some(&self.sub_caches[i].1);
            }
            i += 1;
        }
        proof {
            lemma_assoc_sub_none(self.sub_caches@, name@);
        }
        None
    }

    /// The entry stored directly under `name`, if any.
    pub fn entry(&self, name: &str) -> (r: Option<&T>)
        ensures
            match r {
                Some(v) => self.spec_entry(name@) == Some(*v),
                None => self.spec_entry(name@) is None,
            },
    {
        let n = self.entries.len();
        let mut i: usize = 0;
        while i < n
            invariant
                i <= n == self.entries@.len(),
                forall|j: int| 0 <= j < i ==> self.entries@[j].0@ != name@,
            decreases n - i,
        {
            if str_eq_str(self.entries[i].0.as_str(), name) {
                proof {
                    lemma_assoc_entry_found(self.entries@, name@, i as int);
                }
                return Some(&self.entries[i].1);
            }
            i += 1;
        }
        proof {
            lemma_assoc_entry_none(self.entries@, name@);
        }
        None
    }

    /// The first position among the sub-caches that carries `name`.
    fn find_sub_index(&self, name: &str) -> (r: Option<usize>)
        ensures
            match r {
                Some(i) => {
                    &&& i < self.sub_caches@.len()
                    &&& self.sub_caches@[i as int].0@ == name@
                    &&& forall|j: int| 0 <= j < i ==> self.sub_caches@[j].0@ != name@
                },
                None => forall|j: int|
                    0 <= j < self.sub_caches@.len() ==> self.sub_caches@[j].0@ != name@,
            },
    {
        let n = self.sub_caches.len();
        let mut i: usize = 0;
        while i < n
            invariant
                i <= n == self.sub_caches@.len(),
                forall|j: int| 0 <= j < i ==> self.sub_caches@[j].0@ != name@,
            decreases n - i,
        {
            if str_eq_str(self.sub_caches[i].0.as_str(), name) {
                return Some(i);
            }
            i += 1;
        }
        None
    }

    /// The first position among the entries that carries `name`.
    fn find_entry_index(&self, name: &str) -> (r: Option<usize>)
        ensures
            match r {
                Some(i) => {
                    &&& i < self.entries@.len()
                    &&& self.entries@[i as int].0@ == name@
                    &&& forall|j: int| 0 <= j < i ==> self.entries@[j].0@ != name@
                },
                None => forall|j: int|
                    0 <= j < self.entries@.len() ==> self.entries@[j].0@ != name@,
            },
    {
        let n = self.entries.len();
        let mut i: usize = 0;
        while i < n
            invariant
                i <= n == self.entries@.len(),
                forall|j: int| 0 <= j < i ==> self.entries@[j].0@ != name@,
            decreases n - i,
        {
            if str_eq_str(self.entries[i].0.as_str(), name) {
                return Some(i);
            }
            i += 1;
        }
        None
    }

    /// Inserts the provided entry into the `Cache` with the given path and
    /// name.  The entry reached by the path's segments is set to `entr`;
    /// every other path keeps what it held, and missing intermediate
    /// sub-caches are created on the way down.
    pub fn insert(&mut self, path: &str, entr: T)
        requires
            old(self).wf(),
        ensures
            final(self).wf(),
            forall|q: Seq<Seq<char>>| #![auto]
                cache_at(*final(self), q) == (if q == segments(path@) {
                    Some(entr)
                } else {
                    cache_at(*old(self), q)
                }),
            insert_shape(*old(self), *final(self), segments(path@)),
        decreases path@.len(),
    {
        proof {
            lemma_first_sep(path@);
            lemma_segments_unfold(path@);
        }
        let ghost segs = segments(path@);
        let (pfx, sfx) = split_first_seg(path);
        match sfx {
            Some(sfx) => {
                let i: usize;
                match self.find_sub_index(pfx) {
                    Some(j) => {
                        i = j;
                    }
                    None => {
                        i = self.sub_caches.len();
                        let fresh = Cache::new();
                        self.sub_caches.push((pfx.to_owned(), fresh));
                    }
                }
                let ghost mid = *self;
                let ghost base_sub = self.sub_caches@[i as int].1;
                proof {
                    assert(mid.entries@ == old(self).entries@);
                    assert(mid.sub_caches@[i as int].0@ == pfx@);
                    assert(forall|j: int| 0 <= j < i ==> mid.sub_caches@[j].0@ != pfx@);
                    if (i as int) < old(self).sub_caches@.len() {
                        lemma_subs_wf_index(old(self).sub_caches@, i as int);
                    }
                    assert(base_sub.wf());
                }
                let pair = &mut self.sub_caches[i];
                pair.1.insert(sfx, entr);
                proof {
                    let upd = mid.sub_caches@.update(
                        i as int,
                        (mid.sub_caches@[i as int].0, self.sub_caches@[i as int].1),
                    );
                    assert(self.sub_caches@ =~= upd);
                    let new_sub = self.sub_caches@[i as int].1;
                    lemma_sub_at_update(
                        mid.sub_caches@,
                        i as int,
                        mid.sub_caches@[i as int].0,
                        new_sub,
                    );
                    assert(sub_at(self.sub_caches@, pfx@) == Some(new_sub));
                    lemma_insert_lift(
                        *old(self),
                        mid,
                        *self,
                        i as int,
                        base_sub,
                        new_sub,
                        pfx@,
                        sfx@,
                        segs,
                        entr,
                    );
                    let pushed = mid.sub_caches@ != old(self).sub_caches@;
                    if pushed {
                        lemma_sub_at_push(
                            old(self).sub_caches@,
                            mid.sub_caches@[i as int].0,
                            base_sub,
                        );
                        lemma_assoc_sub_none(old(self).sub_caches@, pfx@);
                        assert forall|x: int|
                            0 <= x < self.sub_caches@.len() implies self.sub_names()[x] == old(
                            self,
                        ).sub_names().push(pfx@)[x] by {
                            if x < old(self).sub_caches@.len() {
                                assert(self.sub_caches@[x].0 == old(self).sub_caches@[x].0);
                            } else {
                                assert(self.sub_caches@[x].0 == mid.sub_caches@[i as int].0);
                            }
                        }
                        assert(self.sub_names() =~= old(self).sub_names().push(pfx@));
                        lemma_chain_from_empty(base_sub, new_sub, segs.drop_first());
                    } else {
                        lemma_assoc_sub_found(old(self).sub_caches@, pfx@, i as int);
                        assert forall|x: int|
                            0 <= x < self.sub_caches@.len() implies self.sub_names()[x] == old(
                            self,
                        ).sub_names()[x] by {
                            assert(self.sub_caches@[x].0 == old(self).sub_caches@[x].0);
                        }
                        assert(self.sub_names() =~= old(self).sub_names());
                    }
                    assert(self.entry_names() =~= old(self).entry_names());
                    assert(insert_shape(*old(self), *self, segs));
                }
            }
            None => {
                match self.find_entry_index(pfx) {
                    Some(i) => {
                        let ghost mid = *self;
                        let e = &mut self.entries[i];
                        e.1 = entr;
                        proof {
                            let upd = mid.entries@.update(
                                i as int,
                                (mid.entries@[i as int].0, entr),
                            );
                            assert(self.entries@ =~= upd);
                            lemma_entry_at_update(
                                mid.entries@,
                                i as int,
                                mid.entries@[i as int].0,
                                entr,
                            );
                            assert forall|x: int, y: int|
                                0 <= x < y < self.entries@.len() implies self.entries@[x].0@
                                != self.entries@[y].0@ by {
                                assert(self.entries@[x].0 == mid.entries@[x].0);
                                assert(self.entries@[y].0 == mid.entries@[y].0);
                            }
                            lemma_assoc_entry_found(mid.entries@, pfx@, i as int);
                            assert forall|x: int|
                                0 <= x < self.entries@.len() implies self.entry_names()[x]
                                == mid.entry_names()[x] by {
                                assert(self.entries@[x].0 == mid.entries@[x].0);
                            }
                            assert(self.entry_names() =~= mid.entry_names());
                        }
                    }
                    None => {
                        let ghost mid = *self;
                        self.entries.push((pfx.to_owned(), entr));
                        proof {
                            lemma_entry_at_push(
                                mid.entries@,
                                self.entries@[self.entries@.len() - 1].0,
                                entr,
                            );
                            assert forall|x: int, y: int|
                                0 <= x < y < self.entries@.len() implies self.entries@[x].0@
                                != self.entries@[y].0@ by {
                                assert(self.entries@[x].0 == mid.entries@[x].0);
                                if y == self.entries@.len() - 1 {
                                    assert(self.entries@[y].0@ == pfx@);
                                } else {
                                    assert(self.entries@[y].0 == mid.entries@[y].0);
                                }
                            }
                            lemma_assoc_entry_none(mid.entries@, pfx@);
                            assert forall|x: int|
                                0 <= x < self.entries@.len() implies self.entry_names()[x]
                                == mid.entry_names().push(pfx@)[x] by {
                                if x < mid.entries@.len() {
                                    assert(self.entries@[x].0 == mid.entries@[x].0);
                                } else {
                                    assert(self.entries@[x].0@ == pfx@);
                                }
                            }
                            assert(self.entry_names() =~= mid.entry_names().push(pfx@));
                        }
                    }
                }
                proof {
                    assert(self.sub_caches@ == old(self).sub_caches@);
                    assert(subs_wf(self.sub_caches@));
                    assert(self.wf());
                    assert(entry_at(self.entries@, pfx@) == Some(entr));
                    assert(forall|n: Seq<char>|
                        n != pfx@ ==> entry_at(self.entries@, n) == entry_at(
                            old(self).entries@,
                            n,
                        ));
                    assert forall|q: Seq<Seq<char>>| #![auto]
                        cache_at(*self, q) == (if q == segs {
                            Some(entr)
                        } else {
                            cache_at(*old(self), q)
                        }) by {
                        if q.len() == 1 {
                            if q[0] == pfx@ {
                                assert(q =~= segs);
                            }
                        } else if q.len() > 1 {
                            assert(q != segs);
                            assert(cache_at(*self, q) == cache_at(*old(self), q));
                        }
                    }
                    assert(self.sub_names() =~= old(self).sub_names());
                    assert(insert_shape(*old(self), *self, segs));
                }
            }
        }
    }

    /// Removes the item, whether sub-`Cache` or entry, from the `Cache`, if
    /// found.  A sub-cache found at the path's segments is removed with
    /// everything below it, and nothing is returned; otherwise the entry
    /// found there is removed and returned.
    pub fn remove(&mut self, entr: &str) -> (r: Option<T>)
        requires
            old(self).wf(),
        ensures
            final(self).wf(),
            ({
                let segs = segments(entr@);
                if sub_tree_at(*old(self), segs) is Some {
                    &&& r is None
                    &&& forall|q: Seq<Seq<char>>| #![auto]
                        cache_at(*final(self), q) == (if q.len() > segs.len() && q.take(
                            segs.len() as int,
                        ) == segs {
                            None
                        } else {
                            cache_at(*old(self), q)
                        })
                } else {
                    &&& r == cache_at(*old(self), segs)
                    &&& forall|q: Seq<Seq<char>>| #![auto]
                        cache_at(*final(self), q) == (if q == segs {
                            None::<T>
                        } else {
                            cache_at(*old(self), q)
                        })
                }
            }),
        decreases entr@.len(),
    {
        proof {
            lemma_first_sep(entr@);
            lemma_segments_unfold(entr@);
        }
        let ghost segs = segments(entr@);
        let (pfx, sfx) = split_first_seg(entr);
        match sfx {
            Some(sfx) => {
                match self.find_sub_index(pfx) {
                    Some(i) => {
                        let ghost base_sub = self.sub_caches@[i as int].1;
                        proof {
                            lemma_subs_wf_index(old(self).sub_caches@, i as int);
                        }
                        let pair = &mut self.sub_caches[i];
                        let r = pair.1.remove(sfx);
                        proof {
                            let upd = old(self).sub_caches@.update(
                                i as int,
                                (old(self).sub_caches@[i as int].0, self.sub_caches@[i as int].1),
                            );
                            assert(self.sub_caches@ =~= upd);
                            lemma_remove_lift(
                                *old(self),
                                *self,
                                i as int,
                                base_sub,
                                self.sub_caches@[i as int].1,
                                pfx@,
                                sfx@,
                                segs,
                                r,
                            );
                        }
                        r
                    }
                    None => {
                        proof {
                            lemma_assoc_sub_none(self.sub_caches@, pfx@);
                            assert(sub_tree_at(*old(self), segs) is None);
                            assert(cache_at(*old(self), segs) is None);
                        }
                        None
                    }
                }
            }
            None => {
                proof {
                    assert(segs =~= seq![pfx@]);
                }
                match self.find_sub_index(pfx) {
                    Some(i) => {
                        proof {
                            lemma_assoc_sub_found(self.sub_caches@, pfx@, i as int);
                            let found = self.sub_caches@[i as int].1;
                            assert(segs.drop_first().len() == 0);
                            assert(sub_tree_at(found, segs.drop_first()) matches Some(_));
                            assert(sub_tree_at(*old(self), segs) matches Some(_));
                        }
                        self.sub_caches.remove(i);
                        proof {
                            let subs_old = old(self).sub_caches@;
                            assert forall|j: int|
                                0 <= j < subs_old.len() && j != i ==> subs_old[j].0@ != pfx@ by {}
                            lemma_sub_at_remove(subs_old, i as int);
                            assert forall|j: int|
                                0 <= j < self.sub_caches@.len() implies (
                                #[trigger] self.sub_caches@[j]).1.wf() by {
                                if j < i {
                                    assert(self.sub_caches@[j] == subs_old[j]);
                                    lemma_subs_wf_index(subs_old, j);
                                } else {
                                    assert(self.sub_caches@[j] == subs_old[j + 1]);
                                    lemma_subs_wf_index(subs_old, j + 1);
                                }
                            }
                            lemma_subs_wf_build(self.sub_caches@);
                            assert forall|x: int, y: int|
                                0 <= x < y < self.sub_caches@.len() implies self.sub_caches@[x].0@
                                != self.sub_caches@[y].0@ by {
                                let xo: int = if x < i {
                                    x
                                } else {
                                    x + 1
                                };
                                let yo: int = if y < i {
                                    y
                                } else {
                                    y + 1
                                };
                                assert(self.sub_caches@[x] == subs_old[xo]);
                                assert(self.sub_caches@[y] == subs_old[yo]);
                            }
                            assert(self.wf());
                            assert forall|q: Seq<Seq<char>>| #![auto]
                                cache_at(*self, q) == (if q.len() > segs.len() && q.take(
                                    segs.len() as int,
                                ) == segs {
                                    None::<T>
                                } else {
                                    cache_at(*old(self), q)
                                }) by {
                                if q.len() > 1 {
                                    if q[0] == pfx@ {
                                        assert(q.take(1) =~= segs);
                                    } else {
                                        assert(q.take(1) != segs) by {
                                            assert(q.take(1)[0] == q[0]);
                                        }
                                        assert(cache_at(*self, q) == cache_at(*old(self), q));
                                    }
                                } else if q.len() == 1 {
                                    assert(cache_at(*self, q) == entry_at(self.entries@, q[0]));
                                }
                            }
                        }
                        None
                    }
                    None => {
                        proof {
                            lemma_assoc_sub_none(self.sub_caches@, pfx@);
                            assert(sub_tree_at(*old(self), segs) is None);
                        }
                        match self.find_entry_index(pfx) {
                            Some(i) => {
                                proof {
                                    lemma_assoc_entry_found(self.entries@, pfx@, i as int);
                                }
                                let p = self.entries.remove(i);
                                proof {
                                    let es_old = old(self).entries@;
                                    assert forall|j: int|
                                        0 <= j < es_old.len() && j != i ==> es_old[j].0@
                                        != pfx@ by {}
                                    lemma_entry_at_remove(es_old, i as int);
                                    assert forall|x: int, y: int|
                                        0 <= x < y < self.entries@.len() implies self.entries@[x].0@
                                        != self.entries@[y].0@ by {
                                        let xo: int = if x < i {
                                            x
                                        } else {
                                            x + 1
                                        };
                                        let yo: int = if y < i {
                                            y
                                        } else {
                                            y + 1
                                        };
                                        assert(self.entries@[x] == es_old[xo]);
                                        assert(self.entries@[y] == es_old[yo]);
                                    }
                                    assert(self.wf());
                                    assert forall|q: Seq<Seq<char>>| #![auto]
                                        cache_at(*self, q) == (if q == segs {
                                            None::<T>
                                        } else {
                                            cache_at(*old(self), q)
                                        }) by {
                                        if q.len() == 1 {
                                            if q[0] == pfx@ {
                                                assert(q =~= segs);
                                            }
                                        }
                                    }
                                }
                                Some(p.1)
                            }
                            None => {
                                proof {
                                    lemma_assoc_entry_none(self.entries@, pfx@);
                                }
                                None
                            }
                        }
                    }
                }
            }
        }
    }

    /// Gets the value of the entry found at the given entry path.
    pub fn get(&self, entr_path: &str) -> (r: Option<&T>)
        ensures
            match r {
                Some(v) => cache_at(*self, segments(entr_path@)) == Some(*v),
                None => cache_at(*self, segments(entr_path@)) is None,
            },
        decreases entr_path@.len(),
    {
        proof {
            lemma_first_sep(entr_path@);
            lemma_segments_unfold(entr_path@);
        }
        let ghost segs = segments(entr_path@);
        let (pfx, sfx) = split_first_seg(entr_path);
        match sfx {
            Some(sfx) => {
                proof {
                    assert(segs[0] == pfx@);
                    assert(segs.drop_first() == segments(sfx@));
                    assert(segs.len() >= 2);
                }
                match self.sub_cache(pfx) {
                    None => {
                        assert(cache_at(*self, segs) is None);
                        None
                    }
                    Some(cache) => {
                        let r = cache.get(sfx);
                        proof {
                            assert(cache_at(*self, segs) == cache_at(*cache, segments(sfx@)));
                        }
                        r
                    }
                }
            }
            None => self.entry(pfx),
        }
    }
}

proof fn lemma_seq_push_drop_first<A>(s: Seq<A>, x: A)
    requires
        s.len() > 0,
    ensures
        s.push(x).drop_first() == s.drop_first().push(x),
{
    assert(s.push(x).drop_first() =~= s.drop_first().push(x));
}

proof fn lemma_seq_update_drop_first<A>(s: Seq<A>, i: int, x: A)
    requires
        1 <= i < s.len(),
    ensures
        s.update(i, x).drop_first() == s.drop_first().update(i - 1, x),
{
    assert(s.update(i, x).drop_first() =~= s.drop_first().update(i - 1, x));
}

/// Appending a pair whose name is new makes the lookup of that name find it
/// and leaves every other lookup alone.
proof fn lemma_sub_at_push<T>(subs: Seq<(String, Cache<T>)>, k: String, c: Cache<T>)
    requires
        forall|j: int| 0 <= j < subs.len() ==> subs[j].0@ != k@,
    ensures
        sub_at(subs.push((k, c)), k@) == Some(c),
        forall|n: Seq<char>| n != k@ ==> sub_at(subs.push((k, c)), n) == sub_at(subs, n),
    decreases subs.len(),
{
    let s2 = subs.push((k, c));
    if subs.len() == 0 {
        assert(s2[0] == (k, c));
        assert forall|n: Seq<char>| n != k@ implies sub_at(s2, n) == sub_at(subs, n) by {
            assert(s2.drop_first() =~= subs);
            assert(sub_at(s2, n) == sub_at(s2.drop_first(), n));
        }
    } else {
        lemma_seq_push_drop_first(subs, (k, c));
        lemma_sub_at_push(subs.drop_first(), k, c);
        assert(s2[0] == subs[0]);
        assert(s2.drop_first() == subs.drop_first().push((k, c)));
        assert forall|n: Seq<char>| n != k@ implies sub_at(s2, n) == sub_at(subs, n) by {
            if subs[0].0@ != n {
                assert(sub_at(s2, n) == sub_at(s2.drop_first(), n));
                assert(sub_at(subs, n) == sub_at(subs.drop_first(), n));
            }
        }
    }
}

/// Replacing the first pair that carries a name, key kept, makes the lookup
/// of that name find the replacement and leaves every other lookup alone.
proof fn lemma_sub_at_update<T>(subs: Seq<(String, Cache<T>)>, i: int, k: String, c: Cache<T>)
    requires
        0 <= i < subs.len(),
        subs[i].0@ == k@,
        forall|j: int| 0 <= j < i ==> subs[j].0@ != k@,
    ensures
        sub_at(subs.update(i, (k, c)), k@) == Some(c),
        forall|n: Seq<char>|
            n != k@ ==> sub_at(subs.update(i, (k, c)), n) == sub_at(subs, n),
    decreases subs.len(),
{
    let s2 = subs.update(i, (k, c));
    if i == 0 {
        assert(s2[0] == (k, c));
        assert(s2.drop_first() =~= subs.drop_first());
        assert forall|n: Seq<char>| n != k@ implies sub_at(s2, n) == sub_at(subs, n) by {
            assert(sub_at(s2, n) == sub_at(s2.drop_first(), n));
            assert(sub_at(subs, n) == sub_at(subs.drop_first(), n));
        }
    } else {
        lemma_seq_update_drop_first(subs, i, (k, c));
        lemma_sub_at_update(subs.drop_first(), i - 1, k, c);
        assert(s2[0] == subs[0]);
        assert forall|n: Seq<char>| n != k@ implies sub_at(s2, n) == sub_at(subs, n) by {
            if subs[0].0@ != n {
                assert(sub_at(s2, n) == sub_at(s2.drop_first(), n));
                assert(sub_at(subs, n) == sub_at(subs.drop_first(), n));
            }
        }
        assert(sub_at(s2, k@) == sub_at(s2.drop_first(), k@));
    }
}

proof fn lemma_entry_at_push<T>(entries: Seq<(String, T)>, k: String, v: T)
    requires
        forall|j: int| 0 <= j < entries.len() ==> entries[j].0@ != k@,
    ensures
        entry_at(entries.push((k, v)), k@) == Some(v),
        forall|n: Seq<char>|
            n != k@ ==> entry_at(entries.push((k, v)), n) == entry_at(entries, n),
    decreases entries.len(),
{
    let s2 = entries.push((k, v));
    if entries.len() == 0 {
        assert(s2[0] == (k, v));
        assert forall|n: Seq<char>| n != k@ implies entry_at(s2, n) == entry_at(entries, n) by {
            assert(s2.drop_first() =~= entries);
            assert(entry_at(s2, n) == entry_at(s2.drop_first(), n));
        }
    } else {
        lemma_seq_push_drop_first(entries, (k, v));
        lemma_entry_at_push(entries.drop_first(), k, v);
        assert(s2[0] == entries[0]);
        assert(s2.drop_first() == entries.drop_first().push((k, v)));
        assert forall|n: Seq<char>| n != k@ implies entry_at(s2, n) == entry_at(entries, n) by {
            if entries[0].0@ != n {
                assert(entry_at(s2, n) == entry_at(s2.drop_first(), n));
                assert(entry_at(entries, n) == entry_at(entries.drop_first(), n));
            }
        }
    }
}

proof fn lemma_entry_at_update<T>(entries: Seq<(String, T)>, i: int, k: String, v: T)
    requires
        0 <= i < entries.len(),
        entries[i].0@ == k@,
        forall|j: int| 0 <= j < i ==> entries[j].0@ != k@,
    ensures
        entry_at(entries.update(i, (k, v)), k@) == Some(v),
        forall|n: Seq<char>|
            n != k@ ==> entry_at(entries.update(i, (k, v)), n) == entry_at(entries, n),
    decreases entries.len(),
{
    let s2 = entries.update(i, (k, v));
    if i == 0 {
        assert(s2[0] == (k, v));
        assert(s2.drop_first() =~= entries.drop_first());
        assert forall|n: Seq<char>| n != k@ implies entry_at(s2, n) == entry_at(entries, n) by {
            assert(entry_at(s2, n) == entry_at(s2.drop_first(), n));
            assert(entry_at(entries, n) == entry_at(entries.drop_first(), n));
        }
    } else {
        lemma_seq_update_drop_first(entries, i, (k, v));
        lemma_entry_at_update(entries.drop_first(), i - 1, k, v);
        assert(s2[0] == entries[0]);
        assert forall|n: Seq<char>| n != k@ implies entry_at(s2, n) == entry_at(entries, n) by {
            if entries[0].0@ != n {
                assert(entry_at(s2, n) == entry_at(s2.drop_first(), n));
                assert(entry_at(entries, n) == entry_at(entries.drop_first(), n));
            }
        }
        assert(entry_at(s2, k@) == entry_at(s2.drop_first(), k@));
    }
}

/// Lifts the contract of a recursive insert into a sub-cache to the level
/// above it: the parent before the walk (`s_old`), with the missing
/// sub-cache possibly already added (`mid`), and after the sub-cache was
/// replaced by the recursion's result (`s_new`).
proof fn lemma_insert_lift<T>(
    s_old: Cache<T>,
    mid: Cache<T>,
    s_new: Cache<T>,
    i: int,
    base_sub: Cache<T>,
    new_sub: Cache<T>,
    pfx: Seq<char>,
    sfx: Seq<char>,
    segs: Seq<Seq<char>>,
    entr: T,
)
    requires
        s_old.wf(),
        segs.len() >= 2,
        segs[0] == pfx,
        segs.drop_first() == segments(sfx),
        mid.entries@ == s_old.entries@,
        0 <= i < mid.sub_caches@.len(),
        mid.sub_caches@[i].0@ == pfx,
        forall|j: int| 0 <= j < i ==> mid.sub_caches@[j].0@ != pfx,
        base_sub == mid.sub_caches@[i].1,
        mid.sub_caches@ == s_old.sub_caches@ || {
            &&& i == s_old.sub_caches@.len()
            &&& mid.sub_caches@ == s_old.sub_caches@.push(mid.sub_caches@[i])
            &&& forall|j: int|
                0 <= j < s_old.sub_caches@.len() ==> s_old.sub_caches@[j].0@ != pfx
            &&& forall|p: Seq<Seq<char>>| cache_at(base_sub, p) is None
            &&& base_sub.wf()
        },
        s_new.entries@ == mid.entries@,
        s_new.sub_caches@ == mid.sub_caches@.update(i, (mid.sub_caches@[i].0, new_sub)),
        new_sub.wf(),
        forall|p: Seq<Seq<char>>| #![auto]
            cache_at(new_sub, p) == (if p == segments(sfx) {
                Some(entr)
            } else {
                cache_at(base_sub, p)
            }),
    ensures
        s_new.wf(),
        forall|q: Seq<Seq<char>>| #![auto]
            cache_at(s_new, q) == (if q == segs {
                Some(entr)
            } else {
                cache_at(s_old, q)
            }),
{
    let pushed = mid.sub_caches@ != s_old.sub_caches@;

    // Well-formedness of the result.
    assert forall|x: int, y: int|
        0 <= x < y < s_new.sub_caches@.len() implies s_new.sub_caches@[x].0@
        != s_new.sub_caches@[y].0@ by {
        assert(s_new.sub_caches@[x].0@ == mid.sub_caches@[x].0@);
        assert(s_new.sub_caches@[y].0@ == mid.sub_caches@[y].0@);
        if pushed {
            if y < i {
                assert(mid.sub_caches@[x].0@ == s_old.sub_caches@[x].0@);
                assert(mid.sub_caches@[y].0@ == s_old.sub_caches@[y].0@);
            } else {
                assert(y == i);
                assert(mid.sub_caches@[x].0@ == s_old.sub_caches@[x].0@);
            }
        }
    }
    assert forall|j: int|
        0 <= j < s_new.sub_caches@.len() implies (#[trigger] s_new.sub_caches@[j]).1.wf() by {
        if j == i {
            assert(s_new.sub_caches@[j].1 == new_sub);
        } else {
            assert(s_new.sub_caches@[j].1 == mid.sub_caches@[j].1);
            if pushed {
                assert(mid.sub_caches@[j].1 == s_old.sub_caches@[j].1);
                lemma_subs_wf_index(s_old.sub_caches@, j);
            } else {
                lemma_subs_wf_index(s_old.sub_caches@, j);
            }
        }
    }
    lemma_subs_wf_build(s_new.sub_caches@);
    assert(s_new.wf());

    // What the lookups see.
    lemma_sub_at_update(mid.sub_caches@, i, mid.sub_caches@[i].0, new_sub);
    assert(sub_at(s_new.sub_caches@, pfx) == Some(new_sub));
    if pushed {
        lemma_sub_at_push(s_old.sub_caches@, mid.sub_caches@[i].0, base_sub);
        lemma_assoc_sub_none(s_old.sub_caches@, pfx);
        assert(sub_at(s_old.sub_caches@, pfx) is None);
    } else {
        lemma_assoc_sub_found(mid.sub_caches@, pfx, i);
        assert(sub_at(s_old.sub_caches@, pfx) == Some(base_sub));
    }

    assert forall|q: Seq<Seq<char>>| #![auto]
        cache_at(s_new, q) == (if q == segs {
            Some(entr)
        } else {
            cache_at(s_old, q)
        }) by {
        if q.len() == 0 {
        } else if q.len() == 1 {
            assert(q != segs);
            assert(cache_at(s_new, q) == entry_at(s_new.entries@, q[0]));
            assert(cache_at(s_old, q) == entry_at(s_old.entries@, q[0]));
        } else {
            if q[0] == pfx {
                assert(cache_at(s_new, q) == cache_at(new_sub, q.drop_first()));
                if q == segs {
                    assert(q.drop_first() == segments(sfx));
                    assert(cache_at(s_new, q) == Some(entr));
                } else {
                    assert(q.drop_first() != segments(sfx)) by {
                        if q.drop_first() == segments(sfx) {
                            assert(q.len() == segs.len());
                            assert forall|x: int| 0 <= x < q.len() implies q[x] == segs[x] by {
                                if x > 0 {
                                    assert(q[x] == q.drop_first()[x - 1]);
                                    assert(segs[x] == segs.drop_first()[x - 1]);
                                }
                            }
                            assert(q =~= segs);
                        }
                    }
                    assert(cache_at(new_sub, q.drop_first()) == cache_at(
                        base_sub,
                        q.drop_first(),
                    ));
                    if pushed {
                        assert(cache_at(s_old, q) is None);
                        assert(cache_at(base_sub, q.drop_first()) is None);
                    } else {
                        assert(cache_at(s_old, q) == cache_at(base_sub, q.drop_first()));
                    }
                }
            } else {
                assert(q != segs);
                assert(sub_at(s_new.sub_caches@, q[0]) == sub_at(mid.sub_caches@, q[0]));
                if pushed {
                    assert(sub_at(mid.sub_caches@, q[0]) == sub_at(s_old.sub_caches@, q[0]));
                }
                assert(cache_at(s_new, q) == cache_at(s_old, q));
            }
        }
    }
}

/// Taking out the only pair that carries a name makes the lookup of that
/// name find nothing and leaves every other lookup alone.
proof fn lemma_sub_at_remove<T>(subs: Seq<(String, Cache<T>)>, i: int)
    requires
        0 <= i < subs.len(),
        forall|j: int| 0 <= j < subs.len() && j != i ==> subs[j].0@ != subs[i].0@,
    ensures
        sub_at(subs.remove(i), subs[i].0@) is None,
        forall|n: Seq<char>| n != subs[i].0@ ==> sub_at(subs.remove(i), n) == sub_at(subs, n),
    decreases subs.len(),
{
    let k = subs[i].0@;
    let s2 = subs.remove(i);
    if i == 0 {
        assert(s2 =~= subs.drop_first());
        assert forall|j: int| 0 <= j < s2.len() implies (#[trigger] s2[j]).0@ != k by {
            assert(s2[j] == subs[j + 1]);
        }
        lemma_assoc_sub_none(s2, k);
        assert forall|n: Seq<char>| n != k implies sub_at(s2, n) == sub_at(subs, n) by {
            assert(sub_at(subs, n) == sub_at(subs.drop_first(), n));
        }
    } else {
        assert(s2.drop_first() =~= subs.drop_first().remove(i - 1));
        assert forall|j: int|
            0 <= j < subs.drop_first().len() && j != i - 1 implies (
            #[trigger] subs.drop_first()[j]).0@ != subs.drop_first()[i - 1].0@ by {
            assert(subs.drop_first()[j] == subs[j + 1]);
            assert(subs.drop_first()[i - 1] == subs[i]);
        }
        lemma_sub_at_remove(subs.drop_first(), i - 1);
        assert(subs.drop_first()[i - 1] == subs[i]);
        assert(s2[0] == subs[0]);
        assert(subs[0].0@ != k);
        assert(sub_at(s2, k) == sub_at(s2.drop_first(), k));
        assert forall|n: Seq<char>| n != k implies sub_at(s2, n) == sub_at(subs, n) by {
            if subs[0].0@ != n {
                assert(sub_at(s2, n) == sub_at(s2.drop_first(), n));
                assert(sub_at(subs, n) == sub_at(subs.drop_first(), n));
            }
        }
    }
}

proof fn lemma_entry_at_remove<T>(entries: Seq<(String, T)>, i: int)
    requires
        0 <= i < entries.len(),
        forall|j: int| 0 <= j < entries.len() && j != i ==> entries[j].0@ != entries[i].0@,
    ensures
        entry_at(entries.remove(i), entries[i].0@) is None,
        forall|n: Seq<char>|
            n != entries[i].0@ ==> entry_at(entries.remove(i), n) == entry_at(entries, n),
    decreases entries.len(),
{
    let k = entries[i].0@;
    let s2 = entries.remove(i);
    if i == 0 {
        assert(s2 =~= entries.drop_first());
        assert forall|j: int| 0 <= j < s2.len() implies (#[trigger] s2[j]).0@ != k by {
            assert(s2[j] == entries[j + 1]);
        }
        lemma_assoc_entry_none(s2, k);
        assert forall|n: Seq<char>| n != k implies entry_at(s2, n) == entry_at(entries, n) by {
            assert(entry_at(entries, n) == entry_at(entries.drop_first(), n));
        }
    } else {
        assert(s2.drop_first() =~= entries.drop_first().remove(i - 1));
        assert forall|j: int|
            0 <= j < entries.drop_first().len() && j != i - 1 implies (
            #[trigger] entries.drop_first()[j]).0@ != entries.drop_first()[i - 1].0@ by {
            assert(entries.drop_first()[j] == entries[j + 1]);
            assert(entries.drop_first()[i - 1] == entries[i]);
        }
        lemma_entry_at_remove(entries.drop_first(), i - 1);
        assert(entries.drop_first()[i - 1] == entries[i]);
        assert(s2[0] == entries[0]);
        assert(entries[0].0@ != k);
        assert(entry_at(s2, k) == entry_at(s2.drop_first(), k));
        assert forall|n: Seq<char>| n != k implies entry_at(s2, n) == entry_at(entries, n) by {
            if entries[0].0@ != n {
                assert(entry_at(s2, n) == entry_at(s2.drop_first(), n));
                assert(entry_at(entries, n) == entry_at(entries.drop_first(), n));
            }
        }
    }
}

/// A segment list extends `segs` strictly, or equals it, exactly when its
/// tail does so against the tail of `segs`, provided the heads agree.
proof fn lemma_ext_cond(q: Seq<Seq<char>>, segs: Seq<Seq<char>>)
    requires
        q.len() >= 1,
        segs.len() >= 1,
        q[0] == segs[0],
    ensures
        (q.len() > segs.len() && q.take(segs.len() as int) == segs) <==> (q.drop_first().len()
            > segs.drop_first().len() && q.drop_first().take(segs.len() - 1)
            == segs.drop_first()),
        (q == segs) <==> (q.drop_first() == segs.drop_first()),
{
    let p = q.drop_first();
    let s1 = segs.drop_first();
    if q.len() > segs.len() && q.take(segs.len() as int) == segs {
        assert forall|x: int| 0 <= x < s1.len() implies p.take(segs.len() - 1)[x] == s1[x] by {
            assert(p.take(segs.len() - 1)[x] == q[x + 1]);
            assert(q.take(segs.len() as int)[x + 1] == q[x + 1]);
        }
        assert(p.take(segs.len() - 1) =~= s1);
    }
    if p.len() > s1.len() && p.take(s1.len() as int) == s1 {
        assert forall|x: int| 0 <= x < segs.len() implies q.take(segs.len() as int)[x]
            == segs[x] by {
            if x > 0 {
                assert(q.take(segs.len() as int)[x] == p[x - 1]);
                assert(p.take(s1.len() as int)[x - 1] == p[x - 1]);
                assert(segs[x] == s1[x - 1]);
            }
        }
        assert(q.take(segs.len() as int) =~= segs);
    }
    if p == s1 {
        assert forall|x: int| 0 <= x < q.len() implies q[x] == segs[x] by {
            if x > 0 {
                assert(q[x] == p[x - 1]);
                assert(segs[x] == s1[x - 1]);
            }
        }
        assert(q =~= segs);
    }
}

/// Lifts the contract of a recursive removal inside a sub-cache to the
/// level above it.
proof fn lemma_remove_lift<T>(
    s_old: Cache<T>,
    s_new: Cache<T>,
    i: int,
    base_sub: Cache<T>,
    new_sub: Cache<T>,
    pfx: Seq<char>,
    sfx: Seq<char>,
    segs: Seq<Seq<char>>,
    r: Option<T>,
)
    requires
        s_old.wf(),
        segs.len() >= 2,
        segs[0] == pfx,
        segs.drop_first() == segments(sfx),
        0 <= i < s_old.sub_caches@.len(),
        s_old.sub_caches@[i].0@ == pfx,
        forall|j: int| 0 <= j < i ==> s_old.sub_caches@[j].0@ != pfx,
        base_sub == s_old.sub_caches@[i].1,
        s_new.entries@ == s_old.entries@,
        s_new.sub_caches@ == s_old.sub_caches@.update(i, (s_old.sub_caches@[i].0, new_sub)),
        new_sub.wf(),
        ({
            let sub_segs = segments(sfx);
            if sub_tree_at(base_sub, sub_segs) is Some {
                &&& r is None
                &&& forall|p: Seq<Seq<char>>| #![auto]
                    cache_at(new_sub, p) == (if p.len() > sub_segs.len() && p.take(
                        sub_segs.len() as int,
                    ) == sub_segs {
                        None
                    } else {
                        cache_at(base_sub, p)
                    })
            } else {
                &&& r == cache_at(base_sub, sub_segs)
                &&& forall|p: Seq<Seq<char>>| #![auto]
                    cache_at(new_sub, p) == (if p == sub_segs {
                        None::<T>
                    } else {
                        cache_at(base_sub, p)
                    })
            }
        }),
    ensures
        s_new.wf(),
        ({
            if sub_tree_at(s_old, segs) is Some {
                &&& r is None
                &&& forall|q: Seq<Seq<char>>| #![auto]
                    cache_at(s_new, q) == (if q.len() > segs.len() && q.take(segs.len() as int)
                        == segs {
                        None
                    } else {
                        cache_at(s_old, q)
                    })
            } else {
                &&& r == cache_at(s_old, segs)
                &&& forall|q: Seq<Seq<char>>| #![auto]
                    cache_at(s_new, q) == (if q == segs {
                        None::<T>
                    } else {
                        cache_at(s_old, q)
                    })
            }
        }),
{
    let sub_segs = segments(sfx);

    // Well-formedness of the result.
    assert forall|j: int|
        0 <= j < s_new.sub_caches@.len() implies (#[trigger] s_new.sub_caches@[j]).1.wf() by {
        if j != i {
            assert(s_new.sub_caches@[j].1 == s_old.sub_caches@[j].1);
            lemma_subs_wf_index(s_old.sub_caches@, j);
        }
    }
    lemma_subs_wf_build(s_new.sub_caches@);
    assert forall|x: int, y: int|
        0 <= x < y < s_new.sub_caches@.len() implies s_new.sub_caches@[x].0@
        != s_new.sub_caches@[y].0@ by {
        assert(s_new.sub_caches@[x].0@ == s_old.sub_caches@[x].0@);
        assert(s_new.sub_caches@[y].0@ == s_old.sub_caches@[y].0@);
    }
    assert(s_new.wf());

    // What the lookups see.
    lemma_assoc_sub_found(s_old.sub_caches@, pfx, i);
    assert(sub_at(s_old.sub_caches@, pfx) == Some(base_sub));
    lemma_sub_at_update(s_old.sub_caches@, i, s_old.sub_caches@[i].0, new_sub);
    assert(sub_at(s_new.sub_caches@, pfx) == Some(new_sub));
    assert(sub_tree_at(s_old, segs) == sub_tree_at(base_sub, sub_segs));
    assert(cache_at(s_old, segs) == cache_at(base_sub, sub_segs));

    if sub_tree_at(base_sub, sub_segs) is Some {
        assert forall|q: Seq<Seq<char>>| #![auto]
            cache_at(s_new, q) == (if q.len() > segs.len() && q.take(segs.len() as int) == segs {
                None::<T>
            } else {
                cache_at(s_old, q)
            }) by {
            if q.len() == 0 {
            } else if q.len() == 1 {
                assert(cache_at(s_new, q) == entry_at(s_new.entries@, q[0]));
                assert(cache_at(s_old, q) == entry_at(s_old.entries@, q[0]));
            } else if q[0] == pfx {
                let p = q.drop_first();
                lemma_ext_cond(q, segs);
                assert(cache_at(s_new, q) == cache_at(new_sub, p));
                assert(cache_at(s_old, q) == cache_at(base_sub, p));
            } else {
                if q.len() > segs.len() {
                    assert(q.take(segs.len() as int)[0] == q[0]);
                }
                assert(sub_at(s_new.sub_caches@, q[0]) == sub_at(s_old.sub_caches@, q[0]));
                assert(cache_at(s_new, q) == cache_at(s_old, q));
            }
        }
    } else {
        assert forall|q: Seq<Seq<char>>| #![auto]
            cache_at(s_new, q) == (if q == segs {
                None::<T>
            } else {
                cache_at(s_old, q)
            }) by {
            if q.len() == 0 {
            } else if q.len() == 1 {
                assert(cache_at(s_new, q) == entry_at(s_new.entries@, q[0]));
                assert(cache_at(s_old, q) == entry_at(s_old.entries@, q[0]));
            } else if q[0] == pfx {
                let p = q.drop_first();
                lemma_ext_cond(q, segs);
                assert(cache_at(s_new, q) == cache_at(new_sub, p));
                assert(cache_at(s_old, q) == cache_at(base_sub, p));
            } else {
                assert(sub_at(s_new.sub_caches@, q[0]) == sub_at(s_old.sub_caches@, q[0]));
                assert(cache_at(s_new, q) == cache_at(s_old, q));
            }
        }
    }
}

/// If the first `i` pairs do not carry `name` and pair `i` does, the lookup
/// finds pair `i`.
proof fn lemma_assoc_sub_found<T>(subs: Seq<(String, Cache<T>)>, name: Seq<char>, i: int)
    requires
        0 <= i < subs.len(),
        subs[i].0@ == name,
        forall|j: int| 0 <= j < i ==> subs[j].0@ != name,
    ensures
        sub_at(subs, name) == Some(subs[i].1),
    decreases subs.len(),
{
    if i > 0 {
        lemma_assoc_sub_found(subs.drop_first(), name, i - 1);
    }
}

/// If no pair carries `name`, the lookup finds nothing.
proof fn lemma_assoc_sub_none<T>(subs: Seq<(String, Cache<T>)>, name: Seq<char>)
    requires
        forall|j: int| 0 <= j < subs.len() ==> subs[j].0@ != name,
    ensures
        sub_at(subs, name) is None,
    decreases subs.len(),
{
    if subs.len() > 0 {
        lemma_assoc_sub_none(subs.drop_first(), name);
    }
}

proof fn lemma_assoc_entry_found<T>(entries: Seq<(String, T)>, name: Seq<char>, i: int)
    requires
        0 <= i < entries.len(),
        entries[i].0@ == name,
        forall|j: int| 0 <= j < i ==> entries[j].0@ != name,
    ensures
        entry_at(entries, name) == Some(entries[i].1),
    decreases entries.len(),
{
    if i > 0 {
        lemma_assoc_entry_found(entries.drop_first(), name, i - 1);
    }
}

proof fn lemma_assoc_entry_none<T>(entries: Seq<(String, T)>, name: Seq<char>)
    requires
        forall|j: int| 0 <= j < entries.len() ==> entries[j].0@ != name,
    ensures
        entry_at(entries, name) is None,
    decreases entries.len(),
{
    if entries.len() > 0 {
        lemma_assoc_entry_none(entries.drop_first(), name);
    }
}

/// Compares two string slices character by character.
pub(crate) fn str_eq_str(a: &str, b: &str) -> (r: bool)
    ensures
        r == (a@ == b@),
{
    let a_len = a.unicode_len();
    let b_len = b.unicode_len();
    if a_len != b_len {
        return false;
    }
    let mut i: usize = 0;
    while i < a_len
        invariant
            a_len == a@.len() == b@.len(),
            i <= a_len,
            forall|j: int| 0 <= j < i ==> a@[j] == b@[j],
        decreases a_len - i,
    {
        if a.get_char(i) != b.get_char(i) {
            return false;
        }
        i += 1;
    }
    proof {
        assert(a@ =~= b@);
    }
    true
}

/// Splits a path at its first '/': the part before it, and what follows it,
/// or `None` if the path holds no separator.
fn split_first_seg<'a>(path: &'a str) -> (r: (&'a str, Option<&'a str>))
    ensures
        first_sep(path@) == path@.len() ==> r.0@ == path@ && r.1 is None,
        first_sep(path@) < path@.len() ==> {
            &&& r.0@ == path@.take(first_sep(path@))
            &&& r.1 matches Some(s) && s@ == path@.skip(first_sep(path@) + 1)
        },
{
    proof {
        lemma_first_sep(path@);
    }
    let len = path.unicode_len();
    let mut i: usize = 0;
    while i < len
        invariant
            len == path@.len(),
            i <= len,
            forall|j: int| 0 <= j < i ==> path@[j] != '/',
        decreases len - i,
    {
        if path.get_char(i) == '/' {
            proof {
                lemma_first_sep_unique(path@, i as int);
            }
            let pfx = path.substring_char(0, i);
            let sfx = path.substring_char(i + 1, len);
            proof {
                assert(pfx@ =~= path@.take(i as int));
                assert(sfx@ =~= path@.skip(i + 1));
            }
            return (pfx, Some(sfx));
        }
        i += 1;
    }
    proof {
        lemma_first_sep_unique(path@, len as int);
    }
    (path, None)
}

} // verus!

