//! An ordered set of directory paths, compared component by component the
//! way `BTreeSet<PathBuf>` compares them. Inserting a path equal to one
//! already there keeps the one already there (`BTreeSet::insert`); building
//! a set from a sequence keeps the last of equal paths (`BTreeSet::from_iter`,
//! which sorts stably and keeps the last of a run of equal keys).
use vstd::prelude::*;

use crate::path::{
    Component, comps_view, components, components_eq, components_lt, components_of,
    lemma_comps_lt_transitive, lemma_comps_lt_trichotomy, path_eq, path_lt,
};

verus! {

/// `ds` with `p` inserted: unchanged when a path equal to `p` is there, else
/// `p` goes before the first larger path.
pub open spec fn dir_insert(ds: Seq<Seq<char>>, p: Seq<char>) -> Seq<Seq<char>>
    decreases ds.len(),
{
    if ds.len() == 0 {
        seq![p]
    } else if path_eq(ds[0], p) {
        ds
    } else if path_lt(p, ds[0]) {
        seq![p] + ds
    } else {
        seq![ds[0]] + dir_insert(ds.drop_first(), p)
    }
}

/// `ds` with `p` put in: a path equal to `p` is replaced by `p`, else `p`
/// goes before the first larger path.
pub open spec fn dir_replace(ds: Seq<Seq<char>>, p: Seq<char>) -> Seq<Seq<char>>
    decreases ds.len(),
{
    if ds.len() == 0 {
        seq![p]
    } else if path_eq(ds[0], p) {
        seq![p] + ds.drop_first()
    } else if path_lt(p, ds[0]) {
        seq![p] + ds
    } else {
        seq![ds[0]] + dir_replace(ds.drop_first(), p)
    }
}

/// The set built from a sequence of paths (`BTreeSet::from_iter`): of equal
/// paths, the last one stays.
pub open spec fn dir_collect(c: Seq<Seq<char>>) -> Seq<Seq<char>>
    decreases c.len(),
{
    if c.len() == 0 {
        seq![]
    } else {
        dir_replace(dir_collect(c.drop_last()), c.last())
    }
}

/// `ds` after inserting the paths of `c` one after the other
/// (`BTreeSet::insert`): a path equal to one already there is not added.
pub open spec fn dir_insert_all(ds: Seq<Seq<char>>, c: Seq<Seq<char>>) -> Seq<Seq<char>>
    decreases c.len(),
{
    if c.len() == 0 {
        ds
    } else {
        dir_insert(dir_insert_all(ds, c.drop_last()), c.last())
    }
}

/// Paths in strictly increasing path order (so no two are equal as paths).
pub open spec fn paths_sorted(ds: Seq<Seq<char>>) -> bool {
    forall|i: int, j: int| 0 <= i < j < ds.len() ==> path_lt(#[trigger] ds[i], #[trigger] ds[j])
}

/// Inserting into an ordered set of paths keeps it ordered, keeps what was
/// there, adds nothing but the inserted path, and leaves a path equal to it.
pub proof fn lemma_dir_insert(ds: Seq<Seq<char>>, p: Seq<char>)
    requires
        paths_sorted(ds),
    ensures
        paths_sorted(dir_insert(ds, p)),
        exists|i: int| 0 <= i < dir_insert(ds, p).len() && path_eq(#[trigger] dir_insert(ds, p)[i], p),
        forall|y: Seq<char>| ds.contains(y) ==> #[trigger] dir_insert(ds, p).contains(y),
        forall|x: Seq<char>| #[trigger] dir_insert(ds, p).contains(x) ==> ds.contains(x) || x == p,
    decreases ds.len(),
{
    let r = dir_insert(ds, p);
    if ds.len() == 0 {
        assert(r[0] == p);
        assert forall|x: Seq<char>| #[trigger] r.contains(x) implies ds.contains(x) || x == p by {
            let i = choose|i: int| 0 <= i < r.len() && r[i] == x;
        }
    } else if path_eq(ds[0], p) {
        assert(path_eq(r[0], p));
    } else if path_lt(p, ds[0]) {
        assert(r == seq![p] + ds);
        assert(path_eq(r[0], p));
        assert forall|i: int, j: int| 0 <= i < j < r.len() implies path_lt(#[trigger] r[i], #[trigger] r[j]) by {
            if i == 0 {
                if j > 1 {
                    assert(path_lt(ds[0], ds[j - 1]));
                    lemma_comps_lt_transitive(components(p), components(ds[0]), components(ds[j - 1]));
                }
            } else {
                assert(r[i] == ds[i - 1] && r[j] == ds[j - 1]);
            }
        }
        assert forall|y: Seq<char>| ds.contains(y) implies #[trigger] r.contains(y) by {
            let i = choose|i: int| 0 <= i < ds.len() && ds[i] == y;
            assert(r[i + 1] == y);
        }
        assert forall|x: Seq<char>| #[trigger] r.contains(x) implies ds.contains(x) || x == p by {
            let i = choose|i: int| 0 <= i < r.len() && r[i] == x;
            if i > 0 {
                assert(ds[i - 1] == x);
            }
        }
    } else {
        let t = ds.drop_first();
        assert(paths_sorted(t)) by {
            assert forall|i: int, j: int| 0 <= i < j < t.len() implies path_lt(#[trigger] t[i], #[trigger] t[j]) by {
                assert(t[i] == ds[i + 1] && t[j] == ds[j + 1]);
            }
        }
        lemma_dir_insert(t, p);
        let rt = dir_insert(t, p);
        assert(r == seq![ds[0]] + rt);
        lemma_comps_lt_trichotomy(components(ds[0]), components(p));
        assert forall|x: Seq<char>| #[trigger] rt.contains(x) implies path_lt(ds[0], x) by {
            if t.contains(x) {
                let i = choose|i: int| 0 <= i < t.len() && t[i] == x;
                assert(ds[i + 1] == x);
            }
        }
        assert forall|i: int, j: int| 0 <= i < j < r.len() implies path_lt(#[trigger] r[i], #[trigger] r[j]) by {
            if i == 0 {
                assert(rt.contains(rt[j - 1]));
            } else {
                assert(r[i] == rt[i - 1] && r[j] == rt[j - 1]);
            }
        }
        let w = choose|i: int| 0 <= i < rt.len() && path_eq(#[trigger] rt[i], p);
        assert(r[w + 1] == rt[w]);
        assert forall|y: Seq<char>| ds.contains(y) implies #[trigger] r.contains(y) by {
            let i = choose|i: int| 0 <= i < ds.len() && ds[i] == y;
            if i == 0 {
                assert(r[0] == y);
            } else {
                assert(t[i - 1] == y);
                assert(t.contains(y));
                assert(dir_insert(t, p).contains(y));
                let k = choose|k: int| 0 <= k < rt.len() && rt[k] == y;
                assert(r[k + 1] == y);
            }
        }
        assert forall|x: Seq<char>| #[trigger] r.contains(x) implies ds.contains(x) || x == p by {
            let i = choose|i: int| 0 <= i < r.len() && r[i] == x;
            if i == 0 {
                assert(ds[0] == x);
            } else {
                assert(rt[i - 1] == x);
                assert(rt.contains(x));
                if t.contains(x) {
                    let k = choose|k: int| 0 <= k < t.len() && t[k] == x;
                    assert(ds[k + 1] == x);
                }
            }
        }
    }
}

/// Replacing into an ordered set of paths keeps it ordered, keeps a path
/// equal to each one there, adds nothing but the new path, and leaves a path
/// equal to it.
pub proof fn lemma_dir_replace(ds: Seq<Seq<char>>, p: Seq<char>)
    requires
        paths_sorted(ds),
    ensures
        paths_sorted(dir_replace(ds, p)),
        exists|i: int| 0 <= i < dir_replace(ds, p).len() && #[trigger] dir_replace(ds, p)[i] == p,
        forall|k: int|
            0 <= k < ds.len() ==> exists|i: int|
                0 <= i < dir_replace(ds, p).len() && path_eq(#[trigger] dir_replace(ds, p)[i], #[trigger] ds[k]),
        forall|x: Seq<char>| #[trigger] dir_replace(ds, p).contains(x) ==> ds.contains(x) || x == p,
    decreases ds.len(),
{
    let r = dir_replace(ds, p);
    if ds.len() == 0 {
        assert(r[0] == p);
        assert forall|x: Seq<char>| #[trigger] r.contains(x) implies ds.contains(x) || x == p by {
            let i = choose|i: int| 0 <= i < r.len() && r[i] == x;
        }
    } else if path_eq(ds[0], p) {
        assert(r == seq![p] + ds.drop_first());
        assert(r[0] == p);
        assert forall|i: int, j: int| 0 <= i < j < r.len() implies path_lt(#[trigger] r[i], #[trigger] r[j]) by {
            assert(r[j] == ds[j]);
            if i > 0 {
                assert(r[i] == ds[i]);
            }
        }
        assert forall|k: int| 0 <= k < ds.len() implies exists|i: int|
            0 <= i < r.len() && path_eq(#[trigger] r[i], #[trigger] ds[k]) by {
            if k > 0 {
                assert(r[k] == ds[k]);
            } else {
                assert(path_eq(r[0], ds[0]));
            }
        }
        assert forall|x: Seq<char>| #[trigger] r.contains(x) implies ds.contains(x) || x == p by {
            let i = choose|i: int| 0 <= i < r.len() && r[i] == x;
            if i > 0 {
                assert(ds[i] == x);
            }
        }
    } else if path_lt(p, ds[0]) {
        assert(r == seq![p] + ds);
        assert(r[0] == p);
        assert forall|i: int, j: int| 0 <= i < j < r.len() implies path_lt(#[trigger] r[i], #[trigger] r[j]) by {
            if i == 0 {
                if j > 1 {
                    assert(path_lt(ds[0], ds[j - 1]));
                    lemma_comps_lt_transitive(components(p), components(ds[0]), components(ds[j - 1]));
                }
            } else {
                assert(r[i] == ds[i - 1] && r[j] == ds[j - 1]);
            }
        }
        assert forall|k: int| 0 <= k < ds.len() implies exists|i: int|
            0 <= i < r.len() && path_eq(#[trigger] r[i], #[trigger] ds[k]) by {
            assert(r[k + 1] == ds[k]);
        }
        assert forall|x: Seq<char>| #[trigger] r.contains(x) implies ds.contains(x) || x == p by {
            let i = choose|i: int| 0 <= i < r.len() && r[i] == x;
            if i > 0 {
                assert(ds[i - 1] == x);
            }
        }
    } else {
        let t = ds.drop_first();
        assert(paths_sorted(t)) by {
            assert forall|i: int, j: int| 0 <= i < j < t.len() implies path_lt(#[trigger] t[i], #[trigger] t[j]) by {
                assert(t[i] == ds[i + 1] && t[j] == ds[j + 1]);
            }
        }
        lemma_dir_replace(t, p);
        let rt = dir_replace(t, p);
        assert(r == seq![ds[0]] + rt);
        lemma_comps_lt_trichotomy(components(ds[0]), components(p));
        assert forall|x: Seq<char>| #[trigger] rt.contains(x) implies path_lt(ds[0], x) by {
            if t.contains(x) {
                let i = choose|i: int| 0 <= i < t.len() && t[i] == x;
                assert(ds[i + 1] == x);
            }
        }
        assert forall|i: int, j: int| 0 <= i < j < r.len() implies path_lt(#[trigger] r[i], #[trigger] r[j]) by {
            if i == 0 {
                assert(rt.contains(rt[j - 1]));
            } else {
                assert(r[i] == rt[i - 1] && r[j] == rt[j - 1]);
            }
        }
        let w = choose|i: int| 0 <= i < rt.len() && #[trigger] rt[i] == p;
        assert(r[w + 1] == rt[w]);
        assert forall|k: int| 0 <= k < ds.len() implies exists|i: int|
            0 <= i < r.len() && path_eq(#[trigger] r[i], #[trigger] ds[k]) by {
            if k == 0 {
                assert(path_eq(r[0], ds[0]));
            } else {
                assert(t[k - 1] == ds[k]);
                let m = choose|m: int| 0 <= m < rt.len() && path_eq(#[trigger] rt[m], t[k - 1]);
                assert(r[m + 1] == rt[m]);
            }
        }
        assert forall|x: Seq<char>| #[trigger] r.contains(x) implies ds.contains(x) || x == p by {
            let i = choose|i: int| 0 <= i < r.len() && r[i] == x;
            if i == 0 {
                assert(ds[0] == x);
            } else {
                assert(rt[i - 1] == x);
                assert(rt.contains(x));
                if t.contains(x) {
                    let k = choose|k: int| 0 <= k < t.len() && t[k] == x;
                    assert(ds[k + 1] == x);
                }
            }
        }
    }
}

/// The set collected from a sequence is ordered, has a path equal to every
/// element of the sequence, and holds nothing but its elements.
pub proof fn lemma_dir_collect(c: Seq<Seq<char>>)
    ensures
        paths_sorted(dir_collect(c)),
        forall|k: int|
            0 <= k < c.len() ==> exists|i: int|
                0 <= i < dir_collect(c).len() && path_eq(#[trigger] dir_collect(c)[i], #[trigger] c[k]),
        forall|x: Seq<char>| #[trigger] dir_collect(c).contains(x) ==> c.contains(x),
    decreases c.len(),
{
    if c.len() > 0 {
        let c0 = c.drop_last();
        lemma_dir_collect(c0);
        let d0 = dir_collect(c0);
        lemma_dir_replace(d0, c.last());
        let d = dir_collect(c);
        assert forall|k: int| 0 <= k < c.len() implies exists|i: int|
            0 <= i < d.len() && path_eq(#[trigger] d[i], #[trigger] c[k]) by {
            if k < c.len() - 1 {
                assert(c0[k] == c[k]);
                let i = choose|i: int| 0 <= i < d0.len() && path_eq(#[trigger] d0[i], c0[k]);
                let m = choose|m: int| 0 <= m < d.len() && path_eq(#[trigger] d[m], d0[i]);
                assert(path_eq(d[m], c[k]));
            } else {
                let m = choose|m: int| 0 <= m < d.len() && #[trigger] d[m] == c.last();
                assert(path_eq(d[m], c[k]));
            }
        }
        assert forall|x: Seq<char>| #[trigger] d.contains(x) implies c.contains(x) by {
            if d0.contains(x) {
                let i = choose|i: int| 0 <= i < c0.len() && c0[i] == x;
                assert(c[i] == x);
            } else {
                assert(c[c.len() - 1] == x);
            }
        }
    }
}

/// Inserting a sequence into an ordered set keeps it ordered, keeps what was
/// there, leaves a path equal to every inserted one, and adds nothing else.
pub proof fn lemma_dir_insert_all(ds: Seq<Seq<char>>, c: Seq<Seq<char>>)
    requires
        paths_sorted(ds),
    ensures
        paths_sorted(dir_insert_all(ds, c)),
        forall|y: Seq<char>| ds.contains(y) ==> #[trigger] dir_insert_all(ds, c).contains(y),
        forall|k: int|
            0 <= k < c.len() ==> exists|i: int|
                0 <= i < dir_insert_all(ds, c).len() && path_eq(
                    #[trigger] dir_insert_all(ds, c)[i],
                    #[trigger] c[k],
                ),
        forall|x: Seq<char>| #[trigger] dir_insert_all(ds, c).contains(x) ==> ds.contains(x) || c.contains(x),
    decreases c.len(),
{
    if c.len() > 0 {
        let c0 = c.drop_last();
        lemma_dir_insert_all(ds, c0);
        let d0 = dir_insert_all(ds, c0);
        lemma_dir_insert(d0, c.last());
        let d = dir_insert_all(ds, c);
        assert forall|y: Seq<char>| ds.contains(y) implies #[trigger] d.contains(y) by {
            assert(d0.contains(y));
        }
        assert forall|k: int| 0 <= k < c.len() implies exists|i: int|
            0 <= i < d.len() && path_eq(#[trigger] d[i], #[trigger] c[k]) by {
            if k < c.len() - 1 {
                assert(c0[k] == c[k]);
                let i = choose|i: int| 0 <= i < d0.len() && path_eq(#[trigger] d0[i], c0[k]);
                assert(d0.contains(d0[i]));
                assert(d.contains(d0[i]));
                let m = choose|m: int| 0 <= m < d.len() && d[m] == d0[i];
                assert(path_eq(d[m], c[k]));
            }
        }
        assert forall|x: Seq<char>| #[trigger] d.contains(x) implies ds.contains(x) || c.contains(x) by {
            if d0.contains(x) {
                if !ds.contains(x) {
                    let i = choose|i: int| 0 <= i < c0.len() && c0[i] == x;
                    assert(c[i] == x);
                }
            } else {
                assert(c[c.len() - 1] == x);
            }
        }
    }
}

/// Two ordered sets of paths that hold the same paths are the same sequence.
pub proof fn lemma_sorted_unique(a: Seq<Seq<char>>, b: Seq<Seq<char>>)
    requires
        paths_sorted(a),
        paths_sorted(b),
        forall|x: Seq<char>| a.contains(x) <==> b.contains(x),
    ensures
        a == b,
    decreases a.len(),
{
    if a.len() == 0 {
        if b.len() > 0 {
            assert(b.contains(b[0]));
        }
        assert(a =~= b);
    } else {
        assert(a.contains(a[0]));
        let j = choose|j: int| 0 <= j < b.len() && b[j] == a[0];
        assert(b.contains(b[0]));
        let i = choose|i: int| 0 <= i < a.len() && a[i] == b[0];
        if j > 0 {
            assert(path_lt(b[0], b[j]));
            lemma_comps_lt_trichotomy(components(b[0]), components(a[0]));
            if i > 0 {
                assert(path_lt(a[0], a[i]));
            }
        }
        assert(a[0] == b[0]);
        let ta = a.drop_first();
        let tb = b.drop_first();
        assert(paths_sorted(ta)) by {
            assert forall|p: int, q: int| 0 <= p < q < ta.len() implies path_lt(#[trigger] ta[p], #[trigger] ta[q]) by {
                assert(ta[p] == a[p + 1] && ta[q] == a[q + 1]);
            }
        }
        assert(paths_sorted(tb)) by {
            assert forall|p: int, q: int| 0 <= p < q < tb.len() implies path_lt(#[trigger] tb[p], #[trigger] tb[q]) by {
                assert(tb[p] == b[p + 1] && tb[q] == b[q + 1]);
            }
        }
        assert forall|x: Seq<char>| ta.contains(x) <==> tb.contains(x) by {
            if ta.contains(x) {
                let p = choose|p: int| 0 <= p < ta.len() && ta[p] == x;
                assert(a[p + 1] == x);
                assert(path_lt(a[0], a[p + 1]));
                lemma_comps_lt_trichotomy(components(a[0]), components(x));
                assert(b.contains(x));
                let q = choose|q: int| 0 <= q < b.len() && b[q] == x;
                assert(q != 0);
                assert(tb[q - 1] == x);
            }
            if tb.contains(x) {
                let p = choose|p: int| 0 <= p < tb.len() && tb[p] == x;
                assert(b[p + 1] == x);
                assert(path_lt(b[0], b[p + 1]));
                lemma_comps_lt_trichotomy(components(b[0]), components(x));
                assert(a.contains(x));
                let q = choose|q: int| 0 <= q < a.len() && a[q] == x;
                assert(q != 0);
                assert(ta[q - 1] == x);
            }
        }
        lemma_sorted_unique(ta, tb);
        assert(a =~= seq![a[0]] + ta);
        assert(b =~= seq![b[0]] + tb);
    }
}

proof fn lemma_dir_replace_at(ds: Seq<Seq<char>>, p: Seq<char>, i: int)
    requires
        0 <= i <= ds.len(),
        forall|j: int| 0 <= j < i ==> !path_eq(#[trigger] ds[j], p) && !path_lt(p, ds[j]),
    ensures
        dir_replace(ds, p) == ds.take(i) + dir_replace(ds.skip(i), p),
    decreases i,
{
    if i == 0 {
        assert(ds.take(0) =~= Seq::<Seq<char>>::empty());
        assert(ds.skip(0) =~= ds);
    } else {
        let t = ds.drop_first();
        assert forall|j: int| 0 <= j < i - 1 implies !path_eq(#[trigger] t[j], p) && !path_lt(
            p,
            t[j],
        ) by {
            assert(t[j] == ds[j + 1]);
        }
        lemma_dir_replace_at(t, p, i - 1);
        assert(t.skip(i - 1) =~= ds.skip(i));
        assert(ds.take(i) =~= seq![ds[0]] + t.take(i - 1));
    }
}

proof fn lemma_dir_insert_at(ds: Seq<Seq<char>>, p: Seq<char>, i: int)
    requires
        0 <= i <= ds.len(),
        forall|j: int| 0 <= j < i ==> !path_eq(#[trigger] ds[j], p) && !path_lt(p, ds[j]),
    ensures
        dir_insert(ds, p) == ds.take(i) + dir_insert(ds.skip(i), p),
    decreases i,
{
    if i == 0 {
        assert(ds.take(0) =~= Seq::<Seq<char>>::empty());
        assert(ds.skip(0) =~= ds);
    } else {
        let t = ds.drop_first();
        assert forall|j: int| 0 <= j < i - 1 implies !path_eq(#[trigger] t[j], p) && !path_lt(
            p,
            t[j],
        ) by {
            assert(t[j] == ds[j + 1]);
        }
        lemma_dir_insert_at(t, p, i - 1);
        assert(t.skip(i - 1) =~= ds.skip(i));
        assert(ds.take(i) =~= seq![ds[0]] + t.take(i - 1));
    }
}

/// An ordered set of directory paths, each stored with its components.
pub struct DirSet {
    entries: Vec<(Vec<Component>, Vec<char>)>,
}

impl View for DirSet {
    type V = Seq<Seq<char>>;

    /// The paths, in order.
    closed spec fn view(&self) -> Seq<Seq<char>> {
        self.entries@.map_values(|e: (Vec<Component>, Vec<char>)| e.1@)
    }
}

impl DirSet {
    /// Each stored component list is that of its path.
    #[verifier::type_invariant]
    closed spec fn wf(&self) -> bool {
        forall|i: int|
            0 <= i < self.entries@.len() ==> comps_view((#[trigger] self.entries@[i]).0@)
                == components(self.entries@[i].1@)
    }

    /// An empty set.
    pub fn new() -> (res: DirSet)
        ensures
            res@ == Seq::<Seq<char>>::empty(),
    {
        let res = DirSet { entries: Vec::new() };
        assert(res@ =~= Seq::<Seq<char>>::empty());
        res
    }

    /// Number of paths.
    pub fn len(&self) -> (res: usize)
        ensures
            res == self@.len(),
    {
        self.entries.len()
    }

    /// The `i`-th path.
    pub fn path(&self, i: usize) -> (res: &Vec<char>)
        requires
            i < self@.len(),
        ensures
            res@ == self@[i as int],
    {
        &self.entries[i].1
    }

    /// The components of the `i`-th path.
    pub fn path_components(&self, i: usize) -> (res: &Vec<Component>)
        requires
            i < self@.len(),
        ensures
            comps_view(res@) == components(self@[i as int]),
    {
        proof {
            use_type_invariant(self);
        }
        &self.entries[i].0
    }

    /// Puts `p` in. A path equal to `p` already there stays when
    /// `keep_existing` holds, and is replaced by `p` otherwise.
    pub fn insert(&mut self, p: Vec<char>, keep_existing: bool)
        ensures
            final(self)@ == if keep_existing {
                dir_insert(old(self)@, p@)
            } else {
                dir_replace(old(self)@, p@)
            },
    {
        proof {
            use_type_invariant(&*self);
        }
        let cp = components_of(&p);
        let ghost old_view = self@;
        let mut i: usize = 0;
        while i < self.entries.len()
            invariant
                i <= self.entries@.len(),
                self@ == old_view,
                old(self)@ == old_view,
                self.wf(),
                comps_view(cp@) == components(p@),
                forall|j: int|
                    0 <= j < i ==> !path_eq(#[trigger] old_view[j], p@) && !path_lt(
                        p@,
                        old_view[j],
                    ),
            decreases self.entries.len() - i,
        {
            assert(old_view[i as int] == self.entries@[i as int].1@);
            assert(comps_view(self.entries@[i as int].0@) == components(old_view[i as int]));
            if components_eq(&self.entries[i].0, &cp) {
                proof {
                    lemma_dir_insert_at(old_view, p@, i as int);
                    lemma_dir_replace_at(old_view, p@, i as int);
                    assert(old_view.skip(i as int)[0] == old_view[i as int]);
                    assert(path_eq(old_view[i as int], p@));
                    assert(dir_insert(old_view.skip(i as int), p@) == old_view.skip(i as int));
                    assert(dir_replace(old_view.skip(i as int), p@) == seq![p@] + old_view.skip(
                        i as int,
                    ).drop_first());
                    assert(old_view.take(i as int) + old_view.skip(i as int) =~= old_view);
                }
                if !keep_existing {
                    let ghost pv = p@;
                    let mut entries: Vec<(Vec<Component>, Vec<char>)> = Vec::new();
                    std::mem::swap(&mut entries, &mut self.entries);
                    entries.set(i, (cp, p));
                    assert(entries@.map_values(|e: (Vec<Component>, Vec<char>)| e.1@) =~= old_view.take(
                        i as int,
                    ) + (seq![pv] + old_view.skip(i as int).drop_first()));
                    self.entries = entries;
                }
                return;
            }
            if components_lt(&cp, &self.entries[i].0) {
                proof {
                    lemma_dir_insert_at(old_view, p@, i as int);
                    lemma_dir_replace_at(old_view, p@, i as int);
                    assert(old_view.skip(i as int)[0] == old_view[i as int]);
                    assert(path_lt(p@, old_view[i as int]));
                    lemma_comps_lt_trichotomy(components(p@), components(old_view[i as int]));
                    assert(dir_insert(old_view.skip(i as int), p@) == seq![p@] + old_view.skip(
                        i as int,
                    ));
                    assert(dir_replace(old_view.skip(i as int), p@) == seq![p@] + old_view.skip(
                        i as int,
                    ));
                }
                let ghost pv = p@;
                let mut entries: Vec<(Vec<Component>, Vec<char>)> = Vec::new();
                std::mem::swap(&mut entries, &mut self.entries);
                entries.insert(i, (cp, p));
                assert(entries@.map_values(|e: (Vec<Component>, Vec<char>)| e.1@) =~= old_view.take(
                    i as int,
                ) + (seq![pv] + old_view.skip(i as int)));
                self.entries = entries;
                return;
            }
            i = i + 1;
        }
        proof {
            lemma_dir_insert_at(old_view, p@, i as int);
            lemma_dir_replace_at(old_view, p@, i as int);
            assert(old_view.skip(i as int) =~= Seq::<Seq<char>>::empty());
        }
        let ghost pv = p@;
        let mut entries: Vec<(Vec<Component>, Vec<char>)> = Vec::new();
        std::mem::swap(&mut entries, &mut self.entries);
        entries.push((cp, p));
        assert(entries@.map_values(|e: (Vec<Component>, Vec<char>)| e.1@) =~= old_view.take(
            i as int,
        ) + seq![pv]);
        self.entries = entries;
    }
}

} // verus!
