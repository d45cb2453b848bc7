//! An ordered map from relative file paths to file contents.
//!
//! Keys are kept in the order of `String`'s `Ord` (character by character,
//! by code point), without duplicates, so walking a map is reproducible.
use vstd::prelude::*;

use crate::text::{chars_lt, chars_of, lemma_seq_lt_transitive, lemma_seq_lt_trichotomy, seq_lt};

verus! {

/// An entry as a pair of character sequences.
pub type EntryView = (Seq<char>, Seq<char>);

/// The keys of `s` are in strictly increasing order.
pub open spec fn keys_sorted(s: Seq<EntryView>) -> bool {
    forall|i: int, j: int| 0 <= i < j < s.len() ==> seq_lt(#[trigger] s[i].0, #[trigger] s[j].0)
}

/// The map that inserting the entries of `s` one after the other builds: a
/// later entry for a key replaces an earlier one.
pub open spec fn entries_map(s: Seq<EntryView>) -> Map<Seq<char>, Seq<char>>
    decreases s.len(),
{
    if s.len() == 0 {
        Map::empty()
    } else {
        entries_map(s.drop_last()).insert(s.last().0, s.last().1)
    }
}

/// `s` with `(k, v)` put in its place by key: an entry with key `k` has its
/// value replaced, otherwise the entry goes before the first larger key.
pub open spec fn sorted_insert(s: Seq<EntryView>, k: Seq<char>, v: Seq<char>) -> Seq<EntryView>
    decreases s.len(),
{
    if s.len() == 0 {
        seq![(k, v)]
    } else if s[0].0 == k {
        seq![(k, v)] + s.drop_first()
    } else if seq_lt(k, s[0].0) {
        seq![(k, v)] + s
    } else {
        seq![s[0]] + sorted_insert(s.drop_first(), k, v)
    }
}

/// `s` after inserting the entries of `ps` one after the other.
pub open spec fn insert_all(s: Seq<EntryView>, ps: Seq<EntryView>) -> Seq<EntryView>
    decreases ps.len(),
{
    if ps.len() == 0 {
        s
    } else {
        let t = insert_all(s, ps.drop_last());
        sorted_insert(t, ps.last().0, ps.last().1)
    }
}

proof fn lemma_sorted_insert_at(s: Seq<EntryView>, k: Seq<char>, v: Seq<char>, i: int, found: bool)
    requires
        0 <= i <= s.len(),
        forall|j: int| 0 <= j < i ==> seq_lt(#[trigger] s[j].0, k),
        found ==> i < s.len() && s[i].0 == k,
        !found ==> (i < s.len() ==> seq_lt(k, s[i].0)),
    ensures
        sorted_insert(s, k, v) == if found {
            s.take(i) + seq![(k, v)] + s.skip(i + 1)
        } else {
            s.take(i) + seq![(k, v)] + s.skip(i)
        },
    decreases i,
{
    if i == 0 {
        if s.len() > 0 && !found {
            lemma_seq_lt_trichotomy(k, s[0].0);
        }
        if found {
            assert(s.skip(1) =~= s.drop_first());
        }
        assert(s.take(0) =~= Seq::<EntryView>::empty());
        assert(s.skip(0) =~= s);
    } else {
        lemma_seq_lt_trichotomy(s[0].0, k);
        let t = s.drop_first();
        assert forall|j: int| 0 <= j < i - 1 implies seq_lt(#[trigger] t[j].0, k) by {
            assert(t[j] == s[j + 1]);
        }
        lemma_sorted_insert_at(t, k, v, i - 1, found);
        if found {
            assert(s.take(i) + seq![(k, v)] + s.skip(i + 1) =~= seq![s[0]] + (t.take(i - 1) + seq![
                (k, v),
            ] + t.skip(i)));
        } else {
            assert(s.take(i) + seq![(k, v)] + s.skip(i) =~= seq![s[0]] + (t.take(i - 1) + seq![
                (k, v),
            ] + t.skip(i - 1)));
        }
    }
}

proof fn lemma_insert_position(s: Seq<EntryView>, k: Seq<char>) -> (r: (int, bool))
    requires
        keys_sorted(s),
    ensures
        0 <= r.0 <= s.len(),
        forall|j: int| 0 <= j < r.0 ==> seq_lt(#[trigger] s[j].0, k),
        r.1 ==> r.0 < s.len() && s[r.0].0 == k,
        !r.1 ==> forall|j: int| r.0 <= j < s.len() ==> seq_lt(k, #[trigger] s[j].0),
    decreases s.len(),
{
    if s.len() == 0 {
        (0, false)
    } else if seq_lt(s[0].0, k) {
        let t = s.drop_first();
        assert(keys_sorted(t)) by {
            assert forall|a: int, b: int| 0 <= a < b < t.len() implies seq_lt(
                #[trigger] t[a].0,
                #[trigger] t[b].0,
            ) by {
                assert(t[a] == s[a + 1] && t[b] == s[b + 1]);
            }
        }
        let (i, f) = lemma_insert_position(t, k);
        assert forall|j: int| 0 <= j < i + 1 implies seq_lt(#[trigger] s[j].0, k) by {
            if j > 0 {
                assert(s[j] == t[j - 1]);
            }
        }
        if !f {
            assert forall|j: int| i + 1 <= j < s.len() implies seq_lt(k, #[trigger] s[j].0) by {
                assert(s[j] == t[j - 1]);
            }
        }
        (i + 1, f)
    } else {
        lemma_seq_lt_trichotomy(s[0].0, k);
        if s[0].0 == k {
            (0, true)
        } else {
            assert forall|j: int| 0 <= j < s.len() implies seq_lt(k, #[trigger] s[j].0) by {
                if j > 0 {
                    assert(seq_lt(s[0].0, s[j].0));
                    lemma_seq_lt_transitive(k, s[0].0, s[j].0);
                }
            }
            (0, false)
        }
    }
}

/// Inserting into sorted entries keeps them sorted, and the map they stand
/// for gains (or changes) exactly the inserted key.
pub proof fn lemma_sorted_insert(s: Seq<EntryView>, k: Seq<char>, v: Seq<char>)
    requires
        keys_sorted(s),
    ensures
        keys_sorted(sorted_insert(s, k, v)),
        entries_map(sorted_insert(s, k, v)) == entries_map(s).insert(k, v),
        sorted_insert(s, k, v).len() == s.len() + if entries_map(s).contains_key(k) {
            0int
        } else {
            1int
        },
{
    let (i, found) = lemma_insert_position(s, k);
    lemma_sorted_insert_at(s, k, v, i, found);
    lemma_entries_map_sorted(s);
    let nv = sorted_insert(s, k, v);
    if found {
        assert(nv =~= s.update(i, (k, v)));
    } else {
        assert(nv =~= s.insert(i, (k, v)));
    }
    assert(keys_sorted(nv)) by {
        assert forall|a: int, b: int| 0 <= a < b < nv.len() implies seq_lt(
            #[trigger] nv[a].0,
            #[trigger] nv[b].0,
        ) by {
            if found {
                if a == i {
                } else if b == i {
                } else {
                    assert(nv[a] == s[a] && nv[b] == s[b]);
                }
            } else {
                if a < i && b < i {
                    assert(nv[a] == s[a] && nv[b] == s[b]);
                } else if a < i && b == i {
                } else if a < i {
                    assert(nv[a] == s[a] && nv[b] == s[b - 1]);
                    lemma_seq_lt_transitive(nv[a].0, k, nv[b].0);
                } else if a == i {
                    assert(nv[b] == s[b - 1]);
                } else {
                    assert(nv[a] == s[a - 1] && nv[b] == s[b - 1]);
                }
            }
        }
    }
    lemma_entries_map_sorted(nv);
    let m_old = entries_map(s);
    let m_new = entries_map(nv);
    assert forall|x: Seq<char>| #[trigger] m_new.contains_key(x) implies m_old.insert(
        k,
        v,
    ).contains_key(x) && m_new[x] == m_old.insert(k, v)[x] by {
        let j = choose|j: int| 0 <= j < nv.len() && nv[j].0 == x;
        if j == i {
        } else if found || j < i {
            assert(nv[j] == s[j]);
            assert(m_old.contains_key(s[j].0));
            if x == k {
                lemma_seq_lt_trichotomy(k, k);
            }
        } else {
            assert(nv[j] == s[j - 1]);
            assert(m_old.contains_key(s[j - 1].0));
            if x == k {
                lemma_seq_lt_trichotomy(k, k);
            }
        }
    }
    assert forall|x: Seq<char>| #[trigger] m_old.insert(k, v).contains_key(x) implies m_new.contains_key(
        x,
    ) by {
        if x == k {
            assert(nv[i].0 == k);
        } else {
            let j = choose|j: int| 0 <= j < s.len() && s[j].0 == x;
            if found || j < i {
                assert(nv[j] == s[j]);
            } else {
                assert(nv[j + 1] == s[j]);
            }
        }
    }
    assert(m_new =~= m_old.insert(k, v));
    if !found {
        assert(!m_old.contains_key(k)) by {
            if m_old.contains_key(k) {
                let j = choose|j: int| 0 <= j < s.len() && s[j].0 == k;
                lemma_seq_lt_trichotomy(k, k);
            }
        }
    } else {
        assert(m_old.contains_key(s[i].0));
    }
}

/// Inserting a sequence of entries into sorted entries keeps them sorted, and
/// the map becomes the old one overridden by the inserted entries (later
/// ones winning).
pub proof fn lemma_insert_all(s: Seq<EntryView>, ps: Seq<EntryView>)
    requires
        keys_sorted(s),
    ensures
        keys_sorted(insert_all(s, ps)),
        entries_map(insert_all(s, ps)) == entries_map(s).union_prefer_right(entries_map(ps)),
    decreases ps.len(),
{
    if ps.len() == 0 {
        assert(entries_map(s).union_prefer_right(entries_map(ps)) =~= entries_map(s));
    } else {
        lemma_insert_all(s, ps.drop_last());
        let t = insert_all(s, ps.drop_last());
        lemma_sorted_insert(t, ps.last().0, ps.last().1);
        assert(entries_map(s).union_prefer_right(entries_map(ps.drop_last())).insert(
            ps.last().0,
            ps.last().1,
        ) =~= entries_map(s).union_prefer_right(entries_map(ps)));
    }
}

/// Each value of the map built from entries is the value of an entry with
/// that key.
pub proof fn lemma_entries_map_values(s: Seq<EntryView>)
    ensures
        forall|x: Seq<char>|
            #[trigger] entries_map(s).contains_key(x) ==> exists|j: int|
                0 <= j < s.len() && s[j].0 == x && s[j].1 == entries_map(s)[x],
    decreases s.len(),
{
    if s.len() > 0 {
        let t = s.drop_last();
        lemma_entries_map_values(t);
        assert forall|x: Seq<char>| #[trigger] entries_map(s).contains_key(x) implies exists|j: int|
            0 <= j < s.len() && s[j].0 == x && s[j].1 == entries_map(s)[x] by {
            if x == s.last().0 {
                assert(s[s.len() - 1].0 == x && s[s.len() - 1].1 == entries_map(s)[x]);
            } else {
                assert(entries_map(t).contains_key(x));
                let j = choose|j: int| 0 <= j < t.len() && t[j].0 == x && t[j].1 == entries_map(t)[x];
                assert(s[j] == t[j]);
            }
        }
    }
}

/// The map built from any entries has exactly their keys.
#[verifier::spinoff_prover]
pub proof fn lemma_entries_map_keys(s: Seq<EntryView>)
    ensures
        forall|j: int| 0 <= j < s.len() ==> #[trigger] entries_map(s).contains_key(s[j].0),
        forall|x: Seq<char>|
            #[trigger] entries_map(s).contains_key(x) ==> exists|j: int| 0 <= j < s.len() && s[j].0 == x,
    decreases s.len(),
{
    if s.len() > 0 {
        let t = s.drop_last();
        lemma_entries_map_keys(t);
        assert forall|j: int| 0 <= j < s.len() implies #[trigger] entries_map(s).contains_key(s[j].0) by {
            if j < s.len() - 1 {
                assert(s[j] == t[j]);
                assert(entries_map(t).contains_key(t[j].0));
            }
        }
        assert forall|x: Seq<char>| #[trigger] entries_map(s).contains_key(x) implies exists|j: int|
            0 <= j < s.len() && s[j].0 == x by {
            if x != s.last().0 {
                assert(entries_map(s) == entries_map(t).insert(s.last().0, s.last().1));
                assert(entries_map(t).contains_key(x));
                let j = choose|j: int| 0 <= j < t.len() && t[j].0 == x;
                assert(s[j] == t[j]);
            } else {
                assert(s[s.len() - 1].0 == x);
            }
        }
    }
}

/// The keys of a sequence of entries, in order.
pub open spec fn keys_of(s: Seq<EntryView>) -> Seq<Seq<char>> {
    s.map_values(|e: EntryView| e.0)
}

/// Views of a vector of string pairs.
pub open spec fn pairs_view(v: Seq<(String, String)>) -> Seq<EntryView> {
    v.map_values(|e: (String, String)| (e.0@, e.1@))
}

/// A map from relative paths to contents, ordered by path.
#[derive(Debug, PartialEq, Eq)]
pub struct FileMap {
    entries: Vec<(String, String)>,
}

impl View for FileMap {
    type V = Seq<EntryView>;

    /// The entries in key order.
    closed spec fn view(&self) -> Seq<EntryView> {
        pairs_view(self.entries@)
    }
}

/// What a sorted sequence of entries maps each key to.
pub proof fn lemma_entries_map_sorted(s: Seq<EntryView>)
    requires
        keys_sorted(s),
    ensures
        forall|j: int|
            0 <= j < s.len() ==> #[trigger] entries_map(s).contains_key(s[j].0) && entries_map(
                s,
            )[s[j].0] == s[j].1,
        forall|x: Seq<char>|
            #[trigger] entries_map(s).contains_key(x) ==> exists|j: int|
                0 <= j < s.len() && s[j].0 == x,
        entries_map(s).dom().finite(),
        entries_map(s).dom().len() == s.len(),
    decreases s.len(),
{
    if s.len() > 0 {
        let t = s.drop_last();
        assert(keys_sorted(t));
        lemma_entries_map_sorted(t);
        let last = s.last();
        assert forall|j: int| 0 <= j < t.len() implies t[j].0 != last.0 by {
            assert(seq_lt(s[j].0, s[s.len() - 1].0));
            lemma_seq_lt_trichotomy(s[j].0, last.0);
        }
        assert(!entries_map(t).contains_key(last.0));
        assert forall|j: int| 0 <= j < s.len() implies #[trigger] entries_map(s).contains_key(
            s[j].0,
        ) && entries_map(s)[s[j].0] == s[j].1 by {
            if j < s.len() - 1 {
                assert(s[j] == t[j]);
            }
        }
        assert forall|x: Seq<char>| #[trigger] entries_map(s).contains_key(x) implies exists|
            j: int,
        | 0 <= j < s.len() && s[j].0 == x by {
            if x != last.0 {
                let j = choose|j: int| 0 <= j < t.len() && t[j].0 == x;
                assert(s[j] == t[j]);
            } else {
                assert(s[s.len() - 1].0 == x);
            }
        }
    }
}

impl FileMap {
    /// The map that the entries stand for.
    pub open spec fn map(&self) -> Map<Seq<char>, Seq<char>> {
        entries_map(self@)
    }

    /// The keys in order.
    pub open spec fn keys(&self) -> Seq<Seq<char>> {
        keys_of(self@)
    }

    /// Keys are strictly increasing.
    #[verifier::type_invariant]
    pub closed spec fn wf(&self) -> bool {
        keys_sorted(pairs_view(self.entries@))
    }

    /// A map's entries are sorted by key.
    #[verifier::spinoff_prover]
    pub proof fn lemma_sorted(m: &FileMap)
        requires
            m.wf(),
        ensures
            keys_sorted(m@),
            forall|j: int|
                0 <= j < m@.len() ==> #[trigger] m.map().contains_key(m@[j].0) && m.map()[m@[j].0]
                    == m@[j].1,
            forall|x: Seq<char>|
                #[trigger] m.map().contains_key(x) ==> exists|j: int|
                    0 <= j < m@.len() && m@[j].0 == x,
    {
        lemma_entries_map_sorted(m@);
    }

    /// An empty map.
    pub fn new() -> (res: FileMap)
        ensures
            res@ == Seq::<EntryView>::empty(),
            res.map() == Map::<Seq<char>, Seq<char>>::empty(),
    {
        let res = FileMap { entries: Vec::new() };
        assert(res@ =~= Seq::<EntryView>::empty());
        res
    }

    /// Number of entries.
    pub fn len(&self) -> (res: usize)
        ensures
            res == self@.len(),
    {
        self.entries.len()
    }

    /// Whether the map has no entry.
    pub fn is_empty(&self) -> (res: bool)
        ensures
            res == (self@.len() == 0),
            res == (self.map() == Map::<Seq<char>, Seq<char>>::empty()),
    {
        proof {
            use_type_invariant(self);
            lemma_entries_map_sorted(self@);
            if self@.len() > 0 {
                assert(self.map().contains_key(self@[0].0));
            } else {
                assert(self.map() =~= Map::<Seq<char>, Seq<char>>::empty());
            }
        }
        self.entries.len() == 0
    }

    /// The entries in key order.
    pub fn entries(&self) -> (res: &Vec<(String, String)>)
        ensures
            pairs_view(res@) == self@,
    {
        &self.entries
    }

    /// Position of `key`, or where it would be inserted.
    fn position(&self, key: &Vec<char>) -> (res: (usize, bool))
        requires
            self.wf(),
        ensures
            res.0 <= self@.len(),
            forall|j: int| 0 <= j < res.0 ==> seq_lt(#[trigger] self@[j].0, key@),
            res.1 ==> res.0 < self@.len() && self@[res.0 as int].0 == key@,
            !res.1 ==> forall|j: int| res.0 <= j < self@.len() ==> seq_lt(key@, #[trigger] self@[j].0),
    {
        let mut i: usize = 0;
        while i < self.entries.len()
            invariant
                self.wf(),
                i <= self@.len(),
                self@.len() == self.entries@.len(),
                forall|j: int| 0 <= j < i ==> seq_lt(#[trigger] self@[j].0, key@),
            decreases self.entries.len() - i,
        {
            let k = chars_of(self.entries[i].0.as_str());
            assert(k@ == self@[i as int].0);
            if !chars_lt(&k, key) {
                proof {
                    lemma_seq_lt_trichotomy(k@, key@);
                }
                if crate::text::chars_eq(&k, key) {
                    return (i, true);
                }
                assert forall|j: int| i <= j < self@.len() implies seq_lt(key@, #[trigger] self@[j].0) by {
                    if j > i {
                        assert(seq_lt(self@[i as int].0, self@[j].0));
                        lemma_seq_lt_transitive(key@, self@[i as int].0, self@[j].0);
                    }
                }
                return (i, false);
            }
            i = i + 1;
        }
        (i, false)
    }

    /// Inserts `value` under `key`, replacing what was there.
    pub fn insert(&mut self, key: String, value: String)
        ensures
            final(self)@ == sorted_insert(old(self)@, key@, value@),
            final(self).map() == old(self).map().insert(key@, value@),
            final(self)@.len() == old(self)@.len() + if old(self).map().contains_key(key@) {
                0int
            } else {
                1int
            },
    {
        proof {
            use_type_invariant(&*self);
            lemma_entries_map_sorted(self@);
        }
        let k = chars_of(key.as_str());
        let (i, found) = self.position(&k);
        let ghost old_view = self@;
        let mut entries: Vec<(String, String)> = Vec::new();
        std::mem::swap(&mut entries, &mut self.entries);
        assert(pairs_view(entries@) == old_view);
        let ghost kv = key@;
        let ghost vv = value@;
        proof {
            lemma_sorted_insert_at(old_view, kv, vv, i as int, found);
        }
        if found {
            entries.set(i, (key, value));
            assert(pairs_view(entries@) =~= old_view.update(i as int, (kv, vv)));
            assert(old_view.update(i as int, (kv, vv)) =~= old_view.take(i as int) + seq![(kv, vv)]
                + old_view.skip(i + 1));
        } else {
            entries.insert(i, (key, value));
            assert(pairs_view(entries@) =~= old_view.insert(i as int, (kv, vv)));
            assert(old_view.insert(i as int, (kv, vv)) =~= old_view.take(i as int) + seq![(kv, vv)]
                + old_view.skip(i as int));
        }
        proof {
            lemma_sorted_insert(old_view, kv, vv);
        }
        self.entries = entries;
    }

    /// Whether `key` has an entry.
    pub fn contains_key(&self, key: &str) -> (res: bool)
        ensures
            res == self.map().contains_key(key@),
    {
        proof {
            use_type_invariant(self);
            lemma_entries_map_sorted(self@);
        }
        let k = chars_of(key);
        let (i, found) = self.position(&k);
        proof {
            if !found && self.map().contains_key(k@) {
                let j = choose|j: int| 0 <= j < self@.len() && self@[j].0 == k@;
                lemma_seq_lt_trichotomy(k@, k@);
            }
        }
        found
    }

    /// The contents stored under `key`.
    pub fn get(&self, key: &str) -> (res: Option<&String>)
        ensures
            match res {
                Some(v) => self.map().contains_key(key@) && self.map()[key@] == v@,
                None => !self.map().contains_key(key@),
            },
    {
        proof {
            use_type_invariant(self);
            lemma_entries_map_sorted(self@);
        }
        let k = chars_of(key);
        let (i, found) = self.position(&k);
        if found {
            Some(&self.entries[i].1)
        } else {
            proof {
                if self.map().contains_key(k@) {
                    let j = choose|j: int| 0 <= j < self@.len() && self@[j].0 == k@;
                    lemma_seq_lt_trichotomy(k@, k@);
                }
            }
            None
        }
    }

    /// Inserts every entry of `other`, in its order; entries of `other` replace
    /// those of `self` under the same key (`BTreeMap::extend`).
    pub fn extend(&mut self, other: &FileMap)
        ensures
            final(self).map() == old(self).map().union_prefer_right(other.map()),
            final(self)@ == insert_all(old(self)@, other@),
    {
        let ghost ov = other@;
        let n = other.entries.len();
        let mut i: usize = 0;
        assert(ov.take(0) =~= Seq::<EntryView>::empty());
        assert(old(self).map().union_prefer_right(entries_map(ov.take(0))) =~= old(self).map());
        while i < n
            invariant
                i <= n,
                n == other@.len(),
                ov == other@,
                pairs_view(other.entries@) == ov,
                self.map() == old(self).map().union_prefer_right(entries_map(ov.take(i as int))),
                self@ == insert_all(old(self)@, ov.take(i as int)),
            decreases n - i,
        {
            let k = other.entries[i].0.clone();
            let v = other.entries[i].1.clone();
            assert(ov.take(i + 1).drop_last() =~= ov.take(i as int));
            assert(ov.take(i + 1).last() == ov[i as int]);
            self.insert(k, v);
            assert(self.map() =~= old(self).map().union_prefer_right(entries_map(ov.take(i + 1))));
            i = i + 1;
        }
        assert(ov.take(n as int) =~= ov);
    }

    /// Builds a map from pairs, inserted in order: a later pair for a key
    /// replaces an earlier one (`BTreeMap::from`).
    pub fn from_pairs(pairs: Vec<(String, String)>) -> (res: FileMap)
        ensures
            res.map() == entries_map(pairs_view(pairs@)),
            res@ == insert_all(Seq::<EntryView>::empty(), pairs_view(pairs@)),
    {
        let ghost pv = pairs_view(pairs@);
        let mut res = FileMap::new();
        let mut i: usize = 0;
        assert(pv.take(0) =~= Seq::<EntryView>::empty());
        while i < pairs.len()
            invariant
                i <= pairs.len(),
                pv == pairs_view(pairs@),
                res.map() == entries_map(pv.take(i as int)),
                res@ == insert_all(Seq::<EntryView>::empty(), pv.take(i as int)),
            decreases pairs.len() - i,
        {
            let k = pairs[i].0.clone();
            let v = pairs[i].1.clone();
            assert(pv.take(i + 1).drop_last() =~= pv.take(i as int));
            assert(pv.take(i + 1).last() == pv[i as int]);
            res.insert(k, v);
            i = i + 1;
        }
        assert(pv.take(pairs.len() as int) =~= pv);
        res
    }
}

impl Clone for FileMap {
    /// A copy holding the same entries in the same order.
    #[verifier::spinoff_prover]
    fn clone(&self) -> (res: Self)
        ensures
            res@ == self@,
    {
        proof {
            use_type_invariant(self);
        }
        let mut entries: Vec<(String, String)> = Vec::new();
        let mut i: usize = 0;
        while i < self.entries.len()
            invariant
                i <= self.entries.len(),
                pairs_view(entries@) == pairs_view(self.entries@).take(i as int),
            decreases self.entries.len() - i,
        {
            let k = self.entries[i].0.clone();
            let v = self.entries[i].1.clone();
            let ghost before = entries@;
            entries.push((k, v));
            assert(entries@ == before.push((k, v)));
            assert(pairs_view(entries@) =~= pairs_view(before).push((k@, v@)));
            i = i + 1;
            assert(pairs_view(entries@) =~= pairs_view(self.entries@).take(i as int));
        }
        assert(pairs_view(self.entries@).take(i as int) =~= pairs_view(self.entries@));
        FileMap { entries }
    }
}

} // verus!
