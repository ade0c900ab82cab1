//! Frequency tables keyed by strings, and their ordering by frequency.

use vstd::prelude::*;

use crate::text::views;

verus! {

broadcast use {vstd::seq_lib::group_to_multiset_ensures, vstd::multiset::group_multiset_axioms};

/// The view of `(key, count)` entries.
pub open spec fn entry_views(e: Seq<(String, u64)>) -> Seq<(Seq<char>, u64)> {
    e.map_values(|p: (String, u64)| (p.0@, p.1))
}

/// No key occurs twice.
pub open spec fn keys_distinct(e: Seq<(Seq<char>, u64)>) -> bool {
    forall|i: int, j: int| 0 <= i < e.len() && 0 <= j < e.len() && i != j ==> e[i].0 != e[j].0
}

/// Every count is at least one.
pub open spec fn counts_positive(e: Seq<(Seq<char>, u64)>) -> bool {
    forall|i: int| 0 <= i < e.len() ==> e[i].1 > 0
}

/// The map from keys to counts of a list of entries.
pub open spec fn entries_map(e: Seq<(Seq<char>, u64)>) -> Map<Seq<char>, nat>
    decreases e.len(),
{
    if e.len() == 0 {
        Map::empty()
    } else {
        entries_map(e.drop_last()).insert(e.last().0, e.last().1 as nat)
    }
}

/// The sum of the counts.
pub open spec fn entries_total(e: Seq<(Seq<char>, u64)>) -> nat
    decreases e.len(),
{
    if e.len() == 0 {
        0
    } else {
        entries_total(e.drop_last()) + e.last().1 as nat
    }
}

/// One more occurrence of `k`.
pub open spec fn bump(m: Map<Seq<char>, nat>, k: Seq<char>) -> Map<Seq<char>, nat> {
    m.insert(
        k,
        if m.contains_key(k) {
            m[k] + 1
        } else {
            1
        },
    )
}

/// One more occurrence of each of `xs`, in order.
pub open spec fn tally(m: Map<Seq<char>, nat>, xs: Seq<Seq<char>>) -> Map<Seq<char>, nat>
    decreases xs.len(),
{
    if xs.len() == 0 {
        m
    } else {
        bump(tally(m, xs.drop_last()), xs.last())
    }
}

/// The map of distinct entries holds exactly their keys, each with its count.
pub proof fn lemma_entries_map(e: Seq<(Seq<char>, u64)>)
    requires
        keys_distinct(e),
    ensures
        forall|i: int|
            0 <= i < e.len() ==> #[trigger] entries_map(e).contains_key(e[i].0) && entries_map(
                e,
            )[e[i].0] == e[i].1,
        forall|k: Seq<char>|
            #[trigger] entries_map(e).contains_key(k) ==> exists|i: int|
                0 <= i < e.len() && e[i].0 == k,
        entries_map(e).dom().finite(),
        entries_map(e).dom().len() == e.len(),
    decreases e.len(),
{
    if e.len() > 0 {
        let p = e.drop_last();
        assert(keys_distinct(p));
        lemma_entries_map(p);
        assert(!entries_map(p).contains_key(e.last().0)) by {
            if entries_map(p).contains_key(e.last().0) {
                let i = choose|i: int| 0 <= i < p.len() && p[i].0 == e.last().0;
                assert(e[i].0 == e[e.len() - 1].0);
            }
        }
        assert forall|k: Seq<char>| #[trigger] entries_map(e).contains_key(k) implies exists|i: int|
            0 <= i < e.len() && e[i].0 == k by {
            if k != e.last().0 {
                let i = choose|i: int| 0 <= i < p.len() && p[i].0 == k;
                assert(e[i].0 == k);
            } else {
                assert(e[e.len() - 1].0 == k);
            }
        }
        assert forall|i: int| 0 <= i < e.len() implies #[trigger] entries_map(e).contains_key(
            e[i].0,
        ) && entries_map(e)[e[i].0] == e[i].1 by {
            if i < e.len() - 1 {
                assert(p[i] == e[i]);
                assert(e[i].0 != e[e.len() - 1].0);
            }
        }
    }
}

/// Changing the count of one entry changes the map at its key and the total
/// by the difference.
pub proof fn lemma_entries_update(e: Seq<(Seq<char>, u64)>, j: int, c: u64)
    requires
        keys_distinct(e),
        0 <= j < e.len(),
    ensures
        keys_distinct(e.update(j, (e[j].0, c))),
        entries_map(e.update(j, (e[j].0, c))) == entries_map(e).insert(e[j].0, c as nat),
        entries_total(e.update(j, (e[j].0, c))) + e[j].1 == entries_total(e) + c,
    decreases e.len(),
{
    let u = e.update(j, (e[j].0, c));
    assert(keys_distinct(u)) by {
        assert forall|a: int, b: int|
            0 <= a < u.len() && 0 <= b < u.len() && a != b implies u[a].0 != u[b].0 by {
            assert(u[a].0 == e[a].0);
            assert(u[b].0 == e[b].0);
        }
    }
    if j == e.len() - 1 {
        assert(u.drop_last() =~= e.drop_last());
        assert(entries_map(u) =~= entries_map(e).insert(e[j].0, c as nat));
    } else {
        let p = e.drop_last();
        assert(keys_distinct(p));
        lemma_entries_update(p, j, c);
        assert(u.drop_last() =~= p.update(j, (p[j].0, c)));
        assert(e[j].0 != e.last().0);
        assert(entries_map(u) =~= entries_map(e).insert(e[j].0, c as nat));
    }
}

/// A frequency table: distinct string keys with positive counts, and the sum
/// of the counts.
pub struct FreqTable {
    entries: Vec<(String, u64)>,
    total: u64,
}

impl FreqTable {
    /// The table's invariant.
    pub closed spec fn wf(&self) -> bool {
        &&& keys_distinct(entry_views(self.entries@))
        &&& counts_positive(entry_views(self.entries@))
        &&& self.total as nat == entries_total(entry_views(self.entries@))
    }

    /// How many times each key was counted.
    pub closed spec fn counts(&self) -> Map<Seq<char>, nat> {
        entries_map(entry_views(self.entries@))
    }

    /// The entries, in the order their keys were first counted.
    pub closed spec fn entry_list(&self) -> Seq<(Seq<char>, u64)> {
        entry_views(self.entries@)
    }

    /// The number of counted occurrences.
    pub closed spec fn total_count(&self) -> nat {
        self.total as nat
    }

    /// The map of the entry list is the table's counts, and the entry list's
    /// keys are distinct with positive counts.
    pub proof fn lemma_entry_list(&self)
        requires
            self.wf(),
        ensures
            keys_distinct(self.entry_list()),
            counts_positive(self.entry_list()),
            entries_map(self.entry_list()) == self.counts(),
            entries_total(self.entry_list()) == self.total_count(),
    {
    }

    pub fn new() -> (t: FreqTable)
        ensures
            t.wf(),
            t.counts() == Map::<Seq<char>, nat>::empty(),
            t.total_count() == 0,
            t.entry_list() == Seq::<(Seq<char>, u64)>::empty(),
    {
        let t = FreqTable { entries: Vec::new(), total: 0 };
        assert(entry_views(t.entries@) =~= Seq::<(Seq<char>, u64)>::empty());
        t
    }

    /// The number of distinct keys.
    pub fn len(&self) -> (n: usize)
        requires
            self.wf(),
        ensures
            n == self.counts().dom().len(),
            n == self.entry_list().len(),
    {
        proof {
            lemma_entries_map(entry_views(self.entries@));
        }
        self.entries.len()
    }

    /// The number of counted occurrences.
    pub fn total(&self) -> (n: u64)
        ensures
            n == self.total_count(),
    {
        self.total
    }

    /// The entries, in the order their keys were first counted.
    pub fn entries(&self) -> (e: &Vec<(String, u64)>)
        ensures
            entry_views(e@) == self.entry_list(),
    {
        &self.entries
    }

    /// The entries, in the order their keys were first counted.
    pub fn into_entries(self) -> (e: Vec<(String, u64)>)
        ensures
            entry_views(e@) == self.entry_list(),
    {
        self.entries
    }

    /// The position of `key`, if counted.
    fn position(&self, key: &String) -> (r: Option<usize>)
        ensures
            match r {
                Some(j) => j < self.entries@.len() && self.entries@[j as int].0@ == key@,
                None => forall|i: int|
                    0 <= i < self.entries@.len() ==> self.entries@[i].0@ != key@,
            },
    {
        let mut i: usize = 0;
        while i < self.entries.len()
            invariant
                0 <= i <= self.entries@.len(),
                forall|k: int| 0 <= k < i ==> self.entries@[k].0@ != key@,
            decreases self.entries@.len() - i,
        {
            if self.entries[i].0 == *key {
                return Some(i);
            }
            i = i + 1;
        }
        None
    }

    /// Counts one occurrence of `key`.
    pub fn add(&mut self, key: &String)
        requires
            old(self).wf(),
            old(self).total_count() < u64::MAX,
        ensures
            final(self).wf(),
            final(self).counts() == bump(old(self).counts(), key@),
            final(self).total_count() == old(self).total_count() + 1,
    {
        let ghost e = entry_views(self.entries@);
        proof {
            lemma_entries_map(e);
        }
        match self.position(key) {
            Some(j) => {
                let c = self.entries[j].1;
                proof {
                    assert(e[j as int] == (self.entries@[j as int].0@, self.entries@[j as int].1));
                    assert(e[j as int].0 == key@);
                    assert(e[j as int].1 == c);
                    lemma_total_ge(e, j as int);
                    lemma_entries_update(e, j as int, (c + 1) as u64);
                }
                let k = self.entries[j].0.clone();
                self.entries.set(j, (k, c + 1));
                proof {
                    assert(entry_views(self.entries@) =~= e.update(j as int, (e[j as int].0, (c + 1) as u64)));
                }
                self.total = self.total + 1;
            },
            None => {
                proof {
                    assert(!entries_map(e).contains_key(key@)) by {
                        if entries_map(e).contains_key(key@) {
                            let i = choose|i: int| 0 <= i < e.len() && e[i].0 == key@;
                            assert(self.entries@[i].0@ == key@);
                        }
                    }
                }
                let k = key.clone();
                self.entries.push((k, 1));
                proof {
                    let n = entry_views(self.entries@);
                    assert(n =~= e.push((key@, 1u64)));
                    assert(n.drop_last() =~= e);
                    assert(keys_distinct(n)) by {
                        assert forall|a: int, b: int|
                            0 <= a < n.len() && 0 <= b < n.len() && a != b implies n[a].0 != n[b].0 by {
                            if a < e.len() && b < e.len() {
                                assert(n[a] == e[a] && n[b] == e[b]);
                            } else if a < e.len() {
                                assert(self.entries@[a].0@ != key@);
                            } else {
                                assert(self.entries@[b].0@ != key@);
                            }
                        }
                    }
                }
                self.total = self.total + 1;
            },
        }
    }

    /// Counts one occurrence of each of `keys`.
    pub fn add_all(&mut self, keys: &Vec<String>)
        requires
            old(self).wf(),
            old(self).total_count() + keys@.len() <= u64::MAX,
        ensures
            final(self).wf(),
            final(self).counts() == tally(old(self).counts(), views(keys@)),
            final(self).total_count() == old(self).total_count() + keys@.len(),
    {
        let ghost m0 = self.counts();
        let ghost t0 = self.total_count();
        let mut i: usize = 0;
        while i < keys.len()
            invariant
                0 <= i <= keys@.len(),
                self.wf(),
                self.counts() == tally(m0, views(keys@).take(i as int)),
                self.total_count() == t0 + i,
                t0 + keys@.len() <= u64::MAX,
            decreases keys@.len() - i,
        {
            proof {
                assert(views(keys@).take(i + 1).drop_last() =~= views(keys@).take(i as int));
                assert(views(keys@).take(i + 1).last() == keys@[i as int]@);
            }
            self.add(&keys[i]);
            i = i + 1;
        }
        assert(views(keys@).take(keys@.len() as int) =~= views(keys@));
    }
}

/// Counts never increase along `s`.
pub open spec fn sorted_desc(s: Seq<(String, u64)>) -> bool {
    forall|i: int, j: int| 0 <= i < j < s.len() ==> s[i].1 >= s[j].1
}

/// `r` lists keys of `m` with their counts, most frequent first: all of them
/// if there are at most `limit`, else `limit` of them, none of which is less
/// frequent than a key left out (ties between equal counts fall either way).
pub open spec fn is_top_entries(
    r: Seq<(Seq<char>, u64)>,
    m: Map<Seq<char>, nat>,
    limit: nat,
) -> bool {
    &&& r.len() == if m.dom().len() < limit {
        m.dom().len()
    } else {
        limit
    }
    &&& keys_distinct(r)
    &&& forall|i: int| 0 <= i < r.len() ==> m.contains_key(#[trigger] r[i].0) && m[r[i].0] == r[i].1
    &&& forall|i: int, j: int| 0 <= i < j < r.len() ==> r[i].1 >= r[j].1
    &&& forall|k: Seq<char>, i: int|
        m.contains_key(k) && (forall|j: int| 0 <= j < r.len() ==> r[j].0 != k) && 0 <= i < r.len()
            ==> #[trigger] r[i].1 >= #[trigger] m[k]
}

/// A stable insertion sort of entries by descending count.
fn sort_by_count_desc(entries: &Vec<(String, u64)>) -> (out: Vec<(String, u64)>)
    ensures
        out@.to_multiset() == entries@.to_multiset(),
        sorted_desc(out@),
{
    let mut out: Vec<(String, u64)> = Vec::new();
    let mut i: usize = 0;
    assert(entries@.take(0) =~= Seq::<(String, u64)>::empty());
    while i < entries.len()
        invariant
            0 <= i <= entries@.len(),
            out@.to_multiset() == entries@.take(i as int).to_multiset(),
            sorted_desc(out@),
        decreases entries@.len() - i,
    {
        let e = (entries[i].0.clone(), entries[i].1);
        assert(e == entries@[i as int]);
        let mut pos: usize = 0;
        while pos < out.len() && out[pos].1 >= e.1
            invariant
                0 <= pos <= out@.len(),
                forall|k: int| 0 <= k < pos ==> out@[k].1 >= e.1,
            decreases out@.len() - pos,
        {
            pos = pos + 1;
        }
        let ghost old_out = out@;
        out.insert(pos, e);
        proof {
            assert(out@.remove(pos as int) =~= old_out);
            assert(out@[pos as int] == e);
            assert(out@.to_multiset() =~= old_out.to_multiset().insert(e)) by {
                assert(out@.remove(pos as int).to_multiset() == out@.to_multiset().remove(e));
                assert(out@.to_multiset().contains(e)) by {
                    assert(out@.contains(e));
                }
            }
            assert(entries@.take(i + 1) =~= entries@.take(i as int).push(e));
            assert forall|a: int, b: int| 0 <= a < b < out@.len() implies out@[a].1 >= out@[b].1 by {
                if b < pos {
                    assert(out@[a] == old_out[a] && out@[b] == old_out[b]);
                } else if b == pos {
                    assert(out@[a] == old_out[a]);
                } else if a == pos {
                    assert(out@[b] == old_out[b - 1]);
                    if pos < old_out.len() {
                        assert(old_out[pos as int].1 < e.1);
                    }
                } else if a < pos {
                    assert(out@[a] == old_out[a] && out@[b] == old_out[b - 1]);
                } else {
                    assert(out@[a] == old_out[a - 1] && out@[b] == old_out[b - 1]);
                }
            }
        }
        i = i + 1;
    }
    assert(entries@.take(entries@.len() as int) =~= entries@);
    out
}

/// Distinct keys make distinct entries.
proof fn lemma_distinct_entries(e: Seq<(String, u64)>)
    requires
        keys_distinct(entry_views(e)),
    ensures
        e.no_duplicates(),
{
    assert forall|a: int, b: int| 0 <= a < e.len() && 0 <= b < e.len() && a != b implies e[a]
        != e[b] by {
        assert(entry_views(e)[a].0 == e[a].0@);
        assert(entry_views(e)[b].0 == e[b].0@);
    }
}

impl FreqTable {
    /// The entries by descending count, at most `limit` of them.
    pub fn top(&self, limit: usize) -> (r: Vec<(String, u64)>)
        requires
            self.wf(),
        ensures
            is_top_entries(entry_views(r@), self.counts(), limit as nat),
    {
        let mut s = sort_by_count_desc(&self.entries);
        let ghost full = s@;
        let ghost e = self.entries@;
        let ghost v = entry_views(e);
        proof {
            lemma_entries_map(v);
            lemma_distinct_entries(e);
            e.lemma_multiset_has_no_duplicates();
            full.lemma_multiset_has_no_duplicates_conv();
            assert(full.to_multiset().len() == e.to_multiset().len());
            assert(full.len() == e.len());
        }
        if limit < s.len() {
            s.truncate(limit);
        }
        proof {
            let r = s@;
            let m = entries_map(v);
            assert(r =~= full.take(r.len() as int));
            let rv = entry_views(r);
            // every listed entry is an entry of the table
            assert forall|i: int| 0 <= i < r.len() implies exists|p: int|
                0 <= p < e.len() && e[p] == #[trigger] r[i] by {
                assert(full[i] == r[i]);
                assert(full.contains(r[i]));
                assert(e.to_multiset().count(r[i]) > 0);
                assert(e.contains(r[i]));
            }
            assert forall|i: int| 0 <= i < rv.len() implies m.contains_key(#[trigger] rv[i].0)
                && m[rv[i].0] == rv[i].1 by {
                let p = choose|p: int| 0 <= p < e.len() && e[p] == r[i];
                assert(v[p] == rv[i]);
            }
            assert(keys_distinct(rv)) by {
                assert forall|a: int, b: int|
                    0 <= a < rv.len() && 0 <= b < rv.len() && a != b implies rv[a].0 != rv[b].0 by {
                    let p = choose|p: int| 0 <= p < e.len() && e[p] == r[a];
                    let q = choose|q: int| 0 <= q < e.len() && e[q] == r[b];
                    assert(v[p] == rv[a]);
                    assert(v[q] == rv[b]);
                    assert(full[a] == r[a] && full[b] == r[b]);
                }
            }
            assert forall|k: Seq<char>, i: int|
                m.contains_key(k) && (forall|j: int| 0 <= j < rv.len() ==> rv[j].0 != k) && 0 <= i
                    < rv.len() implies #[trigger] rv[i].1 >= #[trigger] m[k] by {
                let p = choose|p: int| 0 <= p < v.len() && v[p].0 == k;
                assert(e.contains(e[p]));
                assert(full.to_multiset().count(e[p]) > 0);
                assert(full.contains(e[p]));
                let q = choose|q: int| 0 <= q < full.len() && full[q] == e[p];
                if q < r.len() {
                    assert(rv[q].0 == k);
                }
                assert(full[i] == r[i]);
                assert(m[k] == v[p].1);
            }
            assert forall|a: int, b: int| 0 <= a < b < rv.len() implies rv[a].1 >= rv[b].1 by {
                assert(full[a] == r[a] && full[b] == r[b]);
            }
        }
        s
    }
}

/// Each count is at most the total.
pub proof fn lemma_total_ge(e: Seq<(Seq<char>, u64)>, j: int)
    requires
        0 <= j < e.len(),
    ensures
        entries_total(e) >= e[j].1,
    decreases e.len(),
{
    if j < e.len() - 1 {
        lemma_total_ge(e.drop_last(), j);
    }
}

} // verus!
