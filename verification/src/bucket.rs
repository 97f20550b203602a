//! A series of records keyed by whole seconds.
//!
//! Each source feeds records into a [`SecondSeries`]: an ordered map from
//! the dedup key (the record's second) to the record kept for that second.
//! Insertion is first-writer-wins, and [`SecondSeries::forward_fill`]
//! densifies a UTC day: every second of the day gets a record, existing
//! records are never changed, and each filled second copies its donor
//! record with only the synthetic `timestamp` rewritten.

use vstd::prelude::*;
use crate::json::{DataRow, JsonItem, JsonValue};

verus! {

/// The map denoted by a key-sorted entry list.
pub open spec fn entries_map(s: Seq<(i64, DataRow)>) -> Map<int, Map<Seq<char>, JsonItem>>
    decreases s.len(),
{
    if s.len() == 0 {
        Map::empty()
    } else {
        entries_map(s.drop_last()).insert(s.last().0 as int, s.last().1@)
    }
}

/// A donor record stamped for second `t`: only the synthetic `timestamp`
/// is rewritten; everything else — the event time above all — is copied.
pub open spec fn spec_stamp(row: Map<Seq<char>, JsonItem>, t: int) -> Map<Seq<char>, JsonItem> {
    row.insert("timestamp"@, JsonItem::Int((t * 1000) as i64))
}

/// The largest key of `ks` that lies in `[start, t]`, or `ks[0]` when none
/// does: the record the fill loop is carrying when it reaches second `t`.
pub open spec fn spec_running_key(ks: Seq<int>, start: int, t: int) -> int
    decreases ks.len(),
{
    if ks.len() <= 1 {
        ks[0]
    } else if start <= ks.last() <= t {
        ks.last()
    } else {
        spec_running_key(ks.drop_last(), start, t)
    }
}

/// What the fill writes at second `t` of `[start, end]`, given the records
/// `m` with sorted present keys `ks`.
pub open spec fn spec_fill_row(
    m: Map<int, Map<Seq<char>, JsonItem>>,
    ks: Seq<int>,
    start: int,
    t: int,
) -> Map<Seq<char>, JsonItem>
    recommends
        ks.len() > 0,
{
    if m.dom().contains(t) {
        m[t]
    } else if t < ks[0] {
        spec_stamp(m[ks[0]], t)
    } else if t > ks.last() {
        spec_stamp(m[ks.last()], t)
    } else {
        spec_stamp(m[spec_running_key(ks, start, t)], t)
    }
}


/// The smallest present second of a series' map.
pub open spec fn spec_min_key(m: Map<int, Map<Seq<char>, JsonItem>>) -> int {
    choose|k: int|
        m.dom().contains(k) && forall|k2: int| #[trigger] m.dom().contains(k2) ==> k <= k2
}

/// The largest present second of a series' map.
pub open spec fn spec_max_key(m: Map<int, Map<Seq<char>, JsonItem>>) -> int {
    choose|k: int|
        m.dom().contains(k) && forall|k2: int| #[trigger] m.dom().contains(k2) ==> k2 <= k
}

/// Is any record present in `[start, t]`?
pub open spec fn spec_has_window_key(
    m: Map<int, Map<Seq<char>, JsonItem>>,
    start: int,
    t: int,
) -> bool {
    exists|k: int| #[trigger] m.dom().contains(k) && start <= k <= t
}

/// The latest record at or before `t` within the day: the one the fill is
/// carrying when it reaches `t`.
pub open spec fn spec_window_key(m: Map<int, Map<Seq<char>, JsonItem>>, start: int, t: int) -> int {
    choose|k: int|
        m.dom().contains(k) && start <= k <= t && forall|k2: int|
            #[trigger] m.dom().contains(k2) && start <= k2 <= t ==> k2 <= k
}

/// The day's fill, stated on the map alone: a present second keeps its
/// record; a missing second before every record copies the first, after
/// every record the last, and otherwise the latest in-day record at or
/// before it — each copy stamped with only its own `timestamp`.
pub open spec fn spec_day_fill_row(
    m: Map<int, Map<Seq<char>, JsonItem>>,
    start: int,
    t: int,
) -> Map<Seq<char>, JsonItem> {
    if m.dom().contains(t) {
        m[t]
    } else if t < spec_min_key(m) {
        spec_stamp(m[spec_min_key(m)], t)
    } else if t > spec_max_key(m) {
        spec_stamp(m[spec_max_key(m)], t)
    } else if spec_has_window_key(m, start, t) {
        spec_stamp(m[spec_window_key(m, start, t)], t)
    } else {
        spec_stamp(m[spec_min_key(m)], t)
    }
}

/// On a sorted key sequence that enumerates the map's domain, the
/// sequence-level fill row is exactly the map-level one.
#[verifier::rlimit(100)]
pub proof fn lemma_fill_row_on_keys(
    m: Map<int, Map<Seq<char>, JsonItem>>,
    ks: Seq<int>,
    start: int,
    t: int,
)
    requires
        ks.len() > 0,
        forall|i: int, j: int| 0 <= i < j < ks.len() ==> ks[i] < ks[j],
        forall|k: int| m.dom().contains(k) <==> ks.contains(k),
    ensures
        spec_fill_row(m, ks, start, t) == spec_day_fill_row(m, start, t),
{
    assert(ks.contains(ks[0]));
    assert(ks.contains(ks[ks.len() - 1]));
    assert forall|k2: int| #[trigger] m.dom().contains(k2) implies ks[0] <= k2 && k2 <= ks[
        ks.len() - 1
    ] by {
        assert(ks.contains(k2));
        let i = choose|i: int| 0 <= i < ks.len() && #[trigger] ks[i] == k2;
        if i > 0 {
            assert(ks[0] < ks[i]);
        }
        if i < ks.len() - 1 {
            assert(ks[i] < ks[ks.len() - 1]);
        }
    }
    assert(m.dom().contains(ks[0]) && forall|k2: int|
        #[trigger] m.dom().contains(k2) ==> ks[0] <= k2);
    let mn = spec_min_key(m);
    assert(m.dom().contains(mn) && forall|k2: int| #[trigger] m.dom().contains(k2) ==> mn <= k2);
    assert(mn == ks[0]);
    assert(m.dom().contains(ks[ks.len() - 1]) && forall|k2: int|
        #[trigger] m.dom().contains(k2) ==> k2 <= ks[ks.len() - 1]);
    let mx = spec_max_key(m);
    assert(m.dom().contains(mx) && forall|k2: int| #[trigger] m.dom().contains(k2) ==> k2 <= mx);
    assert(mx == ks[ks.len() - 1]);
    if m.dom().contains(t) {
    } else if t < ks[0] {
    } else if t > ks.last() {
    } else if spec_has_window_key(m, start, t) {
        let kw = spec_window_key(m, start, t);
        assert(exists|k: int|
            m.dom().contains(k) && start <= k <= t && forall|k2: int|
                #[trigger] m.dom().contains(k2) && start <= k2 <= t ==> k2 <= k) by {
            let k0 = choose|k: int| #[trigger] m.dom().contains(k) && start <= k <= t;
            assert(ks.contains(k0));
            let i0 = choose|i: int| 0 <= i < ks.len() && #[trigger] ks[i] == k0;
            let imax = largest_window_index(m, ks, start, t, i0);
            assert(ks.contains(ks[imax]));
            assert(m.dom().contains(ks[imax]) && start <= ks[imax] <= t && forall|k2: int|
                #[trigger] m.dom().contains(k2) && start <= k2 <= t ==> k2 <= ks[imax]);
        }
        assert(m.dom().contains(kw) && start <= kw <= t && forall|k2: int|
            #[trigger] m.dom().contains(k2) && start <= k2 <= t ==> k2 <= kw);
        assert(ks.contains(kw));
        let iw = choose|iw: int| 0 <= iw < ks.len() && #[trigger] ks[iw] == kw;
        if iw < ks.len() - 1 && ks[iw + 1] <= t {
            assert(ks.contains(ks[iw + 1]));
            assert(m.dom().contains(ks[iw + 1]));
            assert(ks[iw] < ks[iw + 1]);
            assert(start <= ks[iw + 1] <= t);
            assert(false);
        }
        lemma_running_key(ks, start, t, iw);
    } else {
        assert forall|i: int| 0 <= i < ks.len() implies !(start <= #[trigger] ks[i] <= t) by {
            assert(ks.contains(ks[i]));
            assert(m.dom().contains(ks[i]));
        }
        lemma_running_key_none(ks, start, t);
    }
}

/// The index of the largest key of `ks` inside `[start, t]`, found by
/// walking right from a known in-window index.
proof fn largest_window_index(
    m: Map<int, Map<Seq<char>, JsonItem>>,
    ks: Seq<int>,
    start: int,
    t: int,
    i0: int,
) -> (r: int)
    requires
        forall|i: int, j: int| 0 <= i < j < ks.len() ==> ks[i] < ks[j],
        forall|k: int| m.dom().contains(k) <==> ks.contains(k),
        0 <= i0 < ks.len(),
        start <= ks[i0] <= t,
    ensures
        0 <= r < ks.len(),
        start <= ks[r] <= t,
        forall|k2: int| #[trigger] m.dom().contains(k2) && start <= k2 <= t ==> k2 <= ks[r],
    decreases ks.len() - i0,
{
    if i0 < ks.len() - 1 && ks[i0 + 1] <= t {
        assert(ks[i0] < ks[i0 + 1]);
        largest_window_index(m, ks, start, t, i0 + 1)
    } else {
        assert forall|k2: int|
            #[trigger] m.dom().contains(k2) && start <= k2 <= t implies k2 <= ks[i0] by {
            assert(ks.contains(k2));
            let i = choose|i: int| 0 <= i < ks.len() && #[trigger] ks[i] == k2;
            if i > i0 {
                assert(ks[i0] < ks[i]);
                assert(i0 < ks.len() - 1);
                assert(ks[i0 + 1] <= ks[i]) by {
                    if i0 + 1 < i {
                        assert(ks[i0 + 1] < ks[i]);
                    }
                }
                assert(false);
            }
            if i < i0 {
                assert(ks[i] < ks[i0]);
            }
        }
        i0
    }
}

/// Records of one stream, keyed and ordered by second.
pub struct SecondSeries {
    entries: Vec<(i64, DataRow)>,
}

impl View for SecondSeries {
    type V = Map<int, Map<Seq<char>, JsonItem>>;

    closed spec fn view(&self) -> Map<int, Map<Seq<char>, JsonItem>> {
        entries_map(self.entries@)
    }
}

proof fn lemma_entries_map_dom(s: Seq<(i64, DataRow)>, k: int)
    ensures
        entries_map(s).dom().contains(k) <==> exists|i: int| 0 <= i < s.len() && s[i].0 == k,
    decreases s.len(),
{
    if s.len() > 0 {
        lemma_entries_map_dom(s.drop_last(), k);
        if exists|i: int| 0 <= i < s.len() && s[i].0 == k {
            let i = choose|i: int| 0 <= i < s.len() && s[i].0 == k;
            if i < s.len() - 1 {
                assert(s.drop_last()[i].0 == k);
            }
        }
        if exists|i: int| 0 <= i < s.drop_last().len() && s.drop_last()[i].0 == k {
            let i = choose|i: int| 0 <= i < s.drop_last().len() && s.drop_last()[i].0 == k;
            assert(s[i].0 == k);
        }
    }
}

proof fn lemma_entries_map_at(s: Seq<(i64, DataRow)>, i: int)
    requires
        forall|p: int, q: int| 0 <= p < q < s.len() ==> s[p].0 != s[q].0,
        0 <= i < s.len(),
    ensures
        entries_map(s).dom().contains(s[i].0 as int),
        entries_map(s)[s[i].0 as int] == s[i].1@,
    decreases s.len(),
{
    if i == s.len() - 1 {
        lemma_entries_map_dom(s, s[i].0 as int);
    } else {
        lemma_entries_map_at(s.drop_last(), i);
        assert(s.drop_last()[i] == s[i]);
        assert(s.last().0 != s[i].0);
    }
}

impl SecondSeries {
    /// Keys strictly increase and every record is well formed.
    pub closed spec fn wf(&self) -> bool {
        &&& forall|p: int, q: int|
            0 <= p < q < self.entries@.len() ==> self.entries@[p].0 < self.entries@[q].0
        &&& forall|i: int| 0 <= i < self.entries@.len() ==> (#[trigger] self.entries@[i].1).wf()
    }

    /// The present seconds, in increasing order.
    pub closed spec fn spec_keys(&self) -> Seq<int> {
        self.entries@.map_values(|e: (i64, DataRow)| e.0 as int)
    }

    /// Strictly increasing keys never repeat.
    proof fn keys_unique(&self)
        requires
            self.wf(),
        ensures
            forall|p: int, q: int|
                0 <= p < q < self.entries@.len() ==> self.entries@[p].0 != self.entries@[q].0,
    {
    }

    /// What the other spec functions say stays consistent: the ordered key
    /// sequence enumerates exactly the map's domain.
    pub proof fn lemma_keys(&self)
        requires
            self.wf(),
        ensures
            self.spec_keys().len() == self@.dom().len(),
            forall|k: int| self@.dom().contains(k) <==> self.spec_keys().contains(k),
            forall|i: int, j: int|
                0 <= i < j < self.spec_keys().len() ==> self.spec_keys()[i] < self.spec_keys()[j],
            forall|i: int|
                0 <= i < self.spec_keys().len() ==> self@.dom().contains(
                    #[trigger] self.spec_keys()[i],
                ),
    {
        self.keys_unique();
        assert forall|k: int| self@.dom().contains(k) implies self.spec_keys().contains(k) by {
            lemma_entries_map_dom(self.entries@, k);
            let i = choose|i: int| 0 <= i < self.entries@.len() && self.entries@[i].0 == k;
            assert(self.spec_keys()[i] == k);
        }
        assert forall|k: int| self.spec_keys().contains(k) implies self@.dom().contains(k) by {
            let i = choose|i: int| 0 <= i < self.spec_keys().len() && self.spec_keys()[i] == k;
            lemma_entries_map_dom(self.entries@, k);
            assert(self.entries@[i].0 == k);
        }
        assert forall|i: int|
            0 <= i < self.spec_keys().len() implies self@.dom().contains(
            #[trigger] self.spec_keys()[i],
        ) by {
            assert(self.spec_keys().contains(self.spec_keys()[i]));
        }
        self.lemma_len_is_dom_len();
    }

    proof fn lemma_len_is_dom_len(&self)
        requires
            forall|p: int, q: int|
                0 <= p < q < self.entries@.len() ==> self.entries@[p].0 != self.entries@[q].0,
        ensures
            self@.dom().len() == self.entries@.len(),
            self@.dom().finite(),
    {
        lemma_sub_len(self.entries@);
    }

    pub fn new() -> (r: Self)
        ensures
            r.wf(),
            r@ == Map::<int, Map<Seq<char>, JsonItem>>::empty(),
            r.spec_keys() == Seq::<int>::empty(),
    {
        let r = SecondSeries { entries: Vec::new() };
        proof {
            assert(r.spec_keys() =~= Seq::<int>::empty());
        }
        r
    }

    pub fn len(&self) -> (r: usize)
        ensures
            r == self.spec_keys().len(),
    {
        self.entries.len()
    }

    pub fn is_empty(&self) -> (r: bool)
        ensures
            r == (self.spec_keys().len() == 0),
    {
        self.entries.len() == 0
    }

    /// Index of the first entry with key `>= k`, scanning in order.
    fn lower_bound(&self, k: i64) -> (r: usize)
        requires
            self.wf(),
        ensures
            r <= self.entries@.len(),
            forall|j: int| 0 <= j < r ==> self.entries@[j].0 < k,
            forall|j: int| r <= j < self.entries@.len() ==> self.entries@[j].0 >= k,
    {
        let n = self.entries.len();
        for i in 0..n
            invariant
                n == self.entries@.len(),
                self.wf(),
                forall|j: int| 0 <= j < i ==> self.entries@[j].0 < k,
        {
            if self.entries[i].0 >= k {
                proof {
                    assert forall|j: int|
                        i <= j < self.entries@.len() implies self.entries@[j].0 >= k by {
                        if j > i as int {
                            assert(self.entries@[i as int].0 < self.entries@[j].0);
                        }
                    }
                }
                return i;
            }
        }
        n
    }

    pub fn contains_key(&self, k: i64) -> (r: bool)
        requires
            self.wf(),
        ensures
            r == self@.dom().contains(k as int),
    {
        proof {
            self.keys_unique();
            lemma_entries_map_dom(self.entries@, k as int);
        }
        let i = self.lower_bound(k);
        if i < self.entries.len() && self.entries[i].0 == k {
            proof {
                lemma_entries_map_at(self.entries@, i as int);
            }
            true
        } else {
            false
        }
    }

    pub fn get(&self, k: i64) -> (r: Option<&DataRow>)
        requires
            self.wf(),
        ensures
            match r {
                Some(row) => self@.dom().contains(k as int) && self@[k as int] == row@ && row.wf(),
                None => !self@.dom().contains(k as int),
            },
    {
        proof {
            self.keys_unique();
            lemma_entries_map_dom(self.entries@, k as int);
        }
        let i = self.lower_bound(k);
        if i < self.entries.len() && self.entries[i].0 == k {
            proof {
                lemma_entries_map_at(self.entries@, i as int);
            }
            Some(&self.entries[i].1)
        } else {
            None
        }
    }

    /// Insert a record for a second that has none yet.
    pub fn insert_new(&mut self, k: i64, row: DataRow)
        requires
            old(self).wf(),
            !old(self)@.dom().contains(k as int),
            row.wf(),
        ensures
            final(self).wf(),
            final(self)@ == old(self)@.insert(k as int, row@),
            final(self).spec_keys().contains(k as int),
            final(self).spec_keys().len() == old(self).spec_keys().len() + 1,
            forall|t: int|
                final(self).spec_keys().contains(t) <==> (old(self).spec_keys().contains(t) || t
                    == k as int),
    {
        proof {
            self.keys_unique();
        }
        let i = self.lower_bound(k);
        let ghost before = self.entries@;
        self.entries.insert(i, (k, row));
        proof {
            let s = self.entries@;
            assert(s =~= before.subrange(0, i as int).push((k, row)) + before.subrange(
                i as int,
                before.len() as int,
            ));
            lemma_entries_map_dom(before, k as int);
            assert forall|p: int, q: int| 0 <= p < q < s.len() implies s[p].0 < s[q].0 by {
                let bp = if p < i { p } else { p - 1 };
                let bq = if q < i { q } else { q - 1 };
                if p == i {
                    assert(s[q] == before[bq]);
                } else if q == i {
                    assert(s[p] == before[bp]);
                } else {
                    assert(s[p] == before[bp]);
                    assert(s[q] == before[bq]);
                }
            }
            assert forall|j: int| 0 <= j < s.len() implies (#[trigger] s[j].1).wf() by {
                if j < i {
                    assert(s[j] == before[j]);
                } else if j > i {
                    assert(s[j] == before[j - 1]);
                }
            }
            lemma_insert_middle(before, i as int, (k, row));
            assert(self.spec_keys()[i as int] == k as int);
            assert forall|t: int|
                self.spec_keys().contains(t) implies (old(self).spec_keys().contains(t) || t
                == k as int) by {
                let j = choose|j: int|
                    0 <= j < s.len() && #[trigger] self.spec_keys()[j] == t;
                if j < i {
                    assert(old(self).spec_keys()[j] == t);
                } else if j > i {
                    assert(old(self).spec_keys()[j - 1] == t);
                }
            }
            assert forall|t: int|
                old(self).spec_keys().contains(t) implies self.spec_keys().contains(t) by {
                let j = choose|j: int|
                    0 <= j < before.len() && #[trigger] old(self).spec_keys()[j] == t;
                if j < i {
                    assert(self.spec_keys()[j] == t);
                } else {
                    assert(self.spec_keys()[j + 1] == t);
                }
            }
        }
    }

    /// The records in key order, cloned out for a writer.
    pub fn sorted_rows(&self) -> (r: Vec<DataRow>)
        requires
            self.wf(),
        ensures
            r@.len() == self.spec_keys().len(),
            forall|i: int|
                0 <= i < r@.len() ==> (#[trigger] r@[i])@ == self@[self.spec_keys()[i]],
            forall|i: int| 0 <= i < r@.len() ==> (#[trigger] r@[i]).wf(),
    {
        proof {
            self.keys_unique();
        }
        let n = self.entries.len();
        let mut out: Vec<DataRow> = Vec::new();
        for i in 0..n
            invariant
                n == self.entries@.len(),
                self.wf(),
                out@.len() == i,
                forall|j: int|
                    0 <= j < i ==> (#[trigger] out@[j])@ == self@[self.spec_keys()[j]],
                forall|j: int| 0 <= j < i ==> (#[trigger] out@[j]).wf(),
        {
            proof {
                self.keys_unique();
                lemma_entries_map_at(self.entries@, i as int);
            }
            out.push(self.entries[i].1.clone());
        }
        out
    }

    /// First and last present second; `None` on an empty series.
    pub fn key_range(&self) -> (r: Option<(i64, i64)>)
        requires
            self.wf(),
        ensures
            match r {
                Some(range) => self.spec_keys().len() > 0 && range.0 == self.spec_keys()[0]
                    && range.1 == self.spec_keys().last(),
                None => self.spec_keys().len() == 0,
            },
    {
        if self.entries.len() == 0 {
            None
        } else {
            Some((self.entries[0].0, self.entries[self.entries.len() - 1].0))
        }
    }
}

/// Inserting an entry in the middle denotes insertion into the map,
/// provided its key is absent.
proof fn lemma_insert_middle(s: Seq<(i64, DataRow)>, i: int, e: (i64, DataRow))
    requires
        0 <= i <= s.len(),
        forall|j: int| 0 <= j < s.len() ==> s[j].0 != e.0,
    ensures
        entries_map(s.subrange(0, i).push(e) + s.subrange(i, s.len() as int)) == entries_map(
            s,
        ).insert(e.0 as int, e.1@),
    decreases s.len() - i,
{
    let t = s.subrange(0, i).push(e) + s.subrange(i, s.len() as int);
    if i == s.len() {
        assert(t.drop_last() =~= s);
        assert(t.last() == e);
    } else {
        lemma_insert_middle(s.drop_last(), i, e);
        let t2 = s.drop_last().subrange(0, i).push(e) + s.drop_last().subrange(
            i,
            s.len() - 1,
        );
        assert(t.drop_last() =~= t2) by {
            assert(s.drop_last().subrange(0, i) =~= s.subrange(0, i));
            assert(s.drop_last().subrange(i, s.len() - 1) =~= s.subrange(i, s.len() - 1));
        }
        assert(t.last() == s.last());
        assert(entries_map(t) == entries_map(s.drop_last()).insert(e.0 as int, e.1@).insert(
            s.last().0 as int,
            s.last().1@,
        ));
        assert(entries_map(s.drop_last()).insert(e.0 as int, e.1@).insert(
            s.last().0 as int,
            s.last().1@,
        ) =~= entries_map(s).insert(e.0 as int, e.1@));
    }
}

proof fn lemma_sub_len(s: Seq<(i64, DataRow)>)
    requires
        forall|p: int, q: int| 0 <= p < q < s.len() ==> s[p].0 != s[q].0,
    ensures
        entries_map(s).dom().len() == s.len(),
        entries_map(s).dom().finite(),
    decreases s.len(),
{
    if s.len() == 0 {
        assert(entries_map(s).dom() =~= Set::<int>::empty());
    } else {
        lemma_sub_len(s.drop_last());
        lemma_entries_map_dom(s.drop_last(), s.last().0 as int);
        assert(!entries_map(s.drop_last()).dom().contains(s.last().0 as int));
        assert(entries_map(s).dom() =~= entries_map(s.drop_last()).dom().insert(
            s.last().0 as int,
        ));
    }
}


/// `spec_running_key` picks `ks[j]` exactly when `ks[j]` is the largest
/// element inside `[start, t]`.
proof fn lemma_running_key(ks: Seq<int>, start: int, t: int, j: int)
    requires
        ks.len() > 0,
        forall|p: int, q: int| 0 <= p < q < ks.len() ==> ks[p] < ks[q],
        0 <= j < ks.len(),
        start <= ks[j] <= t,
        j == ks.len() - 1 || ks[j + 1] > t,
    ensures
        spec_running_key(ks, start, t) == ks[j],
    decreases ks.len(),
{
    if ks.len() == 1 {
    } else if start <= ks.last() <= t {
        if j < ks.len() - 1 {
            assert(ks[j + 1] <= ks[ks.len() - 1]) by {
                if j + 1 < ks.len() - 1 {
                    assert(ks[j + 1] < ks[ks.len() - 1]);
                }
            }
            assert(false);
        }
    } else {
        if j == ks.len() - 1 {
            assert(false);
        }
        lemma_running_key(ks.drop_last(), start, t, j);
    }
}

/// When no element of `ks` lies in `[start, t]`, the running key is `ks[0]`.
proof fn lemma_running_key_none(ks: Seq<int>, start: int, t: int)
    requires
        ks.len() > 0,
        forall|i: int| 0 <= i < ks.len() ==> !(start <= #[trigger] ks[i] <= t),
    ensures
        spec_running_key(ks, start, t) == ks[0],
    decreases ks.len(),
{
    if ks.len() > 1 {
        assert(!(start <= ks.last() <= t));
        lemma_running_key_none(ks.drop_last(), start, t);
    }
}

impl SecondSeries {
    /// Densify the UTC day `[day_start, day_end]`.
    ///
    /// Every second of the day ends up present; records already present are
    /// kept untouched, inside the day and outside it; each missing second
    /// gets its donor record stamped for that second, exactly as
    /// [`spec_fill_row`] says.  Returns how many seconds were filled in.
    pub fn forward_fill(&mut self, day_start: i64, day_end: i64) -> (filled: usize)
        requires
            old(self).wf(),
            old(self).spec_keys().len() > 0,
            day_start <= day_end,
            -9_000_000_000_000 <= day_start,
            day_end <= 9_000_000_000_000,
            day_end - day_start < 100_000_000,
        ensures
            final(self).wf(),
            forall|t: int| day_start <= t <= day_end ==> #[trigger] final(self)@.dom().contains(t),
            forall|t: int|
                day_start <= t <= day_end ==> #[trigger] final(self)@[t] == spec_fill_row(
                    old(self)@,
                    old(self).spec_keys(),
                    day_start as int,
                    t,
                ),
            forall|k: int|
                #[trigger] old(self)@.dom().contains(k) ==> final(self)@.dom().contains(k)
                    && final(self)@[k] == old(self)@[k],
            forall|k: int|
                #[trigger] final(self)@.dom().contains(k) ==> old(self)@.dom().contains(k)
                    || day_start <= k <= day_end,
            final(self).spec_keys().len() == old(self).spec_keys().len() + filled,
            filled <= day_end - day_start + 1,
    {
        proof {
            self.keys_unique();
            self.lemma_keys();
        }
        let ghost m = self@;
        let ghost ks = self.spec_keys();
        let ghost src = self.entries@;
        let n = self.entries.len();
        let first_key = self.entries[0].0;
        let last_key = self.entries[n - 1].0;
        proof {
            assert(first_key as int == ks[0]);
            assert(last_key as int == ks.last());
        }
        let mut out: Vec<(i64, DataRow)> = Vec::new();
        let mut idx: usize = 0;
        // Records before the day, kept as they are.
        while idx < n && self.entries[idx].0 < day_start
            invariant
                self.wf(),
                m == self@,
                ks == self.spec_keys(),
                src == self.entries@,
                n == src.len(),
                0 <= idx <= n,
                out@.len() == idx,
                forall|j: int|
                    0 <= j < idx ==> (#[trigger] out@[j]).0 == src[j].0 && out@[j].1@ == src[j].1@
                        && out@[j].1.wf(),
                forall|j: int| 0 <= j < idx ==> #[trigger] src[j].0 < day_start,
            decreases n - idx,
        {
            out.push((self.entries[idx].0, self.entries[idx].1.clone()));
            idx = idx + 1;
        }
        let day_idx = idx;
        let ghost idx0 = idx as int;
        proof {
            assert forall|j: int| idx0 <= j < n implies #[trigger] src[j].0 >= day_start by {
                if j > idx0 {
                    assert(src[idx0].0 < src[j].0);
                }
            }
        }
        let mut t: i64 = day_start;
        let mut filled: usize = 0;
        while t <= day_end
            invariant
                self.wf(),
                m == self@,
                ks == self.spec_keys(),
                src == self.entries@,
                n == src.len(),
                n > 0,
                first_key as int == ks[0],
                last_key as int == ks.last(),
                forall|j: int| 0 <= j < n ==> ks[j] == #[trigger] src[j].0 as int,
                forall|k: int| m.dom().contains(k) <==> ks.contains(k),
                day_start <= t <= day_end + 1,
                -9_000_000_000_000 <= day_start,
                day_end <= 9_000_000_000_000,
                day_end - day_start < 100_000_000,
                day_idx as int == idx0,
                0 <= idx0 <= idx as int <= n,
                forall|j: int| 0 <= j < idx0 ==> #[trigger] src[j].0 < day_start,
                forall|j: int| idx0 <= j < n ==> #[trigger] src[j].0 >= day_start,
                forall|j: int| idx0 <= j < idx as int ==> #[trigger] src[j].0 < t,
                forall|j: int| idx as int <= j < n ==> #[trigger] src[j].0 >= t,
                out@.len() == idx0 + (t - day_start),
                filled as int == (t - day_start) - (idx as int - idx0),
                forall|j: int|
                    0 <= j < idx0 ==> (#[trigger] out@[j]).0 == src[j].0 && out@[j].1@ == src[j].1@
                        && out@[j].1.wf(),
                forall|j: int| 0 <= j < idx0 ==> (#[trigger] out@[j]).0 < day_start,
                forall|j: int|
                    idx0 <= j < out@.len() ==> (#[trigger] out@[j]).0 as int == day_start + (j
                        - idx0) && out@[j].1.wf(),
                forall|j: int|
                    idx0 <= j < out@.len() ==> (#[trigger] out@[j]).1@ == spec_fill_row(
                        m,
                        ks,
                        day_start as int,
                        day_start + (j - idx0),
                    ),
            decreases day_end - t + 1,
        {
            proof {
                self.keys_unique();
            }
            if idx < n && self.entries[idx].0 == t {
                proof {
                    lemma_entries_map_at(src, idx as int);
                    assert(m.dom().contains(t as int));
                    assert(spec_fill_row(m, ks, day_start as int, t as int) == m[
                        t as int
                    ]);
                }
                out.push((t, self.entries[idx].1.clone()));
                idx = idx + 1;
            } else {
                proof {
                    lemma_entries_map_dom(src, t as int);
                    if m.dom().contains(t as int) {
                        let j = choose|j: int| 0 <= j < n && src[j].0 == t;
                        assert(false);
                    }
                }
                let di: usize = if t < first_key {
                    0
                } else if t > last_key {
                    n - 1
                } else if idx > day_idx {
                    idx - 1
                } else {
                    0
                };
                proof {
                    if t < first_key {
                        assert((t as int) < ks[0]);
                    } else if t > last_key {
                        assert((t as int) > ks.last());
                        assert(di as int == n - 1);
                    } else {
                        assert(ks[0] <= t as int <= ks.last());
                        if idx as int > idx0 {
                            assert(di as int == idx as int - 1);
                            assert(day_start <= src[di as int].0 < t);
                            if (di as int) < n - 1 {
                                assert(src[di as int + 1].0 >= t);
                                assert(ks[di as int + 1] > t as int - 1);
                                assert(ks[di as int + 1] != t as int) by {
                                    lemma_entries_map_dom(src, t as int);
                                }
                            }
                            lemma_running_key(ks, day_start as int, t as int, di as int);
                        } else {
                            assert(di == 0);
                            assert forall|i: int|
                                0 <= i < ks.len() implies !(day_start as int <= #[trigger] ks[i]
                                <= t as int) by {
                                if i < idx0 {
                                    assert(src[i].0 < day_start);
                                } else {
                                    assert(src[i].0 >= t);
                                    assert(src[i].0 != t) by {
                                        lemma_entries_map_dom(src, t as int);
                                    }
                                }
                            }
                            lemma_running_key_none(ks, day_start as int, t as int);
                        }
                    }
                    lemma_entries_map_at(src, di as int);
                    assert(m[ks[di as int]] == src[di as int].1@);
                }
                let mut row = self.entries[di].1.clone();
                let stamp_ms: i64 = t * 1000;
                row.insert("timestamp".to_owned(), JsonValue::Int(stamp_ms));
                proof {
                    assert(row@ == spec_stamp(m[ks[di as int]], t as int));
                    assert(row@ == spec_fill_row(m, ks, day_start as int, t as int));
                }
                out.push((t, row));
                filled = filled + 1;
            }
            t = t + 1;
        }
        let ghost idxe = idx as int;
        let ghost mid_len = out@.len();
        // Records after the day, kept as they are.
        while idx < n
            invariant
                self.wf(),
                m == self@,
                ks == self.spec_keys(),
                src == self.entries@,
                n == src.len(),
                forall|j: int| 0 <= j < n ==> ks[j] == #[trigger] src[j].0 as int,
                forall|k: int| m.dom().contains(k) <==> ks.contains(k),
                day_start <= day_end,
                day_idx as int == idx0,
                0 <= idx0 <= idxe <= idx as int <= n,
                mid_len == idx0 + (day_end - day_start + 1),
                mid_len <= out@.len(),
                filled as int == (day_end - day_start + 1) - (idxe - idx0),
                forall|j: int| 0 <= j < idx0 ==> #[trigger] src[j].0 < day_start,
                forall|j: int| idx0 <= j < n ==> #[trigger] src[j].0 >= day_start,
                forall|j: int| idx0 <= j < idxe ==> #[trigger] src[j].0 <= day_end,
                forall|j: int| idxe <= j < n ==> #[trigger] src[j].0 > day_end,
                out@.len() == mid_len + (idx as int - idxe),
                forall|j: int|
                    0 <= j < idx0 ==> (#[trigger] out@[j]).0 == src[j].0 && out@[j].1@ == src[j].1@
                        && out@[j].1.wf(),
                forall|j: int| 0 <= j < idx0 ==> (#[trigger] out@[j]).0 < day_start,
                forall|j: int|
                    idx0 <= j < mid_len ==> (#[trigger] out@[j]).0 as int == day_start + (j - idx0)
                        && out@[j].1.wf(),
                forall|j: int|
                    idx0 <= j < mid_len ==> (#[trigger] out@[j]).1@ == spec_fill_row(
                        m,
                        ks,
                        day_start as int,
                        day_start + (j - idx0),
                    ),
                forall|j: int|
                    mid_len <= j < out@.len() ==> (#[trigger] out@[j]).0 == src[j - mid_len + idxe].0
                        && out@[j].1@ == src[j - mid_len + idxe].1@ && out@[j].1.wf(),
            decreases n - idx,
        {
            out.push((self.entries[idx].0, self.entries[idx].1.clone()));
            idx = idx + 1;
        }
        proof {
            let o = out@;
            // keys of the three segments are strictly increasing overall
            assert forall|p: int, q: int| 0 <= p < q < o.len() implies o[p].0 < o[q].0 by {
                if q < idx0 {
                    assert(src[p].0 < src[q].0);
                } else if p < idx0 && q < mid_len {
                    assert(o[p].0 < day_start);
                    assert(o[q].0 as int == day_start + (q - idx0));
                } else if p < idx0 {
                    assert(o[q].0 == src[q - mid_len + idxe].0);
                    assert(src[p].0 < src[q - mid_len + idxe].0);
                } else if q < mid_len {
                    assert(o[p].0 as int == day_start + (p - idx0));
                    assert(o[q].0 as int == day_start + (q - idx0));
                } else if p < mid_len {
                    assert(o[p].0 as int <= day_end);
                    assert(o[q].0 == src[q - mid_len + idxe].0);
                    assert(src[q - mid_len + idxe].0 > day_end);
                } else {
                    assert(src[p - mid_len + idxe].0 < src[q - mid_len + idxe].0);
                }
            }
            assert forall|j: int| 0 <= j < o.len() implies (#[trigger] o[j].1).wf() by {
                if j < idx0 {
                } else if j < mid_len {
                } else {
                }
            }
            self.keys_unique();
        }
        self.entries = out;
        proof {
            let o = self.entries@;
            assert(m == old(self)@);
            assert(ks == old(self).spec_keys());
            assert(m == entries_map(src));
            assert forall|p: int, q: int| 0 <= p < q < o.len() implies o[p].0 != o[q].0 by {}
            let span = day_end - day_start + 1;
            assert(o.len() == n + filled);
            assert(self.spec_keys().len() == o.len());
            assert forall|t2: int|
                day_start <= t2 <= day_end implies self@.dom().contains(t2) by {
                let j = idx0 + (t2 - day_start);
                assert(o[j].0 as int == t2);
                lemma_entries_map_at(o, j);
            }
            assert forall|t2: int|
                day_start <= t2 <= day_end implies self@[t2] == spec_fill_row(
                m,
                ks,
                day_start as int,
                t2,
            ) by {
                let j = idx0 + (t2 - day_start);
                assert(o[j].0 as int == t2);
                assert(o[j].1@ == spec_fill_row(m, ks, day_start as int, t2));
                lemma_entries_map_at(o, j);
            }
            assert forall|k: int|
                old(self)@.dom().contains(k) implies self@.dom().contains(k) by {
                assert(m.dom().contains(k));
                lemma_entries_map_dom(src, k);
                let i = choose|i: int| 0 <= i < src.len() && #[trigger] src[i].0 == k;
                lemma_entries_map_at(src, i);
                if i < idx0 {
                    assert(o[i].0 == src[i].0);
                    lemma_entries_map_at(o, i);
                } else if i < idxe {
                    assert(day_start <= src[i].0 <= day_end);
                    let j = idx0 + (k - day_start);
                    assert(o[j].0 as int == k);
                    lemma_entries_map_at(o, j);
                } else {
                    let j = i - idxe + mid_len;
                    assert(o[j].0 == src[i].0);
                    lemma_entries_map_at(o, j);
                }
            }
            assert forall|k: int|
                old(self)@.dom().contains(k) implies self@[k] == old(self)@[k] by {
                assert(m.dom().contains(k));
                lemma_entries_map_dom(src, k);
                let i = choose|i: int| 0 <= i < src.len() && #[trigger] src[i].0 == k;
                lemma_entries_map_at(src, i);
                assert(m[k] == src[i].1@);
                if i < idx0 {
                    assert(o[i].0 == src[i].0 && o[i].1@ == src[i].1@);
                    lemma_entries_map_at(o, i);
                } else if i < idxe {
                    assert(day_start <= src[i].0 <= day_end);
                    let j = idx0 + (k - day_start);
                    assert(o[j].0 as int == k);
                    assert(o[j].1@ == spec_fill_row(m, ks, day_start as int, k));
                    assert(spec_fill_row(m, ks, day_start as int, k) == m[k]);
                    lemma_entries_map_at(o, j);
                } else {
                    let j = i - idxe + mid_len;
                    assert(o[j].0 == src[i].0 && o[j].1@ == src[i].1@);
                    lemma_entries_map_at(o, j);
                }
                assert(self@[k] == m[k]);
                assert(m[k] == old(self)@[k]);
            }
            assert forall|k: int|
                self@.dom().contains(k) implies m.dom().contains(k) || day_start <= k
                <= day_end by {
                lemma_entries_map_dom(o, k);
                let j = choose|j: int| 0 <= j < o.len() && #[trigger] o[j].0 == k;
                if j < idx0 {
                    assert(src[j].0 == k);
                    lemma_entries_map_dom(src, k);
                } else if j < mid_len {
                    assert(o[j].0 as int == day_start + (j - idx0));
                } else {
                    assert(src[j - mid_len + idxe].0 == k);
                    lemma_entries_map_dom(src, k);
                }
            }
        }
        filled
    }
}

impl Clone for SecondSeries {
    fn clone(&self) -> (r: Self)
        ensures
            r@ == self@,
            r.spec_keys() == self.spec_keys(),
            self.wf() ==> r.wf(),
    {
        let n = self.entries.len();
        let mut entries: Vec<(i64, DataRow)> = Vec::new();
        for i in 0..n
            invariant
                n == self.entries@.len(),
                entries@.len() == i,
                forall|j: int| 0 <= j < i ==> (#[trigger] entries@[j]).0 == self.entries@[j].0,
                forall|j: int| 0 <= j < i ==> (#[trigger] entries@[j]).1@ == self.entries@[j].1@,
                forall|j: int|
                    0 <= j < i ==> (self.entries@[j].1.wf() ==> (#[trigger] entries@[j]).1.wf()),
        {
            entries.push((self.entries[i].0, self.entries[i].1.clone()));
        }
        let r = SecondSeries { entries };
        proof {
            lemma_entries_map_congruence(r.entries@, self.entries@);
            assert(r.spec_keys() =~= self.spec_keys());
        }
        r
    }
}

/// Two entry lists with pointwise view-equal entries denote the same map.
proof fn lemma_entries_map_congruence(a: Seq<(i64, DataRow)>, b: Seq<(i64, DataRow)>)
    requires
        a.len() == b.len(),
        forall|j: int| 0 <= j < a.len() ==> a[j].0 == b[j].0,
        forall|j: int| 0 <= j < a.len() ==> a[j].1@ == b[j].1@,
    ensures
        entries_map(a) == entries_map(b),
    decreases a.len(),
{
    if a.len() > 0 {
        lemma_entries_map_congruence(a.drop_last(), b.drop_last());
    }
}

} // verus!
