//! Merging mark-price streams.
//!
//! Records arrive as JSONL shards from several sources.  The merger keys
//! them by `(symbol, second)`, validates the mark-price fields, keeps the
//! first record seen for each key — so source order decides — and finally
//! densifies every symbol's series over the configured UTC day.  The whole
//! ingest protocol is pinned by [`mp_ingest`], a fold over the shard's
//! lines.

use vstd::prelude::*;
use crate::bucket::SecondSeries;
use crate::date::{spec_dedup_key, CivilDate};
use crate::json::{DataRow, JsonItem, JsonValue};
use crate::record::{parsed_object, spec_as_ms, spec_lines, spec_normalize};

verus! {

/// The symbol a normalized record names: `symbol`, falling back to `s`,
/// and only a string counts.
pub open spec fn spec_symbol_of(m: Map<Seq<char>, JsonItem>) -> Option<Seq<char>> {
    if m.dom().contains("symbol"@) {
        match m["symbol"@] {
            JsonItem::Str(s) => Some(s),
            _ => None,
        }
    } else if m.dom().contains("s"@) {
        match m["s"@] {
            JsonItem::Str(s) => Some(s),
            _ => None,
        }
    } else {
        None
    }
}

/// The event time of a record in milliseconds: `event_time`, falling back
/// to `E`.
pub open spec fn spec_event_ms(m: Map<Seq<char>, JsonItem>) -> Option<i64> {
    if m.dom().contains("event_time"@) {
        spec_as_ms(m["event_time"@])
    } else if m.dom().contains("E"@) {
        spec_as_ms(m["E"@])
    } else {
        None
    }
}

/// A value that can stand for a price or rate: a number or a string.
pub open spec fn spec_price_like(v: JsonItem) -> bool {
    v is Int || v is UInt || v is Num || v is Str
}

/// The record carries a usable mark price and funding rate.
pub open spec fn spec_valid_mark_price(m: Map<Seq<char>, JsonItem>) -> bool {
    let price = if m.dom().contains("mark_price"@) {
        Some(m["mark_price"@])
    } else if m.dom().contains("p"@) {
        Some(m["p"@])
    } else {
        None
    };
    let rate = if m.dom().contains("funding_rate"@) {
        Some(m["funding_rate"@])
    } else if m.dom().contains("r"@) {
        Some(m["r"@])
    } else {
        None
    };
    price is Some && rate is Some && spec_price_like(price.unwrap()) && spec_price_like(
        rate.unwrap(),
    )
}

/// What ingesting one line does to the merged state and the added-count:
/// parse, normalize, extract symbol and second, validate, then insert only
/// if the `(symbol, second)` key is still free — first writer wins.
pub open spec fn mp_step(
    state: Map<Seq<char>, Map<int, Map<Seq<char>, JsonItem>>>,
    count: nat,
    line: Seq<char>,
) -> (Map<Seq<char>, Map<int, Map<Seq<char>, JsonItem>>>, nat) {
    match parsed_object(line) {
        None => (state, count),
        Some(raw) => {
            let row = spec_normalize(raw);
            match spec_symbol_of(row) {
                None => (state, count),
                Some(sym) => match spec_event_ms(row) {
                    None => (state, count),
                    Some(ms) => if !spec_valid_mark_price(row) {
                        (state, count)
                    } else {
                        let key = spec_dedup_key(ms as int);
                        let bucket = if state.dom().contains(sym) {
                            state[sym]
                        } else {
                            Map::empty()
                        };
                        if bucket.dom().contains(key) {
                            (state, count)
                        } else {
                            (
                                state.insert(
                                    sym,
                                    bucket.insert(
                                        key,
                                        row.insert("timestamp"@, JsonItem::Int((key * 1000) as i64)),
                                    ),
                                ),
                                count + 1,
                            )
                        }
                    },
                },
            }
        },
    }
}

/// Ingesting a shard is folding [`mp_step`] over its lines, in order.
pub open spec fn mp_ingest(
    state: Map<Seq<char>, Map<int, Map<Seq<char>, JsonItem>>>,
    count: nat,
    lines: Seq<Seq<char>>,
) -> (Map<Seq<char>, Map<int, Map<Seq<char>, JsonItem>>>, nat)
    decreases lines.len(),
{
    if lines.len() == 0 {
        (state, count)
    } else {
        let stepped = mp_step(state, count, lines[0]);
        mp_ingest(stepped.0, stepped.1, lines.subrange(1, lines.len() as int))
    }
}

/// The map denoted by a symbol-keyed entry list.
pub open spec fn sym_map(s: Seq<(String, SecondSeries)>) -> Map<
    Seq<char>,
    Map<int, Map<Seq<char>, JsonItem>>,
>
    decreases s.len(),
{
    if s.len() == 0 {
        Map::empty()
    } else {
        sym_map(s.drop_last()).insert(s.last().0@, s.last().1@)
    }
}

proof fn lemma_sym_map_dom(s: Seq<(String, SecondSeries)>, k: Seq<char>)
    ensures
        sym_map(s).dom().contains(k) <==> exists|i: int| 0 <= i < s.len() && s[i].0@ == k,
    decreases s.len(),
{
    if s.len() > 0 {
        lemma_sym_map_dom(s.drop_last(), k);
        if exists|i: int| 0 <= i < s.len() && s[i].0@ == k {
            let i = choose|i: int| 0 <= i < s.len() && s[i].0@ == k;
            if i < s.len() - 1 {
                assert(s.drop_last()[i].0@ == k);
            }
        }
        if exists|i: int| 0 <= i < s.drop_last().len() && s.drop_last()[i].0@ == k {
            let i = choose|i: int| 0 <= i < s.drop_last().len() && s.drop_last()[i].0@ == k;
            assert(s[i].0@ == k);
        }
    }
}

proof fn lemma_sym_map_at(s: Seq<(String, SecondSeries)>, i: int)
    requires
        forall|p: int, q: int| 0 <= p < q < s.len() ==> s[p].0@ != s[q].0@,
        0 <= i < s.len(),
    ensures
        sym_map(s).dom().contains(s[i].0@),
        sym_map(s)[s[i].0@] == s[i].1@,
    decreases s.len(),
{
    if i == s.len() - 1 {
        lemma_sym_map_dom(s, s[i].0@);
    } else {
        lemma_sym_map_at(s.drop_last(), i);
        assert(s.drop_last()[i] == s[i]);
        assert(s.last().0@ != s[i].0@);
    }
}

proof fn lemma_sym_map_update(s: Seq<(String, SecondSeries)>, i: int)
    requires
        forall|p: int, q: int| 0 <= p < q < s.len() ==> s[p].0@ != s[q].0@,
        0 <= i < s.len(),
    ensures
        forall|e: (String, SecondSeries)|
            e.0@ == s[i].0@ ==> sym_map(
                s.subrange(0, i) + s.subrange(i + 1, s.len() as int) + seq![e],
            ) == sym_map(s).insert(e.0@, e.1@),
    decreases s.len(),
{
    assert forall|e: (String, SecondSeries)|
        e.0@ == s[i].0@ implies sym_map(
        s.subrange(0, i) + s.subrange(i + 1, s.len() as int) + seq![e],
    ) == sym_map(s).insert(e.0@, e.1@) by {
        let t = s.subrange(0, i) + s.subrange(i + 1, s.len() as int) + seq![e];
        let without = s.subrange(0, i) + s.subrange(i + 1, s.len() as int);
        assert(t.drop_last() =~= without);
        assert(t.last() == e);
        lemma_sym_map_remove(s, i);
        assert(sym_map(t) == sym_map(without).insert(e.0@, e.1@));
        assert(sym_map(s).remove(s[i].0@).insert(e.0@, e.1@) =~= sym_map(s).insert(e.0@, e.1@));
    }
}

proof fn lemma_sym_map_remove(s: Seq<(String, SecondSeries)>, i: int)
    requires
        forall|p: int, q: int| 0 <= p < q < s.len() ==> s[p].0@ != s[q].0@,
        0 <= i < s.len(),
    ensures
        sym_map(s.subrange(0, i) + s.subrange(i + 1, s.len() as int)) == sym_map(s).remove(
            s[i].0@,
        ),
    decreases s.len(),
{
    let t = s.subrange(0, i) + s.subrange(i + 1, s.len() as int);
    if i == s.len() - 1 {
        assert(t =~= s.drop_last());
        lemma_sym_map_dom(s.drop_last(), s[i].0@);
        assert(sym_map(s.drop_last()).remove(s[i].0@) =~= sym_map(s.drop_last()));
        assert(sym_map(s).remove(s[i].0@) =~= sym_map(s.drop_last()));
    } else {
        let s2 = s.drop_last();
        lemma_sym_map_remove(s2, i);
        let t2 = s2.subrange(0, i) + s2.subrange(i + 1, s2.len() as int);
        assert(t.drop_last() =~= t2);
        assert(t.last() == s.last());
        assert(sym_map(t) == sym_map(t2).insert(s.last().0@, s.last().1@));
        assert(sym_map(s).remove(s[i].0@) =~= sym_map(s2).remove(s[i].0@).insert(
            s.last().0@,
            s.last().1@,
        ));
    }
}

/// Mark-price records of one UTC day, merged per symbol and second.
pub struct MarkPriceMerger {
    date: CivilDate,
    symbols: Vec<(String, SecondSeries)>,
}

impl View for MarkPriceMerger {
    type V = Map<Seq<char>, Map<int, Map<Seq<char>, JsonItem>>>;

    closed spec fn view(&self) -> Map<Seq<char>, Map<int, Map<Seq<char>, JsonItem>>> {
        sym_map(self.symbols@)
    }
}

impl MarkPriceMerger {
    /// Symbols are unique, every series is well formed and holds at least
    /// one record, and the configured date names a real day.
    pub closed spec fn wf(&self) -> bool {
        &&& self.date.valid()
        &&& forall|p: int, q: int|
            0 <= p < q < self.symbols@.len() ==> self.symbols@[p].0@ != self.symbols@[q].0@
        &&& forall|i: int|
            0 <= i < self.symbols@.len() ==> (#[trigger] self.symbols@[i].1).wf()
        &&& forall|i: int|
            0 <= i < self.symbols@.len() ==> (#[trigger] self.symbols@[i].1).spec_keys().len() > 0
    }

    /// The date this merger was created for.
    pub closed spec fn spec_date(&self) -> CivilDate {
        self.date
    }

    pub fn new(date: CivilDate) -> (r: Self)
        requires
            date.valid(),
        ensures
            r.wf(),
            r@ == Map::<Seq<char>, Map<int, Map<Seq<char>, JsonItem>>>::empty(),
            r.spec_date() == date,
    {
        MarkPriceMerger { date, symbols: Vec::new() }
    }

    /// The symbol of a record, as the dedup uses it.
    pub fn extract_symbol(row: &DataRow) -> (r: Option<String>)
        requires
            row.wf(),
        ensures
            match r {
                Some(s) => spec_symbol_of(row@) == Some(s@),
                None => spec_symbol_of(row@) is None,
            },
    {
        let v = match row.get("symbol") {
            Some(v) => Some(v),
            None => row.get("s"),
        };
        match v {
            Some(JsonValue::Str(s)) => Some(s.clone()),
            _ => None,
        }
    }

    /// The dedup key of a record: its event time in whole seconds.
    pub fn extract_dedup_key(row: &DataRow) -> (r: Option<i64>)
        requires
            row.wf(),
        ensures
            match r {
                Some(k) => spec_event_ms(row@) matches Some(ms) && k == spec_dedup_key(ms as int),
                None => spec_event_ms(row@) is None,
            },
    {
        let v = match row.get("event_time") {
            Some(v) => Some(v),
            None => row.get("E"),
        };
        match v {
            Some(v) => match crate::record::value_to_ms(v) {
                Some(ms) => Some(crate::date::ms_to_second(ms)),
                None => None,
            },
            None => None,
        }
    }

    /// Rename the short upstream field names to their long forms.
    pub fn normalize_field_names(row: &mut DataRow)
        requires
            old(row).wf(),
        ensures
            final(row).wf(),
            final(row)@ == spec_normalize(old(row)@),
    {
        crate::record::normalize_field_names(row);
    }

    /// Does the record carry a usable mark price and funding rate?
    pub fn is_valid_mark_price_row(row: &DataRow) -> (r: bool)
        requires
            row.wf(),
        ensures
            r == spec_valid_mark_price(row@),
    {
        let price = match row.get("mark_price") {
            Some(v) => Some(v),
            None => row.get("p"),
        };
        let rate = match row.get("funding_rate") {
            Some(v) => Some(v),
            None => row.get("r"),
        };
        let price_ok = match price {
            Some(JsonValue::Int(_)) | Some(JsonValue::UInt(_)) | Some(JsonValue::Num(_))
                | Some(JsonValue::Str(_)) => true,
            _ => false,
        };
        let rate_ok = match rate {
            Some(JsonValue::Int(_)) | Some(JsonValue::UInt(_)) | Some(JsonValue::Num(_))
                | Some(JsonValue::Str(_)) => true,
            _ => false,
        };
        price_ok && rate_ok
    }

    /// Index of a symbol's series.
    fn find_symbol(&self, sym: &str) -> (r: Option<usize>)
        requires
            self.wf(),
        ensures
            match r {
                Some(i) => 0 <= i < self.symbols@.len() && self.symbols@[i as int].0@ == sym@,
                None => !exists|i: int| 0 <= i < self.symbols@.len() && self.symbols@[i].0@ == sym@,
            },
    {
        let n = self.symbols.len();
        for i in 0..n
            invariant
                n == self.symbols@.len(),
                forall|j: int| 0 <= j < i ==> self.symbols@[j].0@ != sym@,
        {
            if crate::strkit::str_eq(self.symbols[i].0.as_str(), sym) {
                return Some(i);
            }
        }
        None
    }

    /// Is the `(symbol, second)` key already taken?
    fn bucket_contains(&self, sym: &str, key: i64) -> (r: bool)
        requires
            self.wf(),
        ensures
            r == (self@.dom().contains(sym@) && self@[sym@].dom().contains(key as int)),
    {
        proof {
            lemma_sym_map_dom(self.symbols@, sym@);
        }
        match self.find_symbol(sym) {
            Some(i) => {
                proof {
                    lemma_sym_map_at(self.symbols@, i as int);
                }
                self.symbols[i].1.contains_key(key)
            },
            None => false,
        }
    }

    /// Put a record at a free `(symbol, second)` key.
    fn bucket_insert(&mut self, sym: String, key: i64, row: DataRow)
        requires
            old(self).wf(),
            row.wf(),
            !(old(self)@.dom().contains(sym@) && old(self)@[sym@].dom().contains(key as int)),
        ensures
            final(self).wf(),
            final(self).spec_date() == old(self).spec_date(),
            final(self)@ == old(self)@.insert(
                sym@,
                if old(self)@.dom().contains(sym@) {
                    old(self)@[sym@]
                } else {
                    Map::empty()
                }.insert(key as int, row@),
            ),
    {
        proof {
            lemma_sym_map_dom(self.symbols@, sym@);
        }
        match self.find_symbol(sym.as_str()) {
            Some(i) => {
                proof {
                    lemma_sym_map_at(self.symbols@, i as int);
                }
                let ghost before = self.symbols@;
                let (name, mut series) = self.symbols.remove(i);
                proof {
                    assert(self.symbols@ =~= before.subrange(0, i as int) + before.subrange(
                        i as int + 1,
                        before.len() as int,
                    ));
                    assert forall|j: int|
                        0 <= j < self.symbols@.len() implies ((#[trigger] self.symbols@[j]).1.wf()
                        && self.symbols@[j].1.spec_keys().len() > 0) by {
                        if j < i {
                            assert(self.symbols@[j] == before[j]);
                        } else {
                            assert(self.symbols@[j] == before[j + 1]);
                        }
                    }
                }
                series.insert_new(key, row);
                let ghost mid = self.symbols@;
                self.symbols.push((name, series));
                proof {
                    assert(self.symbols@ =~= before.subrange(0, i as int) + before.subrange(
                        i as int + 1,
                        before.len() as int,
                    ) + seq![(name, series)]);
                    lemma_sym_map_update(before, i as int);
                    assert(name@ == before[i as int].0@);
                    assert forall|p: int, q: int|
                        0 <= p < q < self.symbols@.len() implies self.symbols@[p].0@
                        != self.symbols@[q].0@ by {
                        let last = self.symbols@.len() - 1;
                        let bp = if p < i { p } else { p + 1 };
                        let bq = if q < i { q } else { q + 1 };
                        if q < last {
                            assert(self.symbols@[p] == before[bp]);
                            assert(self.symbols@[q] == before[bq]);
                        } else {
                            assert(self.symbols@[q].0@ == before[i as int].0@);
                            assert(self.symbols@[p] == before[bp]);
                            assert(bp != i);
                        }
                    }
                    assert forall|j: int|
                        0 <= j < self.symbols@.len() implies ((#[trigger] self.symbols@[j]).1.wf()
                        && self.symbols@[j].1.spec_keys().len() > 0) by {
                        let last = self.symbols@.len() - 1;
                        if j < last {
                            assert(self.symbols@[j] == mid[j]);
                        }
                    }
                }
            },
            None => {
                let mut series = SecondSeries::new();
                series.insert_new(key, row);
                let ghost before = self.symbols@;
                self.symbols.push((sym, series));
                proof {
                    assert(self.symbols@.drop_last() =~= before);
                    assert(self@ == sym_map(before).insert(sym@, series@));
                    lemma_sym_map_dom(before, sym@);
                    assert(!old(self)@.dom().contains(sym@));
                    assert forall|p: int, q: int|
                        0 <= p < q < self.symbols@.len() implies self.symbols@[p].0@
                        != self.symbols@[q].0@ by {
                        if q < self.symbols@.len() - 1 {
                            assert(self.symbols@[p] == before[p]);
                            assert(self.symbols@[q] == before[q]);
                        } else {
                            assert(self.symbols@[p] == before[p]);
                        }
                    }
                    assert forall|j: int|
                        0 <= j < self.symbols@.len() implies ((#[trigger] self.symbols@[j]).1.wf()
                        && self.symbols@[j].1.spec_keys().len() > 0) by {
                        if j < self.symbols@.len() - 1 {
                            assert(self.symbols@[j] == before[j]);
                        }
                    }
                }
            },
        }
    }

    /// Feed one shard's text into the merger.
    ///
    /// The state afterwards, and the returned count of records kept, are
    /// exactly the [`mp_ingest`] fold of the shard's lines over the state
    /// before; lines that fail to parse, lack a symbol or event time, fail
    /// validation, or land on a taken key are skipped.  The source name
    /// only labels the source; ingestion never fails.
    pub fn add_jsonl_data(&mut self, content: &str, source_name: &str) -> (r: Result<
        usize,
        String,
    >)
        requires
            old(self).wf(),
        ensures
            final(self).wf(),
            final(self).spec_date() == old(self).spec_date(),
            r is Ok,
            final(self)@ == mp_ingest(old(self)@, 0, spec_lines(content@)).0,
            r matches Ok(count) && count as nat == mp_ingest(old(self)@, 0, spec_lines(content@)).1,
    {
        let lines = crate::record::split_lines(content);
        let ghost all = spec_lines(content@);
        let n = lines.len();
        let mut added: usize = 0;
        proof {
            assert(lines@.map_values(|line: String| line@) =~= all);
            assert(all.subrange(0, n as int) =~= all);
            assert(all.subrange(n as int, n as int) =~= Seq::<Seq<char>>::empty());
        }
        for i in 0..n
            invariant
                n == lines@.len(),
                lines@.map_values(|line: String| line@) == all,
                self.wf(),
                self.spec_date() == old(self).spec_date(),
                added <= i,
                mp_ingest(self@, added as nat, all.subrange(i as int, n as int)) == mp_ingest(
                    old(self)@,
                    0,
                    all,
                ),
        {
            let ghost pre_state = self@;
            let ghost pre_added = added as nat;
            let ghost rest = all.subrange(i as int, n as int);
            proof {
                assert(rest[0] == all[i as int]);
                assert(all[i as int] == lines@[i as int]@);
                assert(rest.subrange(1, rest.len() as int) =~= all.subrange(i + 1, n as int));
            }
            match crate::record::parse_object_line(lines[i].as_str()) {
                None => {
                    proof {
                        assert(mp_step(pre_state, pre_added, all[i as int]) == (
                            pre_state,
                            pre_added,
                        ));
                    }
                },
                Some(mut row) => {
                    Self::normalize_field_names(&mut row);
                    let ghost rowm = row@;
                    match Self::extract_symbol(&row) {
                        None => {
                            proof {
                                assert(mp_step(pre_state, pre_added, all[i as int]) == (
                                    pre_state,
                                    pre_added,
                                ));
                            }
                        },
                        Some(sym) => {
                            match Self::extract_dedup_key(&row) {
                                None => {
                                    proof {
                                        assert(mp_step(pre_state, pre_added, all[i as int]) == (
                                            pre_state,
                                            pre_added,
                                        ));
                                    }
                                },
                                Some(key) => {
                                    if Self::is_valid_mark_price_row(&row) {
                                        if self.bucket_contains(sym.as_str(), key) {
                                            proof {
                                                assert(mp_step(
                                                    pre_state,
                                                    pre_added,
                                                    all[i as int],
                                                ) == (pre_state, pre_added));
                                            }
                                        } else {
                                            let stamp_ms: i64 = key * 1000;
                                            row.insert(
                                                "timestamp".to_owned(),
                                                JsonValue::Int(stamp_ms),
                                            );
                                            self.bucket_insert(sym, key, row);
                                            added = added + 1;
                                            proof {
                                                assert(mp_step(
                                                    pre_state,
                                                    pre_added,
                                                    all[i as int],
                                                ) == (self@, added as nat));
                                            }
                                        }
                                    } else {
                                        proof {
                                            assert(mp_step(pre_state, pre_added, all[i as int])
                                                == (pre_state, pre_added));
                                        }
                                    }
                                },
                            }
                        },
                    }
                },
            }
        }
        proof {
            assert(all.subrange(n as int, n as int) =~= Seq::<Seq<char>>::empty());
        }
        Ok(added)
    }

    /// Densify every symbol's series over the merger's UTC day.
    ///
    /// Afterwards every second of the day is present for every symbol;
    /// records that were present are untouched; every filled second copies
    /// its donor — the symbol's latest in-day record at or before it, the
    /// first record before the data begins, the last after it ends — with
    /// only the synthetic `timestamp` rewritten.  A merger without data
    /// stays as it is.
    pub fn apply_forward_fill(&mut self) -> (r: Result<(), String>)
        requires
            old(self).wf(),
        ensures
            final(self).wf(),
            final(self).spec_date() == old(self).spec_date(),
            r is Ok,
            final(self)@.dom() == old(self)@.dom(),
            forall|sym: Seq<char>, t: int|
                old(self)@.dom().contains(sym)
                    && old(self).spec_date().spec_day_start() <= t
                    && t <= old(self).spec_date().spec_day_end()
                    ==> final(self)@[sym].dom().contains(t),
            forall|sym: Seq<char>, k: int|
                #![trigger old(self)@[sym].dom().contains(k)]
                old(self)@.dom().contains(sym) && old(self)@[sym].dom().contains(k)
                    ==> final(self)@[sym].dom().contains(k)
                    && final(self)@[sym][k] == old(self)@[sym][k],
            forall|sym: Seq<char>, k: int|
                old(self)@.dom().contains(sym) && final(self)@[sym].dom().contains(k)
                    ==> old(self)@[sym].dom().contains(k)
                    || (old(self).spec_date().spec_day_start() <= k
                    && k <= old(self).spec_date().spec_day_end()),
            forall|sym: Seq<char>, t: int|
                old(self)@.dom().contains(sym)
                    && old(self).spec_date().spec_day_start() <= t
                    && t <= old(self).spec_date().spec_day_end()
                    ==> #[trigger] final(self)@[sym][t] == crate::bucket::spec_day_fill_row(
                    old(self)@[sym],
                    old(self).spec_date().spec_day_start(),
                    t,
                ),
    {
        let (day_start, day_end) = self.date.day_bounds();
        let n = self.symbols.len();
        let ghost before = self.symbols@;
        let mut rebuilt: Vec<(String, SecondSeries)> = Vec::new();
        for i in 0..n
            invariant
                n == before.len(),
                self.wf(),
                self.symbols@ == before,
                self.spec_date() == old(self).spec_date(),
                day_start == old(self).spec_date().spec_day_start(),
                day_end == old(self).spec_date().spec_day_end(),
                day_start <= day_end,
                day_end == day_start + 86399,
                -9_000_000_000_000 <= day_start,
                day_end <= 9_000_000_000_000,
                rebuilt@.len() == i,
                forall|j: int|
                    0 <= j < i ==> (#[trigger] rebuilt@[j]).0@ == before[j].0@,
                forall|j: int| 0 <= j < i ==> (#[trigger] rebuilt@[j]).1.wf(),
                forall|j: int|
                    0 <= j < i ==> (#[trigger] rebuilt@[j]).1.spec_keys().len() > 0,
                forall|j: int, t: int|
                    0 <= j < i && day_start <= t <= day_end ==> #[trigger] rebuilt@[j].1@.dom()
                        .contains(t),
                forall|j: int, k: int|
                    0 <= j < i && #[trigger] before[j].1@.dom().contains(k) ==> rebuilt@[j].1@
                        .dom().contains(k) && rebuilt@[j].1@[k] == before[j].1@[k],
                forall|j: int, k: int|
                    0 <= j < i && #[trigger] rebuilt@[j].1@.dom().contains(k) ==> before[j].1@
                        .dom().contains(k) || day_start <= k <= day_end,
                forall|j: int, t: int|
                    0 <= j < i && day_start <= t <= day_end ==> #[trigger] rebuilt@[j].1@[t]
                        == crate::bucket::spec_fill_row(
                        before[j].1@,
                        before[j].1.spec_keys(),
                        day_start as int,
                        t,
                    ),
        {
            let name = self.symbols[i].0.clone();
            let mut series = self.symbols[i].1.clone();
            let ghost bi = before[i as int].1@;
            proof {
                self.symbols@[i as int].1.lemma_keys();
                assert(series@ == bi);
                assert(series.spec_keys().len() > 0);
            }
            let ghost pre = series@;
            let ghost pre_keys = series.spec_keys();
            series.forward_fill(day_start, day_end);
            proof {
                assert(pre == bi);
                assert(pre_keys == before[i as int].1.spec_keys());
                assert forall|t2: int|
                    day_start <= t2 <= day_end implies series@.dom().contains(t2) by {}
                assert forall|k: int|
                    bi.dom().contains(k) implies series@.dom().contains(k) && series@[k]
                    == bi[k] by {
                    assert(pre.dom().contains(k));
                }
                assert forall|k: int|
                    series@.dom().contains(k) implies bi.dom().contains(k) || day_start <= k
                    <= day_end by {
                    assert(series@.dom().contains(k));
                }
                assert forall|t2: int|
                    day_start <= t2 <= day_end implies #[trigger] series@[t2]
                    == crate::bucket::spec_fill_row(
                    bi,
                    before[i as int].1.spec_keys(),
                    day_start as int,
                    t2,
                ) by {
                    assert(series@[t2] == crate::bucket::spec_fill_row(
                        pre,
                        pre_keys,
                        day_start as int,
                        t2,
                    ));
                }
            }
            let ghost pre_rebuilt = rebuilt@;
            rebuilt.push((name, series));
            proof {
                assert(rebuilt@[i as int].1 == series);
                assert(rebuilt@[i as int].0@ == before[i as int].0@);
                assert forall|j: int, t2: int|
                    0 <= j < i + 1 && day_start <= t2 <= day_end implies #[trigger] rebuilt@[j].1@
                    .dom().contains(t2) by {
                    if j < i as int {
                        assert(rebuilt@[j] == pre_rebuilt[j]);
                    } else {
                        assert(series@.dom().contains(t2));
                    }
                }
                assert forall|j: int, k: int|
                    0 <= j < i + 1 && #[trigger] before[j].1@.dom().contains(k)
                    implies rebuilt@[j].1@.dom().contains(k) && rebuilt@[j].1@[k]
                    == before[j].1@[k] by {
                    if j < i as int {
                        assert(rebuilt@[j] == pre_rebuilt[j]);
                    } else {
                        assert(bi.dom().contains(k));
                    }
                }
                assert forall|j: int, k: int|
                    0 <= j < i + 1 && #[trigger] rebuilt@[j].1@.dom().contains(k)
                    implies before[j].1@.dom().contains(k) || day_start <= k <= day_end by {
                    if j < i as int {
                        assert(rebuilt@[j] == pre_rebuilt[j]);
                    } else {
                        assert(series@.dom().contains(k));
                    }
                }
                assert forall|j: int, t2: int|
                    0 <= j < i + 1 && day_start <= t2 <= day_end implies #[trigger] rebuilt@[
                    j
                ].1@[t2] == crate::bucket::spec_fill_row(
                    before[j].1@,
                    before[j].1.spec_keys(),
                    day_start as int,
                    t2,
                ) by {
                    if j < i as int {
                        assert(rebuilt@[j] == pre_rebuilt[j]);
                        assert(pre_rebuilt[j].1@[t2] == crate::bucket::spec_fill_row(
                            before[j].1@,
                            before[j].1.spec_keys(),
                            day_start as int,
                            t2,
                        ));
                    } else {
                        assert(series@[t2] == crate::bucket::spec_fill_row(
                            bi,
                            before[i as int].1.spec_keys(),
                            day_start as int,
                            t2,
                        ));
                    }
                }
            }
        }
        let ghost rebuilt_snapshot = rebuilt@;
        self.symbols = rebuilt;
        proof {
            assert(self.symbols@ == rebuilt_snapshot);
            assert(rebuilt_snapshot.len() == before.len());
            assert forall|p: int, q: int|
                0 <= p < q < self.symbols@.len() implies self.symbols@[p].0@
                != self.symbols@[q].0@ by {
                assert(before[p].0@ != before[q].0@);
            }
            assert forall|sym: Seq<char>|
                old(self)@.dom().contains(sym) <==> self@.dom().contains(sym) by {
                lemma_sym_map_dom(before, sym);
                lemma_sym_map_dom(self.symbols@, sym);
                if old(self)@.dom().contains(sym) {
                    let j = choose|j: int| 0 <= j < before.len() && #[trigger] before[j].0@ == sym;
                    assert(self.symbols@[j].0@ == sym);
                }
                if self@.dom().contains(sym) {
                    let j = choose|j: int|
                        0 <= j < self.symbols@.len() && #[trigger] self.symbols@[j].0@ == sym;
                    assert(before[j].0@ == sym);
                }
            }
            assert(self@.dom() =~= old(self)@.dom());
            assert forall|sym: Seq<char>, t: int|
                old(self)@.dom().contains(sym) && day_start <= t <= day_end implies self@[
                sym
            ].dom().contains(t) by {
                lemma_sym_map_dom(before, sym);
                let j = choose|j: int| 0 <= j < before.len() && #[trigger] before[j].0@ == sym;
                lemma_sym_map_at(before, j);
                assert(self.symbols@[j].0@ == sym);
                lemma_sym_map_at(self.symbols@, j);
                assert(self@[sym] == rebuilt_snapshot[j].1@);
                assert(rebuilt_snapshot[j].1@.dom().contains(t));
            }
            assert forall|sym: Seq<char>, k: int|
                #![trigger old(self)@[sym].dom().contains(k)]
                old(self)@.dom().contains(sym) && old(self)@[sym].dom().contains(k)
                implies self@[sym].dom().contains(k) && self@[sym][k] == old(self)@[sym][k] by {
                lemma_sym_map_dom(before, sym);
                let j = choose|j: int| 0 <= j < before.len() && #[trigger] before[j].0@ == sym;
                lemma_sym_map_at(before, j);
                assert(self.symbols@[j].0@ == sym);
                lemma_sym_map_at(self.symbols@, j);
                assert(before[j].1@.dom().contains(k));
            }
            assert forall|sym: Seq<char>, k: int|
                old(self)@.dom().contains(sym) && self@[sym].dom().contains(k) implies old(
                self,
            )@[sym].dom().contains(k) || (day_start <= k && k <= day_end) by {
                lemma_sym_map_dom(before, sym);
                let j = choose|j: int| 0 <= j < before.len() && #[trigger] before[j].0@ == sym;
                lemma_sym_map_at(before, j);
                assert(self.symbols@[j].0@ == sym);
                lemma_sym_map_at(self.symbols@, j);
                assert(rebuilt_snapshot[j].1@.dom().contains(k));
            }
            assert forall|sym: Seq<char>, t: int|
                old(self)@.dom().contains(sym) && day_start <= t <= day_end implies #[trigger] self@[
                sym
            ][t] == crate::bucket::spec_day_fill_row(old(self)@[sym], day_start as int, t) by {
                lemma_sym_map_dom(before, sym);
                let j = choose|j: int| 0 <= j < before.len() && #[trigger] before[j].0@ == sym;
                lemma_sym_map_at(before, j);
                assert(self.symbols@[j].0@ == sym);
                lemma_sym_map_at(self.symbols@, j);
                let bj = before[j].1;
                assert(rebuilt_snapshot[j].1@[t] == crate::bucket::spec_fill_row(
                    bj@,
                    bj.spec_keys(),
                    day_start as int,
                    t,
                ));
                bj.lemma_keys();
                crate::bucket::lemma_fill_row_on_keys(bj@, bj.spec_keys(), day_start as int, t);
            }
        }
        Ok(())
    }

    /// All symbols that hold data.
    pub fn get_symbols(&self) -> (r: Vec<String>)
        requires
            self.wf(),
        ensures
            r@.len() == self@.dom().len(),
            forall|i: int| 0 <= i < r@.len() ==> self@.dom().contains((#[trigger] r@[i])@),
            forall|p: int, q: int| 0 <= p < q < r@.len() ==> r@[p]@ != r@[q]@,
            forall|sym: Seq<char>|
                self@.dom().contains(sym) ==> exists|i: int| 0 <= i < r@.len() && r@[i]@ == sym,
    {
        let n = self.symbols.len();
        let mut out: Vec<String> = Vec::new();
        for i in 0..n
            invariant
                n == self.symbols@.len(),
                self.wf(),
                out@.len() == i,
                forall|j: int| 0 <= j < i ==> (#[trigger] out@[j])@ == self.symbols@[j].0@,
        {
            out.push(self.symbols[i].0.clone());
        }
        proof {
            assert forall|i: int|
                0 <= i < out@.len() implies self@.dom().contains((#[trigger] out@[i])@) by {
                lemma_sym_map_at(self.symbols@, i);
            }
            assert forall|sym: Seq<char>|
                self@.dom().contains(sym) implies exists|i: int|
                0 <= i < out@.len() && out@[i]@ == sym by {
                lemma_sym_map_dom(self.symbols@, sym);
                let j = choose|j: int|
                    0 <= j < self.symbols@.len() && #[trigger] self.symbols@[j].0@ == sym;
                assert(out@[j]@ == sym);
            }
            lemma_sym_len(self.symbols@);
        }
        out
    }

    /// The records of one symbol, in ascending second order.
    pub fn get_sorted_rows_for_symbol(&self, symbol: &str) -> (r: Option<Vec<DataRow>>)
        requires
            self.wf(),
        ensures
            r is Some <==> self@.dom().contains(symbol@),
            r matches Some(rows) ==> {
                &&& rows@.len() == self@[symbol@].dom().len()
                &&& (forall|i: int| 0 <= i < rows@.len() ==> (#[trigger] rows@[i]).wf())
                &&& exists|ks: Seq<int>|
                    #![trigger ks.len()]
                    ks.len() == rows@.len() && (forall|p: int, q: int|
                        0 <= p < q < ks.len() ==> ks[p] < ks[q]) && (forall|k: int|
                        self@[symbol@].dom().contains(k) <==> ks.contains(k)) && (forall|i: int|
                        0 <= i < rows@.len() ==> (#[trigger] rows@[i])@ == self@[symbol@][ks[i]])
            },
    {
        proof {
            lemma_sym_map_dom(self.symbols@, symbol@);
        }
        match self.find_symbol(symbol) {
            Some(i) => {
                proof {
                    lemma_sym_map_at(self.symbols@, i as int);
                }
                let series = &self.symbols[i].1;
                let rows = series.sorted_rows();
                proof {
                    series.lemma_keys();
                    assert(series.spec_keys().len() == series@.dom().len());
                }
                Some(rows)
            },
            None => None,
        }
    }

    /// How many seconds hold data for a symbol; 0 for an unknown symbol.
    pub fn len_for_symbol(&self, symbol: &str) -> (r: usize)
        requires
            self.wf(),
        ensures
            r == if self@.dom().contains(symbol@) {
                self@[symbol@].dom().len()
            } else {
                0
            },
    {
        proof {
            lemma_sym_map_dom(self.symbols@, symbol@);
        }
        match self.find_symbol(symbol) {
            Some(i) => {
                proof {
                    lemma_sym_map_at(self.symbols@, i as int);
                    self.symbols@[i as int].1.lemma_keys();
                }
                self.symbols[i].1.len()
            },
            None => 0,
        }
    }

    /// How many symbols hold data.
    pub fn symbol_count(&self) -> (r: usize)
        requires
            self.wf(),
        ensures
            r == self@.dom().len(),
    {
        proof {
            lemma_sym_len(self.symbols@);
        }
        self.symbols.len()
    }

    /// No symbol holds data.
    pub fn is_empty(&self) -> (r: bool)
        requires
            self.wf(),
        ensures
            r == (self@.dom().len() == 0),
    {
        proof {
            lemma_sym_len(self.symbols@);
        }
        self.symbols.len() == 0
    }
}

/// The running key is always one of the present keys.
proof fn lemma_running_key_in(ks: Seq<int>, start: int, t: int)
    requires
        ks.len() > 0,
    ensures
        ks.contains(crate::bucket::spec_running_key(ks, start, t)),
    decreases ks.len(),
{
    if ks.len() <= 1 {
        assert(ks[0] == crate::bucket::spec_running_key(ks, start, t));
    } else if start <= ks.last() <= t {
        assert(ks[ks.len() - 1] == crate::bucket::spec_running_key(ks, start, t));
    } else {
        lemma_running_key_in(ks.drop_last(), start, t);
        let r = crate::bucket::spec_running_key(ks.drop_last(), start, t);
        let i = choose|i: int| 0 <= i < ks.drop_last().len() && ks.drop_last()[i] == r;
        assert(ks[i] == r);
    }
}

proof fn lemma_sym_len(s: Seq<(String, SecondSeries)>)
    requires
        forall|p: int, q: int| 0 <= p < q < s.len() ==> s[p].0@ != s[q].0@,
    ensures
        sym_map(s).dom().len() == s.len(),
        sym_map(s).dom().finite(),
    decreases s.len(),
{
    if s.len() == 0 {
        assert(sym_map(s).dom() =~= Set::<Seq<char>>::empty());
    } else {
        lemma_sym_len(s.drop_last());
        lemma_sym_map_dom(s.drop_last(), s.last().0@);
        assert(!sym_map(s.drop_last()).dom().contains(s.last().0@));
        assert(sym_map(s).dom() =~= sym_map(s.drop_last()).dom().insert(s.last().0@));
    }
}

} // verus!
