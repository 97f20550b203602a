//! Merging a generic record stream.
//!
//! The generic merger keys records by second alone: one series for the
//! whole stream, keyed by the `E` timestamp, first writer wins.  The kept
//! record's `E` stays exactly as ingested; a separate synthetic
//! `timestamp` carries the second.  [`dm_ingest`] pins the whole protocol
//! as a fold over the shard's lines.

use vstd::prelude::*;
use crate::bucket::SecondSeries;
use crate::date::{spec_dedup_key, CivilDate};
use crate::json::{DataRow, JsonItem};
use crate::record::{parsed_object, spec_as_ms, spec_lines};

verus! {

/// The second a raw record belongs to, read from its `E` field.
pub open spec fn spec_e_seconds(m: Map<Seq<char>, JsonItem>) -> Option<i64> {
    if m.dom().contains("E"@) {
        match spec_as_ms(m["E"@]) {
            Some(ms) => Some(spec_dedup_key(ms as int) as i64),
            None => None,
        }
    } else {
        None
    }
}

/// What ingesting one line does: parse, read the second from `E`, and
/// insert with a synthetic `timestamp` attached — the ingested `E` kept
/// bit-for-bit — unless the second is taken.
pub open spec fn dm_step(
    state: Map<int, Map<Seq<char>, JsonItem>>,
    count: nat,
    line: Seq<char>,
) -> (Map<int, Map<Seq<char>, JsonItem>>, nat) {
    match parsed_object(line) {
        None => (state, count),
        Some(row) => match spec_e_seconds(row) {
            None => (state, count),
            Some(sec) => if state.dom().contains(sec as int) {
                (state, count)
            } else {
                (
                    state.insert(
                        sec as int,
                        row.insert("timestamp"@, JsonItem::Int((sec * 1000) as i64)),
                    ),
                    count + 1,
                )
            },
        },
    }
}

/// Ingesting a shard is folding [`dm_step`] over its lines, in order.
pub open spec fn dm_ingest(
    state: Map<int, Map<Seq<char>, JsonItem>>,
    count: nat,
    lines: Seq<Seq<char>>,
) -> (Map<int, Map<Seq<char>, JsonItem>>, nat)
    decreases lines.len(),
{
    if lines.len() == 0 {
        (state, count)
    } else {
        let stepped = dm_step(state, count, lines[0]);
        dm_ingest(stepped.0, stepped.1, lines.subrange(1, lines.len() as int))
    }
}

/// Generic records of one UTC day, merged by second.
pub struct DataMerger {
    date: CivilDate,
    series: SecondSeries,
}

impl View for DataMerger {
    type V = Map<int, Map<Seq<char>, JsonItem>>;

    closed spec fn view(&self) -> Map<int, Map<Seq<char>, JsonItem>> {
        self.series@
    }
}

impl DataMerger {
    pub closed spec fn wf(&self) -> bool {
        self.date.valid() && self.series.wf()
    }

    /// The date this merger was created for.
    pub closed spec fn spec_date(&self) -> CivilDate {
        self.date
    }

    /// The present seconds, in increasing order.
    pub closed spec fn spec_keys(&self) -> Seq<int> {
        self.series.spec_keys()
    }

    pub fn new(date: CivilDate) -> (r: Self)
        requires
            date.valid(),
        ensures
            r.wf(),
            r@ == Map::<int, Map<Seq<char>, JsonItem>>::empty(),
            r.spec_date() == date,
    {
        DataMerger { date, series: SecondSeries::new() }
    }

    /// The second a record belongs to, from its `E` field in milliseconds.
    pub fn extract_timestamp_seconds(row: &DataRow) -> (r: Option<i64>)
        requires
            row.wf(),
        ensures
            r == spec_e_seconds(row@),
    {
        match row.get("E") {
            Some(v) => match crate::record::value_to_ms(v) {
                Some(ms) => Some(crate::date::ms_to_second(ms)),
                None => None,
            },
            None => None,
        }
    }

    /// Feed one shard's text into the merger; the result is exactly the
    /// [`dm_ingest`] fold of the shard's lines.  Never fails; the source
    /// name only labels logs.
    pub fn add_jsonl_data(&mut self, content: &str, source_name: &str) -> (r: Result<
        usize,
        String,
    >)
        requires
            old(self).wf(),
        ensures
            final(self).wf(),
            final(self).spec_date() == old(self).spec_date(),
            r is Ok,
            final(self)@ == dm_ingest(old(self)@, 0, spec_lines(content@)).0,
            r matches Ok(count) && count as nat == dm_ingest(old(self)@, 0, spec_lines(content@)).1,
    {
        let lines = crate::record::split_lines(content);
        let ghost all = spec_lines(content@);
        let n = lines.len();
        let mut added: usize = 0;
        proof {
            assert(lines@.map_values(|line: String| line@) =~= all);
            assert(all.subrange(0, n as int) =~= all);
        }
        for i in 0..n
            invariant
                n == lines@.len(),
                lines@.map_values(|line: String| line@) == all,
                self.wf(),
                self.spec_date() == old(self).spec_date(),
                added <= i,
                dm_ingest(self@, added as nat, all.subrange(i as int, n as int)) == dm_ingest(
                    old(self)@,
                    0,
                    all,
                ),
        {
            let ghost pre_state = self@;
            let ghost pre_added = added as nat;
            let ghost rest = all.subrange(i as int, n as int);
            proof {
                assert(rest[0] == all[i as int]);
                assert(all[i as int] == lines@[i as int]@);
                assert(rest.subrange(1, rest.len() as int) =~= all.subrange(i + 1, n as int));
            }
            match crate::record::parse_object_line(lines[i].as_str()) {
                None => {
                    proof {
                        assert(dm_step(pre_state, pre_added, all[i as int]) == (
                            pre_state,
                            pre_added,
                        ));
                    }
                },
                Some(mut row) => {
                    match Self::extract_timestamp_seconds(&row) {
                        None => {
                            proof {
                                assert(dm_step(pre_state, pre_added, all[i as int]) == (
                                    pre_state,
                                    pre_added,
                                ));
                            }
                        },
                        Some(sec) => {
                            if self.series.contains_key(sec) {
                                proof {
                                    assert(dm_step(pre_state, pre_added, all[i as int]) == (
                                        pre_state,
                                        pre_added,
                                    ));
                                }
                            } else {
                                let aligned: i64 = sec * 1000;
                                row.insert(
                                    "timestamp".to_owned(),
                                    crate::json::JsonValue::Int(aligned),
                                );
                                self.series.insert_new(sec, row);
                                added = added + 1;
                                proof {
                                    assert(dm_step(pre_state, pre_added, all[i as int]) == (
                                        self@,
                                        added as nat,
                                    ));
                                }
                            }
                        },
                    }
                },
            }
        }
        proof {
            assert(all.subrange(n as int, n as int) =~= Seq::<Seq<char>>::empty());
        }
        Ok(added)
    }

    /// Densify the merger's UTC day; a merger without data stays as it is.
    ///
    /// Every second of the day ends up present, records that were present
    /// are untouched, and each filled second gets its donor record — the
    /// nearest preceding in-day record, the first before it, the last
    /// after it — with only the synthetic `timestamp` rewritten.
    pub fn apply_forward_fill(&mut self) -> (r: Result<(), String>)
        requires
            old(self).wf(),
        ensures
            final(self).wf(),
            final(self).spec_date() == old(self).spec_date(),
            r is Ok,
            old(self).spec_keys().len() == 0 ==> final(self)@ == old(self)@,
            old(self).spec_keys().len() > 0 ==> {
                &&& forall|t: int|
                    old(self).spec_date().spec_day_start() <= t <= old(
                        self,
                    ).spec_date().spec_day_end() ==> #[trigger] final(self)@.dom().contains(t)
                &&& forall|t: int|
                    old(self).spec_date().spec_day_start() <= t <= old(
                        self,
                    ).spec_date().spec_day_end() ==> #[trigger] final(self)@[t]
                        == crate::bucket::spec_fill_row(
                        old(self)@,
                        old(self).spec_keys(),
                        old(self).spec_date().spec_day_start(),
                        t,
                    )
                &&& forall|k: int|
                    #[trigger] old(self)@.dom().contains(k) ==> final(self)@.dom().contains(k)
                        && final(self)@[k] == old(self)@[k]
                &&& forall|k: int|
                    #[trigger] final(self)@.dom().contains(k) ==> old(self)@.dom().contains(k)
                        || old(self).spec_date().spec_day_start() <= k <= old(
                        self,
                    ).spec_date().spec_day_end()
            },
    {
        if self.series.is_empty() {
            return Ok(());
        }
        let (day_start, day_end) = self.date.day_bounds();
        self.series.forward_fill(day_start, day_end);
        Ok(())
    }

    /// All records, in ascending second order.
    pub fn get_sorted_rows(&self) -> (r: Vec<DataRow>)
        requires
            self.wf(),
        ensures
            r@.len() == self.spec_keys().len(),
            forall|i: int| 0 <= i < r@.len() ==> (#[trigger] r@[i])@ == self@[self.spec_keys()[i]],
            forall|i: int| 0 <= i < r@.len() ==> (#[trigger] r@[i]).wf(),
    {
        self.series.sorted_rows()
    }

    /// How many seconds hold data.
    pub fn len(&self) -> (r: usize)
        requires
            self.wf(),
        ensures
            r == self.spec_keys().len(),
            r == self@.dom().len(),
    {
        proof {
            self.series.lemma_keys();
        }
        self.series.len()
    }

    pub fn is_empty(&self) -> (r: bool)
        requires
            self.wf(),
        ensures
            r == (self.spec_keys().len() == 0),
    {
        self.series.is_empty()
    }

    /// The ordered keys enumerate exactly the seconds that hold data.
    pub proof fn lemma_keys(&self)
        requires
            self.wf(),
        ensures
            self.spec_keys().len() == self@.dom().len(),
            forall|k: int| self@.dom().contains(k) <==> self.spec_keys().contains(k),
            forall|i: int, j: int|
                0 <= i < j < self.spec_keys().len() ==> self.spec_keys()[i] < self.spec_keys()[j],
    {
        self.series.lemma_keys();
    }
}

} // verus!
