//! The merge pipeline's invariants, stated and proved once over the spec
//! functions that the mergers' contracts use.
//!
//! Each proof function here is a statement about every possible run, not
//! about one test input: density of a filled day, alignment of the
//! synthetic `timestamp`, preservation of the ingested event time, and
//! first-writer-wins stability under later sources.

use vstd::prelude::*;
use crate::bucket::{spec_day_fill_row, spec_stamp};
use crate::date::spec_dedup_key;
use crate::json::JsonItem;
use crate::data_merger::{dm_ingest, dm_step, spec_e_seconds};
use crate::mark_price_merger::{mp_ingest, mp_step, spec_event_ms};
use crate::record::{parsed_object, spec_normalize};

verus! {

/// Density after fill: when every record of a symbol lies inside the UTC
/// day, the filled series holds exactly the day's 86400 seconds.
pub proof fn lemma_density_after_fill(
    pre: Map<int, Map<Seq<char>, JsonItem>>,
    post: Map<int, Map<Seq<char>, JsonItem>>,
    start: int,
    end: int,
)
    requires
        end == start + 86399,
        forall|t: int| start <= t <= end ==> post.dom().contains(t),
        forall|k: int| post.dom().contains(k) ==> pre.dom().contains(k) || start <= k <= end,
        forall|k: int| pre.dom().contains(k) ==> start <= k <= end,
    ensures
        post.dom() == vstd::set_lib::set_int_range(start, end + 1),
        post.dom().len() == 86400,
{
    assert(post.dom() =~= vstd::set_lib::set_int_range(start, end + 1));
    vstd::set_lib::lemma_int_range(start, end + 1);
}

/// The ingested state keeps the synthetic `timestamp` aligned: every kept
/// record carries `timestamp` equal to its second times 1000.
pub open spec fn timestamps_aligned(state: Map<Seq<char>, Map<int, Map<Seq<char>, JsonItem>>>) -> bool {
    forall|sym: Seq<char>, k: int|
        state.dom().contains(sym) && #[trigger] state[sym].dom().contains(k) ==> state[sym][k].dom()
            .contains("timestamp"@) && state[sym][k]["timestamp"@] == JsonItem::Int(
            (k * 1000) as i64,
        )
}

/// Ingestion establishes and preserves [`timestamps_aligned`].
pub proof fn lemma_ingest_timestamps_aligned(
    state: Map<Seq<char>, Map<int, Map<Seq<char>, JsonItem>>>,
    count: nat,
    lines: Seq<Seq<char>>,
)
    requires
        timestamps_aligned(state),
    ensures
        timestamps_aligned(mp_ingest(state, count, lines).0),
    decreases lines.len(),
{
    if lines.len() > 0 {
        let stepped = mp_step(state, count, lines[0]);
        assert(timestamps_aligned(stepped.0)) by {
            assert forall|sym: Seq<char>, k: int|
                stepped.0.dom().contains(sym) && #[trigger] stepped.0[sym].dom().contains(
                    k,
                ) implies stepped.0[sym][k].dom().contains("timestamp"@) && stepped.0[sym][k][
                "timestamp"@
            ] == JsonItem::Int((k * 1000) as i64) by {
                if state.dom().contains(sym) && state[sym].dom().contains(k) && stepped.0[sym][k]
                    == state[sym][k] {
                }
            }
        }
        lemma_ingest_timestamps_aligned(stepped.0, stepped.1, lines.subrange(1, lines.len() as int));
    }
}

/// Timestamp alignment after the fill: every second of the day carries
/// `timestamp` = second * 1000, whether the record was ingested or filled.
pub proof fn lemma_timestamp_alignment_after_fill(
    pre: Map<int, Map<Seq<char>, JsonItem>>,
    post: Map<int, Map<Seq<char>, JsonItem>>,
    start: int,
    end: int,
)
    requires
        forall|k: int|
            #[trigger] pre.dom().contains(k) ==> pre[k].dom().contains("timestamp"@) && pre[k][
                "timestamp"@
            ] == JsonItem::Int((k * 1000) as i64),
        forall|t: int| start <= t <= end ==> #[trigger] post[t] == spec_day_fill_row(pre, start, t),
    ensures
        forall|t: int|
            start <= t <= end ==> post[t].dom().contains("timestamp"@) && #[trigger] post[t][
                "timestamp"@
            ] == JsonItem::Int((t * 1000) as i64),
{
    assert forall|t: int|
        start <= t <= end implies post[t].dom().contains("timestamp"@) && #[trigger] post[t][
        "timestamp"@
    ] == JsonItem::Int((t * 1000) as i64) by {
        assert(post[t] == spec_day_fill_row(pre, start, t));
        if pre.dom().contains(t) {
        } else if t < crate::bucket::spec_min_key(pre) {
            assert(post[t] == spec_stamp(pre[crate::bucket::spec_min_key(pre)], t));
        } else if t > crate::bucket::spec_max_key(pre) {
            assert(post[t] == spec_stamp(pre[crate::bucket::spec_max_key(pre)], t));
        } else if crate::bucket::spec_has_window_key(pre, start, t) {
            assert(post[t] == spec_stamp(pre[crate::bucket::spec_window_key(pre, start, t)], t));
        } else {
            assert(post[t] == spec_stamp(pre[crate::bucket::spec_min_key(pre)], t));
        }
    }
}

/// Dedup stability extends through the fill: the filled rows are a
/// function of the merged state and the day alone, so two runs that merge
/// equal states fill identically.
pub proof fn lemma_fill_stability(
    a: Map<int, Map<Seq<char>, JsonItem>>,
    b: Map<int, Map<Seq<char>, JsonItem>>,
    start: int,
    t: int,
)
    requires
        a == b,
    ensures
        spec_day_fill_row(a, start, t) == spec_day_fill_row(b, start, t),
{
}

/// The generic merger's state keeps the synthetic `timestamp` aligned:
/// every kept record carries `timestamp` equal to its second times 1000.
pub open spec fn dm_timestamps_aligned(state: Map<int, Map<Seq<char>, JsonItem>>) -> bool {
    forall|k: int|
        #[trigger] state.dom().contains(k) ==> state[k].dom().contains("timestamp"@) && state[k][
            "timestamp"@
        ] == JsonItem::Int((k * 1000) as i64)
}

/// Generic ingestion establishes and preserves [`dm_timestamps_aligned`].
pub proof fn lemma_dm_ingest_timestamps_aligned(
    state: Map<int, Map<Seq<char>, JsonItem>>,
    count: nat,
    lines: Seq<Seq<char>>,
)
    requires
        dm_timestamps_aligned(state),
    ensures
        dm_timestamps_aligned(dm_ingest(state, count, lines).0),
    decreases lines.len(),
{
    if lines.len() > 0 {
        let stepped = dm_step(state, count, lines[0]);
        assert(dm_timestamps_aligned(stepped.0)) by {
            assert forall|k: int|
                #[trigger] stepped.0.dom().contains(k) implies stepped.0[k].dom().contains(
                "timestamp"@,
            ) && stepped.0[k]["timestamp"@] == JsonItem::Int((k * 1000) as i64) by {
                if state.dom().contains(k) && stepped.0[k] == state[k] {
                }
            }
        }
        lemma_dm_ingest_timestamps_aligned(
            stepped.0,
            stepped.1,
            lines.subrange(1, lines.len() as int),
        );
    }
}

/// The generic merger's state keeps each record's raw `E` consistent with
/// its key: the stored `E` still denotes the milliseconds whose second is
/// the record's key.  Ingestion never rewrites `E`.
pub open spec fn dm_event_times_consistent(state: Map<int, Map<Seq<char>, JsonItem>>) -> bool {
    forall|k: int|
        #[trigger] state.dom().contains(k) ==> (spec_e_seconds(state[k]) matches Some(s) && s as int
            == k)
}

/// Event-time preservation for the generic merger: ingestion establishes
/// and preserves [`dm_event_times_consistent`] — a kept record's `E` is
/// the parsed value, untouched by the synthetic `timestamp`.
pub proof fn lemma_dm_ingest_event_times(
    state: Map<int, Map<Seq<char>, JsonItem>>,
    count: nat,
    lines: Seq<Seq<char>>,
)
    requires
        dm_event_times_consistent(state),
    ensures
        dm_event_times_consistent(dm_ingest(state, count, lines).0),
    decreases lines.len(),
{
    if lines.len() > 0 {
        let stepped = dm_step(state, count, lines[0]);
        assert(dm_event_times_consistent(stepped.0)) by {
            assert forall|k: int|
                #[trigger] stepped.0.dom().contains(k) implies (spec_e_seconds(stepped.0[k])
                matches Some(s) && s as int == k) by {
                if state.dom().contains(k) && stepped.0[k] == state[k] {
                }
            }
        }
        lemma_dm_ingest_event_times(stepped.0, stepped.1, lines.subrange(1, lines.len() as int));
    }
}

/// The ingested state keeps each record's event time consistent with its
/// key: the stored `event_time` still denotes milliseconds whose second is
/// exactly the record's dedup key.  Ingestion never rewrites `event_time`.
pub open spec fn event_times_consistent(
    state: Map<Seq<char>, Map<int, Map<Seq<char>, JsonItem>>>,
) -> bool {
    forall|sym: Seq<char>, k: int|
        state.dom().contains(sym) && #[trigger] state[sym].dom().contains(k) ==> (spec_event_ms(
            state[sym][k],
        ) matches Some(ms) && spec_dedup_key(ms as int) == k)
}

/// Event-time preservation: ingestion establishes and preserves
/// [`event_times_consistent`] — a kept record's `event_time` is the parsed
/// value, untouched by the synthetic `timestamp`.
pub proof fn lemma_ingest_event_times(
    state: Map<Seq<char>, Map<int, Map<Seq<char>, JsonItem>>>,
    count: nat,
    lines: Seq<Seq<char>>,
)
    requires
        event_times_consistent(state),
    ensures
        event_times_consistent(mp_ingest(state, count, lines).0),
    decreases lines.len(),
{
    if lines.len() > 0 {
        let stepped = mp_step(state, count, lines[0]);
        assert(event_times_consistent(stepped.0)) by {
            assert forall|sym: Seq<char>, k: int|
                stepped.0.dom().contains(sym) && #[trigger] stepped.0[sym].dom().contains(
                    k,
                ) implies (spec_event_ms(stepped.0[sym][k]) matches Some(ms) && spec_dedup_key(
                ms as int,
            ) == k) by {
                if state.dom().contains(sym) && state[sym].dom().contains(k) && stepped.0[sym][k]
                    == state[sym][k] {
                }
            }
        }
        lemma_ingest_event_times(stepped.0, stepped.1, lines.subrange(1, lines.len() as int));
    }
}

/// First-writer-wins: once a `(symbol, second)` key holds a record, no
/// later line — from this source or any later one — changes it.
pub proof fn lemma_first_writer_wins(
    state: Map<Seq<char>, Map<int, Map<Seq<char>, JsonItem>>>,
    count: nat,
    lines: Seq<Seq<char>>,
    sym: Seq<char>,
    k: int,
)
    requires
        state.dom().contains(sym),
        state[sym].dom().contains(k),
    ensures
        mp_ingest(state, count, lines).0.dom().contains(sym),
        mp_ingest(state, count, lines).0[sym].dom().contains(k),
        mp_ingest(state, count, lines).0[sym][k] == state[sym][k],
    decreases lines.len(),
{
    if lines.len() > 0 {
        let stepped = mp_step(state, count, lines[0]);
        assert(stepped.0.dom().contains(sym) && stepped.0[sym].dom().contains(k)
            && stepped.0[sym][k] == state[sym][k]);
        lemma_first_writer_wins(stepped.0, stepped.1, lines.subrange(1, lines.len() as int), sym, k);
    }
}

/// Dedup stability: the merged state is a function of the starting state
/// and the ordered line sequence alone, so identical source ordering gives
/// identical output.  This is immediate because [`mp_ingest`] is a spec
/// function; it is recorded here as the contract-level form of run-to-run
/// reproducibility.
pub proof fn lemma_dedup_stability(
    a: Map<Seq<char>, Map<int, Map<Seq<char>, JsonItem>>>,
    b: Map<Seq<char>, Map<int, Map<Seq<char>, JsonItem>>>,
    count: nat,
    lines: Seq<Seq<char>>,
)
    requires
        a == b,
    ensures
        mp_ingest(a, count, lines) == mp_ingest(b, count, lines),
{
}

/// What one line inserts, it inserts bit-for-bit: a record newly kept by
/// one ingest step is exactly the line's normalized parse with only the
/// synthetic `timestamp` added, so its `event_time` is the parsed value,
/// untouched.
pub proof fn lemma_step_inserts_parsed_record(
    state: Map<Seq<char>, Map<int, Map<Seq<char>, JsonItem>>>,
    count: nat,
    line: Seq<char>,
    sym: Seq<char>,
    k: int,
)
    requires
        mp_step(state, count, line).0.dom().contains(sym),
        mp_step(state, count, line).0[sym].dom().contains(k),
        !(state.dom().contains(sym) && state[sym].dom().contains(k)),
    ensures
        parsed_object(line) is Some,
        ({
            let row = spec_normalize(parsed_object(line).unwrap());
            &&& mp_step(state, count, line).0[sym][k] == row.insert(
                "timestamp"@,
                JsonItem::Int((k * 1000) as i64),
            )
            &&& (row.dom().contains("event_time"@) ==> mp_step(state, count, line).0[sym][k][
                "event_time"@
            ] == row["event_time"@])
        }),
{
    reveal_strlit("timestamp");
    reveal_strlit("event_time");
    assert("timestamp"@.len() == 9);
    assert("event_time"@.len() == 10);
}

/// The same for the generic merger: a newly kept record is the line's
/// parse with only `timestamp` added; its raw `E` is stored bit-for-bit.
pub proof fn lemma_dm_step_inserts_parsed_record(
    state: Map<int, Map<Seq<char>, JsonItem>>,
    count: nat,
    line: Seq<char>,
    k: int,
)
    requires
        dm_step(state, count, line).0.dom().contains(k),
        !state.dom().contains(k),
    ensures
        parsed_object(line) is Some,
        ({
            let row = parsed_object(line).unwrap();
            &&& dm_step(state, count, line).0[k] == row.insert(
                "timestamp"@,
                JsonItem::Int((k * 1000) as i64),
            )
            &&& (row.dom().contains("E"@) ==> dm_step(state, count, line).0[k]["E"@] == row["E"@])
        }),
{
    reveal_strlit("timestamp");
    reveal_strlit("E");
    assert("timestamp"@.len() == 9);
    assert("E"@.len() == 1);
}

} // verus!
