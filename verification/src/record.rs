//! Raw shard text to records.
//!
//! A shard is newline-delimited JSON.  The two trusted items here hand the
//! text over to `serde_json` and `str::lines`; everything downstream of
//! them — renaming short field names, reading the event time, validation —
//! is verified in the merger modules against the names and spec functions
//! below.

use vstd::prelude::*;
use crate::json::{DataRow, JsonItem, JsonValue};

verus! {

/// The record that parsing one line yields: `None` when the line is not a
/// JSON object, otherwise its fields.  Parsing is a function of the text
/// alone.
pub uninterp spec fn parsed_object(s: Seq<char>) -> Option<Map<Seq<char>, JsonItem>>;

#[verifier::external_type_specification]
#[verifier::external_body]
pub struct ExValue(serde_json::Value);

/// Relies on `serde_json::Value`'s accessors: one parsed value moved into
/// the library's model, integers classified by `u64`/`i64` range, other
/// numbers and nested values rendered to text.  Only
/// [`parse_object_line`]'s contract speaks for the result.
#[verifier::external_body]
fn value_to_model(v: serde_json::Value) -> JsonValue {
    match v {
        serde_json::Value::Null => JsonValue::Null,
        serde_json::Value::Bool(b) => JsonValue::Bool(b),
        serde_json::Value::String(s) => JsonValue::Str(s),
        serde_json::Value::Number(n) if n.is_u64() => JsonValue::UInt(n.as_u64().unwrap()),
        serde_json::Value::Number(n) if n.is_i64() => JsonValue::Int(n.as_i64().unwrap()),
        serde_json::Value::Number(n) => JsonValue::Num(n.to_string()),
        other => JsonValue::Raw(other.to_string()),
    }
}

/// Relies on `serde_json::from_str` and `serde_json::Map`: a line either
/// fails to parse as a JSON object or yields its fields, keys unique,
/// integers classified by `u64`/`i64` range, other numbers and nested
/// values rendered to text.
#[verifier::external_body]
pub fn parse_object_line(line: &str) -> (r: Option<DataRow>)
    ensures
        r is Some <==> parsed_object(line@) is Some,
        r matches Some(row) ==> row.wf() && row@ == parsed_object(line@).unwrap(),
{
    let v: serde_json::Value = match serde_json::from_str(line) {
        Ok(v) => v,
        Err(_) => return None,
    };
    let m = match v {
        serde_json::Value::Object(m) => m,
        _ => return None,
    };
    let mut pairs: Vec<(String, JsonValue)> = Vec::new();
    for (k, v) in m {
        pairs.push((k, value_to_model(v)));
    }
    Some(DataRow::from_pairs(pairs))
}

/// Index of the first newline of `s`, or -1.
pub open spec fn spec_find_nl(s: Seq<char>) -> int
    decreases s.len(),
{
    if s.len() == 0 {
        -1
    } else if s[0] == '\n' {
        0
    } else if spec_find_nl(s.subrange(1, s.len() as int)) == -1 {
        -1
    } else {
        spec_find_nl(s.subrange(1, s.len() as int)) + 1
    }
}

/// `s` without one trailing carriage return.
pub open spec fn spec_chop_cr(s: Seq<char>) -> Seq<char> {
    if s.len() > 0 && s.last() == '\r' {
        s.drop_last()
    } else {
        s
    }
}

/// The lines of `s` as `str::lines` yields them: split at `\n`, one `\r`
/// dropped before each split, no empty final line.
pub open spec fn spec_lines(s: Seq<char>) -> Seq<Seq<char>>
    decreases s.len(),
{
    if s.len() == 0 {
        Seq::empty()
    } else {
        let k = spec_find_nl(s);
        if !(0 <= k < s.len()) {
            seq![s]
        } else {
            seq![spec_chop_cr(s.subrange(0, k))] + spec_lines(s.subrange(k + 1, s.len() as int))
        }
    }
}

/// `find_nl` on a newline-free sequence.
proof fn lemma_find_nl_none(t: Seq<char>)
    requires
        forall|m: int| 0 <= m < t.len() ==> t[m] != '\n',
    ensures
        spec_find_nl(t) == -1,
    decreases t.len(),
{
    if t.len() > 0 {
        let sub = t.subrange(1, t.len() as int);
        assert forall|m: int| 0 <= m < sub.len() implies sub[m] != '\n' by {
            assert(sub[m] == t[m + 1]);
        }
        lemma_find_nl_none(sub);
    }
}

/// `find_nl` finds the first newline.
proof fn lemma_find_nl_at(t: Seq<char>, j: int)
    requires
        0 <= j < t.len(),
        t[j] == '\n',
        forall|m: int| 0 <= m < j ==> t[m] != '\n',
    ensures
        spec_find_nl(t) == j,
    decreases j,
{
    if j > 0 {
        let sub = t.subrange(1, t.len() as int);
        assert(sub[j - 1] == t[j]);
        assert forall|m: int| 0 <= m < j - 1 implies sub[m] != '\n' by {
            assert(sub[m] == t[m + 1]);
        }
        lemma_find_nl_at(sub, j - 1);
    }
}

/// The characters `[a, b)` of a scanned vector, as a string.
fn segment(cs: &Vec<char>, a: usize, b: usize) -> (r: String)
    requires
        a <= b <= cs@.len(),
    ensures
        r@ == cs@.subrange(a as int, b as int),
{
    let mut seg: Vec<char> = Vec::new();
    for m in a..b
        invariant
            a <= m <= b <= cs@.len(),
            seg@ == cs@.subrange(a as int, m as int),
    {
        seg.push(cs[m]);
        proof {
            assert(cs@.subrange(a as int, m as int).push(cs@[m as int]) =~= cs@.subrange(
                a as int,
                m + 1,
            ));
        }
    }
    crate::strkit::string_of(seg)
}

/// Split shard text into its lines, exactly as [`spec_lines`] says.
pub fn split_lines(s: &str) -> (r: Vec<String>)
    ensures
        r@.map_values(|line: String| line@) == spec_lines(s@),
{
    let cs = crate::strkit::chars_of(s);
    let n = cs.len();
    let mut out: Vec<String> = Vec::new();
    let mut p: usize = 0;
    proof {
        assert(cs@.subrange(0, n as int) =~= s@);
        assert(out@.map_values(|line: String| line@) =~= Seq::<Seq<char>>::empty());
    }
    while p < n
        invariant
            n == cs@.len(),
            cs@ == s@,
            p <= n,
            spec_lines(s@) == out@.map_values(|line: String| line@) + spec_lines(
                cs@.subrange(p as int, n as int),
            ),
        decreases n - p,
    {
        let ghost t = cs@.subrange(p as int, n as int);
        let ghost mapped = out@.map_values(|line: String| line@);
        let mut j = p;
        while j < n && cs[j] != '\n'
            invariant
                p <= j <= n,
                n == cs@.len(),
                forall|m: int| p <= m < j ==> cs@[m] != '\n',
            decreases n - j,
        {
            j = j + 1;
        }
        proof {
            assert forall|m: int| 0 <= m < j - p implies t[m] != '\n' by {
                assert(t[m] == cs@[p + m]);
            }
        }
        if j < n {
            proof {
                assert(t[j - p] == cs@[j as int]);
                lemma_find_nl_at(t, j - p);
            }
            let end = if j > p && cs[j - 1] == '\r' {
                j - 1
            } else {
                j
            };
            let seg = segment(&cs, p, end);
            proof {
                let head = t.subrange(0, j - p);
                assert(head =~= cs@.subrange(p as int, j as int));
                if j > p && cs@[j - 1] == '\r' {
                    assert(head.len() > 0 && head.last() == '\r');
                    assert(seg@ =~= head.drop_last());
                    assert(seg@ == spec_chop_cr(head));
                } else {
                    if head.len() > 0 {
                        assert(head.last() == cs@[j - 1]);
                    }
                    assert(seg@ == spec_chop_cr(head));
                }
                assert(t.subrange(j - p + 1, t.len() as int) =~= cs@.subrange(j + 1, n as int));
                assert(spec_lines(t) == seq![spec_chop_cr(head)] + spec_lines(
                    cs@.subrange(j + 1, n as int),
                ));
            }
            out.push(seg);
            proof {
                assert(out@.map_values(|line: String| line@) =~= mapped.push(seg@));
                assert(mapped.push(seg@) + spec_lines(cs@.subrange(j + 1, n as int)) =~= mapped + (
                seq![seg@] + spec_lines(cs@.subrange(j + 1, n as int))));
            }
            p = j + 1;
        } else {
            proof {
                lemma_find_nl_none(t);
                assert(spec_lines(t) == seq![t]);
            }
            let seg = segment(&cs, p, n);
            proof {
                assert(seg@ =~= t);
            }
            out.push(seg);
            proof {
                assert(out@.map_values(|line: String| line@) =~= mapped.push(seg@));
                assert(cs@.subrange(n as int, n as int).len() == 0);
                assert(spec_lines(cs@.subrange(n as int, n as int))
                    == Seq::<Seq<char>>::empty());
                assert(mapped.push(seg@) + Seq::<Seq<char>>::empty() =~= mapped + seq![t]);
            }
            p = n;
        }
    }
    proof {
        assert(cs@.subrange(n as int, n as int).len() == 0);
        assert(spec_lines(cs@.subrange(n as int, n as int)) == Seq::<Seq<char>>::empty());
        assert(out@.map_values(|line: String| line@) + Seq::<Seq<char>>::empty() =~= out@
            .map_values(|line: String| line@));
    }
    out
}

/// Renaming one field: the value moves from `short` to `full`.
pub open spec fn spec_rename(
    m: Map<Seq<char>, JsonItem>,
    short: Seq<char>,
    full: Seq<char>,
) -> Map<Seq<char>, JsonItem> {
    if m.dom().contains(short) {
        m.remove(short).insert(full, m[short])
    } else {
        m
    }
}

/// All short names renamed to long ones, in the order the ingest applies
/// them.
pub open spec fn spec_normalize(m: Map<Seq<char>, JsonItem>) -> Map<Seq<char>, JsonItem> {
    spec_rename(
        spec_rename(
            spec_rename(
                spec_rename(
                    spec_rename(
                        spec_rename(
                            spec_rename(spec_rename(m, "e"@, "event_type"@), "s"@, "symbol"@),
                            "p"@,
                            "mark_price"@,
                        ),
                        "i"@,
                        "index_price"@,
                    ),
                    "P"@,
                    "estimated_settle_price"@,
                ),
                "r"@,
                "funding_rate"@,
            ),
            "T"@,
            "next_funding_time"@,
        ),
        "E"@,
        "event_time"@,
    )
}

/// The event time a value denotes, in milliseconds: an integer number, or
/// a string that parses as one.
pub open spec fn spec_as_ms(v: JsonItem) -> Option<i64> {
    match v {
        JsonItem::Int(i) => Some(i),
        JsonItem::UInt(u) => if u <= i64::MAX as u64 {
            Some(u as i64)
        } else {
            None
        },
        JsonItem::Str(s) => if crate::numtext::is_i64_text(s) {
            Some(crate::numtext::signed_value(s) as i64)
        } else {
            None
        },
        _ => None,
    }
}

/// Milliseconds read out of one record value.
pub fn value_to_ms(v: &JsonValue) -> (r: Option<i64>)
    ensures
        r == spec_as_ms(v@),
{
    match v {
        JsonValue::Int(i) => Some(*i),
        JsonValue::UInt(u) => {
            if *u <= 9223372036854775807u64 {
                Some(*u as i64)
            } else {
                None
            }
        },
        JsonValue::Str(s) => crate::numtext::parse_i64(s.as_str()),
        _ => None,
    }
}

/// Rename the short upstream field names to their long forms, in place.
pub fn normalize_field_names(row: &mut DataRow)
    requires
        old(row).wf(),
    ensures
        final(row).wf(),
        final(row)@ == spec_normalize(old(row)@),
{
    rename_one(row, "e", "event_type");
    rename_one(row, "s", "symbol");
    rename_one(row, "p", "mark_price");
    rename_one(row, "i", "index_price");
    rename_one(row, "P", "estimated_settle_price");
    rename_one(row, "r", "funding_rate");
    rename_one(row, "T", "next_funding_time");
    rename_one(row, "E", "event_time");
}

fn rename_one(row: &mut DataRow, short: &str, full: &str)
    requires
        old(row).wf(),
    ensures
        final(row).wf(),
        final(row)@ == spec_rename(old(row)@, short@, full@),
{
    match row.remove(short) {
        Some(v) => {
            row.insert(full.to_owned(), v);
        },
        None => {
            proof {
                assert(row@ =~= old(row)@);
            }
        },
    }
}

} // verus!
