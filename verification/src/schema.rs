//! Column schemas and type inference.
//!
//! A writer infers its schema from the first record it sees: one column
//! per field, the column type read off the value — integers by range,
//! numeric strings by what they would parse as — and columns ordered by
//! name so the schema is deterministic.

use vstd::prelude::*;
use crate::json::{DataRow, JsonItem, JsonValue};
use crate::numtext::{is_float_text, is_i64_text, is_u64_text};

verus! {

/// The logical type of one column.
#[derive(Clone, Copy, PartialEq, Eq, Structural, Debug)]
pub enum ColumnType {
    Utf8,
    Int64,
    UInt64,
    Float64,
    Boolean,
}

/// The column type a value infers to.
pub open spec fn spec_infer_type(v: JsonItem) -> ColumnType {
    match v {
        JsonItem::Bool(_) => ColumnType::Boolean,
        JsonItem::UInt(_) => ColumnType::UInt64,
        JsonItem::Int(_) => ColumnType::Int64,
        JsonItem::Num(_) => ColumnType::Float64,
        JsonItem::Str(s) => if is_u64_text(s) {
            ColumnType::UInt64
        } else if is_i64_text(s) {
            ColumnType::Int64
        } else if is_float_text(s) {
            ColumnType::Float64
        } else {
            ColumnType::Utf8
        },
        _ => ColumnType::Utf8,
    }
}

/// Lexicographic order on character sequences, as Rust orders strings.
pub open spec fn spec_str_lt(a: Seq<char>, b: Seq<char>) -> bool
    decreases a.len(),
{
    if b.len() == 0 {
        false
    } else if a.len() == 0 {
        true
    } else if a[0] != b[0] {
        a[0] < b[0]
    } else {
        spec_str_lt(a.subrange(1, a.len() as int), b.subrange(1, b.len() as int))
    }
}

/// Strict lexicographic comparison of two character vectors.
pub fn chars_lt(a: &Vec<char>, b: &Vec<char>) -> (r: bool)
    ensures
        r == spec_str_lt(a@, b@),
    decreases a@.len(),
{
    let mut i: usize = 0;
    proof {
        assert(a@.subrange(0, a@.len() as int) =~= a@);
        assert(b@.subrange(0, b@.len() as int) =~= b@);
    }
    loop
        invariant
            i <= a@.len(),
            i <= b@.len(),
            forall|j: int| 0 <= j < i ==> a@[j] == b@[j],
            spec_str_lt(a@, b@) == spec_str_lt(
                a@.subrange(i as int, a@.len() as int),
                b@.subrange(i as int, b@.len() as int),
            ),
        decreases a@.len() - i,
    {
        let ghost sa = a@.subrange(i as int, a@.len() as int);
        let ghost sb = b@.subrange(i as int, b@.len() as int);
        if i >= b.len() {
            return false;
        }
        if i >= a.len() {
            return true;
        }
        if a[i] != b[i] {
            return a[i] < b[i];
        }
        proof {
            assert(sa[0] == sb[0]);
            assert(sa.subrange(1, sa.len() as int) =~= a@.subrange(i + 1, a@.len() as int));
            assert(sb.subrange(1, sb.len() as int) =~= b@.subrange(i + 1, b@.len() as int));
        }
        i = i + 1;
    }
}

/// An inferred schema: columns in strictly ascending name order.
pub struct Schema {
    cols: Vec<(String, ColumnType)>,
}

impl View for Schema {
    type V = Seq<(Seq<char>, ColumnType)>;

    closed spec fn view(&self) -> Seq<(Seq<char>, ColumnType)> {
        self.cols@.map_values(|c: (String, ColumnType)| (c.0@, c.1))
    }
}

impl Schema {
    pub open spec fn wf(&self) -> bool {
        forall|p: int, q: int| 0 <= p < q < self@.len() ==> spec_str_lt(self@[p].0, self@[q].0)
    }

    pub fn len(&self) -> (r: usize)
        ensures
            r == self@.len(),
    {
        self.cols.len()
    }

    /// The column name at `i`.
    pub fn name_at(&self, i: usize) -> (r: &String)
        requires
            i < self@.len(),
        ensures
            r@ == self@[i as int].0,
    {
        &self.cols[i].0
    }

    /// The column type at `i`.
    pub fn type_at(&self, i: usize) -> (r: ColumnType)
        requires
            i < self@.len(),
        ensures
            r == self@[i as int].1,
    {
        self.cols[i].1
    }
}

impl Clone for Schema {
    fn clone(&self) -> (r: Self)
        ensures
            r@ == self@,
    {
        let n = self.cols.len();
        let mut cols: Vec<(String, ColumnType)> = Vec::new();
        for i in 0..n
            invariant
                n == self.cols@.len(),
                cols@.len() == i,
                forall|j: int| 0 <= j < i ==> (#[trigger] cols@[j]).0@ == self.cols@[j].0@,
                forall|j: int| 0 <= j < i ==> (#[trigger] cols@[j]).1 == self.cols@[j].1,
        {
            cols.push((self.cols[i].0.clone(), self.cols[i].1));
        }
        let r = Schema { cols };
        proof {
            assert(r@ =~= self@);
        }
        r
    }
}

/// The column type of one value.
pub fn infer_type(value: &JsonValue) -> (r: ColumnType)
    ensures
        r == spec_infer_type(value@),
{
    match value {
        JsonValue::Bool(_) => ColumnType::Boolean,
        JsonValue::UInt(_) => ColumnType::UInt64,
        JsonValue::Int(_) => ColumnType::Int64,
        JsonValue::Num(_) => ColumnType::Float64,
        JsonValue::Str(s) => {
            if crate::numtext::parse_u64(s.as_str()).is_some() {
                ColumnType::UInt64
            } else if crate::numtext::parse_i64(s.as_str()).is_some() {
                ColumnType::Int64
            } else if crate::numtext::is_float_literal(s.as_str()) {
                ColumnType::Float64
            } else {
                ColumnType::Utf8
            }
        },
        _ => ColumnType::Utf8,
    }
}

/// Infer a schema from the first record of a batch: one column per field
/// of that record, typed from its value, sorted by name.  The column count
/// equals the record's field count, so with the strict order the columns
/// are exactly the record's fields.  Fails only on an empty batch.
pub fn infer_schema_from_data(rows: &Vec<DataRow>) -> (r: Result<Schema, String>)
    requires
        forall|i: int| 0 <= i < rows@.len() ==> (#[trigger] rows@[i]).wf(),
    ensures
        r is Ok <==> rows@.len() > 0,
        r matches Ok(schema) ==> {
            &&& schema.wf()
            &&& schema@.len() == rows@[0]@.dom().len()
            &&& forall|i: int|
                0 <= i < schema@.len() ==> rows@[0]@.dom().contains(#[trigger] schema@[i].0)
                    && schema@[i].1 == spec_infer_type(rows@[0]@[schema@[i].0])
        },
{
    if rows.len() == 0 {
        return Err("cannot infer a schema from an empty batch".to_owned());
    }
    let first = &rows[0];
    let n = first.len();
    let mut cols: Vec<(String, ColumnType)> = Vec::new();
    let ghost mut perm: Seq<int> = Seq::empty();
    proof {
        first.lemma_fields_distinct();
    }
    for i in 0..n
        invariant
            n == first.spec_fields().len(),
            first.wf(),
            first == &rows@[0],
            cols@.len() == i,
            perm.len() == i,
            forall|p: int, q: int|
                0 <= p < q < first.spec_fields().len() ==> first.spec_fields()[p]
                    != first.spec_fields()[q],
            forall|p: int, q: int|
                0 <= p < q < cols@.len() ==> spec_str_lt(cols@[p].0@, cols@[q].0@),
            forall|j: int|
                0 <= j < cols@.len() ==> first@.dom().contains((#[trigger] cols@[j]).0@)
                    && cols@[j].1 == spec_infer_type(first@[cols@[j].0@]),
            forall|j: int|
                0 <= j < i ==> 0 <= #[trigger] perm[j] < i && cols@[j].0@ == first.spec_fields()[
                    perm[j]
                ],
    {
        let name = first.field_at(i).clone();
        proof {
            first.lemma_field_in_dom(i as int);
        }
        let value = match first.get(name.as_str()) {
            Some(v) => v,
            None => {
                proof {
                    assert(false);
                }
                &JsonValue::Null
            },
        };
        let ty = infer_type(value);
        let ghost before = cols@;
        proof {
            assert forall|j2: int|
                0 <= j2 < before.len() implies (#[trigger] before[j2]).0@ != name@ by {
                assert(before[j2].0@ == first.spec_fields()[perm[j2]]);
                assert(first.spec_fields()[perm[j2]] != first.spec_fields()[i as int]);
            }
        }
        let pos = insert_sorted(&mut cols, name, ty);
        proof {
            let ghost pre_perm = perm;
            perm = perm.subrange(0, pos as int) + seq![i as int] + perm.subrange(
                pos as int,
                perm.len() as int,
            );
            assert(perm.len() == i + 1);
            assert forall|j: int|
                0 <= j < i + 1 implies 0 <= #[trigger] perm[j] < i + 1 && cols@[j].0@
                == first.spec_fields()[perm[j]] by {
                if j < pos as int {
                    assert(perm[j] == pre_perm[j]);
                    assert(cols@[j] == before[j]);
                } else if j > pos as int {
                    assert(perm[j] == pre_perm[j - 1]);
                    assert(cols@[j] == before[j - 1]);
                } else {
                    assert(perm[j] == i as int);
                }
            }
        }
    }
    let schema = Schema { cols };
    proof {
        first.lemma_dom_len();
    }
    Ok(schema)
}

/// Insert a new column at its place in name order; returns the position.
#[verifier::rlimit(100)]
fn insert_sorted(cols: &mut Vec<(String, ColumnType)>, name: String, ty: ColumnType) -> (r: usize)
    requires
        forall|p: int, q: int|
            0 <= p < q < old(cols)@.len() ==> spec_str_lt(
                (#[trigger] old(cols)@[p]).0@,
                (#[trigger] old(cols)@[q]).0@,
            ),
        forall|j: int| 0 <= j < old(cols)@.len() ==> (#[trigger] old(cols)@[j]).0@ != name@,
    ensures
        r <= old(cols)@.len(),
        final(cols)@.len() == old(cols)@.len() + 1,
        (#[trigger] final(cols)@[r as int]).0@ == name@,
        final(cols)@[r as int].1 == ty,
        forall|j: int| 0 <= j < r ==> #[trigger] final(cols)@[j] == old(cols)@[j],
        forall|j: int|
            r < j < final(cols)@.len() ==> #[trigger] final(cols)@[j] == old(cols)@[j - 1],
        forall|p: int, q: int|
            0 <= p < q < final(cols)@.len() ==> spec_str_lt(
                (#[trigger] final(cols)@[p]).0@,
                (#[trigger] final(cols)@[q]).0@,
            ),
{
    let ghost before = cols@;
    let name_chars = crate::strkit::chars_of(name.as_str());
    let m = cols.len();
    let mut pos: usize = m;
    let mut scanning = true;
    for j in 0..m
        invariant
            m == before.len(),
            cols@ == before,
            name_chars@ == name@,
            pos <= m,
            scanning ==> pos == m,
            !scanning ==> pos < m && !spec_str_lt(before[pos as int].0@, name@),
            forall|j2: int|
                0 <= j2 < (if scanning {
                    j as int
                } else {
                    pos as int
                }) ==> spec_str_lt((#[trigger] before[j2]).0@, name@),
    {
        if scanning {
            let cj = crate::strkit::chars_of(cols[j].0.as_str());
            if !chars_lt(&cj, &name_chars) {
                pos = j;
                scanning = false;
            }
        }
    }
    cols.insert(pos, (name, ty));
    proof {
        let s = cols@;
        assert(s =~= before.subrange(0, pos as int).push(s[pos as int]) + before.subrange(
            pos as int,
            before.len() as int,
        ));
        assert(s[pos as int].0@ == name_chars@);
        assert forall|p: int, q: int|
            0 <= p < q < s.len() implies spec_str_lt(
            (#[trigger] s[p]).0@,
            (#[trigger] s[q]).0@,
        ) by {
            let bp = if p < pos {
                p
            } else {
                p - 1
            };
            let bq = if q < pos {
                q
            } else {
                q - 1
            };
            if p == pos as int {
                assert(s[q] == before[bq]);
                assert(!spec_str_lt(before[pos as int].0@, name@));
                assert(before[bq].0@ != name@);
                lemma_str_lt_total(name@, before[bq].0@);
                if spec_str_lt(before[bq].0@, name@) {
                    if bq > pos as int {
                        assert(spec_str_lt(before[pos as int].0@, before[bq].0@));
                        lemma_str_lt_trans(before[pos as int].0@, before[bq].0@, name@);
                    }
                    assert(false);
                }
            } else if q == pos as int {
                assert(s[p] == before[bp]);
                assert(spec_str_lt(before[bp].0@, name@));
            } else {
                assert(s[p] == before[bp]);
                assert(s[q] == before[bq]);
                assert(spec_str_lt(before[bp].0@, before[bq].0@));
            }
        }
    }
    pos
}

/// The lexicographic order is transitive.
proof fn lemma_str_lt_trans(a: Seq<char>, b: Seq<char>, c: Seq<char>)
    requires
        spec_str_lt(a, b),
        spec_str_lt(b, c),
    ensures
        spec_str_lt(a, c),
    decreases a.len(),
{
    if a.len() == 0 {
    } else {
        if a[0] == b[0] && b[0] == c[0] {
            lemma_str_lt_trans(
                a.subrange(1, a.len() as int),
                b.subrange(1, b.len() as int),
                c.subrange(1, c.len() as int),
            );
        }
    }
}

/// Two different strings are ordered one way or the other.
proof fn lemma_str_lt_total(a: Seq<char>, b: Seq<char>)
    requires
        a != b,
    ensures
        spec_str_lt(a, b) || spec_str_lt(b, a),
    decreases a.len(),
{
    if a.len() == 0 && b.len() == 0 {
        assert(a =~= b);
    } else if a.len() == 0 || b.len() == 0 {
    } else if a[0] != b[0] {
    } else {
        let a1 = a.subrange(1, a.len() as int);
        let b1 = b.subrange(1, b.len() as int);
        if a1 == b1 {
            assert(a1.len() == b1.len());
            assert(a.len() == b.len());
            assert(a =~= b) by {
                assert forall|i: int| 0 <= i < a.len() implies a[i] == b[i] by {
                    if i > 0 {
                        assert(a1[i - 1] == b1[i - 1]);
                    }
                }
            }
        }
        lemma_str_lt_total(a1, b1);
    }
}

/// Do two schemas carry the same columns with the same types?
pub fn schemas_compatible(a: &Schema, b: &Schema) -> (r: bool)
    ensures
        r == (a@ == b@),
{
    if a.len() != b.len() {
        proof {
            assert(a@ != b@);
        }
        return false;
    }
    let n = a.len();
    for i in 0..n
        invariant
            n == a@.len(),
            n == b@.len(),
            forall|j: int| 0 <= j < i ==> a@[j] == b@[j],
    {
        if !crate::strkit::str_eq(a.name_at(i).as_str(), b.name_at(i).as_str()) {
            proof {
                assert(a@[i as int].0 != b@[i as int].0);
            }
            return false;
        }
        let ta = a.type_at(i);
        let tb = b.type_at(i);
        if ta != tb {
            proof {
                assert(a@[i as int].1 != b@[i as int].1);
            }
            return false;
        }
    }
    proof {
        assert(a@ =~= b@);
    }
    true
}

} // verus!
