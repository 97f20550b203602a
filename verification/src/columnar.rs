//! The day-partitioned columnar writer.
//!
//! A writer buffers records, fixes its schema on the first batch it sees,
//! optionally filters rows, and emits one file per flush under
//! `<base>/<YYYY>/<MM>/<DD>` with the configured name cleaned to its last
//! dash segment.  Writing bytes to disk is the host program's job: a
//! flush hands back the file's path, schema and fully rendered columns.
//!
//! Filter comparisons are exact: integers by value, other numbers by
//! their decimal text, strings by content or lexicographic order.  No
//! value is rounded through binary floating point first, so `1.5` and
//! `1.50` are distinct and a non-integer number never orders against an
//! integer.

use vstd::prelude::*;
use crate::date::CivilDate;
use crate::json::{DataRow, JsonItem, JsonValue};
use crate::schema::{spec_infer_type, spec_str_lt, ColumnType, Schema};

verus! {

/// How a filter compares a record value with the configured one.
#[derive(Clone, Copy, PartialEq, Eq, Structural, Debug)]
pub enum FilterOperator {
    Eq,
    Ne,
    Gt,
    Lt,
    Gte,
    Lte,
    Contains,
}

/// One configured filter: a field, an operator and a value to compare to.
pub struct FilterCondition {
    pub field: String,
    pub operator: FilterOperator,
    pub value: JsonValue,
}

/// The integer a numeric value denotes, where it is an integer.
pub open spec fn spec_int_of(v: JsonItem) -> Option<int> {
    match v {
        JsonItem::Int(i) => Some(i as int),
        JsonItem::UInt(u) => Some(u as int),
        _ => None,
    }
}

/// Equality between a record value and a filter value: strings, booleans
/// and nulls by value, integers numerically, other numbers by their exact
/// decimal text — never after rounding through binary floating point, so
/// `1.5` and `1.50` are distinct.
pub open spec fn spec_values_equal(a: JsonItem, b: JsonItem) -> bool {
    match (a, b) {
        (JsonItem::Str(x), JsonItem::Str(y)) => x == y,
        (JsonItem::Bool(x), JsonItem::Bool(y)) => x == y,
        (JsonItem::Null, JsonItem::Null) => true,
        (JsonItem::Num(x), JsonItem::Num(y)) => x == y,
        _ => {
            if spec_int_of(a) is Some && spec_int_of(b) is Some {
                spec_int_of(a) == spec_int_of(b)
            } else {
                false
            }
        },
    }
}

/// Ordering between a record value and a filter value: integers
/// numerically, strings lexicographically; anything else — non-integer
/// numbers included — does not order.
pub open spec fn spec_value_lt(a: JsonItem, b: JsonItem) -> Option<bool> {
    if spec_int_of(a) is Some && spec_int_of(b) is Some {
        Some(spec_int_of(a).unwrap() < spec_int_of(b).unwrap())
    } else {
        match (a, b) {
            (JsonItem::Str(x), JsonItem::Str(y)) => Some(spec_str_lt(x, y)),
            _ => None,
        }
    }
}

/// Does a record satisfy one filter condition?
pub open spec fn spec_matches_condition(
    row: Map<Seq<char>, JsonItem>,
    field: Seq<char>,
    op: FilterOperator,
    value: JsonItem,
) -> bool {
    if !row.dom().contains(field) {
        false
    } else {
        let v = row[field];
        match op {
            FilterOperator::Eq => spec_values_equal(v, value),
            FilterOperator::Ne => !spec_values_equal(v, value),
            FilterOperator::Gt => spec_value_lt(value, v) == Some(true),
            FilterOperator::Lt => spec_value_lt(v, value) == Some(true),
            FilterOperator::Gte => spec_value_lt(value, v) == Some(true) || (spec_value_lt(
                v,
                value,
            ) is Some && spec_values_equal(v, value)),
            FilterOperator::Lte => spec_value_lt(v, value) == Some(true) || (spec_value_lt(
                v,
                value,
            ) is Some && spec_values_equal(v, value)),
            FilterOperator::Contains => match (v, value) {
                (JsonItem::Str(x), JsonItem::Str(y)) => crate::strkit::spec_contains(x, y),
                _ => false,
            },
        }
    }
}

fn values_equal(a: &JsonValue, b: &JsonValue) -> (r: bool)
    ensures
        r == spec_values_equal(a@, b@),
{
    match (a, b) {
        (JsonValue::Str(x), JsonValue::Str(y)) => crate::strkit::str_eq(x.as_str(), y.as_str()),
        (JsonValue::Bool(x), JsonValue::Bool(y)) => x == y,
        (JsonValue::Null, JsonValue::Null) => true,
        (JsonValue::Num(x), JsonValue::Num(y)) => crate::strkit::str_eq(x.as_str(), y.as_str()),
        (JsonValue::Int(x), JsonValue::Int(y)) => x == y,
        (JsonValue::UInt(x), JsonValue::UInt(y)) => x == y,
        (JsonValue::Int(x), JsonValue::UInt(y)) => *x >= 0 && (*x as u64) == *y,
        (JsonValue::UInt(x), JsonValue::Int(y)) => *y >= 0 && (*y as u64) == *x,
        _ => false,
    }
}

/// `Some(true)` where `a` orders strictly below `b`.
fn value_lt(a: &JsonValue, b: &JsonValue) -> (r: Option<bool>)
    ensures
        r == spec_value_lt(a@, b@),
{
    match (a, b) {
        (JsonValue::Int(x), JsonValue::Int(y)) => Some(x < y),
        (JsonValue::UInt(x), JsonValue::UInt(y)) => Some(x < y),
        (JsonValue::Int(x), JsonValue::UInt(y)) => Some(*x < 0 || (*x as u64) < *y),
        (JsonValue::UInt(x), JsonValue::Int(y)) => Some(*y >= 0 && *x < (*y as u64)),
        (JsonValue::Str(x), JsonValue::Str(y)) => {
            let xc = crate::strkit::chars_of(x.as_str());
            let yc = crate::strkit::chars_of(y.as_str());
            Some(crate::schema::chars_lt(&xc, &yc))
        },
        _ => None,
    }
}

/// Does a record satisfy one filter condition?
pub fn row_matches_condition(row: &DataRow, condition: &FilterCondition) -> (r: bool)
    requires
        row.wf(),
    ensures
        r == spec_matches_condition(row@, condition.field@, condition.operator, condition.value@),
{
    let v = match row.get(condition.field.as_str()) {
        Some(v) => v,
        None => {
            return false;
        },
    };
    match condition.operator {
        FilterOperator::Eq => values_equal(v, &condition.value),
        FilterOperator::Ne => !values_equal(v, &condition.value),
        FilterOperator::Gt => value_lt(&condition.value, v) == Some(true),
        FilterOperator::Lt => value_lt(v, &condition.value) == Some(true),
        FilterOperator::Gte => {
            value_lt(&condition.value, v) == Some(true) || (value_lt(v, &condition.value).is_some()
                && values_equal(v, &condition.value))
        },
        FilterOperator::Lte => {
            value_lt(v, &condition.value) == Some(true) || (value_lt(v, &condition.value).is_some()
                && values_equal(v, &condition.value))
        },
        FilterOperator::Contains => {
            match (v, &condition.value) {
                (JsonValue::Str(x), JsonValue::Str(y)) => crate::strkit::contains_sub(
                    x.as_str(),
                    y.as_str(),
                ),
                _ => false,
            }
        },
    }
}

/// The filters as their mathematical view.
pub open spec fn spec_filter_view(filter: Seq<FilterCondition>) -> Seq<
    (Seq<char>, FilterOperator, JsonItem),
> {
    filter.map_values(|c: FilterCondition| (c.field@, c.operator, c.value@))
}

/// Does a record pass the configured filters?  No filters admit every
/// record; otherwise matching any one condition admits it.
pub open spec fn spec_passes(
    filter: Seq<(Seq<char>, FilterOperator, JsonItem)>,
    row: Map<Seq<char>, JsonItem>,
) -> bool {
    filter.len() == 0 || exists|i: int|
        0 <= i < filter.len() && spec_matches_condition(
            row,
            (#[trigger] filter[i]).0,
            filter[i].1,
            filter[i].2,
        )
}

/// The name's last dash-separated segment, the whole name without a dash.
pub open spec fn spec_clean_name(s: Seq<char>) -> Seq<char>
    decreases s.len(),
{
    if s.len() == 0 {
        s
    } else if s.last() == '-' {
        Seq::empty()
    } else {
        spec_clean_name(s.drop_last()).push(s.last())
    }
}

/// The configured name's segment after its last dash.
pub fn clean_name(s: &str) -> (r: String)
    ensures
        r@ == spec_clean_name(s@),
{
    let cs = crate::strkit::chars_of(s);
    let n = cs.len();
    let mut cut: usize = 0;
    for i in 0..n
        invariant
            n == cs@.len(),
            cs@ == s@,
            cut <= i,
            cut == 0 || cs@[cut - 1] == '-',
            forall|j: int| cut <= j < i ==> cs@[j] != '-',
            spec_clean_name(cs@.subrange(0, i as int)) == cs@.subrange(cut as int, i as int),
    {
        proof {
            let pre = cs@.subrange(0, i as int);
            let ext = cs@.subrange(0, i + 1);
            assert(ext.drop_last() =~= pre);
            if cs@[i as int] == '-' {
            } else {
                assert(cs@.subrange(cut as int, i as int).push(cs@[i as int]) =~= cs@.subrange(
                    cut as int,
                    i + 1,
                ));
            }
        }
        if cs[i] == '-' {
            cut = i + 1;
            proof {
                assert(cs@.subrange(cut as int, i + 1) =~= Seq::<char>::empty());
            }
        }
    }
    let mut out: Vec<char> = Vec::new();
    for i in cut..n
        invariant
            n == cs@.len(),
            cs@ == s@,
            cut <= i <= n,
            out@ == cs@.subrange(cut as int, i as int),
    {
        out.push(cs[i]);
        proof {
            assert(cs@.subrange(cut as int, i as int).push(cs@[i as int]) =~= cs@.subrange(
                cut as int,
                i + 1,
            ));
        }
    }
    proof {
        assert(cs@.subrange(0, n as int) =~= s@);
        assert(out@ =~= cs@.subrange(cut as int, n as int));
    }
    crate::strkit::string_of(out)
}

/// One rendered cell, ready for a column builder.  A float cell carries
/// the decimal text whose parse (or zero, where it fails) is the value.
pub enum CellValue {
    U64(u64),
    I64(i64),
    F64Text(String),
    Flag(bool),
    Text(String),
    Null,
}

/// Mathematical view of a cell.
pub enum CellItem {
    U64(u64),
    I64(i64),
    F64Text(Seq<char>),
    Flag(bool),
    Text(Seq<char>),
    Null,
}

impl View for CellValue {
    type V = CellItem;

    open spec fn view(&self) -> CellItem {
        match self {
            CellValue::U64(u) => CellItem::U64(*u),
            CellValue::I64(i) => CellItem::I64(*i),
            CellValue::F64Text(s) => CellItem::F64Text(s@),
            CellValue::Flag(b) => CellItem::Flag(*b),
            CellValue::Text(s) => CellItem::Text(s@),
            CellValue::Null => CellItem::Null,
        }
    }
}

/// What one record contributes to a column: the value coerced to the
/// column's type, numeric strings parsed and parse failures substituting
/// the type's zero.
pub open spec fn spec_cell(ty: ColumnType, v: Option<JsonItem>) -> CellItem {
    match v {
        None => CellItem::Null,
        Some(item) => match ty {
            ColumnType::Utf8 => match item {
                JsonItem::Str(s) => CellItem::Text(s),
                JsonItem::UInt(u) => CellItem::Text(crate::numtext::spec_u64_digits(u as nat)),
                JsonItem::Int(i) => CellItem::Text(crate::numtext::spec_i64_digits(i as int)),
                JsonItem::Num(t) => CellItem::Text(t),
                JsonItem::Bool(b) => CellItem::Text(
                    if b {
                        "true"@
                    } else {
                        "false"@
                    },
                ),
                JsonItem::Raw(t) => CellItem::Text(t),
                JsonItem::Null => CellItem::Null,
            },
            ColumnType::UInt64 => CellItem::U64(
                match item {
                    JsonItem::UInt(u) => u,
                    JsonItem::Int(i) => if i >= 0 {
                        i as u64
                    } else {
                        0
                    },
                    JsonItem::Str(s) => if crate::numtext::is_u64_text(s) {
                        crate::numtext::digits_value(crate::numtext::strip_plus(s)) as u64
                    } else {
                        0
                    },
                    _ => 0,
                },
            ),
            ColumnType::Int64 => CellItem::I64(
                match item {
                    JsonItem::Int(i) => i,
                    JsonItem::UInt(u) => if u <= i64::MAX as u64 {
                        u as i64
                    } else {
                        0
                    },
                    JsonItem::Str(s) => if crate::numtext::is_i64_text(s) {
                        crate::numtext::signed_value(s) as i64
                    } else {
                        0
                    },
                    _ => 0,
                },
            ),
            ColumnType::Float64 => match item {
                JsonItem::UInt(u) => CellItem::F64Text(crate::numtext::spec_u64_digits(u as nat)),
                JsonItem::Int(i) => CellItem::F64Text(crate::numtext::spec_i64_digits(i as int)),
                JsonItem::Num(t) => CellItem::F64Text(t),
                JsonItem::Str(s) => CellItem::F64Text(s),
                _ => CellItem::F64Text(seq!['0']),
            },
            ColumnType::Boolean => CellItem::Flag(
                match item {
                    JsonItem::Bool(b) => b,
                    JsonItem::Str(s) => s == "true"@,
                    _ => false,
                },
            ),
        },
    }
}

/// Render one record's contribution to a column.
pub fn render_cell(ty: ColumnType, v: Option<&JsonValue>) -> (r: CellValue)
    ensures
        r@ == spec_cell(
            ty,
            match v {
                Some(value) => Some(value@),
                None => None,
            },
        ),
{
    let value = match v {
        Some(value) => value,
        None => {
            return CellValue::Null;
        },
    };
    match ty {
        ColumnType::Utf8 => match value {
            JsonValue::Str(s) => CellValue::Text(s.clone()),
            JsonValue::UInt(u) => CellValue::Text(crate::numtext::u64_string(*u)),
            JsonValue::Int(i) => CellValue::Text(crate::numtext::i64_string(*i)),
            JsonValue::Num(t) => CellValue::Text(t.clone()),
            JsonValue::Bool(b) => {
                if *b {
                    proof {
                        reveal_strlit("true");
                    }
                    CellValue::Text("true".to_owned())
                } else {
                    proof {
                        reveal_strlit("false");
                    }
                    CellValue::Text("false".to_owned())
                }
            },
            JsonValue::Raw(t) => CellValue::Text(t.clone()),
            JsonValue::Null => CellValue::Null,
        },
        ColumnType::UInt64 => CellValue::U64(
            match value {
                JsonValue::UInt(u) => *u,
                JsonValue::Int(i) => if *i >= 0 {
                    *i as u64
                } else {
                    0
                },
                JsonValue::Str(s) => match crate::numtext::parse_u64(s.as_str()) {
                    Some(u) => u,
                    None => 0,
                },
                _ => 0,
            },
        ),
        ColumnType::Int64 => CellValue::I64(
            match value {
                JsonValue::Int(i) => *i,
                JsonValue::UInt(u) => if *u <= 9223372036854775807u64 {
                    *u as i64
                } else {
                    0
                },
                JsonValue::Str(s) => match crate::numtext::parse_i64(s.as_str()) {
                    Some(i) => i,
                    None => 0,
                },
                _ => 0,
            },
        ),
        ColumnType::Float64 => match value {
            JsonValue::UInt(u) => CellValue::F64Text(crate::numtext::u64_string(*u)),
            JsonValue::Int(i) => CellValue::F64Text(crate::numtext::i64_string(*i)),
            JsonValue::Num(t) => CellValue::F64Text(t.clone()),
            JsonValue::Str(s) => CellValue::F64Text(s.clone()),
            _ => {
                proof {
                    reveal_strlit("0");
                    assert("0"@ =~= seq!['0']);
                }
                CellValue::F64Text("0".to_owned())
            },
        },
        ColumnType::Boolean => CellValue::Flag(
            match value {
                JsonValue::Bool(b) => *b,
                JsonValue::Str(s) => crate::strkit::str_eq(s.as_str(), "true"),
                _ => false,
            },
        ),
    }
}

/// Render a whole record against a schema, one cell per column.
pub fn render_row(schema: &Schema, row: &DataRow) -> (r: Vec<CellValue>)
    requires
        row.wf(),
    ensures
        r@.len() == schema@.len(),
        forall|c: int|
            0 <= c < r@.len() ==> (#[trigger] r@[c])@ == spec_cell(
                schema@[c].1,
                if row@.dom().contains(schema@[c].0) {
                    Some(row@[schema@[c].0])
                } else {
                    None
                },
            ),
{
    let n = schema.len();
    let mut out: Vec<CellValue> = Vec::new();
    for c in 0..n
        invariant
            n == schema@.len(),
            row.wf(),
            out@.len() == c,
            forall|j: int|
                0 <= j < c ==> (#[trigger] out@[j])@ == spec_cell(
                    schema@[j].1,
                    if row@.dom().contains(schema@[j].0) {
                        Some(row@[schema@[j].0])
                    } else {
                        None
                    },
                ),
    {
        let name = schema.name_at(c);
        let ty = schema.type_at(c);
        let cell = render_cell(ty, row.get(name.as_str()));
        out.push(cell);
    }
    out
}

/// The records of a batch that pass the filters, in order.
pub open spec fn spec_filtered(
    filter: Seq<(Seq<char>, FilterOperator, JsonItem)>,
    rows: Seq<Map<Seq<char>, JsonItem>>,
) -> Seq<Map<Seq<char>, JsonItem>>
    decreases rows.len(),
{
    if rows.len() == 0 {
        Seq::empty()
    } else {
        let rest = spec_filtered(filter, rows.drop_last());
        if spec_passes(filter, rows.last()) {
            rest.push(rows.last())
        } else {
            rest
        }
    }
}

/// Does a batch arriving `today` belong to a different day than the one
/// buffered?
pub open spec fn spec_new_day(current: Option<CivilDate>, today: CivilDate) -> bool {
    match current {
        Some(d) => d != today,
        None => false,
    }
}

/// The file holds exactly these records: one cell per record and column,
/// each the record's value coerced to the column's type.
pub open spec fn spec_file_holds(emit: FileEmit, rows: Seq<Map<Seq<char>, JsonItem>>) -> bool {
    &&& emit.columns@.len() == emit.schema@.len()
    &&& (forall|c: int|
        0 <= c < emit.columns@.len() ==> (#[trigger] emit.columns@[c])@.len() == rows.len())
    &&& (forall|c: int, w: int|
        0 <= c < emit.columns@.len() && 0 <= w < rows.len() ==> (#[trigger] emit.columns@[c]@[w])@
            == spec_cell(
            emit.schema@[c].1,
            if rows[w].dom().contains(emit.schema@[c].0) {
                Some(rows[w][emit.schema@[c].0])
            } else {
                None
            },
        ))
}

/// How a writer is set up.
pub struct ParquetWriterConfig {
    pub path: String,
    pub name: String,
    pub batch_size: usize,
    pub has_batch_config: bool,
    pub filter: Vec<FilterCondition>,
    pub date: Option<CivilDate>,
    pub use_temp_dir: bool,
}

/// One flushed file: where it goes and what it holds, column by column.
pub struct FileEmit {
    pub path: String,
    pub schema: Schema,
    pub columns: Vec<Vec<CellValue>>,
}

/// The buffering writer.  It fixes its schema on the first batch, filters
/// and buffers records, and on each flush hands one file back for the
/// host program to serialize.
pub struct ParquetWriter {
    config: ParquetWriterConfig,
    current_date: Option<CivilDate>,
    schema: Option<Schema>,
    buffer: Vec<DataRow>,
    file_sequence: u64,
}

/// The file name and path one flush writes: the cleaned name, a six-digit
/// sequence number in batch mode, the date, under the day directory.
pub open spec fn spec_unique_path(
    base: Seq<char>,
    name: Seq<char>,
    has_batch: bool,
    seqno: nat,
    date: CivilDate,
) -> Seq<char> {
    let stem = crate::config::spec_day_dir(base, date) + seq!['/'] + spec_clean_name(name);
    let numbered = if has_batch {
        stem + seq!['_'] + crate::numtext::spec_padded(seqno, 6)
    } else {
        stem
    };
    numbered + seq!['_'] + date.spec_ymd() + ".parquet"@
}

impl ParquetWriter {
    /// The schema, once one is fixed.
    pub closed spec fn spec_schema(&self) -> Option<Seq<(Seq<char>, ColumnType)>> {
        match self.schema {
            Some(s) => Some(s@),
            None => None,
        }
    }

    /// The buffered records.
    pub closed spec fn spec_buffer(&self) -> Seq<Map<Seq<char>, JsonItem>> {
        self.buffer@.map_values(|r: DataRow| r@)
    }

    /// How many files this writer has numbered.
    pub closed spec fn spec_sequence(&self) -> u64 {
        self.file_sequence
    }

    /// The day currently buffered for.
    pub closed spec fn spec_current_date(&self) -> Option<CivilDate> {
        self.current_date
    }

    /// The configured base path.
    pub closed spec fn spec_path(&self) -> Seq<char> {
        self.config.path@
    }

    /// The configured file name.
    pub closed spec fn spec_name(&self) -> Seq<char> {
        self.config.name@
    }

    /// The configured batch size.
    pub closed spec fn spec_batch_size(&self) -> usize {
        self.config.batch_size
    }

    /// Whether file names carry a sequence number.
    pub closed spec fn spec_has_batch(&self) -> bool {
        self.config.has_batch_config
    }

    /// The configured filters, as their views.
    pub closed spec fn spec_filters(&self) -> Seq<(Seq<char>, FilterOperator, JsonItem)> {
        spec_filter_view(self.config.filter@)
    }

    pub closed spec fn wf(&self) -> bool {
        &&& (match self.schema {
            Some(s) => s.wf(),
            None => true,
        })
        &&& forall|i: int| 0 <= i < self.buffer@.len() ==> (#[trigger] self.buffer@[i]).wf()
        &&& (self.buffer@.len() > 0 ==> self.schema is Some && self.current_date is Some)
        &&& (match self.current_date {
            Some(d) => d.valid(),
            None => true,
        })
        &&& (match self.config.date {
            Some(d) => d.valid(),
            None => true,
        })
    }

    /// A fresh writer: no schema, no buffered records, sequence zero.
    pub fn new(config: ParquetWriterConfig) -> (r: Self)
        requires
            match config.date {
                Some(d) => d.valid(),
                None => true,
            },
        ensures
            r.wf(),
            r.spec_schema() is None,
            r.spec_buffer() == Seq::<Map<Seq<char>, JsonItem>>::empty(),
            r.spec_sequence() == 0,
            r.spec_current_date() is None,
            r.spec_path() == config.path@,
            r.spec_name() == config.name@,
            r.spec_batch_size() == config.batch_size,
            r.spec_has_batch() == config.has_batch_config,
            r.spec_filters() == spec_filter_view(config.filter@),
    {
        let r = ParquetWriter {
            config,
            current_date: None,
            schema: None,
            buffer: Vec::new(),
            file_sequence: 0,
        };
        proof {
            assert(r.spec_buffer() =~= Seq::<Map<Seq<char>, JsonItem>>::empty());
        }
        r
    }

    /// Infer the type of one value (the rule the schema inference uses).
    pub fn infer_type(value: &JsonValue) -> (r: ColumnType)
        ensures
            r == spec_infer_type(value@),
    {
        crate::schema::infer_type(value)
    }

    /// Infer a schema from a batch's first record.
    pub fn infer_schema_from_data(rows: &Vec<DataRow>) -> (r: Result<Schema, String>)
        requires
            forall|i: int| 0 <= i < rows@.len() ==> (#[trigger] rows@[i]).wf(),
        ensures
            r is Ok <==> rows@.len() > 0,
            r matches Ok(schema) ==> {
                &&& schema.wf()
                &&& schema@.len() == rows@[0]@.dom().len()
                &&& forall|i: int|
                    0 <= i < schema@.len() ==> rows@[0]@.dom().contains(#[trigger] schema@[i].0)
                        && schema@[i].1 == spec_infer_type(rows@[0]@[schema@[i].0])
            },
    {
        crate::schema::infer_schema_from_data(rows)
    }

    /// Does a record pass this writer's filters?
    pub fn apply_filters(&self, row: &DataRow) -> (r: bool)
        requires
            row.wf(),
        ensures
            r == spec_passes(self.spec_filters(), row@),
    {
        let n = self.config.filter.len();
        if n == 0 {
            return true;
        }
        let ghost fv = self.spec_filters();
        for i in 0..n
            invariant
                n == self.config.filter@.len(),
                fv == spec_filter_view(self.config.filter@),
                row.wf(),
                forall|j: int|
                    0 <= j < i ==> !spec_matches_condition(
                        row@,
                        (#[trigger] fv[j]).0,
                        fv[j].1,
                        fv[j].2,
                    ),
        {
            if row_matches_condition(row, &self.config.filter[i]) {
                proof {
                    assert(spec_matches_condition(row@, fv[i as int].0, fv[i as int].1, fv[
                        i as int
                    ].2));
                }
                return true;
            }
        }
        false
    }

    /// The day directory this writer files a date under.
    pub fn get_parquet_dir(&self, date: &CivilDate) -> (r: String)
        ensures
            r@ == crate::config::spec_day_dir(self.spec_path(), *date),
    {
        crate::config::day_dir(self.config.path.as_str(), date)
    }

    /// The next file's full path; numbering advances in batch mode.
    pub fn get_unique_parquet_path(&mut self, date: &CivilDate) -> (r: String)
        requires
            old(self).wf(),
            old(self).spec_sequence() < u64::MAX,
        ensures
            final(self).wf(),
            final(self).spec_sequence() as int == if old(self).spec_has_batch() {
                old(self).spec_sequence() as int + 1
            } else {
                old(self).spec_sequence() as int
            },
            final(self).spec_schema() == old(self).spec_schema(),
            final(self).spec_buffer() == old(self).spec_buffer(),
            final(self).spec_current_date() == old(self).spec_current_date(),
            final(self).spec_has_batch() == old(self).spec_has_batch(),
            final(self).spec_path() == old(self).spec_path(),
            final(self).spec_name() == old(self).spec_name(),
            final(self).spec_batch_size() == old(self).spec_batch_size(),
            final(self).spec_filters() == old(self).spec_filters(),
            r@ == spec_unique_path(
                old(self).spec_path(),
                old(self).spec_name(),
                old(self).spec_has_batch(),
                final(self).spec_sequence() as nat,
                *date,
            ),
    {
        proof {
            reveal_strlit("/");
            reveal_strlit("_");
            reveal_strlit(".parquet");
            assert("/"@ =~= seq!['/']);
            assert("_"@ =~= seq!['_']);
        }
        let dir = self.get_parquet_dir(date);
        let cleaned = clean_name(self.config.name.as_str());
        let a = crate::strkit::concat_str(dir.as_str(), "/");
        let stem = crate::strkit::concat_str(a.as_str(), cleaned.as_str());
        let numbered: String = if self.config.has_batch_config {
            self.file_sequence = self.file_sequence + 1;
            let b = crate::strkit::concat_str(stem.as_str(), "_");
            let padded = crate::strkit::string_of(
                crate::numtext::padded_u64_chars(self.file_sequence, 6),
            );
            crate::strkit::concat_str(b.as_str(), padded.as_str())
        } else {
            stem
        };
        let c = crate::strkit::concat_str(numbered.as_str(), "_");
        let ymd = date.format_ymd();
        let d = crate::strkit::concat_str(c.as_str(), ymd.as_str());
        let r = crate::strkit::concat_str(d.as_str(), ".parquet");
        proof {
            assert(r@ =~= spec_unique_path(
                self.config.path@,
                self.config.name@,
                self.config.has_batch_config,
                self.file_sequence as nat,
                *date,
            ));
        }
        r
    }

    /// Flush the buffer into one file.
    ///
    /// Nothing happens on an empty buffer (or with no schema yet); else
    /// the file's path follows the writer's naming, its schema is the
    /// writer's, and its columns hold every buffered record's cells in
    /// order.  The buffer empties; the schema never changes.
    pub fn flush_buffer(&mut self) -> (r: Result<Option<FileEmit>, String>)
        requires
            old(self).wf(),
            old(self).spec_sequence() < u64::MAX,
        ensures
            final(self).wf(),
            r is Ok,
            final(self).spec_schema() == old(self).spec_schema(),
            final(self).spec_buffer() == Seq::<Map<Seq<char>, JsonItem>>::empty(),
            final(self).spec_current_date() == old(self).spec_current_date(),
            final(self).spec_sequence() as int == old(self).spec_sequence() as int + (
            if old(self).spec_buffer().len() > 0 && old(self).spec_has_batch() {
                1int
            } else {
                0int
            }),
            final(self).spec_has_batch() == old(self).spec_has_batch(),
            final(self).spec_path() == old(self).spec_path(),
            final(self).spec_name() == old(self).spec_name(),
            final(self).spec_batch_size() == old(self).spec_batch_size(),
            final(self).spec_filters() == old(self).spec_filters(),
            (r matches Ok(Some(emit)) <==> old(self).spec_buffer().len() > 0),
            r matches Ok(Some(emit)) ==> {
                &&& Some(emit.schema@) == old(self).spec_schema()
                &&& emit.path@ == spec_unique_path(
                    old(self).spec_path(),
                    old(self).spec_name(),
                    old(self).spec_has_batch(),
                    final(self).spec_sequence() as nat,
                    old(self).spec_current_date().unwrap(),
                )
                &&& spec_file_holds(emit, old(self).spec_buffer())
            },
    {
        if self.buffer.len() == 0 {
            proof {
                assert(self.spec_buffer() =~= Seq::<Map<Seq<char>, JsonItem>>::empty());
            }
            return Ok(None);
        }
        let date = match self.current_date {
            Some(d) => d,
            None => {
                proof {
                    assert(false);
                }
                return Err("no current date".to_owned());
            },
        };
        let schema = match &self.schema {
            Some(s) => s.clone(),
            None => {
                proof {
                    assert(false);
                }
                return Err("no schema".to_owned());
            },
        };
        let path = self.get_unique_parquet_path(&date);
        let ghost bufv = self.spec_buffer();
        let ncols = schema.len();
        let nrows = self.buffer.len();
        let mut columns: Vec<Vec<CellValue>> = Vec::new();
        for c in 0..ncols
            invariant
                ncols == schema@.len(),
                nrows == self.buffer@.len(),
                bufv == self.spec_buffer(),
                self.wf(),
                Some(schema@) == self.spec_schema(),
                columns@.len() == c,
                forall|j: int| 0 <= j < c ==> (#[trigger] columns@[j])@.len() == nrows,
                forall|j: int, w: int|
                    0 <= j < c && 0 <= w < nrows ==> (#[trigger] columns@[j]@[w])@ == spec_cell(
                        schema@[j].1,
                        if bufv[w].dom().contains(schema@[j].0) {
                            Some(bufv[w][schema@[j].0])
                        } else {
                            None
                        },
                    ),
        {
            let name = schema.name_at(c).clone();
            let ty = schema.type_at(c);
            let mut col: Vec<CellValue> = Vec::new();
            for w in 0..nrows
                invariant
                    nrows == self.buffer@.len(),
                    bufv == self.spec_buffer(),
                    self.wf(),
                    c < schema@.len(),
                    name@ == schema@[c as int].0,
                    ty == schema@[c as int].1,
                    col@.len() == w,
                    forall|v: int|
                        0 <= v < w ==> (#[trigger] col@[v])@ == spec_cell(
                            schema@[c as int].1,
                            if bufv[v].dom().contains(schema@[c as int].0) {
                                Some(bufv[v][schema@[c as int].0])
                            } else {
                                None
                            },
                        ),
            {
                let cell = render_cell(ty, self.buffer[w].get(name.as_str()));
                proof {
                    assert(bufv[w as int] == self.buffer@[w as int]@);
                }
                col.push(cell);
            }
            columns.push(col);
        }
        self.buffer = Vec::new();
        proof {
            assert(self.spec_buffer() =~= Seq::<Map<Seq<char>, JsonItem>>::empty());
        }
        Ok(Some(FileEmit { path, schema, columns }))
    }

    /// Take one batch of records.
    ///
    /// The first batch fixes the schema, and it never changes afterwards
    /// — the schema-fixpoint rule; every flushed file carries it.  A new
    /// day flushes the old buffer first; records failing the filters are
    /// dropped, survivors are appended to the buffer in order, and the
    /// buffer flushes into one file once it reaches the batch size.  The
    /// files returned hold exactly the flushed records.
    pub fn write_rows(&mut self, rows: Vec<DataRow>, today: CivilDate) -> (r: Result<
        Vec<FileEmit>,
        String,
    >)
        requires
            old(self).wf(),
            today.valid(),
            old(self).spec_sequence() + 2 < u64::MAX,
            forall|i: int| 0 <= i < rows@.len() ==> (#[trigger] rows@[i]).wf(),
        ensures
            final(self).wf(),
            r is Ok,
            final(self).spec_path() == old(self).spec_path(),
            final(self).spec_name() == old(self).spec_name(),
            final(self).spec_has_batch() == old(self).spec_has_batch(),
            final(self).spec_batch_size() == old(self).spec_batch_size(),
            final(self).spec_filters() == old(self).spec_filters(),
            old(self).spec_schema() is Some ==> final(self).spec_schema() == old(
                self,
            ).spec_schema(),
            rows@.len() > 0 ==> final(self).spec_schema() is Some,
            (old(self).spec_schema() is None && rows@.len() > 0) ==> {
                let s = final(self).spec_schema().unwrap();
                &&& s.len() == rows@[0]@.dom().len()
                &&& (forall|i: int|
                    0 <= i < s.len() ==> rows@[0]@.dom().contains(#[trigger] s[i].0) && s[i].1
                        == spec_infer_type(rows@[0]@[s[i].0]))
                &&& (forall|p: int, q: int| 0 <= p < q < s.len() ==> spec_str_lt(s[p].0, s[q].0))
            },
            r matches Ok(emits) ==> forall|e: int|
                0 <= e < emits@.len() ==> Some((#[trigger] emits@[e]).schema@)
                    == final(self).spec_schema(),
            rows@.len() == 0 ==> {
                &&& final(self).spec_schema() == old(self).spec_schema()
                &&& final(self).spec_buffer() == old(self).spec_buffer()
                &&& final(self).spec_current_date() == old(self).spec_current_date()
                &&& final(self).spec_sequence() == old(self).spec_sequence()
                &&& (r matches Ok(emits) && emits@.len() == 0)
            },
            rows@.len() > 0 ==> {
                let fv = old(self).spec_filters();
                let maps = rows@.map_values(|row: DataRow| row@);
                let day_flush = spec_new_day(old(self).spec_current_date(), today);
                let base = if day_flush {
                    Seq::<Map<Seq<char>, JsonItem>>::empty()
                } else {
                    old(self).spec_buffer()
                };
                let combined = base + spec_filtered(fv, maps);
                let end_flush = combined.len() >= old(self).spec_batch_size();
                let kept = spec_filtered(fv, maps).len() > 0;
                let day_date = old(self).spec_current_date();
                &&& final(self).spec_buffer() == (if end_flush {
                    Seq::<Map<Seq<char>, JsonItem>>::empty()
                } else {
                    combined
                })
                &&& final(self).spec_current_date() == (if kept {
                    Some(today)
                } else {
                    old(self).spec_current_date()
                })
                &&& (r matches Ok(emits) ==> {
                    &&& emits@.len() == (if day_flush && old(self).spec_buffer().len() > 0 {
                        1int
                    } else {
                        0int
                    }) + (if end_flush && combined.len() > 0 {
                        1int
                    } else {
                        0int
                    })
                    &&& final(self).spec_sequence() as int == old(self).spec_sequence() as int + (
                    if old(self).spec_has_batch() {
                        emits@.len() as int
                    } else {
                        0int
                    })
                    &&& (day_flush && old(self).spec_buffer().len() > 0 ==> spec_file_holds(
                        emits@[0],
                        old(self).spec_buffer(),
                    ) && Some(emits@[0].schema@) == old(self).spec_schema() && emits@[0].path@
                        == spec_unique_path(
                        old(self).spec_path(),
                        old(self).spec_name(),
                        old(self).spec_has_batch(),
                        (old(self).spec_sequence() + (if old(self).spec_has_batch() {
                            1int
                        } else {
                            0int
                        })) as nat,
                        day_date.unwrap(),
                    ))
                    &&& (end_flush && combined.len() > 0 ==> spec_file_holds(
                        emits@[emits@.len() - 1],
                        combined,
                    ) && emits@[emits@.len() - 1].path@ == spec_unique_path(
                        old(self).spec_path(),
                        old(self).spec_name(),
                        old(self).spec_has_batch(),
                        final(self).spec_sequence() as nat,
                        (if kept {
                            today
                        } else {
                            old(self).spec_current_date().unwrap()
                        }),
                    ))
                })
            },
    {
        if rows.len() == 0 {
            return Ok(Vec::new());
        }
        let ghost fv = self.spec_filters();
        let ghost maps = rows@.map_values(|row: DataRow| row@);
        let mut emits: Vec<FileEmit> = Vec::new();
        if self.schema.is_none() {
            match crate::schema::infer_schema_from_data(&rows) {
                Ok(s) => {
                    self.schema = Some(s);
                },
                Err(_) => {
                    proof {
                        assert(false);
                    }
                    return Ok(Vec::new());
                },
            }
        }
        let must_flush_day = match self.current_date {
            Some(d) => !(d == today),
            None => false,
        };
        proof {
            assert(must_flush_day == spec_new_day(old(self).spec_current_date(), today));
        }
        if must_flush_day {
            match self.flush_buffer() {
                Ok(Some(emit)) => {
                    emits.push(emit);
                },
                Ok(None) => {},
                Err(e) => {
                    proof {
                        assert(false);
                    }
                    return Err(e);
                },
            }
        }
        let ghost base = if must_flush_day {
            Seq::<Map<Seq<char>, JsonItem>>::empty()
        } else {
            old(self).spec_buffer()
        };
        let ghost date0 = self.spec_current_date();
        let ghost seq1 = self.spec_sequence();
        proof {
            assert(self.spec_buffer() =~= base);
            assert(maps.subrange(0, 0) =~= Seq::<Map<Seq<char>, JsonItem>>::empty());
            assert(self.spec_buffer() =~= base + spec_filtered(fv, maps.subrange(0, 0)));
        }
        let n = rows.len();
        let mut i: usize = 0;
        let ghost schema_now = self.spec_schema();
        while i < n
            invariant
                n == rows@.len(),
                i <= n,
                today.valid(),
                self.wf(),
                self.spec_schema() == schema_now,
                schema_now is Some,
                maps == rows@.map_values(|row: DataRow| row@),
                fv == self.spec_filters(),
                self.spec_sequence() == seq1,
                seq1 < u64::MAX,
                self.spec_path() == old(self).spec_path(),
                self.spec_name() == old(self).spec_name(),
                self.spec_has_batch() == old(self).spec_has_batch(),
                self.spec_batch_size() == old(self).spec_batch_size(),
                self.spec_buffer() == base + spec_filtered(fv, maps.subrange(0, i as int)),
                self.spec_current_date() == (if spec_filtered(fv, maps.subrange(0, i as int)).len()
                    > 0 {
                    Some(today)
                } else {
                    date0
                }),
                forall|j: int| 0 <= j < rows@.len() ==> (#[trigger] rows@[j]).wf(),
                forall|e: int|
                    0 <= e < emits@.len() ==> Some((#[trigger] emits@[e]).schema@) == schema_now,
            decreases n - i,
        {
            let ghost pre_buf = self.spec_buffer();
            let ghost pre_filtered = spec_filtered(fv, maps.subrange(0, i as int));
            let row = rows[i].clone();
            proof {
                assert(row@ == maps[i as int]);
                assert(maps.subrange(0, i + 1).drop_last() =~= maps.subrange(0, i as int));
                assert(maps.subrange(0, i + 1).last() == maps[i as int]);
            }
            if self.apply_filters(&row) {
                let ghost b = self.buffer@;
                self.buffer.push(row);
                self.current_date = Some(today);
                proof {
                    assert(self.spec_buffer() =~= pre_buf.push(maps[i as int]));
                    assert(spec_filtered(fv, maps.subrange(0, i + 1)) == pre_filtered.push(
                        maps[i as int],
                    ));
                    assert(self.spec_buffer() =~= base + spec_filtered(
                        fv,
                        maps.subrange(0, i + 1),
                    ));
                }
            } else {
                proof {
                    assert(spec_filtered(fv, maps.subrange(0, i + 1)) == pre_filtered);
                }
            }
            i = i + 1;
        }
        proof {
            assert(maps.subrange(0, n as int) =~= maps);
        }
        let ghost combined = base + spec_filtered(fv, maps);
        proof {
            assert(self.spec_buffer() == combined);
        }
        if self.buffer.len() >= self.config.batch_size {
            match self.flush_buffer() {
                Ok(Some(emit)) => {
                    emits.push(emit);
                },
                Ok(None) => {},
                Err(e) => {
                    proof {
                        assert(false);
                    }
                    return Err(e);
                },
            }
        }
        Ok(emits)
    }
}

} // verus!
