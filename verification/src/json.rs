//! Schemaless record values.
//!
//! Raw market-data records are JSON objects.  The library models a parsed
//! value with [`JsonValue`]: integers keep their machine representation,
//! any other number keeps its decimal text, and nested arrays or objects
//! keep their serialized text, which is all the pipeline ever reads of them.
//! A [`DataRow`] is one record: an association list from field names to
//! values whose mathematical view is a `Map<Seq<char>, JsonItem>`.

use vstd::prelude::*;

verus! {

/// Mathematical model of a [`JsonValue`]: strings become `Seq<char>`.
pub enum JsonItem {
    Null,
    Bool(bool),
    Int(i64),
    UInt(u64),
    Num(Seq<char>),
    Str(Seq<char>),
    Raw(Seq<char>),
}

/// One parsed JSON value as the pipeline sees it.
///
/// Numbers representable as `u64` become `UInt`, other integers in `i64`
/// range become `Int`, and any remaining number keeps its decimal rendering
/// in `Num`.  Arrays and objects keep their compact serialization in `Raw`.
pub enum JsonValue {
    Null,
    Bool(bool),
    Int(i64),
    UInt(u64),
    Num(String),
    Str(String),
    Raw(String),
}

impl View for JsonValue {
    type V = JsonItem;

    open spec fn view(&self) -> JsonItem {
        match self {
            JsonValue::Null => JsonItem::Null,
            JsonValue::Bool(b) => JsonItem::Bool(*b),
            JsonValue::Int(i) => JsonItem::Int(*i),
            JsonValue::UInt(u) => JsonItem::UInt(*u),
            JsonValue::Num(s) => JsonItem::Num(s@),
            JsonValue::Str(s) => JsonItem::Str(s@),
            JsonValue::Raw(s) => JsonItem::Raw(s@),
        }
    }
}

impl Clone for JsonValue {
    fn clone(&self) -> (r: Self)
        ensures
            r@ == self@,
    {
        match self {
            JsonValue::Null => JsonValue::Null,
            JsonValue::Bool(b) => JsonValue::Bool(*b),
            JsonValue::Int(i) => JsonValue::Int(*i),
            JsonValue::UInt(u) => JsonValue::UInt(*u),
            JsonValue::Num(s) => JsonValue::Num(s.clone()),
            JsonValue::Str(s) => JsonValue::Str(s.clone()),
            JsonValue::Raw(s) => JsonValue::Raw(s.clone()),
        }
    }
}

/// The map that a sequence of `(name, value)` pairs denotes; a repeated
/// name keeps its last occurrence, though well-formed rows never repeat one.
pub open spec fn pairs_map(s: Seq<(String, JsonValue)>) -> Map<Seq<char>, JsonItem>
    decreases s.len(),
{
    if s.len() == 0 {
        Map::empty()
    } else {
        pairs_map(s.drop_last()).insert(s.last().0@, s.last().1@)
    }
}

/// One record: field name to value, names unique.
pub struct DataRow {
    pairs: Vec<(String, JsonValue)>,
}

impl View for DataRow {
    type V = Map<Seq<char>, JsonItem>;

    closed spec fn view(&self) -> Map<Seq<char>, JsonItem> {
        pairs_map(self.pairs@)
    }
}

/// Every key of `s` left of the last pair, as a set-like predicate.
pub open spec fn pairs_have_key(s: Seq<(String, JsonValue)>, k: Seq<char>) -> bool {
    exists|i: int| 0 <= i < s.len() && s[i].0@ == k
}

proof fn lemma_pairs_map_dom(s: Seq<(String, JsonValue)>, k: Seq<char>)
    ensures
        pairs_map(s).dom().contains(k) <==> pairs_have_key(s, k),
    decreases s.len(),
{
    if s.len() > 0 {
        lemma_pairs_map_dom(s.drop_last(), k);
        if pairs_have_key(s, k) {
            let i = choose|i: int| 0 <= i < s.len() && s[i].0@ == k;
            if i < s.len() - 1 {
                assert(s.drop_last()[i].0@ == k);
            }
        }
        if pairs_have_key(s.drop_last(), k) {
            let i = choose|i: int| 0 <= i < s.drop_last().len() && s.drop_last()[i].0@ == k;
            assert(s[i].0@ == k);
        }
    }
}

/// Looking a key up in `pairs_map` finds the pair that carries it,
/// provided keys are unique.
proof fn lemma_pairs_map_at(s: Seq<(String, JsonValue)>, i: int)
    requires
        forall|p: int, q: int|
            0 <= p < q < s.len() ==> s[p].0@ != s[q].0@,
        0 <= i < s.len(),
    ensures
        pairs_map(s).dom().contains(s[i].0@),
        pairs_map(s)[s[i].0@] == s[i].1@,
    decreases s.len(),
{
    if i == s.len() - 1 {
        lemma_pairs_map_dom(s, s[i].0@);
    } else {
        lemma_pairs_map_at(s.drop_last(), i);
        assert(s.drop_last()[i] == s[i]);
        assert(s.last().0@ != s[i].0@);
    }
}

impl DataRow {
    /// Names are unique, so the association list denotes its map faithfully.
    pub closed spec fn wf(&self) -> bool {
        forall|p: int, q: int|
            0 <= p < q < self.pairs@.len() ==> self.pairs@[p].0@ != self.pairs@[q].0@
    }

    /// The field names in storage order (used where a caller must walk the row).
    pub closed spec fn spec_fields(&self) -> Seq<Seq<char>> {
        self.pairs@.map_values(|p: (String, JsonValue)| p.0@)
    }

    pub fn new() -> (r: Self)
        ensures
            r.wf(),
            r@ == Map::<Seq<char>, JsonItem>::empty(),
            r.spec_fields() == Seq::<Seq<char>>::empty(),
    {
        let r = DataRow { pairs: Vec::new() };
        proof {
            assert(r.spec_fields() =~= Seq::<Seq<char>>::empty());
        }
        r
    }

    /// Index of the pair that holds `key`, if any.
    fn find(&self, key: &str) -> (r: Option<usize>)
        requires
            self.wf(),
        ensures
            match r {
                Some(i) => 0 <= i < self.pairs@.len() && self.pairs@[i as int].0@ == key@,
                None => !pairs_have_key(self.pairs@, key@),
            },
    {
        let n = self.pairs.len();
        for i in 0..n
            invariant
                n == self.pairs@.len(),
                forall|j: int| 0 <= j < i ==> self.pairs@[j].0@ != key@,
        {
            if crate::strkit::str_eq(self.pairs[i].0.as_str(), key) {
                return Some(i);
            }
        }
        None
    }

    pub fn contains_key(&self, key: &str) -> (r: bool)
        requires
            self.wf(),
        ensures
            r == self@.dom().contains(key@),
    {
        proof {
            lemma_pairs_map_dom(self.pairs@, key@);
        }
        match self.find(key) {
            Some(i) => {
                proof {
                    lemma_pairs_map_at(self.pairs@, i as int);
                }
                true
            },
            None => false,
        }
    }

    pub fn get(&self, key: &str) -> (r: Option<&JsonValue>)
        requires
            self.wf(),
        ensures
            match r {
                Some(v) => self@.dom().contains(key@) && self@[key@] == v@,
                None => !self@.dom().contains(key@),
            },
    {
        proof {
            lemma_pairs_map_dom(self.pairs@, key@);
        }
        match self.find(key) {
            Some(i) => {
                proof {
                    lemma_pairs_map_at(self.pairs@, i as int);
                }
                Some(&self.pairs[i].1)
            },
            None => None,
        }
    }

    /// Insert or replace a field.
    pub fn insert(&mut self, key: String, value: JsonValue)
        requires
            old(self).wf(),
        ensures
            final(self).wf(),
            final(self)@ == old(self)@.insert(key@, value@),
    {
        self.remove(key.as_str());
        let ghost before = self.pairs@;
        self.pairs.push((key, value));
        proof {
            assert(self.pairs@.drop_last() =~= before);
            assert forall|p: int, q: int|
                0 <= p < q < self.pairs@.len() implies self.pairs@[p].0@ != self.pairs@[q].0@ by {
                if q < self.pairs@.len() - 1 {
                    assert(before[p] == self.pairs@[p]);
                } else {
                    lemma_pairs_map_dom(before, key@);
                    assert(!pairs_map(before).dom().contains(key@));
                }
            }
            lemma_remove_then_insert(old(self)@, pairs_map(before), key@, value@);
        }
    }

    /// Remove a field, handing back its value if it was there.
    pub fn remove(&mut self, key: &str) -> (r: Option<JsonValue>)
        requires
            old(self).wf(),
        ensures
            final(self).wf(),
            final(self)@ == old(self)@.remove(key@),
            match r {
                Some(v) => old(self)@.dom().contains(key@) && old(self)@[key@] == v@,
                None => !old(self)@.dom().contains(key@),
            },
    {
        proof {
            lemma_pairs_map_dom(self.pairs@, key@);
        }
        match self.find(key) {
            Some(i) => {
                proof {
                    lemma_pairs_map_at(self.pairs@, i as int);
                }
                let ghost before = self.pairs@;
                let (_, v) = self.pairs.remove(i);
                proof {
                    assert(self.pairs@ =~= before.subrange(0, i as int) + before.subrange(
                        i as int + 1,
                        before.len() as int,
                    ));
                    lemma_pairs_map_remove(before, i as int);
                    assert forall|p: int, q: int|
                        0 <= p < q < self.pairs@.len() implies self.pairs@[p].0@
                        != self.pairs@[q].0@ by {
                        let bp = if p < i { p } else { p + 1 };
                        let bq = if q < i { q } else { q + 1 };
                        assert(self.pairs@[p] == before[bp]);
                        assert(self.pairs@[q] == before[bq]);
                    }
                }
                Some(v)
            },
            None => {
                proof {
                    assert(self@ =~= old(self)@.remove(key@));
                }
                None
            },
        }
    }

    /// Number of fields.
    pub fn len(&self) -> (r: usize)
        ensures
            r == self.spec_fields().len(),
    {
        self.pairs.len()
    }

    /// The field name at `i` in storage order.
    pub fn field_at(&self, i: usize) -> (r: &String)
        requires
            i < self.spec_fields().len(),
        ensures
            r@ == self.spec_fields()[i as int],
    {
        &self.pairs[i].0
    }

    /// Assemble a row from pairs already known to carry unique names
    /// (the parser's output).
    pub fn from_pairs(pairs: Vec<(String, JsonValue)>) -> (r: Self)
        requires
            forall|p: int, q: int|
                0 <= p < q < pairs@.len() ==> pairs@[p].0@ != pairs@[q].0@,
        ensures
            r.wf(),
            r@ == pairs_map(pairs@),
            r.spec_fields() == pairs@.map_values(|p: (String, JsonValue)| p.0@),
    {
        DataRow { pairs }
    }
}

impl Clone for DataRow {
    fn clone(&self) -> (r: Self)
        ensures
            r@ == self@,
            self.wf() ==> r.wf(),
            r.spec_fields() == self.spec_fields(),
    {
        let n = self.pairs.len();
        let mut pairs: Vec<(String, JsonValue)> = Vec::new();
        for i in 0..n
            invariant
                n == self.pairs@.len(),
                pairs@.len() == i,
                forall|j: int| 0 <= j < i ==> pairs@[j].0@ == self.pairs@[j].0@,
                forall|j: int| 0 <= j < i ==> pairs@[j].1@ == self.pairs@[j].1@,
        {
            pairs.push((self.pairs[i].0.clone(), self.pairs[i].1.clone()));
        }
        let r = DataRow { pairs };
        proof {
            lemma_pairs_map_congruence(r.pairs@, self.pairs@);
            assert(r.spec_fields() =~= self.spec_fields());
        }
        r
    }
}

/// Two pair lists with pointwise view-equal entries denote the same map.
proof fn lemma_pairs_map_congruence(a: Seq<(String, JsonValue)>, b: Seq<(String, JsonValue)>)
    requires
        a.len() == b.len(),
        forall|j: int| 0 <= j < a.len() ==> a[j].0@ == b[j].0@,
        forall|j: int| 0 <= j < a.len() ==> a[j].1@ == b[j].1@,
    ensures
        pairs_map(a) == pairs_map(b),
    decreases a.len(),
{
    if a.len() > 0 {
        lemma_pairs_map_congruence(a.drop_last(), b.drop_last());
    }
}

/// Removing index `i` from a unique-keyed pair list removes its key from the map.
proof fn lemma_pairs_map_remove(s: Seq<(String, JsonValue)>, i: int)
    requires
        forall|p: int, q: int|
            0 <= p < q < s.len() ==> s[p].0@ != s[q].0@,
        0 <= i < s.len(),
    ensures
        pairs_map(s.subrange(0, i) + s.subrange(i + 1, s.len() as int)) == pairs_map(s).remove(
            s[i].0@,
        ),
    decreases s.len(),
{
    let t = s.subrange(0, i) + s.subrange(i + 1, s.len() as int);
    if i == s.len() - 1 {
        assert(t =~= s.drop_last());
        lemma_pairs_map_dom(s.drop_last(), s[i].0@);
        assert(pairs_map(s.drop_last()).remove(s[i].0@) =~= pairs_map(s.drop_last()));
        assert(pairs_map(s).remove(s[i].0@) =~= pairs_map(s.drop_last()));
    } else {
        let s2 = s.drop_last();
        lemma_pairs_map_remove(s2, i);
        let t2 = s2.subrange(0, i) + s2.subrange(i + 1, s2.len() as int);
        assert(t.drop_last() =~= t2);
        assert(t.last() == s.last());
        assert(pairs_map(t) == pairs_map(t2).insert(s.last().0@, s.last().1@));
        assert(pairs_map(s).remove(s[i].0@) =~= pairs_map(s2).remove(s[i].0@).insert(
            s.last().0@,
            s.last().1@,
        ));
    }
}

/// `m.remove(k).insert(k, v) == m.insert(k, v)`, stated for the insert proof.
proof fn lemma_remove_then_insert(
    m: Map<Seq<char>, JsonItem>,
    removed: Map<Seq<char>, JsonItem>,
    k: Seq<char>,
    v: JsonItem,
)
    requires
        removed == m.remove(k),
    ensures
        removed.insert(k, v) == m.insert(k, v),
{
    assert(removed.insert(k, v) =~= m.insert(k, v));
}

impl DataRow {
    /// Every field name stands in the map.
    pub proof fn lemma_field_in_dom(&self, i: int)
        requires
            self.wf(),
            0 <= i < self.spec_fields().len(),
        ensures
            self@.dom().contains(self.spec_fields()[i]),
    {
        lemma_pairs_map_at(self.pairs@, i);
    }

    /// Every key of the map is one of the fields.
    pub proof fn lemma_dom_in_fields(&self, name: Seq<char>)
        requires
            self.wf(),
            self@.dom().contains(name),
        ensures
            exists|f: int|
                0 <= f < self.spec_fields().len() && #[trigger] self.spec_fields()[f] == name,
    {
        lemma_pairs_map_dom(self.pairs@, name);
        let i = choose|i: int| 0 <= i < self.pairs@.len() && #[trigger] self.pairs@[i].0@ == name;
        assert(self.spec_fields()[i] == name);
    }

    /// Field names never repeat.
    pub proof fn lemma_fields_distinct(&self)
        requires
            self.wf(),
        ensures
            forall|p: int, q: int|
                0 <= p < q < self.spec_fields().len() ==> self.spec_fields()[p]
                    != self.spec_fields()[q],
    {
    }
}

impl DataRow {
    /// A well-formed row has as many map entries as fields.
    pub proof fn lemma_dom_len(&self)
        requires
            self.wf(),
        ensures
            self@.dom().len() == self.spec_fields().len(),
            self@.dom().finite(),
    {
        lemma_pairs_len(self.pairs@);
    }
}

proof fn lemma_pairs_len(s: Seq<(String, JsonValue)>)
    requires
        forall|p: int, q: int| 0 <= p < q < s.len() ==> s[p].0@ != s[q].0@,
    ensures
        pairs_map(s).dom().len() == s.len(),
        pairs_map(s).dom().finite(),
    decreases s.len(),
{
    if s.len() == 0 {
        assert(pairs_map(s).dom() =~= Set::<Seq<char>>::empty());
    } else {
        lemma_pairs_len(s.drop_last());
        lemma_pairs_map_dom(s.drop_last(), s.last().0@);
        assert(!pairs_map(s.drop_last()).dom().contains(s.last().0@));
        assert(pairs_map(s).dom() =~= pairs_map(s.drop_last()).dom().insert(s.last().0@));
    }
}

} // verus!
