//! The document tree: insertion-ordered tables, arrays, and leaves.
//!
//! A table's entries are a vector of key-value pairs with pairwise
//! distinct keys; insertion keeps the first occurrence's slot, as the
//! tests of the surrounding tool rely on.

use vstd::prelude::*;

use crate::date::Datetime;
use crate::token::{Pos, QuoteType};

verus! {

/// A node of the document tree, annotated with the position of the token
/// that introduced it.
#[derive(Debug)]
pub enum Value {
    Table { key_values: Vec<(String, Value)>, pos: Pos },
    Array { values: Vec<Value>, pos: Pos },
    String { quote_type: QuoteType, value: String, pos: Pos },
    Integer { value: i64, pos: Pos },
    /// A float literal's numeric text (underscores removed, sign
    /// included).  The tree stores the text rather than a computed float.
    Float { repr: String, pos: Pos },
    Boolean { value: bool, pos: Pos },
    Datetime { datetime: Datetime, pos: Pos },
}

/// The index of the first entry with key `k`, or the length if none.
pub open spec fn spec_find(entries: Seq<(String, Value)>, k: Seq<char>, i: int) -> int
    decreases entries.len() - i,
{
    if i < 0 || i >= entries.len() {
        entries.len() as int
    } else if entries[i].0@ == k {
        i
    } else {
        spec_find(entries, k, i + 1)
    }
}

/// Whether some entry has key `k`.
pub open spec fn spec_has_key(entries: Seq<(String, Value)>, k: Seq<char>) -> bool {
    spec_find(entries, k, 0) < entries.len()
}

/// The value bound to `k`, if any.
pub open spec fn spec_lookup(entries: Seq<(String, Value)>, k: Seq<char>) -> Option<Value> {
    if spec_has_key(entries, k) {
        Some(entries[spec_find(entries, k, 0)].1)
    } else {
        None
    }
}

/// Insertion-ordered update: an existing key keeps its slot and its key
/// string and gets the new value; a new key is appended.
pub open spec fn spec_insert(entries: Seq<(String, Value)>, key: String, v: Value) -> Seq<
    (String, Value),
> {
    let idx = spec_find(entries, key@, 0);
    if idx < entries.len() {
        entries.update(idx, (entries[idx].0, v))
    } else {
        entries.push((key, v))
    }
}

/// The find index lies between `i` and the length, misses `k` before the
/// hit, and hits `k` if it is in range.
pub proof fn lemma_find_props(entries: Seq<(String, Value)>, k: Seq<char>, i: int)
    requires
        0 <= i <= entries.len(),
    ensures
        i <= spec_find(entries, k, i) <= entries.len(),
        spec_find(entries, k, i) < entries.len() ==> entries[spec_find(entries, k, i)].0@ == k,
        forall|j: int| i <= j < spec_find(entries, k, i) ==> entries[j].0@ != k,
    decreases entries.len() - i,
{
    if i < entries.len() && entries[i].0@ != k {
        lemma_find_props(entries, k, i + 1);
    }
}

/// Inserting a key twice writes both values into the same slot: the
/// key set and every other entry are untouched, so later assignments to
/// a dotted path cannot corrupt earlier siblings, and the first
/// occurrence's slot is preserved.
pub proof fn lemma_insert_preserves_siblings(
    entries: Seq<(String, Value)>,
    key: String,
    v: Value,
)
    ensures
        spec_has_key(entries, key@) ==> {
            let idx = spec_find(entries, key@, 0);
            &&& spec_insert(entries, key, v).len() == entries.len()
            &&& spec_insert(entries, key, v)[idx] == (entries[idx].0, v)
            &&& forall|j: int|
                0 <= j < entries.len() && j != idx ==> spec_insert(entries, key, v)[j]
                    == entries[j]
        },
        !spec_has_key(entries, key@) ==> spec_insert(entries, key, v) == entries.push((key, v)),
        spec_has_key(spec_insert(entries, key, v), key@),
        spec_lookup(spec_insert(entries, key, v), key@) == Some(v),
        forall|other: Seq<char>|
            other != key@ ==> #[trigger] spec_lookup(spec_insert(entries, key, v), other)
                == spec_lookup(entries, other),
{
    lemma_find_props(entries, key@, 0);
    let out = spec_insert(entries, key, v);
    let idx = spec_find(entries, key@, 0);
    assert(0 <= idx <= entries.len());
    lemma_find_same(entries, out, key@, v, idx, 0);
    assert forall|other: Seq<char>| other != key@ implies #[trigger] spec_lookup(out, other)
        == spec_lookup(entries, other) by {
        lemma_find_other(entries, out, key@, v, idx, other, 0);
        lemma_find_props(entries, other, 0);
        lemma_find_props(out, other, 0);
    }
}

/// After an insert of `k`, finding `k` lands on the written slot.
proof fn lemma_find_same(
    entries: Seq<(String, Value)>,
    out: Seq<(String, Value)>,
    k: Seq<char>,
    v: Value,
    idx: int,
    i: int,
)
    requires
        0 <= i <= entries.len(),
        0 <= idx <= entries.len(),
        idx == spec_find(entries, k, 0),
        idx < entries.len() ==> (out.len() == entries.len() && out[idx] == (entries[idx].0, v)
            && forall|j: int| 0 <= j < entries.len() && j != idx ==> out[j] == entries[j]),
        idx == entries.len() ==> (out.len() == entries.len() + 1 && out[idx].0@ == k && out[idx].1
            == v && forall|j: int| 0 <= j < entries.len() ==> out[j] == entries[j]),
        forall|j: int| 0 <= j < idx ==> entries[j].0@ != k,
        idx < entries.len() ==> entries[idx].0@ == k,
        i <= idx,
    ensures
        spec_find(out, k, i) == idx,
    decreases out.len() - i,
{
    if i < idx {
        assert(out[i] == entries[i]);
        lemma_find_same(entries, out, k, v, idx, i + 1);
    } else {
        assert(out[idx].0@ == k);
    }
}

/// After an insert of `k`, finding any other key is unchanged.
proof fn lemma_find_other(
    entries: Seq<(String, Value)>,
    out: Seq<(String, Value)>,
    k: Seq<char>,
    v: Value,
    idx: int,
    other: Seq<char>,
    i: int,
)
    requires
        0 <= i <= entries.len(),
        0 <= idx <= entries.len(),
        other != k,
        idx == spec_find(entries, k, 0),
        idx < entries.len() ==> (out.len() == entries.len() && out[idx] == (entries[idx].0, v)
            && forall|j: int| 0 <= j < entries.len() && j != idx ==> out[j] == entries[j]),
        idx == entries.len() ==> (out.len() == entries.len() + 1 && out[idx].0@ == k && out[idx].1
            == v && forall|j: int| 0 <= j < entries.len() ==> out[j] == entries[j]),
        idx < entries.len() ==> entries[idx].0@ == k,
    ensures
        spec_find(out, other, i) == spec_find(entries, other, i) || (spec_find(entries, other, i)
            == entries.len() && spec_find(out, other, i) == out.len()),
        spec_find(out, other, i) < out.len() ==> (spec_find(out, other, i) < entries.len()
            && out[spec_find(out, other, i)] == entries[spec_find(out, other, i)]),
    decreases entries.len() - i,
{
    if i < entries.len() {
        if i == idx {
            assert(out[i].0@ == k);
            assert(entries[i].0@ == k);
            lemma_find_other(entries, out, k, v, idx, other, i + 1);
        } else {
            assert(out[i] == entries[i]);
            if entries[i].0@ != other {
                lemma_find_other(entries, out, k, v, idx, other, i + 1);
            }
        }
    } else {
        assert(spec_find(entries, other, i) == entries.len());
        if idx == entries.len() {
            assert(out[idx].0@ == k);
            assert(out[idx].0@ != other);
            assert(spec_find(out, other, i) == spec_find(out, other, i + 1));
            assert(spec_find(out, other, i + 1) == out.len());
        } else {
            assert(spec_find(out, other, i) == out.len());
        }
    }
}

impl Value {
    /// An empty table at `pos`.
    pub fn new_table(pos: Pos) -> (r: Value)
        ensures
            r is Table,
            r->Table_key_values@.len() == 0,
            spec_value_pos(r) == pos,
    {
        Value::Table { key_values: Vec::new(), pos }
    }

    /// An empty array at `pos`.
    pub fn new_array(pos: Pos) -> (r: Value)
        ensures
            r is Array,
            r->Array_values@.len() == 0,
            spec_value_pos(r) == pos,
    {
        Value::Array { values: Vec::new(), pos }
    }

    /// The name of this node's shape.
    pub fn type_str(&self) -> (r: &'static str)
        ensures
            r@ == spec_type_str(*self),
    {
        match self {
            Value::Array { .. } => "array",
            Value::Table { .. } => "table",
            Value::String { .. } => "string",
            Value::Integer { .. } => "integer",
            Value::Float { .. } => "float",
            Value::Boolean { .. } => "boolean",
            Value::Datetime { .. } => "datetime",
        }
    }

    /// The position of the token that introduced this node.
    pub fn pos(&self) -> (r: Pos)
        ensures
            r == spec_value_pos(*self),
    {
        match self {
            Value::Array { pos, .. } => *pos,
            Value::Table { pos, .. } => *pos,
            Value::String { pos, .. } => *pos,
            Value::Integer { pos, .. } => *pos,
            Value::Float { pos, .. } => *pos,
            Value::Boolean { pos, .. } => *pos,
            Value::Datetime { pos, .. } => *pos,
        }
    }

    /// The value bound to `key`, when this is a table that binds it.
    #[verifier::loop_isolation(false)]
    pub fn get(&self, key: &str) -> (r: Option<&Value>)
        ensures
            match r {
                Some(v) => self is Table && spec_lookup(self->Table_key_values@, key@) == Some(*v),
                None => !(self is Table) || spec_lookup(self->Table_key_values@, key@) is None,
            },
    {
        match self {
            Value::Table { key_values, .. } => {
                let ghost entries = key_values@;
                proof {
                    lemma_find_props(entries, key@, 0);
                }
                let mut i: usize = 0;
                while i < key_values.len()
                    invariant
                        0 <= i <= entries.len(),
                        entries == key_values@,
                        spec_find(entries, key@, 0) == spec_find(entries, key@, i as int),
                    decreases entries.len() - i,
                {
                    if crate::chars::str_eq(key_values[i].0.as_str(), key) {
                        proof {
                            assert(entries[i as int].0@ == key@);
                            assert(spec_find(entries, key@, i as int) == i as int);
                            assert(spec_lookup(entries, key@) == Some(entries[i as int].1));
                        }
                        return Some(&key_values[i].1);
                    }
                    i = i + 1;
                }
                None
            },
            _ => None,
        }
    }

    /// A mutable borrow of the value bound to `key`, when this is a
    /// table that binds it.  Whatever the caller writes through the
    /// borrow lands in that entry; every other entry and the key order
    /// stay as they were.
    pub fn get_mut(&mut self, key: &str) -> (r: Option<&mut Value>)
        ensures
            match r {
                Some(v) => {
                    &&& *old(self) is Table
                    &&& spec_lookup((*old(self))->Table_key_values@, key@) == Some(*v)
                    &&& *final(self) is Table
                    &&& spec_value_pos(*final(self)) == spec_value_pos(*old(self))
                    &&& (*final(self))->Table_key_values@ == (*old(
                        self,
                    ))->Table_key_values@.update(
                        spec_find((*old(self))->Table_key_values@, key@, 0),
                        (
                            (*old(self))->Table_key_values@[spec_find(
                                (*old(self))->Table_key_values@,
                                key@,
                                0,
                            )].0,
                            *final(v),
                        ),
                    )
                },
                None => {
                    &&& *final(self) == *old(self)
                    &&& (*old(self) is Table ==> spec_lookup(
                        (*old(self))->Table_key_values@,
                        key@,
                    ) is None)
                },
            },
    {
        let idx = match &*self {
            Value::Table { key_values, .. } => {
                let i = find_key(key_values, key);
                proof {
                    lemma_find_props(key_values@, key@, 0);
                }
                if i >= key_values.len() {
                    return None;
                }
                i
            },
            _ => {
                return None;
            },
        };
        match self {
            Value::Table { key_values, .. } => Some(&mut key_values[idx].1),
            _ => None,
        }
    }

    /// Whether this is a table that binds `key`.
    pub fn contains_key(&self, key: &str) -> (r: bool)
        ensures
            r == (self is Table && spec_has_key(self->Table_key_values@, key@)),
    {
        match self.get(key) {
            Some(_) => true,
            None => {
                proof {
                    if self is Table {
                        lemma_find_props(self->Table_key_values@, key@, 0);
                    }
                }
                false
            },
        }
    }

    /// Whether this is a string leaf.
    pub fn is_str(&self) -> (r: bool)
        ensures
            r == (self is String),
    {
        matches!(self, Value::String { .. })
    }

    /// Whether this is a table.
    pub fn is_table(&self) -> (r: bool)
        ensures
            r == (self is Table),
    {
        matches!(self, Value::Table { .. })
    }

    /// Whether this is an array.
    pub fn is_array(&self) -> (r: bool)
        ensures
            r == (self is Array),
    {
        matches!(self, Value::Array { .. })
    }

    /// Whether this is a date-and-nothing-else leaf.
    pub fn is_just_date(&self) -> (r: bool)
        ensures
            r == (self matches Value::Datetime { datetime, .. } && datetime.date is Some
                && datetime.time is None),
    {
        match self {
            Value::Datetime { datetime, .. } => datetime.date.is_some() && datetime.time.is_none(),
            _ => false,
        }
    }

    /// The elements, when this is an array.
    pub fn as_list(&self) -> (r: Option<&Vec<Value>>)
        ensures
            match r {
                Some(values) => self is Array && values@ == self->Array_values@,
                None => !(self is Array),
            },
    {
        match self {
            Value::Array { values, .. } => Some(values),
            _ => None,
        }
    }

    /// A mutable borrow of the elements, when this is an array.
    pub fn as_list_mut(&mut self) -> (r: Option<&mut Vec<Value>>)
        ensures
            match r {
                Some(values) => {
                    &&& *old(self) is Array
                    &&& (*values)@ == (*old(self))->Array_values@
                    &&& *final(self) is Array
                    &&& spec_value_pos(*final(self)) == spec_value_pos(*old(self))
                    &&& (*final(self))->Array_values@ == (*final(values))@
                },
                None => !(*old(self) is Array) && *final(self) == *old(self),
            },
    {
        match self {
            Value::Array { values, .. } => Some(values),
            _ => None,
        }
    }

    /// The text, when this is a string leaf.
    pub fn as_str(&self) -> (r: Option<&str>)
        ensures
            match r {
                Some(s) => self is String && s@ == self->String_value@,
                None => !(self is String),
            },
    {
        match self {
            Value::String { value, .. } => Some(value.as_str()),
            _ => None,
        }
    }

    /// The key-value pairs, in insertion order, when this is a table.
    pub fn iter_kvs(&self) -> (r: Option<&Vec<(String, Value)>>)
        ensures
            match r {
                Some(kvs) => self is Table && kvs@ == self->Table_key_values@,
                None => !(self is Table),
            },
    {
        match self {
            Value::Table { key_values, .. } => Some(key_values),
            _ => None,
        }
    }

    /// Binds `key` in this table as [`spec_insert`] states: an existing
    /// key keeps its slot, a new one is appended.
    #[verifier::loop_isolation(false)]
    pub fn insert(&mut self, key: String, value: Value)
        requires
            *old(self) is Table,
        ensures
            *final(self) is Table,
            spec_value_pos(*final(self)) == spec_value_pos(*old(self)),
            (*final(self))->Table_key_values@ == spec_insert(
                (*old(self))->Table_key_values@,
                key,
                value,
            ),
    {
        match self {
            Value::Table { key_values, .. } => {
                let ghost entries = key_values@;
                proof {
                    lemma_find_props(entries, key@, 0);
                }
                let mut i: usize = 0;
                while i < key_values.len()
                    invariant
                        0 <= i <= entries.len(),
                        entries == key_values@,
                        spec_find(entries, key@, 0) == spec_find(entries, key@, i as int),
                    decreases entries.len() - i,
                {
                    if crate::chars::str_eq(key_values[i].0.as_str(), key.as_str()) {
                        proof {
                            assert(entries[i as int].0@ == key@);
                        }
                        let pair = key_values.remove(i);
                        key_values.insert(i, (pair.0, value));
                        proof {
                            assert(key_values@ =~= spec_insert(entries, key, value));
                        }
                        return ;
                    }
                    i = i + 1;
                }
                key_values.push((key, value));
                proof {
                    assert(key_values@ =~= spec_insert(entries, key, value));
                }
            },
            _ => {
                proof {
                    assert(false);
                }
            },
        }
    }

    /// Appends to this array.
    pub fn append(&mut self, value: Value)
        requires
            *old(self) is Array,
        ensures
            *final(self) is Array,
            spec_value_pos(*final(self)) == spec_value_pos(*old(self)),
            (*final(self))->Array_values@ == (*old(self))->Array_values@.push(value),
    {
        match self {
            Value::Array { values, .. } => {
                values.push(value);
            },
            _ => {
                proof {
                    assert(false);
                }
            },
        }
    }
}

/// The index of the first entry of `key_values` whose key is `key`, or
/// the length if none.
#[verifier::loop_isolation(false)]
pub fn find_key(key_values: &Vec<(String, Value)>, key: &str) -> (r: usize)
    ensures
        r as int == spec_find(key_values@, key@, 0),
        r <= key_values@.len(),
{
    proof {
        lemma_find_props(key_values@, key@, 0);
    }
    let mut i: usize = 0;
    while i < key_values.len()
        invariant
            0 <= i <= key_values@.len(),
            spec_find(key_values@, key@, 0) == spec_find(key_values@, key@, i as int),
        decreases key_values@.len() - i,
    {
        if crate::chars::str_eq(key_values[i].0.as_str(), key) {
            proof {
                assert(key_values@[i as int].0@ == key@);
            }
            return i;
        }
        i = i + 1;
    }
    i
}

/// The name of a node's shape.
pub open spec fn spec_type_str(v: Value) -> Seq<char> {
    match v {
        Value::Array { .. } => "array"@,
        Value::Table { .. } => "table"@,
        Value::String { .. } => "string"@,
        Value::Integer { .. } => "integer"@,
        Value::Float { .. } => "float"@,
        Value::Boolean { .. } => "boolean"@,
        Value::Datetime { .. } => "datetime"@,
    }
}

/// The position carried by a node.
pub open spec fn spec_value_pos(v: Value) -> Pos {
    match v {
        Value::Array { pos, .. } => pos,
        Value::Table { pos, .. } => pos,
        Value::String { pos, .. } => pos,
        Value::Integer { pos, .. } => pos,
        Value::Float { pos, .. } => pos,
        Value::Boolean { pos, .. } => pos,
        Value::Datetime { pos, .. } => pos,
    }
}

/// The mathematical image of a tree node: tables and arrays carry
/// sequences, texts are character sequences.  The parser model builds
/// these; [`is_view`] says when a concrete tree realizes one.
pub enum ValueM {
    Table { entries: Seq<(Seq<char>, ValueM)>, pos: Pos },
    Array { elems: Seq<ValueM>, pos: Pos },
    String { quote_type: QuoteType, text: Seq<char>, pos: Pos },
    Integer { value: i64, pos: Pos },
    Float { repr: Seq<char>, pos: Pos },
    Boolean { value: bool, pos: Pos },
    Datetime { datetime: Datetime, pos: Pos },
}

/// Whether the concrete tree `v` realizes the mathematical tree `m`:
/// same shape, same payloads, same positions, entry by entry.
pub open spec fn is_view(v: Value, m: ValueM) -> bool
    decreases v,
{
    match v {
        Value::Table { key_values, pos } => m matches ValueM::Table { entries, pos: mpos }
            && mpos == pos && entries.len() == key_values@.len() && forall|i: int|
            0 <= i < key_values@.len() ==> entries[i].0 == (#[trigger] key_values@[i]).0@
                && is_view(key_values@[i].1, entries[i].1),
        Value::Array { values, pos } => m matches ValueM::Array { elems, pos: mpos } && mpos == pos
            && elems.len() == values@.len() && forall|i: int|
            0 <= i < values@.len() ==> is_view(#[trigger] values@[i], elems[i]),
        Value::String { quote_type, value, pos } => m == (ValueM::String {
            quote_type,
            text: value@,
            pos,
        }),
        Value::Integer { value, pos } => m == (ValueM::Integer { value, pos }),
        Value::Float { repr, pos } => m == (ValueM::Float { repr: repr@, pos }),
        Value::Boolean { value, pos } => m == (ValueM::Boolean { value, pos }),
        Value::Datetime { datetime, pos } => m == (ValueM::Datetime { datetime, pos }),
    }
}

/// The position carried by a mathematical tree node.
pub open spec fn spec_value_m_pos(m: ValueM) -> Pos {
    match m {
        ValueM::Table { pos, .. } => pos,
        ValueM::Array { pos, .. } => pos,
        ValueM::String { pos, .. } => pos,
        ValueM::Integer { pos, .. } => pos,
        ValueM::Float { pos, .. } => pos,
        ValueM::Boolean { pos, .. } => pos,
        ValueM::Datetime { pos, .. } => pos,
    }
}

/// A realized tree mirrors its image's shape and position.
pub proof fn lemma_is_view_basics(v: Value, m: ValueM)
    requires
        is_view(v, m),
    ensures
        spec_value_m_pos(m) == spec_value_pos(v),
        v is Table <==> m is Table,
        v is Array <==> m is Array,
{
}

/// Whether the entry list `ev` realizes the image list `em`, pair by
/// pair.
pub open spec fn entries_view(ev: Seq<(String, Value)>, em: Seq<(Seq<char>, ValueM)>) -> bool {
    em.len() == ev.len() && forall|i: int|
        0 <= i < ev.len() ==> em[i].0 == (#[trigger] ev[i]).0@ && is_view(ev[i].1, em[i].1)
}

/// Whether the element list `ev` realizes the image list `em`.
pub open spec fn elems_view(ev: Seq<Value>, em: Seq<ValueM>) -> bool {
    em.len() == ev.len() && forall|i: int| 0 <= i < ev.len() ==> is_view(#[trigger] ev[i], em[i])
}

/// The index of the first image entry with key `k`, or the length.
pub open spec fn m_find(em: Seq<(Seq<char>, ValueM)>, k: Seq<char>, i: int) -> int
    decreases em.len() - i,
{
    if i < 0 || i >= em.len() {
        em.len() as int
    } else if em[i].0 == k {
        i
    } else {
        m_find(em, k, i + 1)
    }
}

/// The image entry bound to `k`, if any.
pub open spec fn m_lookup(em: Seq<(Seq<char>, ValueM)>, k: Seq<char>) -> Option<ValueM> {
    if m_find(em, k, 0) < em.len() {
        Some(em[m_find(em, k, 0)].1)
    } else {
        None
    }
}

/// Insertion-ordered update on the image: an existing key keeps its slot
/// and gets the new value; a new key is appended.
pub open spec fn m_insert(em: Seq<(Seq<char>, ValueM)>, k: Seq<char>, v: ValueM) -> Seq<
    (Seq<char>, ValueM),
> {
    let idx = m_find(em, k, 0);
    if idx < em.len() {
        em.update(idx, (em[idx].0, v))
    } else {
        em.push((k, v))
    }
}

/// Realized entry lists find keys at the same index.
pub proof fn lemma_view_find(
    ev: Seq<(String, Value)>,
    em: Seq<(Seq<char>, ValueM)>,
    k: Seq<char>,
    i: int,
)
    requires
        entries_view(ev, em),
        0 <= i <= ev.len(),
    ensures
        spec_find(ev, k, i) == m_find(em, k, i),
    decreases ev.len() - i,
{
    if i < ev.len() {
        lemma_view_find(ev, em, k, i + 1);
    }
}

/// Realized insertion: inserting realized values into realized lists
/// yields realized lists.
pub proof fn lemma_view_insert(
    ev: Seq<(String, Value)>,
    em: Seq<(Seq<char>, ValueM)>,
    key: String,
    val: Value,
    valm: ValueM,
)
    requires
        entries_view(ev, em),
        is_view(val, valm),
    ensures
        entries_view(spec_insert(ev, key, val), m_insert(em, key@, valm)),
{
    lemma_view_find(ev, em, key@, 0);
    lemma_find_props(ev, key@, 0);
    let outv = spec_insert(ev, key, val);
    let outm = m_insert(em, key@, valm);
    let idx = spec_find(ev, key@, 0);
    assert forall|i: int|
        0 <= i < outv.len() implies outm[i].0 == (#[trigger] outv[i]).0@ && is_view(
        outv[i].1,
        outm[i].1,
    ) by {
        if idx < ev.len() {
            if i != idx {
                assert(outv[i] == ev[i]);
                assert(outm[i] == em[i]);
            }
        } else {
            if i < ev.len() {
                assert(outv[i] == ev[i]);
                assert(outm[i] == em[i]);
            }
        }
    }
}

/// Whether every position in the tree has a byte offset of at most `n`.
pub open spec fn pos_bounded(v: Value, n: int) -> bool
    decreases v,
{
    &&& spec_value_pos(v).byte <= n
    &&& match v {
        Value::Table { key_values, .. } => forall|k: int|
            0 <= k < key_values@.len() ==> pos_bounded(#[trigger] key_values@[k].1, n),
        Value::Array { values, .. } => forall|k: int|
            0 <= k < values@.len() ==> pos_bounded(#[trigger] values@[k], n),
        _ => true,
    }
}

} // verus!
