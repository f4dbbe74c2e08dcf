//! Structured event data: a tree of scalars, arrays and keyed objects.
use vstd::prelude::*;
use crate::text::{same_text, split, split_text, texts};

verus! {

/// A number of an event: an unsigned integer, a signed integer, or a finite
/// binary64 float held by its bit pattern.
#[derive(Clone, Copy, Debug)]
pub enum Number {
    PosInt(u64),
    NegInt(i64),
    Float(u64),
}

/// What a [`Number`] stands for. The two integer forms denote the same
/// integers; the two zeros of binary64 are one value.
pub enum NumberView {
    Int(int),
    Float(u64),
}

/// The bit pattern of the binary64 value `-0.0`.
pub const NEGATIVE_ZERO: u64 = 0x8000_0000_0000_0000;

impl View for Number {
    type V = NumberView;

    open spec fn view(&self) -> NumberView {
        match self {
            Number::PosInt(n) => NumberView::Int(*n as int),
            Number::NegInt(n) => NumberView::Int(*n as int),
            Number::Float(bits) => NumberView::Float(
                if *bits == NEGATIVE_ZERO {
                    0
                } else {
                    *bits
                },
            ),
        }
    }
}

impl Number {
    /// The number as an `i64`, where it is an integer in that range.
    pub fn as_i64(&self) -> (r: Option<i64>)
        ensures
            r == int_of(self@),
    {
        match self {
            Number::PosInt(n) => {
                if *n <= 0x7fff_ffff_ffff_ffff {
                    Some(*n as i64)
                } else {
                    None
                }
            },
            Number::NegInt(n) => Some(*n),
            Number::Float(_) => None,
        }
    }

    /// Whether two numbers are the same value.
    pub fn same(&self, other: &Number) -> (r: bool)
        ensures
            r == (self@ == other@),
    {
        match (self, other) {
            (Number::PosInt(a), Number::PosInt(b)) => *a == *b,
            (Number::NegInt(a), Number::NegInt(b)) => *a == *b,
            (Number::PosInt(a), Number::NegInt(b)) => *b >= 0 && *a <= 0x7fff_ffff_ffff_ffff && *a as i64 == *b,
            (Number::NegInt(a), Number::PosInt(b)) => *a >= 0 && *b <= 0x7fff_ffff_ffff_ffff && *b as i64 == *a,
            (Number::Float(a), Number::Float(b)) => {
                let x: u64 = if *a == NEGATIVE_ZERO { 0 } else { *a };
                let y: u64 = if *b == NEGATIVE_ZERO { 0 } else { *b };
                x == y
            },
            _ => false,
        }
    }
}

/// The integer that a number is, where it is one that fits in `i64`.
pub open spec fn int_of(n: NumberView) -> Option<i64> {
    match n {
        NumberView::Int(v) => if i64::MIN <= v <= i64::MAX {
            Some(v as i64)
        } else {
            None
        },
        NumberView::Float(_) => None,
    }
}

/// A value of an event.
#[derive(Debug)]
pub enum Value {
    Null,
    Bool(bool),
    Number(Number),
    String(String),
    Array(Vec<Value>),
    Object(Vec<(String, Value)>),
}

/// The mathematical content of a [`Value`]. An object is the sequence of
/// its entries in the order in which they are held.
pub enum ValueView {
    Null,
    Bool(bool),
    Number(NumberView),
    String(Seq<char>),
    Array(Seq<ValueView>),
    Object(Seq<(Seq<char>, ValueView)>),
}

impl View for Value {
    type V = ValueView;

    open spec fn view(&self) -> ValueView
        decreases self,
    {
        match self {
            Value::Null => ValueView::Null,
            Value::Bool(b) => ValueView::Bool(*b),
            Value::Number(n) => ValueView::Number(n@),
            Value::String(s) => ValueView::String(s@),
            Value::Array(items) => ValueView::Array(
                Seq::new(
                    items.len() as nat,
                    |i: int|
                        if 0 <= i < items.len() {
                            items[i].view()
                        } else {
                            ValueView::Null
                        },
                ),
            ),
            Value::Object(entries) => ValueView::Object(
                Seq::new(
                    entries.len() as nat,
                    |i: int|
                        if 0 <= i < entries.len() {
                            (entries[i].0@, entries[i].1.view())
                        } else {
                            (Seq::empty(), ValueView::Null)
                        },
                ),
            ),
        }
    }
}

/// The value under `key` in the entries of an object: that of the first
/// entry with this key.
pub open spec fn lookup(entries: Seq<(Seq<char>, ValueView)>, key: Seq<char>) -> Option<ValueView>
    decreases entries.len(),
{
    if entries.len() == 0 {
        None
    } else if entries[0].0 == key {
        Some(entries[0].1)
    } else {
        lookup(entries.skip(1), key)
    }
}

/// The member `key` of a value: objects have members, nothing else has.
pub open spec fn member(v: ValueView, key: Seq<char>) -> Option<ValueView> {
    match v {
        ValueView::Object(entries) => lookup(entries, key),
        _ => None,
    }
}

/// The value reached from `v` by taking one member after another.
pub open spec fn walk(v: ValueView, segments: Seq<Seq<char>>) -> Option<ValueView>
    decreases segments.len(),
{
    if segments.len() == 0 {
        Some(v)
    } else {
        match member(v, segments[0]) {
            None => None,
            Some(inner) => walk(inner, segments.skip(1)),
        }
    }
}

/// The value at a dotted path: the path is cut at every `.` and the pieces
/// are taken as member names, one inside the other.
pub open spec fn resolve(v: ValueView, path: Seq<char>) -> Option<ValueView> {
    walk(v, split(path, '.'))
}

/// The value at a dotted path, a missing one counted as null.
pub open spec fn resolve_or_null(v: ValueView, path: Seq<char>) -> ValueView {
    match resolve(v, path) {
        Some(x) => x,
        None => ValueView::Null,
    }
}

impl Value {
    /// The member `key`, if this is an object that has one.
    pub fn get(&self, key: &str) -> (r: Option<&Value>)
        ensures
            match r {
                Some(x) => member(self@, key@) == Some(x@),
                None => member(self@, key@) is None,
            },
    {
        match self {
            Value::Object(entries) => {
                let ghost all = entry_views(entries@);
                proof {
                    lemma_view(*self);
                    assert(all.skip(0) == all);
                }
                let mut i: usize = 0;
                while i < entries.len()
                    invariant
                        i <= entries.len(),
                        all == entry_views(entries@),
                        all.len() == entries.len(),
                        self@ == ValueView::Object(all),
                        lookup(all, key@) == lookup(all.skip(i as int), key@),
                    decreases entries.len() - i,
                {
                    proof {
                        let rest = all.skip(i as int);
                        assert(rest[0] == all[i as int]);
                        assert(rest.skip(1) == all.skip(i as int + 1));
                        assert(all[i as int] == (entries[i as int].0@, entries[i as int].1@));
                    }
                    if same_text(entries[i].0.as_str(), key) {
                        return Some(&entries[i].1);
                    }
                    i += 1;
                }
                None
            },
            _ => None,
        }
    }

    /// Whether this is the null value.
    pub fn is_null(&self) -> (r: bool)
        ensures
            r == (self@ is Null),
    {
        match self {
            Value::Null => true,
            _ => false,
        }
    }

    /// The text, if this is a string.
    pub fn as_str(&self) -> (r: Option<&String>)
        ensures
            match r {
                Some(s) => self@ == ValueView::String(s@),
                None => !(self@ is String),
            },
    {
        match self {
            Value::String(s) => Some(s),
            _ => None,
        }
    }

    /// The integer, if this is a number that is one and fits in `i64`.
    pub fn as_i64(&self) -> (r: Option<i64>)
        ensures
            r == integer(self@),
    {
        match self {
            Value::Number(n) => n.as_i64(),
            _ => None,
        }
    }

    /// The items, if this is an array.
    pub fn as_array(&self) -> (r: Option<&Vec<Value>>)
        ensures
            match r {
                Some(items) => self@ == ValueView::Array(views(items@)),
                None => !(self@ is Array),
            },
    {
        proof {
            lemma_view(*self);
        }
        match self {
            Value::Array(items) => Some(items),
            _ => None,
        }
    }

    /// Whether two values are the same: scalars by value, arrays item by
    /// item, objects entry by entry in order.
    pub fn same(&self, other: &Value) -> (r: bool)
        ensures
            r == (self@ == other@),
        decreases self,
    {
        proof {
            lemma_view(*self);
            lemma_view(*other);
        }
        match (self, other) {
            (Value::Null, Value::Null) => true,
            (Value::Bool(a), Value::Bool(b)) => *a == *b,
            (Value::Number(a), Value::Number(b)) => a.same(b),
            (Value::String(a), Value::String(b)) => *a == *b,
            (Value::Array(a), Value::Array(b)) => {
                assert(views(a@).len() == a.len() && views(b@).len() == b.len());
                if a.len() != b.len() {
                    return false;
                }
                let mut i: usize = 0;
                while i < a.len()
                    invariant
                        i <= a.len(),
                        a.len() == b.len(),
                        *self == Value::Array(*a),
                        self@ == ValueView::Array(views(a@)),
                        other@ == ValueView::Array(views(b@)),
                        forall|j: int| 0 <= j < i ==> a[j]@ == b[j]@,
                    decreases a.len() - i,
                {
                    assert(self->Array_0 == *a);
                    assert(decreases_to!(*self => self->Array_0));
                    assert(decreases_to!(*a => a[i as int]));
                    if !a[i].same(&b[i]) {
                        assert(views(a@)[i as int] != views(b@)[i as int]);
                        return false;
                    }
                    i += 1;
                }
                assert(views(a@) =~= views(b@));
                true
            },
            (Value::Object(a), Value::Object(b)) => {
                assert(entry_views(a@).len() == a.len() && entry_views(b@).len() == b.len());
                if a.len() != b.len() {
                    return false;
                }
                let mut i: usize = 0;
                while i < a.len()
                    invariant
                        i <= a.len(),
                        a.len() == b.len(),
                        *self == Value::Object(*a),
                        self@ == ValueView::Object(entry_views(a@)),
                        other@ == ValueView::Object(entry_views(b@)),
                        forall|j: int| 0 <= j < i ==> a[j].0@ == b[j].0@ && a[j].1@ == b[j].1@,
                    decreases a.len() - i,
                {
                    assert(self->Object_0 == *a);
                    assert(decreases_to!(*self => self->Object_0));
                    assert(decreases_to!(*a => a[i as int]));
                    assert(decreases_to!(a[i as int] => a[i as int].1));
                    if !(a[i].0 == b[i].0) || !a[i].1.same(&b[i].1) {
                        assert(entry_views(a@)[i as int] != entry_views(b@)[i as int]);
                        return false;
                    }
                    i += 1;
                }
                assert(entry_views(a@) =~= entry_views(b@));
                true
            },
            _ => false,
        }
    }

    /// A copy of the value.
    pub fn duplicate(&self) -> (r: Value)
        ensures
            r@ == self@,
        decreases self,
    {
        proof {
            lemma_view(*self);
        }
        match self {
            Value::Null => Value::Null,
            Value::Bool(b) => Value::Bool(*b),
            Value::Number(n) => Value::Number(*n),
            Value::String(s) => Value::String(s.clone()),
            Value::Array(items) => {
                let mut out: Vec<Value> = Vec::new();
                let mut i: usize = 0;
                while i < items.len()
                    invariant
                        i <= items.len(),
                        *self == Value::Array(*items),
                        out.len() == i,
                        forall|j: int| 0 <= j < i ==> out[j]@ == items[j]@,
                    decreases items.len() - i,
                {
                    assert(self->Array_0 == *items);
                    assert(decreases_to!(*self => self->Array_0));
                    assert(decreases_to!(*items => items[i as int]));
                    out.push(items[i].duplicate());
                    i += 1;
                }
                let r = Value::Array(out);
                proof {
                    lemma_view(r);
                    assert(views(out@) =~= views(items@));
                }
                r
            },
            Value::Object(entries) => {
                let mut out: Vec<(String, Value)> = Vec::new();
                let mut i: usize = 0;
                while i < entries.len()
                    invariant
                        i <= entries.len(),
                        *self == Value::Object(*entries),
                        out.len() == i,
                        forall|j: int|
                            0 <= j < i ==> out[j].0@ == entries[j].0@ && out[j].1@ == entries[j].1@,
                    decreases entries.len() - i,
                {
                    assert(self->Object_0 == *entries);
                    assert(decreases_to!(*self => self->Object_0));
                    assert(decreases_to!(*entries => entries[i as int]));
                    assert(decreases_to!(entries[i as int] => entries[i as int].1));
                    out.push((entries[i].0.clone(), entries[i].1.duplicate()));
                    i += 1;
                }
                let r = Value::Object(out);
                proof {
                    lemma_view(r);
                    assert(entry_views(out@) =~= entry_views(entries@));
                }
                r
            },
        }
    }
}

/// The contents of a sequence of values.
pub open spec fn views(items: Seq<Value>) -> Seq<ValueView> {
    items.map_values(|v: Value| v@)
}

/// The contents of the entries of an object.
pub open spec fn entry_views(entries: Seq<(String, Value)>) -> Seq<(Seq<char>, ValueView)> {
    entries.map_values(|e: (String, Value)| (e.0@, e.1@))
}

/// The content of an array is the contents of its items, that of an object
/// the contents of its entries.
pub proof fn lemma_view(v: Value)
    ensures
        match v {
            Value::Array(items) => v@ == ValueView::Array(views(items@)),
            Value::Object(entries) => v@ == ValueView::Object(entry_views(entries@)),
            _ => true,
        },
{
    reveal_with_fuel(<Value as View>::view, 2);
    match v {
        Value::Array(items) => {
            assert(v@->Array_0.len() == items.len());
            assert(forall|j: int| 0 <= j < items.len() ==> v@->Array_0[j] == items[j]@);
            assert(v@->Array_0 =~= views(items@));
        },
        Value::Object(entries) => {
            assert(v@->Object_0.len() == entries.len());
            assert(forall|j: int|
                0 <= j < entries.len() ==> v@->Object_0[j] == (entries[j].0@, entries[j].1@));
            assert(v@->Object_0 =~= entry_views(entries@));
        },
        _ => {},
    }
}

/// The integer that a value is, where it is a number that is one and fits
/// in `i64`.
pub open spec fn integer(v: ValueView) -> Option<i64> {
    match v {
        ValueView::Number(n) => int_of(n),
        _ => None,
    }
}

/// The value at a dotted path in `log`, if every step of the path exists.
pub fn get_terminal_from_dotted_path<'a>(path: &str, log: &'a Value) -> (r: Option<&'a Value>)
    ensures
        match r {
            Some(x) => resolve(log@, path@) == Some(x@),
            None => resolve(log@, path@) is None,
        },
{
    let parts = split_text(path, '.');
    let ghost segments = split(path@, '.');
    let mut current: &Value = log;
    assert(segments.skip(0) == segments);
    let mut i: usize = 0;
    while i < parts.len()
        invariant
            i <= parts.len(),
            texts(parts@) == segments,
            segments == split(path@, '.'),
            walk(log@, segments) == walk(current@, segments.skip(i as int)),
        decreases parts.len() - i,
    {
        proof {
            let rest = segments.skip(i as int);
            assert(texts(parts@).len() == parts.len());
            assert(rest.len() > 0);
            assert(texts(parts@)[i as int] == parts[i as int]@);
            assert(rest[0] == parts[i as int]@);
            assert(rest.skip(1) == segments.skip(i as int + 1));
        }
        match current.get(parts[i].as_str()) {
            None => {
                return None;
            },
            Some(inner) => {
                current = inner;
            },
        }
        i += 1;
    }
    Some(current)
}

} // verus!
