//! Whole values driven by a shape descriptor: the traversal of composites.
use crate::de::{len_prefix, Deserializer};
use crate::error::{Error, ErrorKind, Result};
use crate::ser::{bool_bytes, buf_bytes, len_bytes, str_bytes, Serializer};
use crate::wire::{char_width, le_bytes, le_value, lemma_byte_bounds, lemma_le_value_bound};
use vstd::prelude::*;
use vstd::utf8::{decode_utf8, encode_utf8, encode_utf8_decode_utf8, valid_utf8};

verus! {

broadcast use vstd::std_specs::vec::axiom_vec_index_decreases;

/// What a value is, as a mathematical object.
pub enum Datum {
    Unit,
    Bool(bool),
    U8(u8),
    U16(u16),
    U32(u32),
    U64(u64),
    I8(i8),
    I16(i16),
    I32(i32),
    I64(i64),
    Char(char),
    Str(Seq<char>),
    Bytes(Seq<u8>),
    Opt(Option<Box<Datum>>),
    List(Seq<Datum>),
    Dict(Seq<(Datum, Datum)>),
    Tuple(Seq<Datum>),
    Variant(u32, Box<Datum>),
}

/// The statically known shape of a value, which encoder and decoder agree on.
#[derive(Debug, PartialEq, Eq)]
pub enum Shape {
    Unit,
    Bool,
    U8,
    U16,
    U32,
    U64,
    I8,
    I16,
    I32,
    I64,
    Char,
    Str,
    Bytes,
    /// An optional value of the inner shape.
    Option(Box<Shape>),
    /// A sequence of any length, each element of the inner shape.
    List(Box<Shape>),
    /// A map of any size, with keys and values of the two shapes.
    Dict(Box<Shape>, Box<Shape>),
    /// A fixed-arity product (tuple, record, array): one shape per field.
    Tuple(Vec<Shape>),
    /// An enumeration: the payload shape of each variant, in declaration order.
    Enum(Vec<Shape>),
}

/// A value that the encoder writes and the decoder builds.
#[derive(Debug, PartialEq, Eq)]
pub enum Value {
    Unit,
    Bool(bool),
    U8(u8),
    U16(u16),
    U32(u32),
    U64(u64),
    I8(i8),
    I16(i16),
    I32(i32),
    I64(i64),
    Char(char),
    Str(String),
    Bytes(Vec<u8>),
    Option(Option<Box<Value>>),
    List(Vec<Value>),
    Dict(Vec<(Value, Value)>),
    Tuple(Vec<Value>),
    Variant(u32, Box<Value>),
}

/// The models of a sequence of values.
pub open spec fn view_all(s: Seq<Value>) -> Seq<Datum>
    decreases s,
{
    if s.len() == 0 {
        Seq::empty()
    } else {
        view_all(s.drop_last()).push(s.last().model())
    }
}

/// The models of a sequence of key-value pairs.
pub open spec fn view_entries(s: Seq<(Value, Value)>) -> Seq<(Datum, Datum)>
    decreases s,
{
    if s.len() == 0 {
        Seq::empty()
    } else {
        view_entries(s.drop_last()).push((s.last().0.model(), s.last().1.model()))
    }
}

impl Value {
    /// The mathematical object that this value stands for.
    pub open spec fn model(&self) -> Datum
        decreases self,
    {
        match self {
            Value::Unit => Datum::Unit,
            Value::Bool(b) => Datum::Bool(*b),
            Value::U8(x) => Datum::U8(*x),
            Value::U16(x) => Datum::U16(*x),
            Value::U32(x) => Datum::U32(*x),
            Value::U64(x) => Datum::U64(*x),
            Value::I8(x) => Datum::I8(*x),
            Value::I16(x) => Datum::I16(*x),
            Value::I32(x) => Datum::I32(*x),
            Value::I64(x) => Datum::I64(*x),
            Value::Char(c) => Datum::Char(*c),
            Value::Str(s) => Datum::Str(s@),
            Value::Bytes(b) => Datum::Bytes(b@),
            Value::Option(None) => Datum::Opt(None),
            Value::Option(Some(x)) => Datum::Opt(Some(Box::new(x.model()))),
            Value::List(items) => Datum::List(view_all(items@)),
            Value::Dict(entries) => Datum::Dict(view_entries(entries@)),
            Value::Tuple(items) => Datum::Tuple(view_all(items@)),
            Value::Variant(i, x) => Datum::Variant(*i, Box::new(x.model())),
        }
    }
}

impl View for Value {
    type V = Datum;

    open spec fn view(&self) -> Datum {
        self.model()
    }
}

/// The bytes of a value: the traversal writes the parts of a composite in order,
/// with a count before sequences and maps, a presence flag before optionals and a
/// `u32` discriminant before the payload of a variant.
pub open spec fn encoding(d: Datum) -> Seq<u8>
    decreases d,
{
    match d {
        Datum::Unit => Seq::empty(),
        Datum::Bool(b) => bool_bytes(b),
        Datum::U8(x) => seq![x],
        Datum::U16(x) => le_bytes(x as nat, 2),
        Datum::U32(x) => le_bytes(x as nat, 4),
        Datum::U64(x) => le_bytes(x as nat, 8),
        Datum::I8(x) => seq![x as u8],
        Datum::I16(x) => le_bytes((x as u16) as nat, 2),
        Datum::I32(x) => le_bytes((x as u32) as nat, 4),
        Datum::I64(x) => le_bytes((x as u64) as nat, 8),
        Datum::Char(c) => encode_utf8(seq![c]),
        Datum::Str(t) => str_bytes(t),
        Datum::Bytes(b) => buf_bytes(b),
        Datum::Opt(None) => seq![0u8],
        Datum::Opt(Some(x)) => seq![1u8] + encoding(*x),
        Datum::List(items) => len_bytes(items.len()) + encode_all(items),
        Datum::Dict(entries) => len_bytes(entries.len()) + encode_entries(entries),
        Datum::Tuple(items) => encode_all(items),
        Datum::Variant(i, x) => le_bytes(i as nat, 4) + encoding(*x),
    }
}

/// The encodings of `items`, one after another.
pub open spec fn encode_all(items: Seq<Datum>) -> Seq<u8>
    decreases items,
{
    if items.len() == 0 {
        Seq::empty()
    } else {
        encode_all(items.drop_last()) + encoding(items.last())
    }
}

/// The encodings of each key followed by its value, one entry after another.
pub open spec fn encode_entries(entries: Seq<(Datum, Datum)>) -> Seq<u8>
    decreases entries,
{
    if entries.len() == 0 {
        Seq::empty()
    } else {
        encode_entries(entries.drop_last()) + encoding(entries.last().0) + encoding(
            entries.last().1,
        )
    }
}

proof fn lemma_view_all_push(s: Seq<Value>, v: Value)
    ensures
        view_all(s.push(v)) == view_all(s).push(v.model()),
{
    assert(s.push(v).drop_last() =~= s);
}

proof fn lemma_view_entries_push(s: Seq<(Value, Value)>, e: (Value, Value))
    ensures
        view_entries(s.push(e)) == view_entries(s).push((e.0.model(), e.1.model())),
{
    assert(s.push(e).drop_last() =~= s);
}

proof fn lemma_encode_all_push(ds: Seq<Datum>, d: Datum)
    ensures
        encode_all(ds.push(d)) == encode_all(ds) + encoding(d),
{
    assert(ds.push(d).drop_last() =~= ds);
}

proof fn lemma_encode_entries_push(es: Seq<(Datum, Datum)>, e: (Datum, Datum))
    ensures
        encode_entries(es.push(e)) == encode_entries(es) + encoding(e.0) + encoding(e.1),
{
    assert(es.push(e).drop_last() =~= es);
}

proof fn lemma_view_all_len(s: Seq<Value>)
    ensures
        view_all(s).len() == s.len(),
    decreases s.len(),
{
    if s.len() > 0 {
        lemma_view_all_len(s.drop_last());
    }
}

proof fn lemma_view_entries_len(s: Seq<(Value, Value)>)
    ensures
        view_entries(s).len() == s.len(),
    decreases s.len(),
{
    if s.len() > 0 {
        lemma_view_entries_len(s.drop_last());
    }
}

impl Serializer {
    /// Writes the whole value `v`, parts of composites in order.
    pub fn serialize_value(&mut self, v: &Value)
        ensures
            final(self)@ == old(self)@ + encoding(v@),
        decreases v,
    {
        match v {
            Value::Unit => self.serialize_unit(),
            Value::Bool(b) => self.serialize_bool(*b),
            Value::U8(x) => self.serialize_u8(*x),
            Value::U16(x) => self.serialize_u16(*x),
            Value::U32(x) => self.serialize_u32(*x),
            Value::U64(x) => self.serialize_u64(*x),
            Value::I8(x) => self.serialize_i8(*x),
            Value::I16(x) => self.serialize_i16(*x),
            Value::I32(x) => self.serialize_i32(*x),
            Value::I64(x) => self.serialize_i64(*x),
            Value::Char(c) => self.serialize_char(*c),
            Value::Str(t) => self.serialize_str(t.as_str()),
            Value::Bytes(b) => self.serialize_bytes(b.as_slice()),
            Value::Option(None) => self.serialize_none(),
            Value::Option(Some(x)) => {
                self.serialize_some();
                self.serialize_value(x);
                assert(self@ =~= old(self)@ + encoding(v@));
            },
            Value::List(items) => {
                self.serialize_len(items.len());
                let ghost start = self@;
                let mut i: usize = 0;
                assert(encode_all(view_all(items@.take(0))) =~= Seq::<u8>::empty());
                while i < items.len()
                    invariant
                        i <= items@.len(),
                        *v == Value::List(*items),
                        self@ == start + encode_all(view_all(items@.take(i as int))),
                    decreases items@.len() - i,
                {
                    proof {
                        assert(decreases_to!(*v => (*v)->List_0));
                        assert(decreases_to!(*items => items[i as int]));
                        assert(decreases_to!(*v => items[i as int]));
                    }
                    self.serialize_value(&items[i]);
                    proof {
                        assert(items@.take(i + 1) =~= items@.take(i as int).push(items@[i as int]));
                        lemma_view_all_push(items@.take(i as int), items@[i as int]);
                        lemma_encode_all_push(view_all(items@.take(i as int)), items@[i as int].model());
                    }
                    i = i + 1;
                }
                proof {
                    assert(items@.take(i as int) =~= items@);
                    lemma_view_all_len(items@);
                }
                assert(self@ =~= old(self)@ + encoding(v@));
            },
            Value::Dict(entries) => {
                self.serialize_len(entries.len());
                let ghost start = self@;
                let mut i: usize = 0;
                assert(encode_entries(view_entries(entries@.take(0))) =~= Seq::<u8>::empty());
                while i < entries.len()
                    invariant
                        i <= entries@.len(),
                        *v == Value::Dict(*entries),
                        self@ == start + encode_entries(view_entries(entries@.take(i as int))),
                    decreases entries@.len() - i,
                {
                    proof {
                        assert(decreases_to!(*v => (*v)->Dict_0));
                        assert(decreases_to!(*entries => entries[i as int]));
                        assert(decreases_to!(entries[i as int] => entries[i as int].0));
                        assert(decreases_to!(entries[i as int] => entries[i as int].1));
                        assert(decreases_to!(*v => entries[i as int].0));
                        assert(decreases_to!(*v => entries[i as int].1));
                    }
                    let entry = &entries[i];
                    self.serialize_value(&entry.0);
                    self.serialize_value(&entry.1);
                    proof {
                        let e = entries@[i as int];
                        assert(entries@.take(i + 1) =~= entries@.take(i as int).push(e));
                        lemma_view_entries_push(entries@.take(i as int), e);
                        lemma_encode_entries_push(
                            view_entries(entries@.take(i as int)),
                            (e.0.model(), e.1.model()),
                        );
                    }
                    i = i + 1;
                }
                proof {
                    assert(entries@.take(i as int) =~= entries@);
                    lemma_view_entries_len(entries@);
                }
                assert(self@ =~= old(self)@ + encoding(v@));
            },
            Value::Tuple(items) => {
                let ghost start = self@;
                let mut i: usize = 0;
                assert(encode_all(view_all(items@.take(0))) =~= Seq::<u8>::empty());
                while i < items.len()
                    invariant
                        i <= items@.len(),
                        *v == Value::Tuple(*items),
                        self@ == start + encode_all(view_all(items@.take(i as int))),
                    decreases items@.len() - i,
                {
                    proof {
                        assert(decreases_to!(*v => (*v)->Tuple_0));
                        assert(decreases_to!(*items => items[i as int]));
                        assert(decreases_to!(*v => items[i as int]));
                    }
                    self.serialize_value(&items[i]);
                    proof {
                        assert(items@.take(i + 1) =~= items@.take(i as int).push(items@[i as int]));
                        lemma_view_all_push(items@.take(i as int), items@[i as int]);
                        lemma_encode_all_push(view_all(items@.take(i as int)), items@[i as int].model());
                    }
                    i = i + 1;
                }
                proof {
                    assert(items@.take(i as int) =~= items@);
                }
                assert(self@ =~= old(self)@ + encoding(v@));
            },
            Value::Variant(index, x) => {
                self.serialize_variant_index(*index);
                self.serialize_value(x);
                assert(self@ =~= old(self)@ + encoding(v@));
            },
        }
    }
}

/// The content of the length-prefixed frame at the start of `s`.
pub open spec fn frame_body(s: Seq<u8>) -> Seq<u8> {
    s.subrange(8, 8 + len_prefix(s))
}

/// Whether `s` starts with a whole length-prefixed frame.
pub open spec fn frame_fits(s: Seq<u8>) -> bool {
    s.len() >= 8 && len_prefix(s) <= s.len() - 8
}

/// Attaches `p` before the items of a parse result.
pub open spec fn prepend<A>(p: Seq<A>, o: Option<(Seq<A>, Seq<u8>)>) -> Option<(Seq<A>, Seq<u8>)> {
    match o {
        Some((xs, r)) => Some((p + xs, r)),
        None => None,
    }
}

/// What the decoder reads from `s` for `shape`: the value and the bytes after it,
/// or `None` where decoding fails.
pub open spec fn parse(shape: Shape, s: Seq<u8>) -> Option<(Datum, Seq<u8>)>
    decreases shape, 1int, 0int,
{
    match shape {
        Shape::Unit => Some((Datum::Unit, s)),
        Shape::Bool => if s.len() >= 1 && s[0] <= 1 {
            Some((Datum::Bool(s[0] == 1), s.skip(1)))
        } else {
            None
        },
        Shape::U8 => if s.len() >= 1 {
            Some((Datum::U8(s[0]), s.skip(1)))
        } else {
            None
        },
        Shape::U16 => if s.len() >= 2 {
            Some((Datum::U16(le_value(s.take(2)) as u16), s.skip(2)))
        } else {
            None
        },
        Shape::U32 => if s.len() >= 4 {
            Some((Datum::U32(le_value(s.take(4)) as u32), s.skip(4)))
        } else {
            None
        },
        Shape::U64 => if s.len() >= 8 {
            Some((Datum::U64(le_value(s.take(8)) as u64), s.skip(8)))
        } else {
            None
        },
        Shape::I8 => if s.len() >= 1 {
            Some((Datum::I8(s[0] as i8), s.skip(1)))
        } else {
            None
        },
        Shape::I16 => if s.len() >= 2 {
            Some((Datum::I16((le_value(s.take(2)) as u16) as i16), s.skip(2)))
        } else {
            None
        },
        Shape::I32 => if s.len() >= 4 {
            Some((Datum::I32((le_value(s.take(4)) as u32) as i32), s.skip(4)))
        } else {
            None
        },
        Shape::I64 => if s.len() >= 8 {
            Some((Datum::I64((le_value(s.take(8)) as u64) as i64), s.skip(8)))
        } else {
            None
        },
        Shape::Char => if s.len() >= 1 && char_width(s[0]) != 0 && s.len() >= char_width(s[0])
            && valid_utf8(s.take(char_width(s[0]) as int)) {
            Some(
                (
                    Datum::Char(decode_utf8(s.take(char_width(s[0]) as int))[0]),
                    s.skip(char_width(s[0]) as int),
                ),
            )
        } else {
            None
        },
        Shape::Str => if frame_fits(s) && valid_utf8(frame_body(s)) {
            Some((Datum::Str(decode_utf8(frame_body(s))), s.skip(8 + len_prefix(s))))
        } else {
            None
        },
        Shape::Bytes => if frame_fits(s) {
            Some((Datum::Bytes(frame_body(s)), s.skip(8 + len_prefix(s))))
        } else {
            None
        },
        Shape::Option(inner) => if s.len() >= 1 && s[0] == 0 {
            Some((Datum::Opt(None), s.skip(1)))
        } else if s.len() >= 1 && s[0] == 1 {
            match parse(*inner, s.skip(1)) {
                Some((d, r)) => Some((Datum::Opt(Some(Box::new(d))), r)),
                None => None,
            }
        } else {
            None
        },
        Shape::List(inner) => if s.len() >= 8 && len_prefix(s) <= usize::MAX {
            match parse_many(*inner, len_prefix(s) as nat, s.skip(8)) {
                Some((ds, r)) => Some((Datum::List(ds), r)),
                None => None,
            }
        } else {
            None
        },
        Shape::Dict(k, v) => if s.len() >= 8 && len_prefix(s) <= usize::MAX {
            match parse_entries(Shape::Dict(k, v), len_prefix(s) as nat, s.skip(8)) {
                Some((es, r)) => Some((Datum::Dict(es), r)),
                None => None,
            }
        } else {
            None
        },
        Shape::Tuple(fields) => match parse_each(fields@, s) {
            Some((ds, r)) => Some((Datum::Tuple(ds), r)),
            None => None,
        },
        Shape::Enum(variants) => if s.len() >= 4 && le_value(s.take(4)) < variants@.len() {
            match parse(variants@[le_value(s.take(4)) as int], s.skip(4)) {
                Some((d, r)) => Some((Datum::Variant(le_value(s.take(4)) as u32, Box::new(d)), r)),
                None => None,
            }
        } else {
            None
        },
    }
}

/// `n` values of `shape`, one after another.
pub open spec fn parse_many(shape: Shape, n: nat, s: Seq<u8>) -> Option<(Seq<Datum>, Seq<u8>)>
    decreases shape, 2int, n,
{
    if n == 0 {
        Some((Seq::empty(), s))
    } else {
        match parse(shape, s) {
            Some((d, r)) => prepend(seq![d], parse_many(shape, (n - 1) as nat, r)),
            None => None,
        }
    }
}

/// `n` entries of the map shape `dict`, each a key followed by its value.
pub open spec fn parse_entries(dict: Shape, n: nat, s: Seq<u8>) -> Option<(Seq<(Datum, Datum)>, Seq<u8>)>
    decreases dict, 0int, n,
{
    if n == 0 {
        Some((Seq::empty(), s))
    } else {
        match dict {
            Shape::Dict(k, v) => match parse(*k, s) {
                Some((kd, r1)) => match parse(*v, r1) {
                    Some((vd, r2)) => prepend(seq![(kd, vd)], parse_entries(dict, (n - 1) as nat, r2)),
                    None => None,
                },
                None => None,
            },
            _ => None,
        }
    }
}

/// One value of each of `shapes`, in order.
pub open spec fn parse_each(shapes: Seq<Shape>, s: Seq<u8>) -> Option<(Seq<Datum>, Seq<u8>)>
    decreases shapes, 0int, 0int,
{
    if shapes.len() == 0 {
        Some((Seq::empty(), s))
    } else {
        match parse(shapes[0], s) {
            Some((d, r)) => prepend(seq![d], parse_each(shapes.drop_first(), r)),
            None => None,
        }
    }
}

proof fn lemma_prepend_push<A>(p: Seq<A>, x: A, o: Option<(Seq<A>, Seq<u8>)>)
    ensures
        prepend(p, prepend(seq![x], o)) == prepend(p.push(x), o),
{
    if let Some((xs, r)) = o {
        assert(p + (seq![x] + xs) =~= p.push(x) + xs);
    }
}

proof fn lemma_prepend_empty<A>(o: Option<(Seq<A>, Seq<u8>)>)
    ensures
        prepend(Seq::<A>::empty(), o) == o,
{
    if let Some((xs, r)) = o {
        assert(Seq::<A>::empty() + xs =~= xs);
    }
}

impl Deserializer {
    /// Reads one whole value of the given shape, parts of composites in order.
    /// It succeeds exactly where `parse` does, with the value and the position it gives,
    /// and fails with the failure that `parse_error` gives. A variant discriminant beyond
    /// the shape's variants fails with `Custom`, after the discriminant alone is read.
    pub fn deserialize_value(&mut self, shape: &Shape) -> (r: Result<Value>)
        ensures
            r is Ok <==> parse(*shape, old(self)@) is Some,
            r is Ok ==> parse(*shape, old(self)@) == Some((r->Ok_0@, final(self)@)),
            r is Err ==> r->Err_0.kind() == parse_error(*shape, old(self)@),
            shape is Enum && old(self)@.len() >= 4 && le_value(old(self)@.take(4))
                >= shape->Enum_0@.len() ==> r is Err && r->Err_0 is Custom && final(self)@
                == old(self)@.skip(4),
        decreases shape,
    {
        match shape {
            Shape::Unit => Ok(Value::Unit),
            Shape::Bool => match self.deserialize_bool() {
                Ok(x) => Ok(Value::Bool(x)),
                Err(e) => Err(e),
            },
            Shape::U8 => match self.deserialize_u8() {
                Ok(x) => Ok(Value::U8(x)),
                Err(e) => Err(e),
            },
            Shape::U16 => match self.deserialize_u16() {
                Ok(x) => Ok(Value::U16(x)),
                Err(e) => Err(e),
            },
            Shape::U32 => match self.deserialize_u32() {
                Ok(x) => Ok(Value::U32(x)),
                Err(e) => Err(e),
            },
            Shape::U64 => match self.deserialize_u64() {
                Ok(x) => Ok(Value::U64(x)),
                Err(e) => Err(e),
            },
            Shape::I8 => match self.deserialize_i8() {
                Ok(x) => Ok(Value::I8(x)),
                Err(e) => Err(e),
            },
            Shape::I16 => match self.deserialize_i16() {
                Ok(x) => Ok(Value::I16(x)),
                Err(e) => Err(e),
            },
            Shape::I32 => match self.deserialize_i32() {
                Ok(x) => Ok(Value::I32(x)),
                Err(e) => Err(e),
            },
            Shape::I64 => match self.deserialize_i64() {
                Ok(x) => Ok(Value::I64(x)),
                Err(e) => Err(e),
            },
            Shape::Char => match self.deserialize_char() {
                Ok(c) => {
                    proof {
                        encode_utf8_decode_utf8(seq![c]);
                    }
                    Ok(Value::Char(c))
                },
                Err(e) => Err(e),
            },
            Shape::Str => match self.read_string() {
                Ok(t) => {
                    proof {
                        encode_utf8_decode_utf8(t@);
                    }
                    Ok(Value::Str(t))
                },
                Err(e) => Err(e),
            },
            Shape::Bytes => match self.read_vec() {
                Ok(b) => Ok(Value::Bytes(b)),
                Err(e) => Err(e),
            },
            Shape::Option(inner) => match self.deserialize_option() {
                Ok(false) => Ok(Value::Option(None)),
                Ok(true) => match self.deserialize_value(inner) {
                    Ok(x) => Ok(Value::Option(Some(Box::new(x)))),
                    Err(e) => Err(e),
                },
                Err(e) => Err(e),
            },
            Shape::List(inner) => {
                let n = match self.deserialize_len() {
                    Ok(n) => n,
                    Err(e) => return Err(e),
                };
                let ghost s0 = self@;
                let mut items: Vec<Value> = Vec::new();
                let mut i: usize = 0;
                proof {
                    lemma_prepend_empty(parse_many(**inner, n as nat, s0));
                }
                while i < n
                    invariant
                        i <= n,
                        items@.len() == i,
                        *shape == Shape::List(*inner),
                        old(self)@.len() >= 8,
                        n as int == len_prefix(old(self)@),
                        s0 == old(self)@.skip(8),
                        parse_many_error(**inner, n as nat, s0) == parse_many_error(
                            **inner,
                            (n - i) as nat,
                            self@,
                        ),
                        parse_many(**inner, n as nat, s0) == prepend(
                            view_all(items@),
                            parse_many(**inner, (n - i) as nat, self@),
                        ),
                    decreases n - i,
                {
                    let ghost before = self@;
                    match self.deserialize_value(inner) {
                        Ok(x) => {
                            proof {
                                lemma_prepend_push(
                                    view_all(items@),
                                    x@,
                                    parse_many(**inner, (n - i - 1) as nat, self@),
                                );
                                lemma_view_all_push(items@, x);
                            }
                            items.push(x);
                            i = i + 1;
                        },
                        Err(e) => {
                            proof {
                                assert(parse_many(**inner, (n - i) as nat, before) is None);
                            }
                            return Err(e);
                        },
                    }
                }
                proof {
                    assert(parse_many(**inner, 0, self@) == Some((Seq::<Datum>::empty(), self@)));
                    assert(view_all(items@) + Seq::<Datum>::empty() =~= view_all(items@));
                }
                Ok(Value::List(items))
            },
            Shape::Dict(k, v) => {
                let n = match self.deserialize_len() {
                    Ok(n) => n,
                    Err(e) => return Err(e),
                };
                let ghost s0 = self@;
                let mut entries: Vec<(Value, Value)> = Vec::new();
                let mut i: usize = 0;
                proof {
                    lemma_prepend_empty(parse_entries(*shape, n as nat, s0));
                }
                while i < n
                    invariant
                        i <= n,
                        entries@.len() == i,
                        *shape == Shape::Dict(*k, *v),
                        old(self)@.len() >= 8,
                        n as int == len_prefix(old(self)@),
                        s0 == old(self)@.skip(8),
                        parse_entries_error(*shape, n as nat, s0) == parse_entries_error(
                            *shape,
                            (n - i) as nat,
                            self@,
                        ),
                        parse_entries(*shape, n as nat, s0) == prepend(
                            view_entries(entries@),
                            parse_entries(*shape, (n - i) as nat, self@),
                        ),
                    decreases n - i,
                {
                    let ghost before = self@;
                    let key = match self.deserialize_value(k) {
                        Ok(x) => x,
                        Err(e) => {
                            proof {
                                assert(parse_entries(*shape, (n - i) as nat, before) is None);
                            }
                            return Err(e);
                        },
                    };
                    let ghost middle = self@;
                    let val = match self.deserialize_value(v) {
                        Ok(x) => x,
                        Err(e) => {
                            proof {
                                assert(parse_entries(*shape, (n - i) as nat, before) is None);
                            }
                            return Err(e);
                        },
                    };
                    proof {
                        lemma_prepend_push(
                            view_entries(entries@),
                            (key@, val@),
                            parse_entries(*shape, (n - i - 1) as nat, self@),
                        );
                        lemma_view_entries_push(entries@, (key, val));
                    }
                    entries.push((key, val));
                    i = i + 1;
                }
                proof {
                    assert(parse_entries(*shape, 0, self@) == Some((Seq::<(Datum, Datum)>::empty(), self@)));
                    assert(view_entries(entries@) + Seq::<(Datum, Datum)>::empty() =~= view_entries(
                        entries@,
                    ));
                }
                Ok(Value::Dict(entries))
            },
            Shape::Tuple(fields) => {
                let ghost s0 = self@;
                let mut items: Vec<Value> = Vec::new();
                let mut i: usize = 0;
                proof {
                    lemma_prepend_empty(parse_each(fields@, s0));
                    assert(fields@.skip(0) =~= fields@);
                }
                while i < fields.len()
                    invariant
                        i <= fields@.len(),
                        items@.len() == i,
                        *shape == Shape::Tuple(*fields),
                        s0 == old(self)@,
                        parse_each_error(fields@, s0) == parse_each_error(
                            fields@.skip(i as int),
                            self@,
                        ),
                        parse_each(fields@, s0) == prepend(
                            view_all(items@),
                            parse_each(fields@.skip(i as int), self@),
                        ),
                    decreases fields@.len() - i,
                {
                    proof {
                        assert(decreases_to!(*shape => (*shape)->Tuple_0));
                        assert(decreases_to!(*fields => fields[i as int]));
                        assert(decreases_to!(*shape => fields[i as int]));
                    }
                    let ghost before = self@;
                    match self.deserialize_value(&fields[i]) {
                        Ok(x) => {
                            proof {
                                assert(fields@.skip(i as int)[0] == fields@[i as int]);
                                assert(fields@.skip(i as int).drop_first() =~= fields@.skip(i + 1));
                                lemma_prepend_push(
                                    view_all(items@),
                                    x@,
                                    parse_each(fields@.skip(i + 1), self@),
                                );
                                lemma_view_all_push(items@, x);
                            }
                            items.push(x);
                            i = i + 1;
                        },
                        Err(e) => {
                            proof {
                                assert(fields@.skip(i as int)[0] == fields@[i as int]);
                                assert(parse_each(fields@.skip(i as int), before) is None);
                            }
                            return Err(e);
                        },
                    }
                }
                proof {
                    assert(fields@.skip(i as int) =~= Seq::<Shape>::empty());
                    assert(parse_each(fields@.skip(i as int), self@) == Some((Seq::<Datum>::empty(), self@)));
                    assert(view_all(items@) + Seq::<Datum>::empty() =~= view_all(items@));
                }
                Ok(Value::Tuple(items))
            },
            Shape::Enum(variants) => {
                let index = match self.deserialize_variant_index() {
                    Ok(x) => x,
                    Err(e) => return Err(e),
                };
                proof {
                    lemma_le_value_bound(old(self)@.take(4));
                    lemma_byte_bounds();
                }
                if index as usize >= variants.len() {
                    return Err(Error::Custom(String::from_str("unknown variant index")));
                }
                proof {
                    assert(decreases_to!(*shape => (*shape)->Enum_0));
                    assert(decreases_to!(*variants => variants[index as int]));
                    assert(decreases_to!(*shape => variants[index as int]));
                }
                match self.deserialize_value(&variants[index as usize]) {
                    Ok(x) => Ok(Value::Variant(index, Box::new(x))),
                    Err(e) => Err(e),
                }
            },
        }
    }
}

/// The failure that decoding `s` as `shape` meets first, where `parse` fails.
/// A composite fails with the failure of the first part that fails.
pub open spec fn parse_error(shape: Shape, s: Seq<u8>) -> ErrorKind
    decreases shape, 1int, 0int,
{
    match shape {
        Shape::Bool => if s.len() < 1 {
            ErrorKind::Truncated
        } else {
            ErrorKind::InvalidBoolean
        },
        Shape::Char => if s.len() < 1 {
            ErrorKind::Truncated
        } else if char_width(s[0]) == 0 {
            ErrorKind::InvalidCharWidth
        } else if s.len() < char_width(s[0]) {
            ErrorKind::Truncated
        } else {
            ErrorKind::InvalidUtf8
        },
        Shape::Str => if s.len() < 8 {
            ErrorKind::Truncated
        } else if len_prefix(s) > usize::MAX {
            ErrorKind::LengthOverflow
        } else if len_prefix(s) > s.len() - 8 {
            ErrorKind::Truncated
        } else {
            ErrorKind::InvalidUtf8
        },
        Shape::Bytes => if s.len() >= 8 && len_prefix(s) > usize::MAX {
            ErrorKind::LengthOverflow
        } else {
            ErrorKind::Truncated
        },
        Shape::Option(inner) => if s.len() < 1 {
            ErrorKind::Truncated
        } else if s[0] > 1 {
            ErrorKind::InvalidBoolean
        } else {
            parse_error(*inner, s.skip(1))
        },
        Shape::List(inner) => if s.len() < 8 {
            ErrorKind::Truncated
        } else if len_prefix(s) > usize::MAX {
            ErrorKind::LengthOverflow
        } else {
            parse_many_error(*inner, len_prefix(s) as nat, s.skip(8))
        },
        Shape::Dict(k, v) => if s.len() < 8 {
            ErrorKind::Truncated
        } else if len_prefix(s) > usize::MAX {
            ErrorKind::LengthOverflow
        } else {
            parse_entries_error(Shape::Dict(k, v), len_prefix(s) as nat, s.skip(8))
        },
        Shape::Tuple(fields) => parse_each_error(fields@, s),
        Shape::Enum(variants) => if s.len() < 4 {
            ErrorKind::Truncated
        } else if le_value(s.take(4)) >= variants@.len() {
            ErrorKind::Custom
        } else {
            parse_error(variants@[le_value(s.take(4)) as int], s.skip(4))
        },
        _ => ErrorKind::Truncated,
    }
}

/// The failure of the first of `n` values of `shape` that fails.
pub open spec fn parse_many_error(shape: Shape, n: nat, s: Seq<u8>) -> ErrorKind
    decreases shape, 2int, n,
{
    if n == 0 {
        ErrorKind::Truncated
    } else {
        match parse(shape, s) {
            Some((_, r)) => parse_many_error(shape, (n - 1) as nat, r),
            None => parse_error(shape, s),
        }
    }
}

/// The failure of the first key or value of `n` entries of `dict` that fails.
pub open spec fn parse_entries_error(dict: Shape, n: nat, s: Seq<u8>) -> ErrorKind
    decreases dict, 0int, n,
{
    if n == 0 {
        ErrorKind::Truncated
    } else {
        match dict {
            Shape::Dict(k, v) => match parse(*k, s) {
                Some((_, r1)) => match parse(*v, r1) {
                    Some((_, r2)) => parse_entries_error(dict, (n - 1) as nat, r2),
                    None => parse_error(*v, r1),
                },
                None => parse_error(*k, s),
            },
            _ => ErrorKind::Truncated,
        }
    }
}

/// The failure of the first of the values of `shapes` that fails.
pub open spec fn parse_each_error(shapes: Seq<Shape>, s: Seq<u8>) -> ErrorKind
    decreases shapes, 0int, 0int,
{
    if shapes.len() == 0 {
        ErrorKind::Truncated
    } else {
        match parse(shapes[0], s) {
            Some((_, r)) => parse_each_error(shapes.drop_first(), r),
            None => parse_error(shapes[0], s),
        }
    }
}

/// Whether `d` is a value of `shape` whose counts and lengths the format can carry.
pub open spec fn conforms(d: Datum, shape: Shape) -> bool
    decreases shape, 1int, 0int,
{
    match shape {
        Shape::Unit => d is Unit,
        Shape::Bool => d is Bool,
        Shape::U8 => d is U8,
        Shape::U16 => d is U16,
        Shape::U32 => d is U32,
        Shape::U64 => d is U64,
        Shape::I8 => d is I8,
        Shape::I16 => d is I16,
        Shape::I32 => d is I32,
        Shape::I64 => d is I64,
        Shape::Char => d is Char,
        Shape::Str => d is Str && encode_utf8(d->Str_0).len() <= usize::MAX,
        Shape::Bytes => d is Bytes && d->Bytes_0.len() <= usize::MAX,
        Shape::Option(inner) => match d {
            Datum::Opt(None) => true,
            Datum::Opt(Some(x)) => conforms(*x, *inner),
            _ => false,
        },
        Shape::List(inner) => match d {
            Datum::List(items) => items.len() <= usize::MAX && conforms_many(items, *inner),
            _ => false,
        },
        Shape::Dict(k, v) => match d {
            Datum::Dict(entries) => entries.len() <= usize::MAX && conforms_entries(
                entries,
                Shape::Dict(k, v),
            ),
            _ => false,
        },
        Shape::Tuple(fields) => match d {
            Datum::Tuple(items) => conforms_each(items, fields@),
            _ => false,
        },
        Shape::Enum(variants) => match d {
            Datum::Variant(i, x) => i < variants@.len() && conforms(*x, variants@[i as int]),
            _ => false,
        },
    }
}

/// Every one of `items` is of `shape`.
pub open spec fn conforms_many(items: Seq<Datum>, shape: Shape) -> bool
    decreases shape, 2int, items.len(),
{
    items.len() == 0 || (conforms(items[0], shape) && conforms_many(items.drop_first(), shape))
}

/// Every key and value of `entries` is of the key and value shape of `dict`.
pub open spec fn conforms_entries(entries: Seq<(Datum, Datum)>, dict: Shape) -> bool
    decreases dict, 0int, entries.len(),
{
    entries.len() == 0 || match dict {
        Shape::Dict(k, v) => conforms(entries[0].0, *k) && conforms(entries[0].1, *v)
            && conforms_entries(entries.drop_first(), dict),
        _ => false,
    }
}

/// `items` has one value of each of `shapes`, in order.
pub open spec fn conforms_each(items: Seq<Datum>, shapes: Seq<Shape>) -> bool
    decreases shapes, 0int, 0int,
{
    items.len() == shapes.len() && (shapes.len() == 0 || (conforms(items[0], shapes[0])
        && conforms_each(items.drop_first(), shapes.drop_first())))
}

/// The bytes of `v`.
pub fn to_bytes(v: &Value) -> (r: Vec<u8>)
    ensures
        r@ == encoding(v@),
{
    let mut ser = Serializer::new(Vec::new());
    ser.serialize_value(v);
    let r = ser.into_inner();
    assert(r@ =~= encoding(v@));
    r
}

/// Decodes one value of `shape` from the start of `bytes`; what follows it is ignored.
pub fn from_bytes(bytes: Vec<u8>, shape: &Shape) -> (r: Result<Value>)
    ensures
        r is Ok <==> parse(*shape, bytes@) is Some,
        r is Ok ==> exists|rest: Seq<u8>| parse(*shape, bytes@) == Some((r->Ok_0@, rest)),
        r is Err ==> r->Err_0.kind() == parse_error(*shape, bytes@),
        shape is Enum && bytes@.len() >= 4 && le_value(bytes@.take(4)) >= shape->Enum_0@.len()
            ==> r is Err && r->Err_0 is Custom,
{
    let mut de = Deserializer::new(bytes);
    de.deserialize_value(shape)
}

} // verus!
