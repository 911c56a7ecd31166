//! What holds across encoding and decoding.
use crate::de::len_prefix;
use crate::error::ErrorKind;
use crate::ser::{buf_bytes, len_bytes, str_bytes};
use crate::value::{Value, parse_each_error, parse_entries_error, parse_error, parse_many_error, conforms, conforms_each, conforms_entries, conforms_many, encode_all, encode_entries, encoding, parse, parse_each, parse_entries, parse_many, Datum, Shape};
use crate::wire::{char_width, le_bytes, le_value, lemma_byte_bounds, lemma_char_width_of_encoding, lemma_le_round_trip};
use vstd::prelude::*;
use vstd::utf8::{encode_utf8, encode_utf8_decode_utf8, encode_utf8_valid_utf8};

verus! {

broadcast use vstd::std_specs::vec::axiom_vec_decreases_to_view;

proof fn lemma_encode_all_first(items: Seq<Datum>)
    requires
        items.len() > 0,
    ensures
        encode_all(items) == encoding(items[0]) + encode_all(items.drop_first()),
    decreases items.len(),
{
    if items.len() == 1 {
        assert(items.drop_last() =~= Seq::<Datum>::empty());
        assert(items.drop_first() =~= Seq::<Datum>::empty());
        assert(encode_all(items) =~= encoding(items[0]) + encode_all(items.drop_first()));
    } else {
        let init = items.drop_last();
        lemma_encode_all_first(init);
        assert(init.drop_first() =~= items.drop_first().drop_last());
        assert(items.drop_first().last() == items.last());
        assert(encode_all(items) =~= encoding(items[0]) + encode_all(items.drop_first()));
    }
}

proof fn lemma_encode_entries_first(es: Seq<(Datum, Datum)>)
    requires
        es.len() > 0,
    ensures
        encode_entries(es) == encoding(es[0].0) + encoding(es[0].1) + encode_entries(es.drop_first()),
    decreases es.len(),
{
    if es.len() == 1 {
        assert(es.drop_last() =~= Seq::<(Datum, Datum)>::empty());
        assert(es.drop_first() =~= Seq::<(Datum, Datum)>::empty());
        assert(encode_entries(es) =~= encoding(es[0].0) + encoding(es[0].1) + encode_entries(
            es.drop_first(),
        ));
    } else {
        let init = es.drop_last();
        lemma_encode_entries_first(init);
        assert(init.drop_first() =~= es.drop_first().drop_last());
        assert(es.drop_first().last() == es.last());
        assert(encode_entries(es) =~= encoding(es[0].0) + encoding(es[0].1) + encode_entries(
            es.drop_first(),
        ));
    }
}

/// Reading a length prefix back from the bytes written for a length that fits.
proof fn lemma_len_prefix(n: nat, tail: Seq<u8>)
    requires
        n <= usize::MAX,
    ensures
        len_prefix(len_bytes(n) + tail) == n,
        (len_bytes(n) + tail).len() == 8 + tail.len(),
        (len_bytes(n) + tail).skip(8) == tail,
{
    lemma_byte_bounds();
    lemma_le_round_trip(n, 8);
    let s = len_bytes(n) + tail;
    assert(s.take(8) =~= len_bytes(n));
    assert(s.skip(8) =~= tail);
}

/// Decoding the encoding of a value, with the shape that the value has, gives the
/// value back and leaves whatever followed it untouched.
#[verifier::spinoff_prover]
#[verifier::rlimit(40)]
pub proof fn lemma_round_trip(d: Datum, shape: Shape, rest: Seq<u8>)
    requires
        conforms(d, shape),
    ensures
        parse(shape, encoding(d) + rest) == Some((d, rest)),
    decreases shape, 1int, 0int,
{
    let s = encoding(d) + rest;
    lemma_byte_bounds();
    match shape {
        Shape::Unit => {
            assert(s =~= rest);
        },
        Shape::Bool | Shape::U8 | Shape::I8 => {
            assert(s.skip(1) =~= rest);
            if let Datum::I8(x) = d {
                assert((x as u8) as i8 == x) by (bit_vector);
            }
        },
        Shape::U16 | Shape::I16 => {
            let v = match d {
                Datum::U16(x) => x as nat,
                Datum::I16(x) => (x as u16) as nat,
                _ => 0,
            };
            lemma_le_round_trip(v, 2);
            assert(s.take(2) =~= le_bytes(v, 2));
            assert(s.skip(2) =~= rest);
            if let Datum::I16(x) = d {
                assert((x as u16) as i16 == x) by (bit_vector);
            }
        },
        Shape::U32 | Shape::I32 => {
            let v = match d {
                Datum::U32(x) => x as nat,
                Datum::I32(x) => (x as u32) as nat,
                _ => 0,
            };
            lemma_le_round_trip(v, 4);
            assert(s.take(4) =~= le_bytes(v, 4));
            assert(s.skip(4) =~= rest);
            if let Datum::I32(x) = d {
                assert((x as u32) as i32 == x) by (bit_vector);
            }
        },
        Shape::U64 | Shape::I64 => {
            let v = match d {
                Datum::U64(x) => x as nat,
                Datum::I64(x) => (x as u64) as nat,
                _ => 0,
            };
            lemma_le_round_trip(v, 8);
            assert(s.take(8) =~= le_bytes(v, 8));
            assert(s.skip(8) =~= rest);
            if let Datum::I64(x) = d {
                assert((x as u64) as i64 == x) by (bit_vector);
            }
        },
        Shape::Char => {
            let c = d->Char_0;
            let enc = encode_utf8(seq![c]);
            lemma_char_width_of_encoding(c);
            assert(s[0] == enc[0]);
            assert(s.take(enc.len() as int) =~= enc);
            assert(s.skip(enc.len() as int) =~= rest);
            encode_utf8_valid_utf8(seq![c]);
            encode_utf8_decode_utf8(seq![c]);
        },
        Shape::Str => {
            let t = d->Str_0;
            let enc = encode_utf8(t);
            lemma_len_prefix(enc.len(), enc + rest);
            assert(s =~= len_bytes(enc.len()) + (enc + rest));
            assert(s.subrange(8, 8 + enc.len() as int) =~= enc);
            assert(s.skip(8 + enc.len() as int) =~= rest);
            encode_utf8_valid_utf8(t);
            encode_utf8_decode_utf8(t);
        },
        Shape::Bytes => {
            let b = d->Bytes_0;
            lemma_len_prefix(b.len(), b + rest);
            assert(s =~= len_bytes(b.len()) + (b + rest));
            assert(s.subrange(8, 8 + b.len() as int) =~= b);
            assert(s.skip(8 + b.len() as int) =~= rest);
        },
        Shape::Option(inner) => {
            match d {
                Datum::Opt(None) => {
                    assert(s.skip(1) =~= rest);
                },
                Datum::Opt(Some(x)) => {
                    assert(s.skip(1) =~= encoding(*x) + rest);
                    lemma_round_trip(*x, *inner, rest);
                },
                _ => {},
            }
        },
        Shape::List(inner) => {
            let items = d->List_0;
            lemma_len_prefix(items.len(), encode_all(items) + rest);
            assert(s =~= len_bytes(items.len()) + (encode_all(items) + rest));
            lemma_round_trip_many(items, *inner, rest);
        },
        Shape::Dict(k, v) => {
            let es = d->Dict_0;
            lemma_len_prefix(es.len(), encode_entries(es) + rest);
            assert(s =~= len_bytes(es.len()) + (encode_entries(es) + rest));
            lemma_round_trip_entries(es, Shape::Dict(k, v), rest);
        },
        Shape::Tuple(fields) => {
            assert(decreases_to!(shape => shape->Tuple_0));
            assert(decreases_to!(shape => fields@));
            lemma_round_trip_each(d->Tuple_0, fields@, rest);
        },
        Shape::Enum(variants) => {
            let i = d->Variant_0;
            let x = *d->Variant_1;
            lemma_le_round_trip(i as nat, 4);
            assert(s.take(4) =~= le_bytes(i as nat, 4));
            assert(s.skip(4) =~= encoding(x) + rest);
            assert(decreases_to!(shape => shape->Enum_0));
            assert(decreases_to!(shape => variants@[i as int]));
            lemma_round_trip(x, variants@[i as int], rest);
        },
    }
}

proof fn lemma_round_trip_many(items: Seq<Datum>, shape: Shape, rest: Seq<u8>)
    requires
        conforms_many(items, shape),
    ensures
        parse_many(shape, items.len(), encode_all(items) + rest) == Some((items, rest)),
    decreases shape, 2int, items.len(),
{
    if items.len() == 0 {
        assert(encode_all(items) + rest =~= rest);
        assert(items =~= Seq::<Datum>::empty());
    } else {
        let tail = items.drop_first();
        lemma_encode_all_first(items);
        assert(encode_all(items) + rest =~= encoding(items[0]) + (encode_all(tail) + rest));
        lemma_round_trip(items[0], shape, encode_all(tail) + rest);
        lemma_round_trip_many(tail, shape, rest);
        assert(seq![items[0]] + tail =~= items);
    }
}

proof fn lemma_round_trip_entries(es: Seq<(Datum, Datum)>, dict: Shape, rest: Seq<u8>)
    requires
        conforms_entries(es, dict),
    ensures
        parse_entries(dict, es.len(), encode_entries(es) + rest) == Some((es, rest)),
    decreases dict, 0int, es.len(),
{
    if es.len() == 0 {
        assert(encode_entries(es) + rest =~= rest);
        assert(es =~= Seq::<(Datum, Datum)>::empty());
    } else {
        if let Shape::Dict(k, v) = dict {
            let tail = es.drop_first();
            lemma_encode_entries_first(es);
            assert(encode_entries(es) + rest =~= encoding(es[0].0) + (encoding(es[0].1) + (
            encode_entries(tail) + rest)));
            lemma_round_trip(es[0].0, *k, encoding(es[0].1) + (encode_entries(tail) + rest));
            lemma_round_trip(es[0].1, *v, encode_entries(tail) + rest);
            lemma_round_trip_entries(tail, dict, rest);
            assert(seq![(es[0].0, es[0].1)] + tail =~= es);
        }
    }
}

proof fn lemma_round_trip_each(items: Seq<Datum>, shapes: Seq<Shape>, rest: Seq<u8>)
    requires
        conforms_each(items, shapes),
    ensures
        parse_each(shapes, encode_all(items) + rest) == Some((items, rest)),
    decreases shapes, 0int, 0int,
{
    if shapes.len() == 0 {
        assert(encode_all(items) + rest =~= rest);
        assert(items =~= Seq::<Datum>::empty());
    } else {
        let tail = items.drop_first();
        lemma_encode_all_first(items);
        assert(encode_all(items) + rest =~= encoding(items[0]) + (encode_all(tail) + rest));
        lemma_round_trip(items[0], shapes[0], encode_all(tail) + rest);
        lemma_round_trip_each(tail, shapes.drop_first(), rest);
        assert(seq![items[0]] + tail =~= items);
    }
}

/// The encoding is a function of the value alone: two values with the same
/// contents are written as the same bytes.
pub proof fn lemma_encoding_deterministic(a: Value, b: Value)
    requires
        a@ == b@,
    ensures
        encoding(a@) == encoding(b@),
        encoding(a@).len() == encoding(b@).len(),
{
}

/// An absent optional is the single byte 0; a present one is the byte 1 followed
/// by the encoding of its payload.
pub proof fn lemma_option_layout(x: Datum)
    ensures
        encoding(Datum::Opt(None)) == seq![0u8],
        encoding(Datum::Opt(Some(Box::new(x)))) == seq![1u8] + encoding(x),
        encoding(Datum::Opt(Some(Box::new(x)))).len() == 1 + encoding(x).len(),
{
}

/// A variant is its discriminant as a `u32`, then its payload; decoding with the
/// same enumeration shape gives the variant and the payload back.
pub proof fn lemma_variant_round_trip(index: u32, payload: Datum, shape: Shape, rest: Seq<u8>)
    requires
        shape is Enum,
        index < shape->Enum_0@.len(),
        conforms(payload, shape->Enum_0@[index as int]),
    ensures
        encoding(Datum::Variant(index, Box::new(payload))) == le_bytes(index as nat, 4) + encoding(
            payload,
        ),
        parse(shape, encoding(Datum::Variant(index, Box::new(payload))) + rest) == Some(
            (Datum::Variant(index, Box::new(payload)), rest),
        ),
{
    lemma_round_trip(Datum::Variant(index, Box::new(payload)), shape, rest);
}

/// A discriminant at or beyond the number of variants that the shape declares
/// fails decoding.
pub proof fn lemma_unknown_variant(shape: Shape, s: Seq<u8>)
    requires
        shape is Enum,
        s.len() >= 4,
        le_value(s.take(4)) >= shape->Enum_0@.len(),
    ensures
        parse(shape, s) is None,
{
}

/// A parse result with `y` appended to the bytes left after the value.
pub open spec fn followed_by<A>(o: Option<(A, Seq<u8>)>, y: Seq<u8>) -> Option<(A, Seq<u8>)> {
    match o {
        Some((a, r)) => Some((a, r + y)),
        None => None,
    }
}

/// The bytes left after a successful parse.
pub open spec fn leftover<A>(o: Option<(A, Seq<u8>)>) -> Seq<u8> {
    match o {
        Some((_, r)) => r,
        None => Seq::empty(),
    }
}

/// What the decoder reads from `x` it reads the same from `x` followed by more bytes,
/// which it leaves after the value.
#[verifier::spinoff_prover]
#[verifier::rlimit(40)]
proof fn lemma_parse_extends(shape: Shape, x: Seq<u8>, y: Seq<u8>)
    requires
        parse(shape, x) is Some,
    ensures
        parse(shape, x + y) == followed_by(parse(shape, x), y),
    decreases shape, 1int, 0int,
{
    let s = x + y;
    match shape {
        Shape::Unit => {},
        Shape::Bool | Shape::U8 | Shape::I8 => {
            assert(s[0] == x[0]);
            assert(s.skip(1) =~= x.skip(1) + y);
        },
        Shape::U16 | Shape::I16 => {
            assert(s.take(2) =~= x.take(2));
            assert(s.skip(2) =~= x.skip(2) + y);
        },
        Shape::U32 | Shape::I32 => {
            assert(s.take(4) =~= x.take(4));
            assert(s.skip(4) =~= x.skip(4) + y);
        },
        Shape::U64 | Shape::I64 => {
            assert(s.take(8) =~= x.take(8));
            assert(s.skip(8) =~= x.skip(8) + y);
        },
        Shape::Char => {
            let w = char_width(x[0]) as int;
            assert(s[0] == x[0]);
            assert(s.take(w) =~= x.take(w));
            assert(s.skip(w) =~= x.skip(w) + y);
        },
        Shape::Str | Shape::Bytes => {
            assert(s.take(8) =~= x.take(8));
            let n = len_prefix(x);
            assert(s.subrange(8, 8 + n) =~= x.subrange(8, 8 + n));
            assert(s.skip(8 + n) =~= x.skip(8 + n) + y);
        },
        Shape::Option(inner) => {
            assert(s[0] == x[0]);
            assert(s.skip(1) =~= x.skip(1) + y);
            if x[0] == 1 {
                lemma_parse_extends(*inner, x.skip(1), y);
            }
        },
        Shape::List(inner) => {
            assert(s.take(8) =~= x.take(8));
            assert(s.skip(8) =~= x.skip(8) + y);
            lemma_parse_many_extends(*inner, len_prefix(x) as nat, x.skip(8), y);
        },
        Shape::Dict(k, v) => {
            assert(s.take(8) =~= x.take(8));
            assert(s.skip(8) =~= x.skip(8) + y);
            lemma_parse_entries_extends(Shape::Dict(k, v), len_prefix(x) as nat, x.skip(8), y);
        },
        Shape::Tuple(fields) => {
            assert(decreases_to!(shape => shape->Tuple_0));
            assert(decreases_to!(shape => fields@));
            lemma_parse_each_extends(fields@, x, y);
        },
        Shape::Enum(variants) => {
            assert(s.take(4) =~= x.take(4));
            assert(s.skip(4) =~= x.skip(4) + y);
            let i = le_value(x.take(4)) as int;
            assert(decreases_to!(shape => shape->Enum_0));
            assert(decreases_to!(shape => variants@[i]));
            lemma_parse_extends(variants@[i], x.skip(4), y);
        },
    }
}

proof fn lemma_parse_many_extends(shape: Shape, n: nat, x: Seq<u8>, y: Seq<u8>)
    requires
        parse_many(shape, n, x) is Some,
    ensures
        parse_many(shape, n, x + y) == followed_by(parse_many(shape, n, x), y),
    decreases shape, 2int, n,
{
    if n > 0 {
        let r = leftover(parse(shape, x));
        lemma_parse_extends(shape, x, y);
        lemma_parse_many_extends(shape, (n - 1) as nat, r, y);
    }
}

proof fn lemma_parse_entries_extends(dict: Shape, n: nat, x: Seq<u8>, y: Seq<u8>)
    requires
        parse_entries(dict, n, x) is Some,
    ensures
        parse_entries(dict, n, x + y) == followed_by(parse_entries(dict, n, x), y),
    decreases dict, 0int, n,
{
    if n > 0 {
        if let Shape::Dict(k, v) = dict {
            let r1 = leftover(parse(*k, x));
            let r2 = leftover(parse(*v, r1));
            lemma_parse_extends(*k, x, y);
            lemma_parse_extends(*v, r1, y);
            lemma_parse_entries_extends(dict, (n - 1) as nat, r2, y);
        }
    }
}

proof fn lemma_parse_each_extends(shapes: Seq<Shape>, x: Seq<u8>, y: Seq<u8>)
    requires
        parse_each(shapes, x) is Some,
    ensures
        parse_each(shapes, x + y) == followed_by(parse_each(shapes, x), y),
    decreases shapes, 0int, 0int,
{
    if shapes.len() > 0 {
        let r = leftover(parse(shapes[0], x));
        lemma_parse_extends(shapes[0], x, y);
        lemma_parse_each_extends(shapes.drop_first(), r, y);
    }
}

proof fn lemma_truncated_none(d: Datum, shape: Shape, k: int)
    requires
        conforms(d, shape),
        0 <= k < encoding(d).len(),
    ensures
        parse(shape, encoding(d).take(k)) is None,
{
    let e = encoding(d);
    if parse(shape, e.take(k)) is Some {
        let y = e.skip(k);
        lemma_parse_extends(shape, e.take(k), y);
        assert(e.take(k) + y =~= e);
        lemma_round_trip(d, shape, Seq::empty());
        assert(e + Seq::<u8>::empty() =~= e);
        let r = leftover(parse(shape, e.take(k)));
        assert((r + y).len() == 0);
    }
}

/// Decoding fewer bytes than a value's encoding, with the value's shape, fails
/// because the input runs out (`IoFailure`).
pub proof fn lemma_truncated_fails(d: Datum, shape: Shape, k: int)
    requires
        conforms(d, shape),
        0 <= k < encoding(d).len(),
    ensures
        parse(shape, encoding(d).take(k)) is None,
        parse_error(shape, encoding(d).take(k)) == ErrorKind::Truncated,
{
    lemma_truncated_none(d, shape, k);
    lemma_truncated_error(d, shape, k);
}

#[verifier::spinoff_prover]
#[verifier::rlimit(40)]
proof fn lemma_truncated_error(d: Datum, shape: Shape, k: int)
    requires
        conforms(d, shape),
        0 <= k < encoding(d).len(),
    ensures
        parse_error(shape, encoding(d).take(k)) == ErrorKind::Truncated,
    decreases shape, 1int, 0int,
{
    let e = encoding(d);
    let t = e.take(k);
    lemma_byte_bounds();
    match shape {
        Shape::Char => {
            lemma_char_width_of_encoding(d->Char_0);
            if k > 0 {
                assert(t[0] == e[0]);
            }
        },
        Shape::Str => {
            let enc = encode_utf8(d->Str_0);
            if k >= 8 {
                lemma_len_prefix(enc.len(), enc);
                assert(t.take(8) =~= e.take(8));
            }
        },
        Shape::Bytes => {
            let b = d->Bytes_0;
            if k >= 8 {
                lemma_len_prefix(b.len(), b);
                assert(t.take(8) =~= e.take(8));
            }
        },
        Shape::Option(inner) => {
            if k > 0 {
                if let Datum::Opt(Some(x)) = d {
                    assert(t[0] == e[0]);
                    assert(t.skip(1) =~= encoding(*x).take(k - 1));
                    lemma_truncated_error(*x, *inner, k - 1);
                }
            }
        },
        Shape::List(inner) => {
            if k >= 8 {
                let items = d->List_0;
                lemma_len_prefix(items.len(), encode_all(items));
                assert(t.take(8) =~= e.take(8));
                assert(t.skip(8) =~= encode_all(items).take(k - 8));
                lemma_many_truncated_error(items, *inner, k - 8);
            }
        },
        Shape::Dict(kk, vv) => {
            if k >= 8 {
                let es = d->Dict_0;
                lemma_len_prefix(es.len(), encode_entries(es));
                assert(t.take(8) =~= e.take(8));
                assert(t.skip(8) =~= encode_entries(es).take(k - 8));
                lemma_entries_truncated_error(es, Shape::Dict(kk, vv), k - 8);
            }
        },
        Shape::Tuple(fields) => {
            assert(decreases_to!(shape => shape->Tuple_0));
            assert(decreases_to!(shape => fields@));
            lemma_each_truncated_error(d->Tuple_0, fields@, k);
        },
        Shape::Enum(variants) => {
            if k >= 4 {
                let i = d->Variant_0;
                let x = *d->Variant_1;
                lemma_le_round_trip(i as nat, 4);
                assert(t.take(4) =~= le_bytes(i as nat, 4));
                assert(t.skip(4) =~= encoding(x).take(k - 4));
                assert(decreases_to!(shape => shape->Enum_0));
                assert(decreases_to!(shape => variants@[i as int]));
                lemma_truncated_error(x, variants@[i as int], k - 4);
            }
        },
        _ => {},
    }
}

proof fn lemma_many_truncated_error(items: Seq<Datum>, shape: Shape, j: int)
    requires
        conforms_many(items, shape),
        0 <= j < encode_all(items).len(),
    ensures
        parse_many_error(shape, items.len(), encode_all(items).take(j)) == ErrorKind::Truncated,
    decreases shape, 2int, items.len(),
{
    if items.len() == 0 {
        assert(encode_all(items).len() == 0);
    } else {
        let tail = items.drop_first();
        let e0 = encoding(items[0]);
        let rest = encode_all(tail);
        lemma_encode_all_first(items);
        let t = encode_all(items).take(j);
        if j < e0.len() {
            assert(t =~= e0.take(j));
            lemma_truncated_none(items[0], shape, j);
            lemma_truncated_error(items[0], shape, j);
        } else {
            assert(t =~= e0 + rest.take(j - e0.len()));
            lemma_round_trip(items[0], shape, rest.take(j - e0.len()));
            lemma_many_truncated_error(tail, shape, j - e0.len());
        }
    }
}

proof fn lemma_entries_truncated_error(es: Seq<(Datum, Datum)>, dict: Shape, j: int)
    requires
        conforms_entries(es, dict),
        0 <= j < encode_entries(es).len(),
    ensures
        parse_entries_error(dict, es.len(), encode_entries(es).take(j)) == ErrorKind::Truncated,
    decreases dict, 0int, es.len(),
{
    if es.len() == 0 {
        assert(encode_entries(es).len() == 0);
    } else if let Shape::Dict(k, v) = dict {
        let tail = es.drop_first();
        let ek = encoding(es[0].0);
        let ev = encoding(es[0].1);
        let rest = encode_entries(tail);
        lemma_encode_entries_first(es);
        let t = encode_entries(es).take(j);
        if j < ek.len() {
            assert(t =~= ek.take(j));
            lemma_truncated_none(es[0].0, *k, j);
            lemma_truncated_error(es[0].0, *k, j);
        } else if j < ek.len() + ev.len() {
            assert(t =~= ek + ev.take(j - ek.len()));
            lemma_round_trip(es[0].0, *k, ev.take(j - ek.len()));
            lemma_truncated_none(es[0].1, *v, j - ek.len());
            lemma_truncated_error(es[0].1, *v, j - ek.len());
        } else {
            let j2 = j - ek.len() - ev.len();
            assert(t =~= ek + (ev + rest.take(j2)));
            lemma_round_trip(es[0].0, *k, ev + rest.take(j2));
            lemma_round_trip(es[0].1, *v, rest.take(j2));
            lemma_entries_truncated_error(tail, dict, j2);
        }
    }
}

proof fn lemma_each_truncated_error(items: Seq<Datum>, shapes: Seq<Shape>, j: int)
    requires
        conforms_each(items, shapes),
        0 <= j < encode_all(items).len(),
    ensures
        parse_each_error(shapes, encode_all(items).take(j)) == ErrorKind::Truncated,
    decreases shapes, 0int, 0int,
{
    if shapes.len() == 0 {
        assert(items.len() == 0);
        assert(encode_all(items).len() == 0);
    } else {
        let tail = items.drop_first();
        let e0 = encoding(items[0]);
        let rest = encode_all(tail);
        lemma_encode_all_first(items);
        let t = encode_all(items).take(j);
        if j < e0.len() {
            assert(t =~= e0.take(j));
            lemma_truncated_none(items[0], shapes[0], j);
            lemma_truncated_error(items[0], shapes[0], j);
        } else {
            assert(t =~= e0 + rest.take(j - e0.len()));
            lemma_round_trip(items[0], shapes[0], rest.take(j - e0.len()));
            lemma_each_truncated_error(tail, shapes.drop_first(), j - e0.len());
        }
    }
}

} // verus!
