//! The byte layout of a snapshot, as encoders and parsers over sequences,
//! and the proof that parsing gives back what encoding wrote.
use vstd::prelude::*;
use crate::save::model::{ObjectModel, ValueModel};
use crate::save::wire::{
    MAX_ITEMS, bool_le, count_le, finite_bits, i32_le, lemma_bool_roundtrip, lemma_count_roundtrip,
    lemma_string_roundtrip, lemma_u32_roundtrip, parse_bool, parse_count, parse_f32, parse_i32,
    parse_string, parse_u32, parse_u8, string_fits, string_le, u32_le, lemma_u8_roundtrip,
    lemma_i32_roundtrip, lemma_f32_roundtrip,
};
use crate::text::lower;

verus! {

/// Deepest nesting of struct and array values that is written or read.
pub const MAX_DEPTH: usize = 64;
/// Format version written after the magic bytes.
pub const VERSION: u16 = 1;

/// The magic bytes `OHPS` that open every snapshot.
pub open spec fn magic() -> Seq<u8> {
    seq![0x4fu8, 0x48u8, 0x50u8, 0x53u8]
}

// ---------------------------------------------------------------------------
// Sequences of items

/// Items written one after the other.
pub open spec fn enc_seq<T>(xs: Seq<T>, e: spec_fn(T) -> Seq<u8>) -> Seq<u8>
    decreases xs.len(),
{
    if xs.len() == 0 {
        Seq::empty()
    } else {
        enc_seq(xs.drop_last(), e) + e(xs.last())
    }
}

/// `n` items read one after the other.
pub open spec fn parse_seq<T>(s: Seq<u8>, n: nat, p: spec_fn(Seq<u8>) -> Option<(T, Seq<u8>)>) -> Option<
    (Seq<T>, Seq<u8>),
>
    decreases n,
{
    if n == 0 {
        Some((Seq::empty(), s))
    } else {
        match p(s) {
            Some((x, rest)) => match parse_seq(rest, (n - 1) as nat, p) {
                Some((xs, after)) => Some((seq![x] + xs, after)),
                None => None,
            },
            None => None,
        }
    }
}

/// A count followed by the items.
pub open spec fn counted_le<T>(xs: Seq<T>, e: spec_fn(T) -> Seq<u8>) -> Seq<u8> {
    count_le(xs.len()) + enc_seq(xs, e)
}

pub open spec fn parse_counted<T>(s: Seq<u8>, p: spec_fn(Seq<u8>) -> Option<(T, Seq<u8>)>) -> Option<
    (Seq<T>, Seq<u8>),
> {
    match parse_count(s) {
        Some((n, rest)) => parse_seq(rest, n, p),
        None => None,
    }
}

/// Prefixes already-read items to the result of reading the rest.
pub open spec fn prepend<T>(done: Seq<T>, r: Option<(Seq<T>, Seq<u8>)>) -> Option<(Seq<T>, Seq<u8>)> {
    match r {
        Some((xs, rest)) => Some((done + xs, rest)),
        None => None,
    }
}

pub proof fn lemma_enc_seq_front<T>(xs: Seq<T>, e: spec_fn(T) -> Seq<u8>)
    requires
        xs.len() > 0,
    ensures
        enc_seq(xs, e) == e(xs[0]) + enc_seq(xs.skip(1), e),
    decreases xs.len(),
{
    if xs.len() == 1 {
        assert(xs.drop_last() =~= Seq::<T>::empty());
        assert(xs.skip(1) =~= Seq::<T>::empty());
        assert(enc_seq(xs.skip(1), e) =~= Seq::<u8>::empty());
        assert(enc_seq(xs.drop_last(), e) =~= Seq::<u8>::empty());
        assert(enc_seq(xs, e) =~= e(xs[0]) + enc_seq(xs.skip(1), e));
    } else {
        lemma_enc_seq_front(xs.drop_last(), e);
        assert(xs.drop_last().skip(1) =~= xs.skip(1).drop_last());
        assert(xs.skip(1).last() == xs.last());
        assert(enc_seq(xs, e) =~= e(xs[0]) + enc_seq(xs.skip(1), e));
    }
}

pub proof fn lemma_enc_seq_push<T>(xs: Seq<T>, x: T, e: spec_fn(T) -> Seq<u8>)
    ensures
        enc_seq(xs.push(x), e) == enc_seq(xs, e) + e(x),
{
    assert(xs.push(x).drop_last() =~= xs);
}

pub proof fn lemma_parse_seq_step<T>(
    s: Seq<u8>,
    n: nat,
    p: spec_fn(Seq<u8>) -> Option<(T, Seq<u8>)>,
    done: Seq<T>,
)
    requires
        n > 0,
    ensures
        p(s) is None ==> prepend(done, parse_seq(s, n, p)) is None,
        p(s) matches Some((x, rest)) ==> prepend(done, parse_seq(s, n, p)) == prepend(
            done.push(x),
            parse_seq(rest, (n - 1) as nat, p),
        ),
{
    if let Some((x, rest)) = p(s) {
        if let Some((xs, after)) = parse_seq(rest, (n - 1) as nat, p) {
            assert(done + (seq![x] + xs) =~= done.push(x) + xs);
        }
    }
}

pub proof fn lemma_seq_roundtrip<T>(
    xs: Seq<T>,
    e: spec_fn(T) -> Seq<u8>,
    p: spec_fn(Seq<u8>) -> Option<(T, Seq<u8>)>,
    rest: Seq<u8>,
)
    requires
        forall|i: int, r: Seq<u8>| 0 <= i < xs.len() ==> #[trigger] p(e(xs[i]) + r) == Some((xs[i], r)),
    ensures
        parse_seq(enc_seq(xs, e) + rest, xs.len(), p) == Some((xs, rest)),
    decreases xs.len(),
{
    if xs.len() == 0 {
        assert(enc_seq(xs, e) + rest =~= rest);
        assert(xs =~= Seq::<T>::empty());
    } else {
        lemma_enc_seq_front(xs, e);
        let tail = xs.skip(1);
        assert forall|i: int, r: Seq<u8>| 0 <= i < tail.len() implies #[trigger] p(e(tail[i]) + r)
            == Some((tail[i], r)) by {
            assert(tail[i] == xs[i + 1]);
        }
        lemma_seq_roundtrip(tail, e, p, rest);
        assert(enc_seq(xs, e) + rest =~= e(xs[0]) + (enc_seq(tail, e) + rest));
        assert(p(e(xs[0]) + (enc_seq(tail, e) + rest)) == Some((xs[0], enc_seq(tail, e) + rest)));
        assert(seq![xs[0]] + tail =~= xs);
    }
}

pub proof fn lemma_counted_roundtrip<T>(
    xs: Seq<T>,
    e: spec_fn(T) -> Seq<u8>,
    p: spec_fn(Seq<u8>) -> Option<(T, Seq<u8>)>,
    rest: Seq<u8>,
)
    requires
        xs.len() <= MAX_ITEMS,
        forall|i: int, r: Seq<u8>| 0 <= i < xs.len() ==> #[trigger] p(e(xs[i]) + r) == Some((xs[i], r)),
    ensures
        parse_counted(counted_le(xs, e) + rest, p) == Some((xs, rest)),
{
    lemma_count_roundtrip(xs.len(), enc_seq(xs, e) + rest);
    assert(counted_le(xs, e) + rest =~= count_le(xs.len()) + (enc_seq(xs, e) + rest));
    lemma_seq_roundtrip(xs, e, p, rest);
}

// ---------------------------------------------------------------------------
// Objects

/// A package name the reader accepts: not empty, no path separators, and not
/// `.` or `..`.
pub open spec fn package_ok(p: Seq<char>) -> bool {
    &&& p.len() > 0
    &&& !p.contains('/')
    &&& !p.contains('\\')
    &&& p != seq!['.']
    &&& p != seq!['.', '.']
}

/// An object as the reader gives it back: an acceptable, lower-case package.
pub open spec fn object_canonical(o: ObjectModel) -> bool {
    lower(o.package) == o.package && package_ok(o.package)
}

pub open spec fn object_writable(o: ObjectModel) -> bool {
    string_fits(o.package)
}

pub open spec fn object_le(o: ObjectModel) -> Seq<u8> {
    string_le(o.package) + u32_le(o.export_index)
}

/// An object: its package name, folded to lower case and checked, then its
/// export index.
pub open spec fn parse_object(s: Seq<u8>) -> Option<(ObjectModel, Seq<u8>)> {
    match parse_string(s) {
        Some((name, rest)) => if package_ok(lower(name)) {
            match parse_u32(rest) {
                Some((index, after)) => Some(
                    (ObjectModel { package: lower(name), export_index: index }, after),
                ),
                None => None,
            }
        } else {
            None
        },
        None => None,
    }
}

pub proof fn lemma_object_roundtrip(o: ObjectModel, rest: Seq<u8>)
    requires
        object_writable(o),
        object_canonical(o),
    ensures
        parse_object(object_le(o) + rest) == Some((o, rest)),
{
    lemma_string_roundtrip(o.package, u32_le(o.export_index) + rest);
    assert(object_le(o) + rest =~= string_le(o.package) + (u32_le(o.export_index) + rest));
    lemma_u32_roundtrip(o.export_index, rest);
}

pub open spec fn opt_string_le(s: Option<Seq<char>>) -> Seq<u8> {
    match s {
        Some(s) => bool_le(true) + string_le(s),
        None => bool_le(false),
    }
}

pub open spec fn opt_string_fits(s: Option<Seq<char>>) -> bool {
    match s {
        Some(s) => string_fits(s),
        None => true,
    }
}

pub open spec fn parse_opt_string(s: Seq<u8>) -> Option<(Option<Seq<char>>, Seq<u8>)> {
    match parse_bool(s) {
        Some((present, rest)) => if present {
            match parse_string(rest) {
                Some((v, after)) => Some((Some(v), after)),
                None => None,
            }
        } else {
            Some((None, rest))
        },
        None => None,
    }
}

pub proof fn lemma_opt_string_roundtrip(s: Option<Seq<char>>, rest: Seq<u8>)
    requires
        opt_string_fits(s),
    ensures
        parse_opt_string(opt_string_le(s) + rest) == Some((s, rest)),
{
    match s {
        Some(v) => {
            assert(opt_string_le(s) + rest =~= bool_le(true) + (string_le(v) + rest));
            lemma_bool_roundtrip(true, string_le(v) + rest);
            lemma_string_roundtrip(v, rest);
        },
        None => {
            lemma_bool_roundtrip(false, rest);
        },
    }
}

// ---------------------------------------------------------------------------
// Values

pub open spec fn vector_le(v: [u32; 3]) -> Seq<u8> {
    u32_le(v[0]) + u32_le(v[1]) + u32_le(v[2])
}

pub open spec fn rotator_le(r: [i32; 3]) -> Seq<u8> {
    i32_le(r[0]) + i32_le(r[1]) + i32_le(r[2])
}

pub open spec fn value_le(v: ValueModel) -> Seq<u8>
    decreases v,
{
    match v {
        ValueModel::Null => seq![0u8],
        ValueModel::Byte(b) => seq![1u8, b],
        ValueModel::Int(i) => seq![2u8] + i32_le(i),
        ValueModel::Float(f) => seq![3u8] + u32_le(f),
        ValueModel::Bool(b) => seq![4u8] + bool_le(b),
        ValueModel::String(s) => seq![5u8] + string_le(s),
        ValueModel::Name(s) => seq![6u8] + string_le(s),
        ValueModel::NameIndex(i) => seq![7u8] + i32_le(i),
        ValueModel::Object(o) => seq![8u8] + match o {
            Some(o) => bool_le(true) + object_le(o),
            None => bool_le(false),
        },
        ValueModel::SelfObject => seq![9u8],
        ValueModel::Vector(v) => seq![10u8] + vector_le(v),
        ValueModel::Rotator(r) => seq![11u8] + rotator_le(r),
        ValueModel::Struct(fields) => seq![12u8] + count_le(fields.len()) + fields_le(fields),
        ValueModel::Array(values) => seq![13u8] + count_le(values.len()) + values_le(values),
        ValueModel::UnresolvedObject(s) => seq![14u8] + string_le(s),
    }
}

pub open spec fn values_le(values: Seq<ValueModel>) -> Seq<u8>
    decreases values,
{
    if values.len() == 0 {
        Seq::empty()
    } else {
        values_le(values.subrange(0, values.len() - 1)) + value_le(values[values.len() - 1])
    }
}

pub open spec fn fields_le(fields: Seq<(Seq<char>, ValueModel)>) -> Seq<u8>
    decreases fields,
{
    if fields.len() == 0 {
        Seq::empty()
    } else {
        fields_le(fields.subrange(0, fields.len() - 1)) + string_le(fields[fields.len() - 1].0)
            + value_le(fields[fields.len() - 1].1)
    }
}

/// Whether a value can be written at nesting `depth`: strings within the
/// length limit, finite numbers, collections within the item limit and
/// nesting below `MAX_DEPTH`.
pub open spec fn value_writable(v: ValueModel, depth: nat) -> bool
    decreases v,
{
    depth < MAX_DEPTH && match v {
        ValueModel::Float(f) => finite_bits(f),
        ValueModel::String(s) => string_fits(s),
        ValueModel::Name(s) => string_fits(s),
        ValueModel::UnresolvedObject(s) => string_fits(s),
        ValueModel::Object(Some(o)) => object_writable(o),
        ValueModel::Vector(v) => finite_bits(v[0]) && finite_bits(v[1]) && finite_bits(v[2]),
        ValueModel::Struct(fields) => fields.len() <= MAX_ITEMS && fields_writable(fields, depth + 1),
        ValueModel::Array(values) => values.len() <= MAX_ITEMS && values_writable(values, depth + 1),
        _ => true,
    }
}

pub open spec fn values_writable(values: Seq<ValueModel>, depth: nat) -> bool
    decreases values,
{
    values.len() == 0 || (values_writable(values.subrange(0, values.len() - 1), depth)
        && value_writable(values[values.len() - 1], depth))
}

pub open spec fn fields_writable(fields: Seq<(Seq<char>, ValueModel)>, depth: nat) -> bool
    decreases fields,
{
    fields.len() == 0 || (fields_writable(fields.subrange(0, fields.len() - 1), depth)
        && string_fits(fields[fields.len() - 1].0) && value_writable(
        fields[fields.len() - 1].1,
        depth,
    ))
}

/// Whether every object a value refers to is in the form the reader gives
/// back.
pub open spec fn value_canonical(v: ValueModel) -> bool
    decreases v,
{
    match v {
        ValueModel::Object(Some(o)) => object_canonical(o),
        ValueModel::Struct(fields) => fields_canonical(fields),
        ValueModel::Array(values) => values_canonical(values),
        _ => true,
    }
}

pub open spec fn values_canonical(values: Seq<ValueModel>) -> bool
    decreases values,
{
    values.len() == 0 || (values_canonical(values.subrange(0, values.len() - 1))
        && value_canonical(values[values.len() - 1]))
}

pub open spec fn fields_canonical(fields: Seq<(Seq<char>, ValueModel)>) -> bool
    decreases fields,
{
    fields.len() == 0 || (fields_canonical(fields.subrange(0, fields.len() - 1)) && value_canonical(
        fields[fields.len() - 1].1,
    ))
}

pub open spec fn parse_vector(s: Seq<u8>) -> Option<([u32; 3], Seq<u8>)> {
    match parse_f32(s) {
        Some((x, r1)) => match parse_f32(r1) {
            Some((y, r2)) => match parse_f32(r2) {
                Some((z, r3)) => Some(([x, y, z], r3)),
                None => None,
            },
            None => None,
        },
        None => None,
    }
}

pub open spec fn parse_rotator(s: Seq<u8>) -> Option<([i32; 3], Seq<u8>)> {
    match parse_i32(s) {
        Some((x, r1)) => match parse_i32(r1) {
            Some((y, r2)) => match parse_i32(r2) {
                Some((z, r3)) => Some(([x, y, z], r3)),
                None => None,
            },
            None => None,
        },
        None => None,
    }
}

/// A value read at nesting `depth`: refused at `MAX_DEPTH` or deeper, else a
/// tag byte and the payload it announces.
pub open spec fn parse_value(s: Seq<u8>, depth: nat) -> Option<(ValueModel, Seq<u8>)>
    decreases MAX_DEPTH - depth, 0nat,
{
    if depth >= MAX_DEPTH {
        None
    } else {
        match parse_u8(s) {
            Some((tag, r)) => if tag == 0 {
                Some((ValueModel::Null, r))
            } else if tag == 1 {
                match parse_u8(r) {
                    Some((b, after)) => Some((ValueModel::Byte(b), after)),
                    None => None,
                }
            } else if tag == 2 {
                match parse_i32(r) {
                    Some((i, after)) => Some((ValueModel::Int(i), after)),
                    None => None,
                }
            } else if tag == 3 {
                match parse_f32(r) {
                    Some((f, after)) => Some((ValueModel::Float(f), after)),
                    None => None,
                }
            } else if tag == 4 {
                match parse_bool(r) {
                    Some((b, after)) => Some((ValueModel::Bool(b), after)),
                    None => None,
                }
            } else if tag == 5 {
                match parse_string(r) {
                    Some((t, after)) => Some((ValueModel::String(t), after)),
                    None => None,
                }
            } else if tag == 6 {
                match parse_string(r) {
                    Some((t, after)) => Some((ValueModel::Name(t), after)),
                    None => None,
                }
            } else if tag == 7 {
                match parse_i32(r) {
                    Some((i, after)) => Some((ValueModel::NameIndex(i), after)),
                    None => None,
                }
            } else if tag == 8 {
                match parse_bool(r) {
                    Some((present, r2)) => if present {
                        match parse_object(r2) {
                            Some((o, after)) => Some((ValueModel::Object(Some(o)), after)),
                            None => None,
                        }
                    } else {
                        Some((ValueModel::Object(None), r2))
                    },
                    None => None,
                }
            } else if tag == 9 {
                Some((ValueModel::SelfObject, r))
            } else if tag == 10 {
                match parse_vector(r) {
                    Some((v, after)) => Some((ValueModel::Vector(v), after)),
                    None => None,
                }
            } else if tag == 11 {
                match parse_rotator(r) {
                    Some((v, after)) => Some((ValueModel::Rotator(v), after)),
                    None => None,
                }
            } else if tag == 12 {
                match parse_count(r) {
                    Some((n, r2)) => match parse_fields(r2, depth + 1, n) {
                        Some((fields, after)) => Some((ValueModel::Struct(fields), after)),
                        None => None,
                    },
                    None => None,
                }
            } else if tag == 13 {
                match parse_count(r) {
                    Some((n, r2)) => match parse_values(r2, depth + 1, n) {
                        Some((values, after)) => Some((ValueModel::Array(values), after)),
                        None => None,
                    },
                    None => None,
                }
            } else if tag == 14 {
                match parse_string(r) {
                    Some((t, after)) => Some((ValueModel::UnresolvedObject(t), after)),
                    None => None,
                }
            } else {
                None
            },
            None => None,
        }
    }
}

/// `n` values read at nesting `depth`.
pub open spec fn parse_values(s: Seq<u8>, depth: nat, n: nat) -> Option<(Seq<ValueModel>, Seq<u8>)>
    decreases MAX_DEPTH - depth, n + 1,
{
    if n == 0 {
        Some((Seq::empty(), s))
    } else if depth > MAX_DEPTH {
        None
    } else {
        match parse_value(s, depth) {
            Some((v, rest)) => match parse_values(rest, depth, (n - 1) as nat) {
                Some((vs, after)) => Some((seq![v] + vs, after)),
                None => None,
            },
            None => None,
        }
    }
}

/// `n` named struct fields read at nesting `depth`.
pub open spec fn parse_fields(s: Seq<u8>, depth: nat, n: nat) -> Option<
    (Seq<(Seq<char>, ValueModel)>, Seq<u8>),
>
    decreases MAX_DEPTH - depth, n + 1,
{
    if n == 0 {
        Some((Seq::empty(), s))
    } else if depth > MAX_DEPTH {
        None
    } else {
        match parse_string(s) {
            Some((name, r)) => match parse_value(r, depth) {
                Some((v, rest)) => match parse_fields(rest, depth, (n - 1) as nat) {
                    Some((fs, after)) => Some((seq![(name, v)] + fs, after)),
                    None => None,
                },
                None => None,
            },
            None => None,
        }
    }
}

pub proof fn lemma_values_le_front(values: Seq<ValueModel>)
    requires
        values.len() > 0,
    ensures
        values_le(values) == value_le(values[0]) + values_le(values.skip(1)),
    decreases values.len(),
{
    if values.len() == 1 {
        assert(values.subrange(0, 0) =~= Seq::<ValueModel>::empty());
        assert(values.skip(1) =~= Seq::<ValueModel>::empty());
        assert(values_le(values) =~= value_le(values[0]) + values_le(values.skip(1)));
    } else {
        let init = values.subrange(0, values.len() - 1);
        lemma_values_le_front(init);
        assert(init.skip(1) =~= values.skip(1).subrange(0, values.skip(1).len() - 1));
        assert(values_le(values) =~= value_le(values[0]) + values_le(values.skip(1)));
    }
}

pub proof fn lemma_fields_le_front(fields: Seq<(Seq<char>, ValueModel)>)
    requires
        fields.len() > 0,
    ensures
        fields_le(fields) == string_le(fields[0].0) + value_le(fields[0].1) + fields_le(fields.skip(1)),
    decreases fields.len(),
{
    if fields.len() == 1 {
        assert(fields.subrange(0, 0) =~= Seq::<(Seq<char>, ValueModel)>::empty());
        assert(fields.skip(1) =~= Seq::<(Seq<char>, ValueModel)>::empty());
        assert(fields_le(fields) =~= string_le(fields[0].0) + value_le(fields[0].1) + fields_le(
            fields.skip(1),
        ));
    } else {
        let init = fields.subrange(0, fields.len() - 1);
        lemma_fields_le_front(init);
        assert(init.skip(1) =~= fields.skip(1).subrange(0, fields.skip(1).len() - 1));
        assert(fields_le(fields) =~= string_le(fields[0].0) + value_le(fields[0].1) + fields_le(
            fields.skip(1),
        ));
    }
}

pub proof fn lemma_values_each(values: Seq<ValueModel>, depth: nat)
    ensures
        values_writable(values, depth) <==> forall|i: int|
            0 <= i < values.len() ==> value_writable(#[trigger] values[i], depth),
        values_canonical(values) <==> forall|i: int|
            0 <= i < values.len() ==> value_canonical(#[trigger] values[i]),
    decreases values.len(),
{
    if values.len() > 0 {
        let init = values.subrange(0, values.len() - 1);
        lemma_values_each(init, depth);
        assert forall|i: int| 0 <= i < init.len() implies init[i] == values[i] by {}
    }
}

pub proof fn lemma_fields_each(fields: Seq<(Seq<char>, ValueModel)>, depth: nat)
    ensures
        fields_writable(fields, depth) <==> forall|i: int|
            #![trigger fields[i]]
            0 <= i < fields.len() ==> string_fits(fields[i].0) && value_writable(fields[i].1, depth),
        fields_canonical(fields) <==> forall|i: int|
            #![trigger fields[i]]
            0 <= i < fields.len() ==> value_canonical(fields[i].1),
    decreases fields.len(),
{
    if fields.len() > 0 {
        let init = fields.subrange(0, fields.len() - 1);
        lemma_fields_each(init, depth);
        assert forall|i: int| 0 <= i < init.len() implies init[i] == fields[i] by {}
    }
}

/// Reading a written value at the same nesting gives it back.
#[verifier::rlimit(100)]
pub proof fn lemma_value_roundtrip(v: ValueModel, depth: nat, rest: Seq<u8>)
    requires
        value_writable(v, depth),
        value_canonical(v),
    ensures
        parse_value(value_le(v) + rest, depth) == Some((v, rest)),
    decreases v,
{
    let s = value_le(v) + rest;
    match v {
        ValueModel::Null => {
            lemma_u8_roundtrip(0u8, rest);
        },
        ValueModel::Byte(b) => {
            assert(s =~= seq![1u8] + (seq![b] + rest));
            lemma_u8_roundtrip(1u8, seq![b] + rest);
            lemma_u8_roundtrip(b, rest);
        },
        ValueModel::Int(i) => {
            assert(s =~= seq![2u8] + (i32_le(i) + rest));
            lemma_u8_roundtrip(2u8, i32_le(i) + rest);
            lemma_i32_roundtrip(i, rest);
        },
        ValueModel::Float(f) => {
            assert(s =~= seq![3u8] + (u32_le(f) + rest));
            lemma_u8_roundtrip(3u8, u32_le(f) + rest);
            lemma_f32_roundtrip(f, rest);
        },
        ValueModel::Bool(b) => {
            assert(s =~= seq![4u8] + (bool_le(b) + rest));
            lemma_u8_roundtrip(4u8, bool_le(b) + rest);
            lemma_bool_roundtrip(b, rest);
        },
        ValueModel::String(t) => {
            assert(s =~= seq![5u8] + (string_le(t) + rest));
            lemma_u8_roundtrip(5u8, string_le(t) + rest);
            lemma_string_roundtrip(t, rest);
        },
        ValueModel::Name(t) => {
            assert(s =~= seq![6u8] + (string_le(t) + rest));
            lemma_u8_roundtrip(6u8, string_le(t) + rest);
            lemma_string_roundtrip(t, rest);
        },
        ValueModel::NameIndex(i) => {
            assert(s =~= seq![7u8] + (i32_le(i) + rest));
            lemma_u8_roundtrip(7u8, i32_le(i) + rest);
            lemma_i32_roundtrip(i, rest);
        },
        ValueModel::Object(o) => {
            match o {
                Some(obj) => {
                    assert(s =~= seq![8u8] + (bool_le(true) + (object_le(obj) + rest)));
                    lemma_u8_roundtrip(8u8, bool_le(true) + (object_le(obj) + rest));
                    lemma_bool_roundtrip(true, object_le(obj) + rest);
                    lemma_object_roundtrip(obj, rest);
                },
                None => {
                    assert(s =~= seq![8u8] + (bool_le(false) + rest));
                    lemma_u8_roundtrip(8u8, bool_le(false) + rest);
                    lemma_bool_roundtrip(false, rest);
                },
            }
        },
        ValueModel::SelfObject => {
            lemma_u8_roundtrip(9u8, rest);
        },
        ValueModel::Vector(x) => {
            assert(s =~= seq![10u8] + (u32_le(x[0]) + (u32_le(x[1]) + (u32_le(x[2]) + rest))));
            lemma_u8_roundtrip(10u8, u32_le(x[0]) + (u32_le(x[1]) + (u32_le(x[2]) + rest)));
            lemma_f32_roundtrip(x[0], u32_le(x[1]) + (u32_le(x[2]) + rest));
            lemma_f32_roundtrip(x[1], u32_le(x[2]) + rest);
            lemma_f32_roundtrip(x[2], rest);
            assert([x[0], x[1], x[2]] =~= x);
        },
        ValueModel::Rotator(x) => {
            assert(s =~= seq![11u8] + (i32_le(x[0]) + (i32_le(x[1]) + (i32_le(x[2]) + rest))));
            lemma_u8_roundtrip(11u8, i32_le(x[0]) + (i32_le(x[1]) + (i32_le(x[2]) + rest)));
            lemma_i32_roundtrip(x[0], i32_le(x[1]) + (i32_le(x[2]) + rest));
            lemma_i32_roundtrip(x[1], i32_le(x[2]) + rest);
            lemma_i32_roundtrip(x[2], rest);
            assert([x[0], x[1], x[2]] =~= x);
        },
        ValueModel::Struct(fields) => {
            assert(s =~= seq![12u8] + (count_le(fields.len()) + (fields_le(fields) + rest)));
            lemma_u8_roundtrip(12u8, count_le(fields.len()) + (fields_le(fields) + rest));
            lemma_count_roundtrip(fields.len(), fields_le(fields) + rest);
            lemma_fields_each(fields, depth + 1);
            lemma_fields_roundtrip(fields, depth + 1, rest);
        },
        ValueModel::Array(values) => {
            assert(s =~= seq![13u8] + (count_le(values.len()) + (values_le(values) + rest)));
            lemma_u8_roundtrip(13u8, count_le(values.len()) + (values_le(values) + rest));
            lemma_count_roundtrip(values.len(), values_le(values) + rest);
            lemma_values_each(values, depth + 1);
            lemma_values_roundtrip(values, depth + 1, rest);
        },
        ValueModel::UnresolvedObject(t) => {
            assert(s =~= seq![14u8] + (string_le(t) + rest));
            lemma_u8_roundtrip(14u8, string_le(t) + rest);
            lemma_string_roundtrip(t, rest);
        },
    }
}

pub proof fn lemma_values_roundtrip(values: Seq<ValueModel>, depth: nat, rest: Seq<u8>)
    requires
        depth <= MAX_DEPTH,
        forall|i: int| 0 <= i < values.len() ==> value_writable(#[trigger] values[i], depth),
        forall|i: int| 0 <= i < values.len() ==> value_canonical(#[trigger] values[i]),
    ensures
        parse_values(values_le(values) + rest, depth, values.len()) == Some((values, rest)),
    decreases values,
{
    if values.len() == 0 {
        assert(values_le(values) + rest =~= rest);
        assert(values =~= Seq::<ValueModel>::empty());
    } else {
        lemma_values_le_front(values);
        let tail = values.skip(1);
        assert(tail =~= values.subrange(1, values.len() as int));
        assert forall|i: int| 0 <= i < tail.len() implies value_writable(#[trigger] tail[i], depth)
            && value_canonical(tail[i]) by {
            assert(tail[i] == values[i + 1]);
        }
        assert(value_writable(values[0], depth) && value_canonical(values[0]));
        lemma_value_roundtrip(values[0], depth, values_le(tail) + rest);
        lemma_values_roundtrip(tail, depth, rest);
        assert(values_le(values) + rest =~= value_le(values[0]) + (values_le(tail) + rest));
        assert(seq![values[0]] + tail =~= values);
    }
}

#[verifier::rlimit(100)]
pub proof fn lemma_fields_roundtrip(
    fields: Seq<(Seq<char>, ValueModel)>,
    depth: nat,
    rest: Seq<u8>,
)
    requires
        depth <= MAX_DEPTH,
        forall|i: int|
            #![trigger fields[i]]
            0 <= i < fields.len() ==> string_fits(fields[i].0) && value_writable(fields[i].1, depth),
        forall|i: int| #![trigger fields[i]] 0 <= i < fields.len() ==> value_canonical(fields[i].1),
    ensures
        parse_fields(fields_le(fields) + rest, depth, fields.len()) == Some((fields, rest)),
    decreases fields,
{
    if fields.len() == 0 {
        assert(fields_le(fields) + rest =~= rest);
        assert(fields =~= Seq::<(Seq<char>, ValueModel)>::empty());
    } else {
        lemma_fields_le_front(fields);
        let tail = fields.skip(1);
        assert(tail =~= fields.subrange(1, fields.len() as int));
        assert forall|i: int| #![trigger tail[i]] 0 <= i < tail.len() implies string_fits(tail[i].0)
            && value_writable(tail[i].1, depth) && value_canonical(tail[i].1) by {
            assert(tail[i] == fields[i + 1]);
        }
        let first = fields[0];
        assert(string_fits(first.0) && value_writable(first.1, depth) && value_canonical(first.1));
        lemma_string_roundtrip(first.0, value_le(first.1) + (fields_le(tail) + rest));
        lemma_value_roundtrip(first.1, depth, fields_le(tail) + rest);
        lemma_fields_roundtrip(tail, depth, rest);
        assert(fields_le(fields) + rest =~= string_le(first.0) + (value_le(first.1) + (fields_le(
            tail,
        ) + rest)));
        assert(seq![(first.0, first.1)] + tail =~= fields);
    }
}

/// The bytes of a value, as the records of a snapshot see them.
#[verifier::opaque]
pub open spec fn value_bytes(v: ValueModel) -> Seq<u8> {
    value_le(v)
}

/// A value read at the outermost nesting, as the records of a snapshot see it.
#[verifier::opaque]
pub open spec fn read_top_value(s: Seq<u8>) -> Option<(ValueModel, Seq<u8>)> {
    parse_value(s, 0)
}

/// A value that can be written at the outermost nesting and reads back the same.
#[verifier::opaque]
pub open spec fn top_value_ok(v: ValueModel) -> bool {
    value_writable(v, 0)
}

#[verifier::opaque]
pub open spec fn top_value_canonical(v: ValueModel) -> bool {
    value_canonical(v)
}

pub proof fn lemma_top_value_roundtrip(v: ValueModel, rest: Seq<u8>)
    requires
        top_value_ok(v),
        top_value_canonical(v),
    ensures
        read_top_value(value_bytes(v) + rest) == Some((v, rest)),
{
    reveal(top_value_ok);
    reveal(top_value_canonical);
    reveal(value_bytes);
    reveal(read_top_value);
    lemma_value_roundtrip(v, 0, rest);
}

pub proof fn lemma_parse_values_step(s: Seq<u8>, depth: nat, n: nat, done: Seq<ValueModel>)
    requires
        n > 0,
        depth <= MAX_DEPTH,
    ensures
        parse_value(s, depth) is None ==> prepend(done, parse_values(s, depth, n)) is None,
        parse_value(s, depth) matches Some((v, rest)) ==> prepend(done, parse_values(s, depth, n))
            == prepend(done.push(v), parse_values(rest, depth, (n - 1) as nat)),
{
    if let Some((v, rest)) = parse_value(s, depth) {
        if let Some((vs, after)) = parse_values(rest, depth, (n - 1) as nat) {
            assert(done + (seq![v] + vs) =~= done.push(v) + vs);
        }
    }
}

pub proof fn lemma_parse_fields_step(
    s: Seq<u8>,
    depth: nat,
    n: nat,
    done: Seq<(Seq<char>, ValueModel)>,
)
    requires
        n > 0,
        depth <= MAX_DEPTH,
    ensures
        parse_string(s) is None ==> prepend(done, parse_fields(s, depth, n)) is None,
        parse_string(s) matches Some((name, r)) ==> {
            &&& parse_value(r, depth) is None ==> prepend(done, parse_fields(s, depth, n)) is None
            &&& parse_value(r, depth) matches Some((v, rest)) ==> prepend(
                done,
                parse_fields(s, depth, n),
            ) == prepend(done.push((name, v)), parse_fields(rest, depth, (n - 1) as nat))
        },
{
    if let Some((name, r)) = parse_string(s) {
        if let Some((v, rest)) = parse_value(r, depth) {
            if let Some((fs, after)) = parse_fields(rest, depth, (n - 1) as nat) {
                assert(done + (seq![(name, v)] + fs) =~= done.push((name, v)) + fs);
            }
        }
    }
}

pub proof fn lemma_prepend_empty<T>(r: Option<(Seq<T>, Seq<u8>)>)
    ensures
        prepend(Seq::<T>::empty(), r) == r,
{
    if let Some((xs, rest)) = r {
        assert(Seq::<T>::empty() + xs =~= xs);
    }
}

/// Parts joined in order.
pub open spec fn nest(parts: Seq<Seq<u8>>) -> Seq<u8>
    decreases parts.len(),
{
    if parts.len() == 0 {
        Seq::empty()
    } else {
        parts[0] + nest(parts.skip(1))
    }
}

/// Bytes appended part after part hold the parts joined in order.
pub proof fn lemma_chain(parts: Seq<Seq<u8>>, states: Seq<Seq<u8>>, k: nat)
    requires
        states.len() == parts.len() + 1,
        k <= parts.len(),
        forall|i: int| 1 <= i < states.len() ==> #[trigger] states[i] == states[i - 1] + parts[i - 1],
    ensures
        states[parts.len() as int] == states[k as int] + nest(parts.skip(k as int)),
    decreases parts.len() - k,
{
    if k == parts.len() {
        assert(parts.skip(k as int) =~= Seq::<Seq<u8>>::empty());
        assert(states[k as int] + Seq::<u8>::empty() =~= states[k as int]);
    } else {
        lemma_chain(parts, states, k + 1);
        assert(parts.skip(k as int).skip(1) =~= parts.skip((k + 1) as int));
        assert(states[(k + 1) as int] == states[k as int] + parts[k as int]);
        vstd::seq_lib::lemma_concat_associative(
            states[k as int],
            parts[k as int],
            nest(parts.skip((k + 1) as int)),
        );
    }
}

} // verus!
