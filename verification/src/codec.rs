//! The wire codec: a self-describing binary format for single values.
//!
//! Every value is encoded as a one-byte tag followed by the value's data.
//! Strings and binary blobs carry an explicit big-endian length, numbers are
//! written as eight big-endian bytes, so a blob is decodable on its own and a
//! decoder can tell the kind of a value without outside knowledge.

use vstd::prelude::*;
use vstd::utf8::{encode_utf8, valid_utf8, encode_utf8_valid_utf8, encode_utf8_decode_utf8};
use crate::error::Error;

verus! {

/// A single wire value.
///
/// A floating-point number travels as the 64 bits of its IEEE-754
/// representation; converting to and from `f64` is the caller's business.
#[derive(Debug, Clone, PartialEq)]
pub enum Value {
    Nil,
    Bool(bool),
    U64(u64),
    I64(i64),
    F64(u64),
    Str(String),
    Bin(Vec<u8>),
}

/// Mathematical model of a wire value.
pub enum ValueV {
    Nil,
    Bool(bool),
    U64(u64),
    I64(i64),
    F64(u64),
    Str(Seq<char>),
    Bin(Seq<u8>),
}

impl View for Value {
    type V = ValueV;

    open spec fn view(&self) -> ValueV {
        match self {
            Value::Nil => ValueV::Nil,
            Value::Bool(b) => ValueV::Bool(*b),
            Value::U64(x) => ValueV::U64(*x),
            Value::I64(x) => ValueV::I64(*x),
            Value::F64(x) => ValueV::F64(*x),
            Value::Str(s) => ValueV::Str(s@),
            Value::Bin(b) => ValueV::Bin(b@),
        }
    }
}

pub const TAG_NIL: u8 = 0xc0;
pub const TAG_FALSE: u8 = 0xc2;
pub const TAG_TRUE: u8 = 0xc3;
pub const TAG_U64: u8 = 0xcf;
pub const TAG_I64: u8 = 0xd3;
pub const TAG_F64: u8 = 0xcb;
pub const TAG_STR: u8 = 0xdb;
pub const TAG_BIN: u8 = 0xc6;

/// The largest length a string or blob may carry: its length field is 32 bits.
pub const MAX_LEN: u64 = 0xffff_ffff;

/// The eight big-endian bytes of a 64-bit number.
pub open spec fn be8(x: u64) -> Seq<u8> {
    seq![
        (x >> 56) as u8,
        (x >> 48) as u8,
        (x >> 40) as u8,
        (x >> 32) as u8,
        (x >> 24) as u8,
        (x >> 16) as u8,
        (x >> 8) as u8,
        x as u8,
    ]
}

/// The four big-endian bytes of a 32-bit number.
pub open spec fn be4(x: u32) -> Seq<u8> {
    seq![(x >> 24) as u8, (x >> 16) as u8, (x >> 8) as u8, x as u8]
}

/// Two different numbers never share their eight-byte rendering.
pub proof fn lemma_be8_injective(x: u64, y: u64)
    requires
        be8(x) == be8(y),
    ensures
        x == y,
{
    assert(be8(x)[0] == be8(y)[0]);
    assert(be8(x)[1] == be8(y)[1]);
    assert(be8(x)[2] == be8(y)[2]);
    assert(be8(x)[3] == be8(y)[3]);
    assert(be8(x)[4] == be8(y)[4]);
    assert(be8(x)[5] == be8(y)[5]);
    assert(be8(x)[6] == be8(y)[6]);
    assert(be8(x)[7] == be8(y)[7]);
    assert((x >> 56) as u8 == (y >> 56) as u8 && (x >> 48) as u8 == (y >> 48) as u8
        && (x >> 40) as u8 == (y >> 40) as u8 && (x >> 32) as u8 == (y >> 32) as u8
        && (x >> 24) as u8 == (y >> 24) as u8 && (x >> 16) as u8 == (y >> 16) as u8
        && (x >> 8) as u8 == (y >> 8) as u8 && x as u8 == y as u8 ==> x == y) by (bit_vector);
}

/// Two different numbers never share their four-byte rendering.
pub proof fn lemma_be4_injective(x: u32, y: u32)
    requires
        be4(x) == be4(y),
    ensures
        x == y,
{
    assert(be4(x)[0] == be4(y)[0]);
    assert(be4(x)[1] == be4(y)[1]);
    assert(be4(x)[2] == be4(y)[2]);
    assert(be4(x)[3] == be4(y)[3]);
    assert((x >> 24) as u8 == (y >> 24) as u8 && (x >> 16) as u8 == (y >> 16) as u8
        && (x >> 8) as u8 == (y >> 8) as u8 && x as u8 == y as u8 ==> x == y) by (bit_vector);
}

/// An `i64` keeps its identity through the 64-bit two's-complement cast.
pub proof fn lemma_i64_cast_injective(x: i64, y: i64)
    requires
        x as u64 == y as u64,
    ensures
        x == y,
{
    assert(x as u64 == y as u64 ==> x == y) by (bit_vector);
}

/// The wire bytes of a string: tag, 32-bit length, then the UTF-8 bytes.
pub open spec fn spec_enc_str(s: Seq<char>) -> Seq<u8> {
    seq![TAG_STR] + be4(encode_utf8(s).len() as u32) + encode_utf8(s)
}

/// A string is representable when its UTF-8 form fits the length field.
pub open spec fn str_encodable(s: Seq<char>) -> bool {
    encode_utf8(s).len() <= MAX_LEN
}

/// The wire bytes of a blob: tag, 32-bit length, then the bytes themselves.
pub open spec fn spec_enc_bin(b: Seq<u8>) -> Seq<u8> {
    seq![TAG_BIN] + be4(b.len() as u32) + b
}

/// A blob is representable when its length fits the length field.
pub open spec fn bin_encodable(b: Seq<u8>) -> bool {
    b.len() <= MAX_LEN
}

/// A value the codec can represent.
pub open spec fn value_encodable(v: ValueV) -> bool {
    match v {
        ValueV::Str(s) => str_encodable(s),
        ValueV::Bin(b) => bin_encodable(b),
        _ => true,
    }
}

/// The wire bytes of a single value.
pub open spec fn spec_enc_value(v: ValueV) -> Seq<u8> {
    match v {
        ValueV::Nil => seq![TAG_NIL],
        ValueV::Bool(b) => if b { seq![TAG_TRUE] } else { seq![TAG_FALSE] },
        ValueV::U64(x) => seq![TAG_U64] + be8(x),
        ValueV::I64(x) => seq![TAG_I64] + be8(x as u64),
        ValueV::F64(x) => seq![TAG_F64] + be8(x),
        ValueV::Str(s) => spec_enc_str(s),
        ValueV::Bin(b) => spec_enc_bin(b),
    }
}

pub(crate) fn push_be8(out: &mut Vec<u8>, x: u64)
    ensures
        final(out)@ == old(out)@ + be8(x),
{
    out.push(#[verifier::truncate] ((x >> 56) as u8));
    out.push(#[verifier::truncate] ((x >> 48) as u8));
    out.push(#[verifier::truncate] ((x >> 40) as u8));
    out.push(#[verifier::truncate] ((x >> 32) as u8));
    out.push(#[verifier::truncate] ((x >> 24) as u8));
    out.push(#[verifier::truncate] ((x >> 16) as u8));
    out.push(#[verifier::truncate] ((x >> 8) as u8));
    out.push(#[verifier::truncate] (x as u8));
    proof {
        assert(out@ =~= old(out)@ + be8(x));
    }
}

pub(crate) fn push_be4(out: &mut Vec<u8>, x: u32)
    ensures
        final(out)@ == old(out)@ + be4(x),
{
    out.push(#[verifier::truncate] ((x >> 24) as u8));
    out.push(#[verifier::truncate] ((x >> 16) as u8));
    out.push(#[verifier::truncate] ((x >> 8) as u8));
    out.push(#[verifier::truncate] (x as u8));
    proof {
        assert(out@ =~= old(out)@ + be4(x));
    }
}

pub(crate) fn read_be8(b: &Vec<u8>, pos: usize) -> (r: Option<(u64, usize)>)
    requires
        pos <= b@.len(),
    ensures
        pos + 8 <= b@.len() ==> (r matches Some((x, end)) && end == pos + 8 && be8(x) == b@.subrange(
            pos as int,
            end as int,
        )),
        pos + 8 > b@.len() ==> r is None,
{
    if b.len() - pos < 8 {
        return None;
    }
    let b0 = b[pos];
    let b1 = b[pos + 1];
    let b2 = b[pos + 2];
    let b3 = b[pos + 3];
    let b4 = b[pos + 4];
    let b5 = b[pos + 5];
    let b6 = b[pos + 6];
    let b7 = b[pos + 7];
    let x: u64 = ((b0 as u64) << 56) | ((b1 as u64) << 48) | ((b2 as u64) << 40) | ((b3 as u64)
        << 32) | ((b4 as u64) << 24) | ((b5 as u64) << 16) | ((b6 as u64) << 8) | (b7 as u64);
    proof {
        assert((x >> 56) as u8 == b0 && (x >> 48) as u8 == b1 && (x >> 40) as u8 == b2 && (x >> 32)
            as u8 == b3 && (x >> 24) as u8 == b4 && (x >> 16) as u8 == b5 && (x >> 8) as u8 == b6
            && x as u8 == b7) by (bit_vector)
            requires
                x == ((b0 as u64) << 56) | ((b1 as u64) << 48) | ((b2 as u64) << 40) | ((b3 as u64)
                    << 32) | ((b4 as u64) << 24) | ((b5 as u64) << 16) | ((b6 as u64) << 8) | (
                b7 as u64),
        ;
        assert(be8(x) =~= b@.subrange(pos as int, (pos + 8) as int));
    }
    Some((x, pos + 8))
}

pub(crate) fn read_be4(b: &Vec<u8>, pos: usize) -> (r: Option<(u32, usize)>)
    requires
        pos <= b@.len(),
    ensures
        pos + 4 <= b@.len() ==> (r matches Some((x, end)) && end == pos + 4 && be4(x) == b@.subrange(
            pos as int,
            end as int,
        )),
        pos + 4 > b@.len() ==> r is None,
{
    if b.len() - pos < 4 {
        return None;
    }
    let b0 = b[pos];
    let b1 = b[pos + 1];
    let b2 = b[pos + 2];
    let b3 = b[pos + 3];
    let x: u32 = ((b0 as u32) << 24) | ((b1 as u32) << 16) | ((b2 as u32) << 8) | (b3 as u32);
    proof {
        assert((x >> 24) as u8 == b0 && (x >> 16) as u8 == b1 && (x >> 8) as u8 == b2 && x as u8
            == b3) by (bit_vector)
            requires
                x == ((b0 as u32) << 24) | ((b1 as u32) << 16) | ((b2 as u32) << 8) | (b3 as u32),
        ;
        assert(be4(x) =~= b@.subrange(pos as int, (pos + 4) as int));
    }
    Some((x, pos + 4))
}

/// Relies on `String::from_utf8`: it returns `Ok` exactly on valid UTF-8
/// input, and the returned string is backed by those very bytes.
#[verifier::external_body]
fn string_from_utf8(bytes: Vec<u8>) -> (r: Option<String>)
    ensures
        r is Some <==> valid_utf8(bytes@),
        r matches Some(s) ==> encode_utf8(s@) == bytes@,
{
    match String::from_utf8(bytes) {
        Ok(s) => Some(s),
        Err(_) => None,
    }
}

/// Copies the bytes of `b` between `from` and `to` into a vector of their own.
pub fn copy_range(b: &Vec<u8>, from: usize, to: usize) -> (r: Vec<u8>)
    requires
        from <= to <= b@.len(),
    ensures
        r@ == b@.subrange(from as int, to as int),
{
    let mut r: Vec<u8> = Vec::new();
    let mut i: usize = from;
    while i < to
        invariant
            from <= i <= to <= b@.len(),
            r@ == b@.subrange(from as int, i as int),
        decreases to - i,
    {
        r.push(b[i]);
        proof {
            assert(r@ =~= b@.subrange(from as int, (i + 1) as int));
        }
        i = i + 1;
    }
    r
}

/// Appends the wire bytes of a string field.
pub fn enc_str_into(s: &String, out: &mut Vec<u8>) -> (r: bool)
    ensures
        r == str_encodable(s@),
        r ==> final(out)@ == old(out)@ + spec_enc_str(s@),
        !r ==> final(out)@ == old(out)@,
{
    let mut bytes = s.as_str().as_bytes_vec();
    let n: usize = bytes.len();
    if (n as u64) > MAX_LEN {
        return false;
    }
    out.push(TAG_STR);
    push_be4(out, n as u32);
    out.append(&mut bytes);
    proof {
        assert(out@ =~= old(out)@ + spec_enc_str(s@));
    }
    true
}

/// Appends the wire bytes of a binary field.
pub fn enc_bin_into(b: &Vec<u8>, out: &mut Vec<u8>) -> (r: bool)
    ensures
        r == bin_encodable(b@),
        r ==> final(out)@ == old(out)@ + spec_enc_bin(b@),
        !r ==> final(out)@ == old(out)@,
{
    let n: usize = b.len();
    if (n as u64) > MAX_LEN {
        return false;
    }
    out.push(TAG_BIN);
    push_be4(out, #[verifier::truncate] (n as u32));
    out.extend_from_slice(b.as_slice());
    proof {
        assert(out@ =~= old(out)@ + spec_enc_bin(b@));
    }
    true
}

/// Appends the wire bytes of a value.
pub fn enc_value_into(v: &Value, out: &mut Vec<u8>) -> (r: bool)
    ensures
        r == value_encodable(v@),
        r ==> final(out)@ == old(out)@ + spec_enc_value(v@),
        !r ==> final(out)@ == old(out)@,
{
    match v {
        Value::Nil => {
            out.push(TAG_NIL);
            proof {
                assert(out@ =~= old(out)@ + spec_enc_value(v@));
            }
            true
        },
        Value::Bool(x) => {
            if *x {
                out.push(TAG_TRUE);
            } else {
                out.push(TAG_FALSE);
            }
            proof {
                assert(out@ =~= old(out)@ + spec_enc_value(v@));
            }
            true
        },
        Value::U64(x) => {
            out.push(TAG_U64);
            push_be8(out, *x);
            proof {
                assert(out@ =~= old(out)@ + spec_enc_value(v@));
            }
            true
        },
        Value::I64(x) => {
            out.push(TAG_I64);
            push_be8(out, #[verifier::truncate] (*x as u64));
            proof {
                assert(out@ =~= old(out)@ + spec_enc_value(v@));
            }
            true
        },
        Value::F64(x) => {
            out.push(TAG_F64);
            push_be8(out, *x);
            proof {
                assert(out@ =~= old(out)@ + spec_enc_value(v@));
            }
            true
        },
        Value::Str(s) => enc_str_into(s, out),
        Value::Bin(b) => enc_bin_into(b, out),
    }
}

/// The shape every string encoding has: its tag, its length field, its bytes.
pub proof fn lemma_enc_str_shape(s: Seq<char>)
    ensures
        spec_enc_str(s).len() == 5 + encode_utf8(s).len(),
        spec_enc_str(s)[0] == TAG_STR,
        spec_enc_str(s).subrange(1, 5) == be4(encode_utf8(s).len() as u32),
        spec_enc_str(s).subrange(5, spec_enc_str(s).len() as int) == encode_utf8(s),
{
    assert(spec_enc_str(s).subrange(1, 5) =~= be4(encode_utf8(s).len() as u32));
    assert(spec_enc_str(s).subrange(5, spec_enc_str(s).len() as int) =~= encode_utf8(s));
}

/// The shape every blob encoding has: its tag, its length field, its bytes.
pub proof fn lemma_enc_bin_shape(b: Seq<u8>)
    ensures
        spec_enc_bin(b).len() == 5 + b.len(),
        spec_enc_bin(b)[0] == TAG_BIN,
        spec_enc_bin(b).subrange(1, 5) == be4(b.len() as u32),
        spec_enc_bin(b).subrange(5, spec_enc_bin(b).len() as int) == b,
{
    assert(spec_enc_bin(b).subrange(1, 5) =~= be4(b.len() as u32));
    assert(spec_enc_bin(b).subrange(5, spec_enc_bin(b).len() as int) =~= b);
}

/// How each kind of value shows in its first byte, and how long it runs.
pub proof fn lemma_value_tag(v: ValueV)
    ensures
        spec_enc_value(v).len() >= 1,
        v is Nil ==> spec_enc_value(v) == seq![TAG_NIL],
        v is Bool ==> spec_enc_value(v).len() == 1 && (spec_enc_value(v)[0] == TAG_TRUE
            || spec_enc_value(v)[0] == TAG_FALSE),
        v is Bool ==> (v->Bool_0 <==> spec_enc_value(v)[0] == TAG_TRUE),
        v is U64 ==> spec_enc_value(v)[0] == TAG_U64 && spec_enc_value(v).len() == 9
            && spec_enc_value(v).subrange(1, 9) == be8(v->U64_0),
        v is I64 ==> spec_enc_value(v)[0] == TAG_I64 && spec_enc_value(v).len() == 9
            && spec_enc_value(v).subrange(1, 9) == be8(v->I64_0 as u64),
        v is F64 ==> spec_enc_value(v)[0] == TAG_F64 && spec_enc_value(v).len() == 9
            && spec_enc_value(v).subrange(1, 9) == be8(v->F64_0),
        v is Str ==> spec_enc_value(v)[0] == TAG_STR && spec_enc_value(v) == spec_enc_str(
            v->Str_0,
        ),
        v is Bin ==> spec_enc_value(v)[0] == TAG_BIN && spec_enc_value(v) == spec_enc_bin(
            v->Bin_0,
        ),
{
    match v {
        ValueV::Nil => {},
        ValueV::Bool(x) => {},
        ValueV::U64(x) => {
            assert(spec_enc_value(v).subrange(1, 9) =~= be8(x));
        },
        ValueV::I64(x) => {
            assert(spec_enc_value(v).subrange(1, 9) =~= be8(x as u64));
        },
        ValueV::F64(x) => {
            assert(spec_enc_value(v).subrange(1, 9) =~= be8(x));
        },
        ValueV::Str(s) => {
            lemma_enc_str_shape(s);
        },
        ValueV::Bin(b) => {
            lemma_enc_bin_shape(b);
        },
    }
}

/// Two encoded strings that open the same byte run are the same string.
pub proof fn lemma_enc_str_prefix_injective(s1: Seq<char>, s2: Seq<char>, s: Seq<u8>)
    requires
        str_encodable(s1),
        str_encodable(s2),
        spec_enc_str(s1).is_prefix_of(s),
        spec_enc_str(s2).is_prefix_of(s),
    ensures
        s1 == s2,
{
    lemma_enc_str_shape(s1);
    lemma_enc_str_shape(s2);
    let n1 = encode_utf8(s1).len();
    let n2 = encode_utf8(s2).len();
    assert(be4(n1 as u32) =~= s.subrange(1, 5));
    assert(be4(n2 as u32) =~= s.subrange(1, 5));
    lemma_be4_injective(n1 as u32, n2 as u32);
    assert(n1 == n2);
    assert(encode_utf8(s1) =~= s.subrange(5, 5 + n1 as int));
    assert(encode_utf8(s2) =~= s.subrange(5, 5 + n1 as int));
    encode_utf8_decode_utf8(s1);
    encode_utf8_decode_utf8(s2);
}

/// Two encoded blobs that open the same byte run are the same blob.
pub proof fn lemma_enc_bin_prefix_injective(b1: Seq<u8>, b2: Seq<u8>, s: Seq<u8>)
    requires
        bin_encodable(b1),
        bin_encodable(b2),
        spec_enc_bin(b1).is_prefix_of(s),
        spec_enc_bin(b2).is_prefix_of(s),
    ensures
        b1 == b2,
{
    lemma_enc_bin_shape(b1);
    lemma_enc_bin_shape(b2);
    assert(be4(b1.len() as u32) =~= s.subrange(1, 5));
    assert(be4(b2.len() as u32) =~= s.subrange(1, 5));
    lemma_be4_injective(b1.len() as u32, b2.len() as u32);
    assert(b1.len() == b2.len());
    assert(b1 =~= s.subrange(5, 5 + b1.len() as int));
    assert(b2 =~= s.subrange(5, 5 + b1.len() as int));
}

/// Two encoded values that open the same byte run are the same value: the
/// format is unambiguous, whatever follows a value on the wire.
pub proof fn lemma_enc_value_prefix_injective(a: ValueV, c: ValueV, s: Seq<u8>)
    requires
        value_encodable(a),
        value_encodable(c),
        spec_enc_value(a).is_prefix_of(s),
        spec_enc_value(c).is_prefix_of(s),
    ensures
        a == c,
{
    lemma_value_tag(a);
    lemma_value_tag(c);
    assert(spec_enc_value(a)[0] == s[0]);
    assert(spec_enc_value(c)[0] == s[0]);
    match a {
        ValueV::Nil => {},
        ValueV::Bool(x) => {},
        ValueV::U64(x) => {
            assert(c is U64);
            assert(be8(x) =~= s.subrange(1, 9));
            assert(be8(c->U64_0) =~= s.subrange(1, 9));
            lemma_be8_injective(x, c->U64_0);
        },
        ValueV::I64(x) => {
            assert(c is I64);
            assert(be8(x as u64) =~= s.subrange(1, 9));
            assert(be8(c->I64_0 as u64) =~= s.subrange(1, 9));
            lemma_be8_injective(x as u64, c->I64_0 as u64);
            lemma_i64_cast_injective(x, c->I64_0);
        },
        ValueV::F64(x) => {
            assert(c is F64);
            assert(be8(x) =~= s.subrange(1, 9));
            assert(be8(c->F64_0) =~= s.subrange(1, 9));
            lemma_be8_injective(x, c->F64_0);
        },
        ValueV::Str(s1) => {
            assert(c is Str);
            lemma_enc_str_prefix_injective(s1, c->Str_0, s);
        },
        ValueV::Bin(b1) => {
            assert(c is Bin);
            lemma_enc_bin_prefix_injective(b1, c->Bin_0, s);
        },
    }
}

/// Parses one encoded string starting at `pos`.
pub fn parse_str(b: &Vec<u8>, pos: usize) -> (r: Option<(String, usize)>)
    requires
        pos <= b@.len(),
    ensures
        r matches Some((s, end)) ==> pos <= end <= b@.len() && str_encodable(s@) && b@.subrange(
            pos as int,
            end as int,
        ) == spec_enc_str(s@),
        forall|s0: Seq<char>|
            str_encodable(s0) && (#[trigger] spec_enc_str(s0)).is_prefix_of(
                b@.skip(pos as int),
            ) ==> r is Some,
{
    let ghost tail = b@.skip(pos as int);
    if pos >= b.len() || b[pos] != TAG_STR {
        proof {
            assert forall|s0: Seq<char>|
                str_encodable(s0) && (#[trigger] spec_enc_str(s0)).is_prefix_of(tail) implies false by {
                lemma_enc_str_shape(s0);
                assert(spec_enc_str(s0)[0] == tail[0]);
            }
        }
        return None;
    }
    let len_read = read_be4(b, pos + 1);
    if len_read.is_none() {
        proof {
            assert forall|s0: Seq<char>|
                str_encodable(s0) && (#[trigger] spec_enc_str(s0)).is_prefix_of(tail) implies false by {
                lemma_enc_str_shape(s0);
                assert(tail.len() >= 5);
            }
        }
        return None;
    }
    let (n, p5) = len_read.unwrap();
    let nn: usize = n as usize;
    if nn > b.len() - p5 {
        proof {
            assert forall|s0: Seq<char>|
                str_encodable(s0) && (#[trigger] spec_enc_str(s0)).is_prefix_of(tail) implies false by {
                lemma_enc_str_shape(s0);
                let n0 = encode_utf8(s0).len();
                assert(be4(n0 as u32) =~= b@.subrange(pos + 1, pos + 5));
                lemma_be4_injective(n0 as u32, n);
                assert(tail.len() >= 5 + n0);
            }
        }
        return None;
    }
    let end = p5 + nn;
    let bytes = copy_range(b, p5, end);
    match string_from_utf8(bytes) {
        Some(s) => {
            proof {
                assert(b@.subrange(pos as int, end as int) =~= spec_enc_str(s@));
            }
            Some((s, end))
        },
        None => {
            proof {
                assert forall|s0: Seq<char>|
                    str_encodable(s0) && (#[trigger] spec_enc_str(s0)).is_prefix_of(
                        tail,
                    ) implies false by {
                    lemma_enc_str_shape(s0);
                    let n0 = encode_utf8(s0).len();
                    assert(be4(n0 as u32) =~= b@.subrange(pos + 1, pos + 5));
                    lemma_be4_injective(n0 as u32, n);
                    assert(n0 == nn);
                    assert(encode_utf8(s0) =~= b@.subrange(p5 as int, end as int));
                    encode_utf8_valid_utf8(s0);
                }
            }
            None
        },
    }
}

/// Parses one encoded blob starting at `pos`.
pub fn parse_bin(b: &Vec<u8>, pos: usize) -> (r: Option<(Vec<u8>, usize)>)
    requires
        pos <= b@.len(),
    ensures
        r matches Some((v, end)) ==> pos <= end <= b@.len() && bin_encodable(v@) && b@.subrange(
            pos as int,
            end as int,
        ) == spec_enc_bin(v@),
        forall|b0: Seq<u8>|
            bin_encodable(b0) && (#[trigger] spec_enc_bin(b0)).is_prefix_of(
                b@.skip(pos as int),
            ) ==> r is Some,
{
    let ghost tail = b@.skip(pos as int);
    if pos >= b.len() || b[pos] != TAG_BIN {
        proof {
            assert forall|b0: Seq<u8>|
                bin_encodable(b0) && (#[trigger] spec_enc_bin(b0)).is_prefix_of(tail) implies false by {
                lemma_enc_bin_shape(b0);
                assert(spec_enc_bin(b0)[0] == tail[0]);
            }
        }
        return None;
    }
    let len_read = read_be4(b, pos + 1);
    if len_read.is_none() {
        proof {
            assert forall|b0: Seq<u8>|
                bin_encodable(b0) && (#[trigger] spec_enc_bin(b0)).is_prefix_of(tail) implies false by {
                lemma_enc_bin_shape(b0);
                assert(tail.len() >= 5);
            }
        }
        return None;
    }
    let (n, p5) = len_read.unwrap();
    let nn: usize = n as usize;
    if nn > b.len() - p5 {
        proof {
            assert forall|b0: Seq<u8>|
                bin_encodable(b0) && (#[trigger] spec_enc_bin(b0)).is_prefix_of(tail) implies false by {
                lemma_enc_bin_shape(b0);
                assert(be4(b0.len() as u32) =~= b@.subrange(pos + 1, pos + 5));
                lemma_be4_injective(b0.len() as u32, n);
                assert(tail.len() >= 5 + b0.len());
            }
        }
        return None;
    }
    let end = p5 + nn;
    let v = copy_range(b, p5, end);
    proof {
        assert(b@.subrange(pos as int, end as int) =~= spec_enc_bin(v@));
    }
    Some((v, end))
}

/// Parses one encoded value starting at `pos`.
pub fn parse_value(b: &Vec<u8>, pos: usize) -> (r: Option<(Value, usize)>)
    requires
        pos <= b@.len(),
    ensures
        r matches Some((v, end)) ==> pos <= end <= b@.len() && value_encodable(v@) && b@.subrange(
            pos as int,
            end as int,
        ) == spec_enc_value(v@),
        forall|v0: ValueV|
            value_encodable(v0) && (#[trigger] spec_enc_value(v0)).is_prefix_of(
                b@.skip(pos as int),
            ) ==> r is Some,
{
    let ghost tail = b@.skip(pos as int);
    if pos >= b.len() {
        proof {
            assert forall|v0: ValueV|
                value_encodable(v0) && (#[trigger] spec_enc_value(v0)).is_prefix_of(
                    tail,
                ) implies false by {
                lemma_value_tag(v0);
            }
        }
        return None;
    }
    let tag = b[pos];
    proof {
        assert(tail[0] == b@[pos as int]);
    }
    if tag == TAG_NIL {
        proof {
            assert(b@.subrange(pos as int, (pos + 1) as int) =~= seq![TAG_NIL]);
        }
        Some((Value::Nil, pos + 1))
    } else if tag == TAG_TRUE {
        proof {
            assert(b@.subrange(pos as int, (pos + 1) as int) =~= seq![TAG_TRUE]);
        }
        Some((Value::Bool(true), pos + 1))
    } else if tag == TAG_FALSE {
        proof {
            assert(b@.subrange(pos as int, (pos + 1) as int) =~= seq![TAG_FALSE]);
        }
        Some((Value::Bool(false), pos + 1))
    } else if tag == TAG_U64 || tag == TAG_I64 || tag == TAG_F64 {
        match read_be8(b, pos + 1) {
            Some((x, end)) => {
                let v = if tag == TAG_U64 {
                    Value::U64(x)
                } else if tag == TAG_I64 {
                    Value::I64(#[verifier::truncate] (x as i64))
                } else {
                    Value::F64(x)
                };
                proof {
                    if tag == TAG_I64 {
                        assert(be8((x as i64) as u64) == be8(x)) by {
                            let y = x;
                            assert((y as i64) as u64 == y) by (bit_vector);
                        }
                    }
                    assert(b@.subrange(pos as int, end as int) =~= seq![tag] + b@.subrange(
                        (pos + 1) as int,
                        end as int,
                    ));
                }
                Some((v, end))
            },
            None => {
                proof {
                    assert forall|v0: ValueV|
                        value_encodable(v0) && (#[trigger] spec_enc_value(v0)).is_prefix_of(
                            tail,
                        ) implies false by {
                        lemma_value_tag(v0);
                        assert(spec_enc_value(v0)[0] == tail[0]);
                        assert(tail.len() >= 9);
                    }
                }
                None
            },
        }
    } else if tag == TAG_STR {
        match parse_str(b, pos) {
            Some((s, end)) => {
                proof {
                    lemma_enc_str_shape(s@);
                }
                Some((Value::Str(s), end))
            },
            None => {
                proof {
                    assert forall|v0: ValueV|
                        value_encodable(v0) && (#[trigger] spec_enc_value(v0)).is_prefix_of(
                            tail,
                        ) implies false by {
                        lemma_value_tag(v0);
                        assert(spec_enc_value(v0)[0] == tail[0]);
                        assert(v0 is Str);
                        assert(spec_enc_str(v0->Str_0).is_prefix_of(tail));
                    }
                }
                None
            },
        }
    } else if tag == TAG_BIN {
        match parse_bin(b, pos) {
            Some((v, end)) => {
                proof {
                    lemma_enc_bin_shape(v@);
                }
                Some((Value::Bin(v), end))
            },
            None => {
                proof {
                    assert forall|v0: ValueV|
                        value_encodable(v0) && (#[trigger] spec_enc_value(v0)).is_prefix_of(
                            tail,
                        ) implies false by {
                        lemma_value_tag(v0);
                        assert(spec_enc_value(v0)[0] == tail[0]);
                        assert(v0 is Bin);
                        assert(spec_enc_bin(v0->Bin_0).is_prefix_of(tail));
                    }
                }
                None
            },
        }
    } else {
        proof {
            assert forall|v0: ValueV|
                value_encodable(v0) && (#[trigger] spec_enc_value(v0)).is_prefix_of(
                    tail,
                ) implies false by {
                lemma_value_tag(v0);
                assert(spec_enc_value(v0)[0] == tail[0]);
            }
        }
        None
    }
}

/// Decodes a blob that holds exactly one encoded value.
///
/// Succeeds exactly on the blobs the encoder produces: for every representable
/// value `v`, decoding `encode_value(v)`'s bytes gives `v` back, and whenever
/// decoding succeeds the blob is the encoding of the value returned.
pub fn decode_value(b: &Vec<u8>) -> (r: Result<Value, Error>)
    ensures
        r matches Ok(v) ==> value_encodable(v@) && b@ == spec_enc_value(v@),
        forall|v0: ValueV|
            value_encodable(v0) && b@ == #[trigger] spec_enc_value(v0) ==> (r matches Ok(v) && v@
                == v0),
        r matches Err(e) ==> e@ is Encoding,
{
    proof {
        assert(b@.skip(0) =~= b@);
    }
    match parse_value(b, 0) {
        Some((v, end)) => {
            if end == b.len() {
                proof {
                    assert(b@.subrange(0, end as int) =~= b@);
                    assert forall|v0: ValueV|
                        value_encodable(v0) && b@ == #[trigger] spec_enc_value(v0) implies v@
                        == v0 by {
                        assert(spec_enc_value(v@).is_prefix_of(b@));
                        assert(spec_enc_value(v0).is_prefix_of(b@));
                        lemma_enc_value_prefix_injective(v@, v0, b@);
                    }
                }
                Ok(v)
            } else {
                proof {
                    assert forall|v0: ValueV|
                        value_encodable(v0) && b@ == #[trigger] spec_enc_value(v0) implies false by {
                        assert(spec_enc_value(v@).is_prefix_of(b@));
                        assert(spec_enc_value(v0).is_prefix_of(b@));
                        lemma_enc_value_prefix_injective(v@, v0, b@);
                    }
                }
                Err(Error::Encoding(String::from_str("bytes left over after the value")))
            }
        },
        None => {
            Err(Error::Encoding(String::from_str("malformed value")))
        },
    }
}

/// Encodes one value into a blob of its own.
///
/// Encoding fails exactly when the value itself cannot be represented:
/// a string or blob longer than the length field can say.
pub fn encode_value(v: &Value) -> (r: Result<Vec<u8>, Error>)
    ensures
        r matches Ok(b) ==> value_encodable(v@) && b@ == spec_enc_value(v@),
        r matches Err(e) ==> !value_encodable(v@) && e@ matches crate::error::ErrorV::Encoding(_),
{
    let mut out: Vec<u8> = Vec::new();
    if enc_value_into(v, &mut out) {
        proof {
            assert(out@ =~= spec_enc_value(v@));
        }
        Ok(out)
    } else {
        Err(Error::Encoding(String::from_str("value too large for the wire")))
    }
}

} // verus!
