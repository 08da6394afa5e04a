//! The wire envelopes: Request and Response, with their field-tagged records.
//!
//! An envelope is a map of named fields, each field a tagged value of the
//! codec; a Tuple is a list of independently encoded blobs, so one argument
//! decodes (or fails to) without touching its neighbours.

use vstd::prelude::*;
use vstd::utf8::{encode_utf8, is_ascii_chars, is_ascii_chars_encode_utf8};
use crate::codec::{
    be4, bin_encodable, lemma_be4_injective, lemma_enc_bin_prefix_injective,
    lemma_enc_bin_shape, lemma_enc_str_prefix_injective, lemma_enc_str_shape, parse_bin,
    parse_str, read_be4, push_be4, enc_bin_into, enc_str_into, spec_enc_bin, spec_enc_str,
    str_encodable, MAX_LEN, TAG_NIL, TAG_STR,
};
use crate::error::{CallError, CallErrorV, Error};
use crate::codec::Value;

verus! {

/// Map header of a record with one field.
pub const TAG_MAP1: u8 = 0x81;

/// Map header of a record with two fields.
pub const TAG_MAP2: u8 = 0x82;

/// Map header of a record with three fields.
pub const TAG_MAP3: u8 = 0x83;

/// Map header of a record with five fields.
pub const TAG_MAP5: u8 = 0x85;

/// Header of the argument list.
pub const TAG_ARR: u8 = 0xdd;

/// A named, versioned service instance, as callers address it.
#[derive(Debug, Clone, PartialEq, Eq)]
pub struct ObjectID {
    pub name: String,
    pub version: String,
}

/// Mathematical model of an `ObjectID`.
pub struct ObjectIDV {
    pub name: Seq<char>,
    pub version: Seq<char>,
}

impl View for ObjectID {
    type V = ObjectIDV;

    open spec fn view(&self) -> ObjectIDV {
        ObjectIDV { name: self.name@, version: self.version@ }
    }
}

/// The canonical string form of an object identifier: the bare name when the
/// version is empty, else `name@version`.
pub open spec fn spec_object_key(o: ObjectIDV) -> Seq<char> {
    if o.version.len() == 0 {
        o.name
    } else {
        o.name + "@"@ + o.version
    }
}

impl ObjectID {
    /// Builds an identifier; it is never changed afterwards.
    pub fn new(name: String, version: String) -> (r: ObjectID)
        ensures
            r@.name == name@,
            r@.version == version@,
    {
        ObjectID { name, version }
    }

    /// The canonical string form, used as registry key and queue-name part.
    pub fn key(&self) -> (r: String)
        ensures
            r@ == spec_object_key(self@),
    {
        if self.version.as_str().is_empty() {
            self.name.clone()
        } else {
            let mut r = self.name.clone();
            r.append("@");
            r.append(self.version.as_str());
            r
        }
    }
}

/// The string fields every envelope is keyed with can all be written.
pub proof fn lemma_key_encodable(s: Seq<char>, n: nat)
    requires
        is_ascii_chars(s),
        s.len() == n,
        n <= MAX_LEN,
    ensures
        str_encodable(s),
        encode_utf8(s).len() == n,
{
    is_ascii_chars_encode_utf8(s);
}

/// Splitting a concatenation that opens a byte run.
pub proof fn lemma_concat_prefix(a: Seq<u8>, c: Seq<u8>, s: Seq<u8>)
    requires
        (a + c).is_prefix_of(s),
    ensures
        a.is_prefix_of(s),
        c.is_prefix_of(s.skip(a.len() as int)),
{
    assert(a =~= s.subrange(0, a.len() as int));
    assert forall|i: int| 0 <= i < c.len() implies c[i] == s[a.len() + i] by {
        assert((a + c)[a.len() + i] == c[i]);
        assert((a + c)[a.len() + i] == s.subrange(0, (a.len() + c.len()) as int)[a.len() + i]);
    }
    assert(c =~= s.skip(a.len() as int).subrange(0, c.len() as int));
}

/// Appends the encoding of a field key.
fn enc_key_into(key: &str, out: &mut Vec<u8>)
    requires
        str_encodable(key@),
    ensures
        final(out)@ == old(out)@ + spec_enc_str(key@),
{
    let k = String::from_str(key);
    let ok = enc_str_into(&k, out);
    proof {
        assert(ok);
    }
}

/// Parses a field key and checks it is the expected one.
fn parse_key(b: &Vec<u8>, pos: usize, key: &str) -> (r: Option<usize>)
    requires
        pos <= b@.len(),
        str_encodable(key@),
    ensures
        r matches Some(end) ==> pos <= end <= b@.len() && b@.subrange(pos as int, end as int)
            == spec_enc_str(key@),
        r is None ==> !spec_enc_str(key@).is_prefix_of(b@.skip(pos as int)),
{
    let ghost tail = b@.skip(pos as int);
    match parse_str(b, pos) {
        Some((s, end)) => {
            let k = String::from_str(key);
            if s == k {
                Some(end)
            } else {
                proof {
                    if spec_enc_str(key@).is_prefix_of(tail) {
                        assert(spec_enc_str(s@) =~= tail.subrange(0, (end - pos) as int));
                        lemma_enc_str_prefix_injective(s@, key@, tail);
                    }
                }
                None
            }
        },
        None => None,
    }
}

/// A remote handler failure on the wire: a one-field record.
pub open spec fn spec_enc_callerror(c: CallErrorV) -> Seq<u8> {
    seq![TAG_MAP1] + spec_enc_str("Message"@) + spec_enc_str(c.message)
}

/// A handler failure is representable when its message is.
pub open spec fn callerror_encodable(c: CallErrorV) -> bool {
    str_encodable(c.message)
}

/// The key of the one field of a handler failure.
pub proof fn lemma_callerror_keys()
    ensures
        str_encodable("Message"@),
        encode_utf8("Message"@).len() == 7,
{
    reveal_strlit("Message");
    assert(is_ascii_chars("Message"@));
    lemma_key_encodable("Message"@, 7);
}

fn enc_callerror_into(c: &CallError, out: &mut Vec<u8>) -> (r: bool)
    ensures
        r == callerror_encodable(c@),
        r ==> final(out)@ == old(out)@ + spec_enc_callerror(c@),
{
    proof {
        lemma_callerror_keys();
    }
    out.push(TAG_MAP1);
    enc_key_into("Message", out);
    if !enc_str_into(&c.message, out) {
        return false;
    }
    proof {
        assert(out@ =~= old(out)@ + spec_enc_callerror(c@));
    }
    true
}

/// Two encoded handler failures that open the same byte run are equal.
pub proof fn lemma_enc_callerror_prefix_injective(c1: CallErrorV, c2: CallErrorV, s: Seq<u8>)
    requires
        callerror_encodable(c1),
        callerror_encodable(c2),
        spec_enc_callerror(c1).is_prefix_of(s),
        spec_enc_callerror(c2).is_prefix_of(s),
    ensures
        c1 == c2,
{
    lemma_callerror_keys();
    let hdr = seq![TAG_MAP1] + spec_enc_str("Message"@);
    lemma_concat_prefix(hdr, spec_enc_str(c1.message), s);
    lemma_concat_prefix(hdr, spec_enc_str(c2.message), s);
    lemma_enc_str_prefix_injective(c1.message, c2.message, s.skip(hdr.len() as int));
}

fn parse_callerror(b: &Vec<u8>, pos: usize) -> (r: Option<(CallError, usize)>)
    requires
        pos <= b@.len(),
    ensures
        r matches Some((c, end)) ==> pos <= end <= b@.len() && callerror_encodable(c@)
            && b@.subrange(pos as int, end as int) == spec_enc_callerror(c@),
        forall|c0: CallErrorV|
            callerror_encodable(c0) && (#[trigger] spec_enc_callerror(c0)).is_prefix_of(
                b@.skip(pos as int),
            ) ==> r is Some,
{
    proof {
        lemma_callerror_keys();
    }
    let ghost tail = b@.skip(pos as int);
    let ghost hdr = seq![TAG_MAP1] + spec_enc_str("Message"@);
    if pos >= b.len() || b[pos] != TAG_MAP1 {
        proof {
            assert forall|c0: CallErrorV|
                callerror_encodable(c0) && (#[trigger] spec_enc_callerror(c0)).is_prefix_of(
                    tail,
                ) implies false by {
                assert(spec_enc_callerror(c0)[0] == tail[0]);
            }
        }
        return None;
    }
    let ghost tail1 = b@.skip(pos + 1);
    proof {
        assert(tail.skip(1) =~= tail1);
    }
    let p1 = match parse_key(b, pos + 1, "Message") {
        Some(p) => p,
        None => {
            proof {
                assert forall|c0: CallErrorV|
                    callerror_encodable(c0) && (#[trigger] spec_enc_callerror(c0)).is_prefix_of(
                        tail,
                    ) implies false by {
                    lemma_concat_prefix(seq![TAG_MAP1], spec_enc_str("Message"@) + spec_enc_str(
                        c0.message,
                    ), tail);
                    lemma_concat_prefix(spec_enc_str("Message"@), spec_enc_str(c0.message), tail1);
                    assert((seq![TAG_MAP1] + (spec_enc_str("Message"@) + spec_enc_str(c0.message)))
                        =~= spec_enc_callerror(c0));
                }
            }
            return None;
        },
    };
    match parse_str(b, p1) {
        Some((m, end)) => {
            proof {
                assert(b@.subrange(pos as int, end as int) =~= spec_enc_callerror(
                    CallErrorV { message: m@ },
                ));
            }
            Some((CallError { message: m }, end))
        },
        None => {
            proof {
                assert forall|c0: CallErrorV|
                    callerror_encodable(c0) && (#[trigger] spec_enc_callerror(c0)).is_prefix_of(
                        tail,
                    ) implies false by {
                    lemma_concat_prefix(hdr, spec_enc_str(c0.message), tail);
                    assert((hdr + spec_enc_str(c0.message)) =~= spec_enc_callerror(c0));
                    assert(tail.skip(hdr.len() as int) =~= b@.skip(p1 as int));
                }
            }
            None
        },
    }
}

/// An object identifier on the wire: a two-field record.
pub open spec fn spec_enc_object(o: ObjectIDV) -> Seq<u8> {
    seq![TAG_MAP2] + spec_enc_str("Name"@) + spec_enc_str(o.name) + spec_enc_str("Version"@)
        + spec_enc_str(o.version)
}

/// An object identifier is representable when both its parts are.
pub open spec fn object_encodable(o: ObjectIDV) -> bool {
    str_encodable(o.name) && str_encodable(o.version)
}

/// The keys of the two fields of an object identifier.
pub proof fn lemma_object_keys()
    ensures
        str_encodable("Name"@),
        str_encodable("Version"@),
{
    reveal_strlit("Name");
    reveal_strlit("Version");
    assert(is_ascii_chars("Name"@));
    assert(is_ascii_chars("Version"@));
    lemma_key_encodable("Name"@, 4);
    lemma_key_encodable("Version"@, 7);
}

fn enc_object_into(o: &ObjectID, out: &mut Vec<u8>) -> (r: bool)
    ensures
        r == object_encodable(o@),
        r ==> final(out)@ == old(out)@ + spec_enc_object(o@),
{
    proof {
        lemma_object_keys();
    }
    let mut tmp: Vec<u8> = Vec::new();
    tmp.push(TAG_MAP2);
    enc_key_into("Name", &mut tmp);
    if !enc_str_into(&o.name, &mut tmp) {
        return false;
    }
    enc_key_into("Version", &mut tmp);
    if !enc_str_into(&o.version, &mut tmp) {
        return false;
    }
    out.append(&mut tmp);
    proof {
        assert(out@ =~= old(out)@ + spec_enc_object(o@));
    }
    true
}

/// Two encoded object identifiers that open the same byte run are equal.
pub proof fn lemma_enc_object_prefix_injective(o1: ObjectIDV, o2: ObjectIDV, s: Seq<u8>)
    requires
        object_encodable(o1),
        object_encodable(o2),
        spec_enc_object(o1).is_prefix_of(s),
        spec_enc_object(o2).is_prefix_of(s),
    ensures
        o1 == o2,
{
    lemma_object_keys();
    let hdr = seq![TAG_MAP2] + spec_enc_str("Name"@);
    lemma_concat_prefix(hdr + spec_enc_str(o1.name) + spec_enc_str("Version"@), spec_enc_str(
        o1.version,
    ), s);
    lemma_concat_prefix(hdr + spec_enc_str(o2.name) + spec_enc_str("Version"@), spec_enc_str(
        o2.version,
    ), s);
    lemma_concat_prefix(hdr, spec_enc_str(o1.name), s);
    lemma_concat_prefix(hdr, spec_enc_str(o2.name), s);
    let s1 = s.skip(hdr.len() as int);
    lemma_enc_str_prefix_injective(o1.name, o2.name, s1);
    let mid = hdr + spec_enc_str(o1.name) + spec_enc_str("Version"@);
    lemma_concat_prefix(hdr + spec_enc_str(o1.name), spec_enc_str("Version"@), s);
    lemma_concat_prefix(mid, spec_enc_str(o1.version), s);
    assert((hdr + spec_enc_str(o2.name) + spec_enc_str("Version"@)) =~= mid);
    lemma_concat_prefix(mid, spec_enc_str(o2.version), s);
    lemma_enc_str_prefix_injective(o1.version, o2.version, s.skip(mid.len() as int));
}

#[verifier::rlimit(100)]
#[verifier::spinoff_prover]
fn parse_object(b: &Vec<u8>, pos: usize) -> (r: Option<(ObjectID, usize)>)
    requires
        pos <= b@.len(),
    ensures
        r matches Some((o, end)) ==> pos <= end <= b@.len() && object_encodable(o@)
            && b@.subrange(pos as int, end as int) == spec_enc_object(o@),
        forall|o0: ObjectIDV|
            object_encodable(o0) && (#[trigger] spec_enc_object(o0)).is_prefix_of(
                b@.skip(pos as int),
            ) ==> r is Some,
{
    proof {
        lemma_object_keys();
    }
    let ghost tail = b@.skip(pos as int);
    if pos >= b.len() || b[pos] != TAG_MAP2 {
        proof {
            assert forall|o0: ObjectIDV|
                object_encodable(o0) && (#[trigger] spec_enc_object(o0)).is_prefix_of(
                    tail,
                ) implies false by {
                assert(spec_enc_object(o0)[0] == tail[0]);
            }
        }
        return None;
    }
    proof {
        assert(tail.skip(1) =~= b@.skip(pos + 1));
    }
    let ghost k1 = spec_enc_str("Name"@);
    let ghost k2 = spec_enc_str("Version"@);
    let p1 = match parse_key(b, pos + 1, "Name") {
        Some(p) => p,
        None => {
            proof {
                assert forall|o0: ObjectIDV|
                    object_encodable(o0) && (#[trigger] spec_enc_object(o0)).is_prefix_of(
                        tail,
                    ) implies false by {
                    assert(spec_enc_object(o0) =~= seq![TAG_MAP2] + (k1 + spec_enc_str(o0.name)
                        + k2 + spec_enc_str(o0.version)));
                    lemma_concat_prefix(seq![TAG_MAP2], k1 + spec_enc_str(o0.name) + k2
                        + spec_enc_str(o0.version), tail);
                    lemma_concat_prefix(k1, spec_enc_str(o0.name) + k2 + spec_enc_str(o0.version),
                        tail.skip(1));
                    assert((k1 + (spec_enc_str(o0.name) + k2 + spec_enc_str(o0.version))) =~= (k1
                        + spec_enc_str(o0.name) + k2 + spec_enc_str(o0.version)));
                }
            }
            return None;
        },
    };
    let name_parsed = parse_str(b, p1);
    if name_parsed.is_none() {
        proof {
            assert forall|o0: ObjectIDV|
                object_encodable(o0) && (#[trigger] spec_enc_object(o0)).is_prefix_of(
                    tail,
                ) implies false by {
                assert(spec_enc_object(o0) =~= (seq![TAG_MAP2] + k1) + (spec_enc_str(o0.name) + (k2
                    + spec_enc_str(o0.version))));
                lemma_concat_prefix(seq![TAG_MAP2] + k1, spec_enc_str(o0.name) + (k2
                    + spec_enc_str(o0.version)), tail);
                lemma_concat_prefix(spec_enc_str(o0.name), k2 + spec_enc_str(o0.version),
                    tail.skip(1 + k1.len() as int));
                assert(tail.skip(1 + k1.len() as int) =~= b@.skip(p1 as int));
            }
        }
        return None;
    }
    let (name, p2) = name_parsed.unwrap();
    proof {
        // after the name, both runs agree on where the version key starts
        assert forall|o0: ObjectIDV|
            object_encodable(o0) && (#[trigger] spec_enc_object(o0)).is_prefix_of(
                tail,
            ) implies spec_enc_str(o0.name).is_prefix_of(b@.skip(p1 as int)) && o0.name == name@ by {
            assert(spec_enc_object(o0) =~= (seq![TAG_MAP2] + k1) + (spec_enc_str(o0.name) + (k2
                + spec_enc_str(o0.version))));
            lemma_concat_prefix(seq![TAG_MAP2] + k1, spec_enc_str(o0.name) + (k2 + spec_enc_str(
                o0.version,
            )), tail);
            lemma_concat_prefix(spec_enc_str(o0.name), k2 + spec_enc_str(o0.version), tail.skip(
                1 + k1.len() as int,
            ));
            assert(tail.skip(1 + k1.len() as int) =~= b@.skip(p1 as int));
            assert(spec_enc_str(name@) =~= b@.skip(p1 as int).subrange(0, (p2 - p1) as int));
            lemma_enc_str_prefix_injective(o0.name, name@, b@.skip(p1 as int));
        }
    }
    let p3 = match parse_key(b, p2, "Version") {
        Some(p) => p,
        None => {
            proof {
                assert forall|o0: ObjectIDV|
                    object_encodable(o0) && (#[trigger] spec_enc_object(o0)).is_prefix_of(
                        tail,
                    ) implies false by {
                    assert(spec_enc_object(o0) =~= (seq![TAG_MAP2] + k1) + (spec_enc_str(o0.name)
                        + (k2 + spec_enc_str(o0.version))));
                    lemma_concat_prefix(seq![TAG_MAP2] + k1, spec_enc_str(o0.name) + (k2
                        + spec_enc_str(o0.version)), tail);
                    lemma_concat_prefix(spec_enc_str(o0.name), k2 + spec_enc_str(o0.version),
                        tail.skip(1 + k1.len() as int));
                    lemma_concat_prefix(k2, spec_enc_str(o0.version), b@.skip(p1 as int).skip(
                        spec_enc_str(o0.name).len() as int,
                    ));
                    assert(b@.skip(p1 as int).skip(spec_enc_str(o0.name).len() as int) =~= b@.skip(
                        p2 as int,
                    ));
                }
            }
            return None;
        },
    };
    match parse_str(b, p3) {
        Some((version, end)) => {
            let o = ObjectID { name, version };
            proof {
                assert(b@.subrange(pos as int, end as int) =~= spec_enc_object(o@));
            }
            Some((o, end))
        },
        None => {
            proof {
                assert forall|o0: ObjectIDV|
                    object_encodable(o0) && (#[trigger] spec_enc_object(o0)).is_prefix_of(
                        tail,
                    ) implies false by {
                    assert(spec_enc_object(o0) =~= (seq![TAG_MAP2] + k1) + (spec_enc_str(o0.name)
                        + (k2 + spec_enc_str(o0.version))));
                    lemma_concat_prefix(seq![TAG_MAP2] + k1, spec_enc_str(o0.name) + (k2
                        + spec_enc_str(o0.version)), tail);
                    lemma_concat_prefix(spec_enc_str(o0.name), k2 + spec_enc_str(o0.version),
                        tail.skip(1 + k1.len() as int));
                    lemma_concat_prefix(k2, spec_enc_str(o0.version), b@.skip(p1 as int).skip(
                        spec_enc_str(o0.name).len() as int,
                    ));
                    assert(b@.skip(p1 as int).skip(spec_enc_str(o0.name).len() as int) =~= b@.skip(
                        p2 as int,
                    ));
                    assert(b@.skip(p2 as int).skip(k2.len() as int) =~= b@.skip(p3 as int));
                }
            }
            None
        },
    }
}

/// The blob sequence a vector of byte vectors stands for.
pub open spec fn blobs_view(v: Seq<Vec<u8>>) -> Seq<Seq<u8>> {
    Seq::new(v.len(), |i: int| v[i]@)
}

/// An ordered list of independently encoded argument (or return) blobs.
///
/// The only mutation is appending; an entry decodes on its own, so a
/// mismatch at one index never corrupts reading its neighbours.
#[derive(Debug, Clone, PartialEq)]
pub struct Tuple {
    blobs: Vec<Vec<u8>>,
}

impl View for Tuple {
    type V = Seq<Seq<u8>>;

    closed spec fn view(&self) -> Seq<Seq<u8>> {
        blobs_view(self.blobs@)
    }
}

impl Tuple {
    /// An empty argument list.
    pub fn new() -> (t: Tuple)
        ensures
            t@ == Seq::<Seq<u8>>::empty(),
    {
        let t = Tuple { blobs: Vec::new() };
        proof {
            assert(t@ =~= Seq::<Seq<u8>>::empty());
        }
        t
    }

    /// How many entries the list holds.
    pub fn len(&self) -> (n: usize)
        ensures
            n == self@.len(),
    {
        self.blobs.len()
    }

    /// Appends one value, encoded as a blob of its own.
    ///
    /// Fails exactly when the value itself cannot be represented; the list
    /// is unchanged then.
    pub fn add(&mut self, v: &Value) -> (r: Result<(), Error>)
        ensures
            r matches Ok(_) ==> crate::codec::value_encodable(v@) && final(self)@ == old(
                self,
            )@.push(crate::codec::spec_enc_value(v@)),
            r matches Err(e) ==> !crate::codec::value_encodable(v@) && final(self)@ == old(self)@
                && e@ is Encoding,
    {
        match crate::codec::encode_value(v) {
            Ok(b) => {
                let ghost prev = self@;
                self.blobs.push(b);
                proof {
                    assert(self@ =~= prev.push(crate::codec::spec_enc_value(v@)));
                }
                Ok(())
            },
            Err(e) => {
                proof {
                    assert(self@ =~= old(self)@);
                }
                Err(e)
            },
        }
    }

    /// Decodes the entry at `i`.
    ///
    /// An index at or past the length fails with `ArgumentOutOfRange(i)`;
    /// otherwise the entry alone is decoded, and a shape mismatch is a local
    /// `Encoding` failure.
    pub fn at(&self, i: usize) -> (r: Result<Value, Error>)
        ensures
            i >= self@.len() ==> (r matches Err(e) && e@ == crate::error::ErrorV::ArgumentOutOfRange(
                i,
            )),
            i < self@.len() ==> ((r matches Ok(v) ==> crate::codec::value_encodable(v@) && self@[i as int]
                == crate::codec::spec_enc_value(v@)) && (forall|v0: crate::codec::ValueV|
                crate::codec::value_encodable(v0) && self@[i as int]
                    == #[trigger] crate::codec::spec_enc_value(v0) ==> (r matches Ok(v) && v@
                    == v0)) && (r matches Err(e) ==> e@ is Encoding)),
    {
        if i >= self.blobs.len() {
            Err(Error::ArgumentOutOfRange(i))
        } else {
            crate::codec::decode_value(&self.blobs[i])
        }
    }
}

/// The wire bytes of the entries of a list, one blob after the next.
pub open spec fn spec_enc_blobs(t: Seq<Seq<u8>>) -> Seq<u8>
    decreases t.len(),
{
    if t.len() == 0 {
        Seq::empty()
    } else {
        spec_enc_bin(t[0]) + spec_enc_blobs(t.drop_first())
    }
}

/// Every entry of the list fits its length field.
pub open spec fn blobs_encodable(t: Seq<Seq<u8>>) -> bool {
    forall|i: int| 0 <= i < t.len() ==> bin_encodable(#[trigger] t[i])
}

/// A list is representable when its count and every entry fit.
pub open spec fn tuple_encodable(t: Seq<Seq<u8>>) -> bool {
    t.len() <= MAX_LEN && blobs_encodable(t)
}

/// The wire bytes of an argument list: header, count, then the entries.
pub open spec fn spec_enc_tuple(t: Seq<Seq<u8>>) -> Seq<u8> {
    seq![TAG_ARR] + be4(t.len() as u32) + spec_enc_blobs(t)
}

/// The shape every argument-list encoding has.
pub proof fn lemma_enc_tuple_shape(t: Seq<Seq<u8>>)
    ensures
        spec_enc_tuple(t).len() == 5 + spec_enc_blobs(t).len(),
        spec_enc_tuple(t)[0] == TAG_ARR,
        spec_enc_tuple(t).subrange(1, 5) == be4(t.len() as u32),
        spec_enc_tuple(t).subrange(5, spec_enc_tuple(t).len() as int) == spec_enc_blobs(t),
{
    assert(spec_enc_tuple(t).subrange(1, 5) =~= be4(t.len() as u32));
    assert(spec_enc_tuple(t).subrange(5, spec_enc_tuple(t).len() as int) =~= spec_enc_blobs(t));
}

/// Appending an entry appends its encoding.
pub proof fn lemma_blobs_push(t: Seq<Seq<u8>>, x: Seq<u8>)
    ensures
        spec_enc_blobs(t.push(x)) == spec_enc_blobs(t) + spec_enc_bin(x),
    decreases t.len(),
{
    if t.len() == 0 {
        assert(t.push(x)[0] == x);
        assert(t.push(x).drop_first() =~= Seq::<Seq<u8>>::empty());
        assert(spec_enc_blobs(t) == Seq::<u8>::empty());
        assert(spec_enc_blobs(t.push(x).drop_first()) == Seq::<u8>::empty());
        assert(spec_enc_blobs(t.push(x)) == spec_enc_bin(x) + Seq::<u8>::empty());
        assert(spec_enc_blobs(t.push(x)) =~= spec_enc_blobs(t) + spec_enc_bin(x));
    } else {
        lemma_blobs_push(t.drop_first(), x);
        assert(t.push(x).drop_first() =~= t.drop_first().push(x));
        assert(t.push(x)[0] == t[0]);
        assert(spec_enc_blobs(t.push(x)) == spec_enc_bin(t[0]) + spec_enc_blobs(
            t.drop_first().push(x),
        ));
        assert(spec_enc_bin(t[0]) + (spec_enc_blobs(t.drop_first()) + spec_enc_bin(x)) =~= (
        spec_enc_bin(t[0]) + spec_enc_blobs(t.drop_first())) + spec_enc_bin(x));
    }
}

/// The entry run splits at any entry boundary.
pub proof fn lemma_blobs_split(t: Seq<Seq<u8>>, i: int)
    requires
        0 <= i <= t.len(),
    ensures
        spec_enc_blobs(t) == spec_enc_blobs(t.take(i)) + spec_enc_blobs(t.skip(i)),
    decreases i,
{
    if i == 0 {
        assert(t.take(0) =~= Seq::<Seq<u8>>::empty());
        assert(t.skip(0) =~= t);
        assert(spec_enc_blobs(t) =~= spec_enc_blobs(t.take(0)) + spec_enc_blobs(t.skip(0)));
    } else {
        lemma_blobs_split(t.drop_first(), i - 1);
        assert(t.take(i).drop_first() =~= t.drop_first().take(i - 1));
        assert(t.take(i)[0] == t[0]);
        assert(t.skip(i) =~= t.drop_first().skip(i - 1));
        assert(spec_enc_blobs(t) =~= spec_enc_blobs(t.take(i)) + spec_enc_blobs(t.skip(i)));
    }
}

/// Entry runs of equal count that open the same byte run hold equal entries.
pub proof fn lemma_blobs_prefix_injective(t1: Seq<Seq<u8>>, t2: Seq<Seq<u8>>, s: Seq<u8>)
    requires
        t1.len() == t2.len(),
        blobs_encodable(t1),
        blobs_encodable(t2),
        spec_enc_blobs(t1).is_prefix_of(s),
        spec_enc_blobs(t2).is_prefix_of(s),
    ensures
        t1 == t2,
    decreases t1.len(),
{
    if t1.len() == 0 {
        assert(t1 =~= t2);
    } else {
        lemma_concat_prefix(spec_enc_bin(t1[0]), spec_enc_blobs(t1.drop_first()), s);
        lemma_concat_prefix(spec_enc_bin(t2[0]), spec_enc_blobs(t2.drop_first()), s);
        assert(t1[0] == t1[0] && bin_encodable(t1[0]));
        assert(bin_encodable(t2[0]));
        lemma_enc_bin_prefix_injective(t1[0], t2[0], s);
        assert forall|i: int| 0 <= i < t1.drop_first().len() implies bin_encodable(
            #[trigger] t1.drop_first()[i],
        ) && bin_encodable(t2.drop_first()[i]) by {
            assert(t1.drop_first()[i] == t1[i + 1]);
            assert(t2.drop_first()[i] == t2[i + 1]);
        }
        lemma_blobs_prefix_injective(t1.drop_first(), t2.drop_first(), s.skip(
            spec_enc_bin(t1[0]).len() as int,
        ));
        assert forall|i: int| 0 <= i < t1.len() implies t1[i] == t2[i] by {
            if i > 0 {
                assert(t1.drop_first()[i - 1] == t1[i]);
                assert(t2.drop_first()[i - 1] == t2[i]);
            }
        }
        assert(t1 =~= t2);
    }
}

fn enc_tuple_into(t: &Tuple, out: &mut Vec<u8>)
    requires
        tuple_encodable(t@),
    ensures
        final(out)@ == old(out)@ + spec_enc_tuple(t@),
{
    out.push(TAG_ARR);
    push_be4(out, t.blobs.len() as u32);
    proof {
        assert(t@.take(0) =~= Seq::<Seq<u8>>::empty());
        assert(out@ =~= old(out)@ + seq![TAG_ARR] + be4(t@.len() as u32) + spec_enc_blobs(
            t@.take(0),
        ));
    }
    let n = t.blobs.len();
    let mut i: usize = 0;
    while i < n
        invariant
            i <= n,
            n == t@.len(),
            tuple_encodable(t@),
            t@ == blobs_view(t.blobs@),
            n == t.blobs@.len(),
            out@ == old(out)@ + seq![TAG_ARR] + be4(t@.len() as u32) + spec_enc_blobs(
                t@.take(i as int),
            ),
        decreases n - i,
    {
        let ghost before = out@;
        let ok = enc_bin_into(&t.blobs[i], out);
        proof {
            assert(bin_encodable(t@[i as int]));
            assert(ok);
            lemma_blobs_push(t@.take(i as int), t@[i as int]);
            assert(t@.take(i + 1) =~= t@.take(i as int).push(t@[i as int]));
            assert(out@ =~= old(out)@ + seq![TAG_ARR] + be4(t@.len() as u32) + spec_enc_blobs(
                t@.take(i + 1),
            ));
        }
        i = i + 1;
    }
    proof {
        assert(t@.take(n as int) =~= t@);
        assert(out@ =~= old(out)@ + spec_enc_tuple(t@));
    }
}

/// Checks that an argument list can be written out whole.
fn tuple_encodable_exec(t: &Tuple) -> (r: bool)
    ensures
        r == tuple_encodable(t@),
{
    if (t.blobs.len() as u64) > MAX_LEN {
        return false;
    }
    let n = t.blobs.len();
    let mut i: usize = 0;
    while i < n
        invariant
            i <= n,
            n == t.blobs@.len(),
            t@ == blobs_view(t.blobs@),
            t@.len() as u64 <= MAX_LEN,
            forall|j: int| 0 <= j < i ==> bin_encodable(#[trigger] t@[j]),
        decreases n - i,
    {
        if (t.blobs[i].len() as u64) > MAX_LEN {
            proof {
                assert(t@[i as int] == t.blobs@[i as int]@);
                assert(!bin_encodable(t@[i as int]));
            }
            return false;
        }
        i = i + 1;
    }
    true
}

#[verifier::rlimit(60)]
fn parse_tuple(b: &Vec<u8>, pos: usize) -> (r: Option<(Tuple, usize)>)
    requires
        pos <= b@.len(),
    ensures
        r matches Some((t, end)) ==> pos <= end <= b@.len() && tuple_encodable(t@) && b@.subrange(
            pos as int,
            end as int,
        ) == spec_enc_tuple(t@),
        forall|t0: Seq<Seq<u8>>|
            tuple_encodable(t0) && (#[trigger] spec_enc_tuple(t0)).is_prefix_of(
                b@.skip(pos as int),
            ) ==> r is Some,
{
    let ghost tail = b@.skip(pos as int);
    if pos >= b.len() || b[pos] != TAG_ARR {
        proof {
            assert forall|t0: Seq<Seq<u8>>|
                tuple_encodable(t0) && (#[trigger] spec_enc_tuple(t0)).is_prefix_of(
                    tail,
                ) implies false by {
                assert(spec_enc_tuple(t0)[0] == tail[0]);
            }
        }
        return None;
    }
    let len_read = read_be4(b, pos + 1);
    if len_read.is_none() {
        proof {
            assert forall|t0: Seq<Seq<u8>>|
                tuple_encodable(t0) && (#[trigger] spec_enc_tuple(t0)).is_prefix_of(
                    tail,
                ) implies false by {
                assert(spec_enc_tuple(t0).len() >= 5);
                assert(tail.len() >= 5);
            }
        }
        return None;
    }
    let (n, p5) = len_read.unwrap();
    let ghost hdr = seq![TAG_ARR] + be4(n);
    proof {
        assert(hdr =~= tail.subrange(0, 5));
        assert(tail.skip(5) =~= b@.skip(p5 as int));
    }
    let mut acc = Tuple { blobs: Vec::new() };
    let mut cur: usize = p5;
    let mut i: u32 = 0;
    proof {
        assert(acc@ =~= Seq::<Seq<u8>>::empty());
        assert(acc@.take(0) =~= acc@);
    }
    while i < n
        invariant
            i <= n,
            pos + 5 == p5 <= cur <= b@.len(),
            pos < b@.len(),
            tail == b@.skip(pos as int),
            tail[0] == TAG_ARR,
            b@[pos as int] == TAG_ARR,
            be4(n) == b@.subrange(pos + 1, p5 as int),
            acc@.len() == i,
            blobs_encodable(acc@),
            b@.subrange(p5 as int, cur as int) == spec_enc_blobs(acc@),
        decreases n - i,
    {
        let parsed = parse_bin(b, cur);
        if parsed.is_none() {
            proof {
                assert forall|t0: Seq<Seq<u8>>|
                    tuple_encodable(t0) && (#[trigger] spec_enc_tuple(t0)).is_prefix_of(
                        tail,
                    ) implies false by {
                    lemma_enc_tuple_shape(t0);
                    lemma_concat_prefix(seq![TAG_ARR] + be4(t0.len() as u32), spec_enc_blobs(t0),
                        tail);
                    assert(be4(t0.len() as u32) =~= tail.subrange(1, 5));
                    assert(be4(n) =~= tail.subrange(1, 5));
                    lemma_be4_injective(t0.len() as u32, n);
                    assert(t0.len() == n);
                    assert(tail.skip(5) =~= b@.skip(p5 as int));
                    assert(spec_enc_blobs(t0).is_prefix_of(b@.skip(p5 as int)));
                    lemma_blobs_split(t0, i as int);
                    lemma_concat_prefix(spec_enc_blobs(t0.take(i as int)), spec_enc_blobs(
                        t0.skip(i as int),
                    ), b@.skip(p5 as int));
                    assert forall|j: int| 0 <= j < t0.take(i as int).len() implies bin_encodable(
                        #[trigger] t0.take(i as int)[j],
                    ) by {
                        assert(t0.take(i as int)[j] == t0[j]);
                    }
                    assert(spec_enc_blobs(acc@) =~= b@.skip(p5 as int).subrange(
                        0,
                        (cur - p5) as int,
                    ));
                    lemma_blobs_prefix_injective(acc@, t0.take(i as int), b@.skip(p5 as int));
                    assert(spec_enc_blobs(t0.take(i as int)).len() == cur - p5);
                    assert(b@.skip(p5 as int).skip((cur - p5) as int) =~= b@.skip(cur as int));
                    assert(t0.skip(i as int).len() > 0);
                    assert(t0.skip(i as int)[0] == t0[i as int]);
                    lemma_concat_prefix(spec_enc_bin(t0[i as int]), spec_enc_blobs(
                        t0.skip(i as int).drop_first(),
                    ), b@.skip(cur as int));
                    assert(bin_encodable(t0[i as int]));
                    assert(b@.skip(cur as int) =~= b@.skip(cur as int));
                }
            }
            return None;
        }
        let (v, end2) = parsed.unwrap();
        let ghost accv = acc@;
        acc.blobs.push(v);
        proof {
            assert(acc@ =~= accv.push(v@));
            lemma_blobs_push(accv, v@);
            assert(b@.subrange(p5 as int, end2 as int) =~= spec_enc_blobs(acc@));
            assert forall|j: int| 0 <= j < acc@.len() implies bin_encodable(
                #[trigger] acc@[j],
            ) by {
                if j < accv.len() {
                    assert(acc@[j] == accv[j]);
                } else {
                    assert(acc@[j] == v@);
                }
            }
        }
        cur = end2;
        i = i + 1;
    }
    proof {
        assert(acc@.len() == n);
        assert(tuple_encodable(acc@));
        assert(b@.subrange(pos as int, cur as int) =~= spec_enc_tuple(acc@));
    }
    Some((acc, cur))
}

/// Two encoded argument lists that open the same byte run are equal.
pub proof fn lemma_enc_tuple_prefix_injective(t1: Seq<Seq<u8>>, t2: Seq<Seq<u8>>, s: Seq<u8>)
    requires
        tuple_encodable(t1),
        tuple_encodable(t2),
        spec_enc_tuple(t1).is_prefix_of(s),
        spec_enc_tuple(t2).is_prefix_of(s),
    ensures
        t1 == t2,
{
    lemma_enc_tuple_shape(t1);
    lemma_enc_tuple_shape(t2);
    lemma_concat_prefix(seq![TAG_ARR] + be4(t1.len() as u32), spec_enc_blobs(t1), s);
    lemma_concat_prefix(seq![TAG_ARR] + be4(t2.len() as u32), spec_enc_blobs(t2), s);
    assert(be4(t1.len() as u32) =~= s.subrange(1, 5));
    assert(be4(t2.len() as u32) =~= s.subrange(1, 5));
    lemma_be4_injective(t1.len() as u32, t2.len() as u32);
    assert(t1.len() == t2.len());
    assert(s.skip(5) =~= s.skip(5));
    lemma_blobs_prefix_injective(t1, t2, s.skip(5));
}

/// The model of an optional handler failure.
pub open spec fn view_opt_callerror(o: Option<CallError>) -> Option<CallErrorV> {
    match o {
        Option::None => Option::None,
        Option::Some(c) => Option::Some(c@),
    }
}

/// The model of an optional message string.
pub open spec fn view_opt_string(o: Option<String>) -> Option<Seq<char>> {
    match o {
        Option::None => Option::None,
        Option::Some(s) => Option::Some(s@),
    }
}

/// The application-level result of a dispatched method: either an encoded
/// return value, or the handler's own reported failure with empty data.
#[derive(Debug, Clone, PartialEq)]
pub struct Output {
    pub data: Vec<u8>,
    pub error: Option<CallError>,
}

/// Mathematical model of an `Output`.
pub struct OutputV {
    pub data: Seq<u8>,
    pub error: Option<CallErrorV>,
}

impl View for Output {
    type V = OutputV;

    open spec fn view(&self) -> OutputV {
        OutputV { data: self.data@, error: view_opt_callerror(self.error) }
    }
}

impl Default for Output {
    /// The empty output: no data, no handler failure.
    fn default() -> (o: Output)
        ensures
            o@.data == Seq::<u8>::empty(),
            o@.error is None,
    {
        let o = Output { data: Vec::new(), error: None };
        proof {
            assert(o@.data =~= Seq::<u8>::empty());
        }
        o
    }
}

/// An absent field is a nil byte; a present failure is its record.
pub open spec fn spec_enc_opt_callerror(o: Option<CallErrorV>) -> Seq<u8> {
    match o {
        Option::None => seq![TAG_NIL],
        Option::Some(c) => spec_enc_callerror(c),
    }
}

/// A present failure must be representable.
pub open spec fn opt_callerror_encodable(o: Option<CallErrorV>) -> bool {
    match o {
        Option::None => true,
        Option::Some(c) => callerror_encodable(c),
    }
}

/// An absent string is a nil byte; a present one is its encoding.
pub open spec fn spec_enc_opt_str(o: Option<Seq<char>>) -> Seq<u8> {
    match o {
        Option::None => seq![TAG_NIL],
        Option::Some(s) => spec_enc_str(s),
    }
}

/// A present string must be representable.
pub open spec fn opt_str_encodable(o: Option<Seq<char>>) -> bool {
    match o {
        Option::None => true,
        Option::Some(s) => str_encodable(s),
    }
}

/// Two encoded optional failures that open the same byte run are equal.
pub proof fn lemma_enc_opt_callerror_prefix_injective(
    o1: Option<CallErrorV>,
    o2: Option<CallErrorV>,
    s: Seq<u8>,
)
    requires
        opt_callerror_encodable(o1),
        opt_callerror_encodable(o2),
        spec_enc_opt_callerror(o1).is_prefix_of(s),
        spec_enc_opt_callerror(o2).is_prefix_of(s),
    ensures
        o1 == o2,
{
    assert(spec_enc_opt_callerror(o1)[0] == s[0]);
    assert(spec_enc_opt_callerror(o2)[0] == s[0]);
    match (o1, o2) {
        (Option::Some(c1), Option::Some(c2)) => {
            lemma_enc_callerror_prefix_injective(c1, c2, s);
        },
        _ => {},
    }
}

/// Two encoded optional strings that open the same byte run are equal.
pub proof fn lemma_enc_opt_str_prefix_injective(
    o1: Option<Seq<char>>,
    o2: Option<Seq<char>>,
    s: Seq<u8>,
)
    requires
        opt_str_encodable(o1),
        opt_str_encodable(o2),
        spec_enc_opt_str(o1).is_prefix_of(s),
        spec_enc_opt_str(o2).is_prefix_of(s),
    ensures
        o1 == o2,
{
    assert(spec_enc_opt_str(o1)[0] == s[0]);
    assert(spec_enc_opt_str(o2)[0] == s[0]);
    match (o1, o2) {
        (Option::Some(s1), Option::Some(s2)) => {
            lemma_enc_str_shape(s1);
            lemma_enc_str_shape(s2);
            lemma_enc_str_prefix_injective(s1, s2, s);
        },
        _ => {},
    }
}

fn enc_opt_callerror_into(o: &Option<CallError>, out: &mut Vec<u8>) -> (r: bool)
    ensures
        r == opt_callerror_encodable(view_opt_callerror(*o)),
        r ==> final(out)@ == old(out)@ + spec_enc_opt_callerror(view_opt_callerror(*o)),
{
    match o {
        None => {
            out.push(TAG_NIL);
            proof {
                assert(out@ =~= old(out)@ + seq![TAG_NIL]);
            }
            true
        },
        Some(c) => enc_callerror_into(c, out),
    }
}

fn parse_opt_callerror(b: &Vec<u8>, pos: usize) -> (r: Option<(Option<CallError>, usize)>)
    requires
        pos <= b@.len(),
    ensures
        r matches Some((oc, end)) ==> pos <= end <= b@.len() && opt_callerror_encodable(
            view_opt_callerror(oc),
        ) && b@.subrange(pos as int, end as int) == spec_enc_opt_callerror(view_opt_callerror(oc)),
        forall|o0: Option<CallErrorV>|
            opt_callerror_encodable(o0) && (#[trigger] spec_enc_opt_callerror(o0)).is_prefix_of(
                b@.skip(pos as int),
            ) ==> r is Some,
{
    let ghost tail = b@.skip(pos as int);
    if pos >= b.len() {
        proof {
            assert forall|o0: Option<CallErrorV>|
                opt_callerror_encodable(o0) && (#[trigger] spec_enc_opt_callerror(
                    o0,
                )).is_prefix_of(tail) implies false by {
                assert(spec_enc_opt_callerror(o0).len() >= 1);
            }
        }
        return None;
    }
    if b[pos] == TAG_NIL {
        proof {
            assert(b@.subrange(pos as int, (pos + 1) as int) =~= seq![TAG_NIL]);
        }
        return Some((None, pos + 1));
    }
    match parse_callerror(b, pos) {
        Some((c, end)) => Some((Some(c), end)),
        None => {
            proof {
                assert forall|o0: Option<CallErrorV>|
                    opt_callerror_encodable(o0) && (#[trigger] spec_enc_opt_callerror(
                        o0,
                    )).is_prefix_of(tail) implies false by {
                    assert(spec_enc_opt_callerror(o0)[0] == tail[0]);
                    assert(o0 is Some);
                    assert(spec_enc_callerror(o0->0).is_prefix_of(tail));
                }
            }
            None
        },
    }
}

fn enc_opt_str_into(o: &Option<String>, out: &mut Vec<u8>) -> (r: bool)
    ensures
        r == opt_str_encodable(view_opt_string(*o)),
        r ==> final(out)@ == old(out)@ + spec_enc_opt_str(view_opt_string(*o)),
{
    match o {
        None => {
            out.push(TAG_NIL);
            proof {
                assert(out@ =~= old(out)@ + seq![TAG_NIL]);
            }
            true
        },
        Some(s) => enc_str_into(s, out),
    }
}

fn parse_opt_str(b: &Vec<u8>, pos: usize) -> (r: Option<(Option<String>, usize)>)
    requires
        pos <= b@.len(),
    ensures
        r matches Some((os, end)) ==> pos <= end <= b@.len() && opt_str_encodable(view_opt_string(
            os,
        )) && b@.subrange(pos as int, end as int) == spec_enc_opt_str(view_opt_string(os)),
        forall|o0: Option<Seq<char>>|
            opt_str_encodable(o0) && (#[trigger] spec_enc_opt_str(o0)).is_prefix_of(
                b@.skip(pos as int),
            ) ==> r is Some,
{
    let ghost tail = b@.skip(pos as int);
    if pos >= b.len() {
        proof {
            assert forall|o0: Option<Seq<char>>|
                opt_str_encodable(o0) && (#[trigger] spec_enc_opt_str(o0)).is_prefix_of(
                    tail,
                ) implies false by {
                assert(spec_enc_opt_str(o0).len() >= 1);
                if o0 is Some {
                    lemma_enc_str_shape(o0->0);
                }
            }
        }
        return None;
    }
    if b[pos] == TAG_NIL {
        proof {
            assert(b@.subrange(pos as int, (pos + 1) as int) =~= seq![TAG_NIL]);
        }
        return Some((None, pos + 1));
    }
    match parse_str(b, pos) {
        Some((s, end)) => Some((Some(s), end)),
        None => {
            proof {
                assert forall|o0: Option<Seq<char>>|
                    opt_str_encodable(o0) && (#[trigger] spec_enc_opt_str(o0)).is_prefix_of(
                        tail,
                    ) implies false by {
                    if o0 is Some {
                        lemma_enc_str_shape(o0->0);
                    }
                    assert(spec_enc_opt_str(o0)[0] == tail[0]);
                    assert(o0 is Some);
                    assert(spec_enc_str(o0->0).is_prefix_of(tail));
                }
            }
            None
        },
    }
}

/// An output on the wire: a two-field record, `Data` then `Error`.
pub open spec fn spec_enc_output(o: OutputV) -> Seq<u8> {
    seq![TAG_MAP2] + spec_enc_str("Data"@) + spec_enc_bin(o.data) + spec_enc_str("Error"@)
        + spec_enc_opt_callerror(o.error)
}

/// An output is representable when its data and failure are.
pub open spec fn output_encodable(o: OutputV) -> bool {
    bin_encodable(o.data) && opt_callerror_encodable(o.error)
}

/// The keys of the two fields of an output.
pub proof fn lemma_output_keys()
    ensures
        str_encodable("Data"@),
        str_encodable("Error"@),
{
    reveal_strlit("Data");
    reveal_strlit("Error");
    assert(is_ascii_chars("Data"@));
    assert(is_ascii_chars("Error"@));
    lemma_key_encodable("Data"@, 4);
    lemma_key_encodable("Error"@, 5);
}

/// Where each element of an encoded output stands.
pub proof fn lemma_output_elems(o0: OutputV, tail: Seq<u8>)
    requires
        output_encodable(o0),
        spec_enc_output(o0).is_prefix_of(tail),
    ensures
        tail.len() >= 1 && tail[0] == TAG_MAP2,
        spec_enc_str("Data"@).is_prefix_of(tail.skip(1)),
        spec_enc_bin(o0.data).is_prefix_of(tail.skip(1 + spec_enc_str("Data"@).len() as int)),
        spec_enc_str("Error"@).is_prefix_of(
            tail.skip(
                1 + spec_enc_str("Data"@).len() + spec_enc_bin(o0.data).len() as int,
            ),
        ),
        spec_enc_opt_callerror(o0.error).is_prefix_of(
            tail.skip(
                1 + spec_enc_str("Data"@).len() + spec_enc_bin(o0.data).len() + spec_enc_str(
                    "Error"@,
                ).len() as int,
            ),
        ),
{
    let hdr = seq![TAG_MAP2];
    let k1 = spec_enc_str("Data"@);
    let d = spec_enc_bin(o0.data);
    let k2 = spec_enc_str("Error"@);
    let e = spec_enc_opt_callerror(o0.error);
    lemma_concat_prefix(hdr + k1 + d + k2, e, tail);
    lemma_concat_prefix(hdr + k1 + d, k2, tail);
    lemma_concat_prefix(hdr + k1, d, tail);
    lemma_concat_prefix(hdr, k1, tail);
    assert(hdr[0] == TAG_MAP2);
}

fn enc_output_into(o: &Output, out: &mut Vec<u8>) -> (r: bool)
    ensures
        r == output_encodable(o@),
        r ==> final(out)@ == old(out)@ + spec_enc_output(o@),
{
    proof {
        lemma_output_keys();
    }
    let mut tmp: Vec<u8> = Vec::new();
    tmp.push(TAG_MAP2);
    enc_key_into("Data", &mut tmp);
    if !enc_bin_into(&o.data, &mut tmp) {
        return false;
    }
    enc_key_into("Error", &mut tmp);
    if !enc_opt_callerror_into(&o.error, &mut tmp) {
        return false;
    }
    out.append(&mut tmp);
    proof {
        assert(out@ =~= old(out)@ + spec_enc_output(o@));
    }
    true
}

/// Two encoded outputs that open the same byte run are equal.
pub proof fn lemma_enc_output_prefix_injective(o1: OutputV, o2: OutputV, s: Seq<u8>)
    requires
        output_encodable(o1),
        output_encodable(o2),
        spec_enc_output(o1).is_prefix_of(s),
        spec_enc_output(o2).is_prefix_of(s),
    ensures
        o1 == o2,
{
    lemma_output_keys();
    lemma_output_elems(o1, s);
    lemma_output_elems(o2, s);
    let off1 = 1 + spec_enc_str("Data"@).len() as int;
    lemma_enc_bin_prefix_injective(o1.data, o2.data, s.skip(off1));
    let off2 = off1 + spec_enc_bin(o1.data).len() + spec_enc_str("Error"@).len() as int;
    lemma_enc_opt_callerror_prefix_injective(o1.error, o2.error, s.skip(off2));
}

#[verifier::rlimit(80)]
fn parse_output(b: &Vec<u8>, pos: usize) -> (r: Option<(Output, usize)>)
    requires
        pos <= b@.len(),
    ensures
        r matches Some((o, end)) ==> pos <= end <= b@.len() && output_encodable(o@) && b@.subrange(
            pos as int,
            end as int,
        ) == spec_enc_output(o@),
        forall|o0: OutputV|
            output_encodable(o0) && (#[trigger] spec_enc_output(o0)).is_prefix_of(
                b@.skip(pos as int),
            ) ==> r is Some,
{
    proof {
        lemma_output_keys();
    }
    let ghost tail = b@.skip(pos as int);
    if pos >= b.len() || b[pos] != TAG_MAP2 {
        proof {
            assert forall|o0: OutputV|
                output_encodable(o0) && (#[trigger] spec_enc_output(o0)).is_prefix_of(
                    tail,
                ) implies false by {
                assert(spec_enc_output(o0)[0] == tail[0]);
            }
        }
        return None;
    }
    let p1 = match parse_key(b, pos + 1, "Data") {
        Some(p) => p,
        None => {
            proof {
                assert forall|o0: OutputV|
                    output_encodable(o0) && (#[trigger] spec_enc_output(o0)).is_prefix_of(
                        tail,
                    ) implies false by {
                    lemma_output_elems(o0, tail);
                    assert(tail.skip(1) =~= b@.skip(pos + 1));
                }
            }
            return None;
        },
    };
    let data_parsed = parse_bin(b, p1);
    if data_parsed.is_none() {
        proof {
            assert forall|o0: OutputV|
                output_encodable(o0) && (#[trigger] spec_enc_output(o0)).is_prefix_of(
                    tail,
                ) implies false by {
                lemma_output_elems(o0, tail);
                assert(tail.skip(1 + spec_enc_str("Data"@).len() as int) =~= b@.skip(p1 as int));
            }
        }
        return None;
    }
    let (data, p2) = data_parsed.unwrap();
    proof {
        assert forall|o0: OutputV|
            output_encodable(o0) && (#[trigger] spec_enc_output(o0)).is_prefix_of(
                tail,
            ) implies o0.data == data@ && 1 + spec_enc_str("Data"@).len() + spec_enc_bin(
            o0.data,
        ).len() == p2 - pos by {
            lemma_output_elems(o0, tail);
            assert(tail.skip(1 + spec_enc_str("Data"@).len() as int) =~= b@.skip(p1 as int));
            assert(spec_enc_bin(data@) =~= b@.skip(p1 as int).subrange(0, (p2 - p1) as int));
            lemma_enc_bin_prefix_injective(o0.data, data@, b@.skip(p1 as int));
        }
    }
    let p3 = match parse_key(b, p2, "Error") {
        Some(p) => p,
        None => {
            proof {
                assert forall|o0: OutputV|
                    output_encodable(o0) && (#[trigger] spec_enc_output(o0)).is_prefix_of(
                        tail,
                    ) implies false by {
                    lemma_output_elems(o0, tail);
                    assert(tail.skip(
                        1 + spec_enc_str("Data"@).len() + spec_enc_bin(o0.data).len() as int,
                    ) =~= b@.skip(p2 as int));
                }
            }
            return None;
        },
    };
    match parse_opt_callerror(b, p3) {
        Some((err, end)) => {
            let o = Output { data, error: err };
            proof {
                assert(b@.subrange(pos as int, end as int) =~= spec_enc_output(o@));
            }
            Some((o, end))
        },
        None => {
            proof {
                assert forall|o0: OutputV|
                    output_encodable(o0) && (#[trigger] spec_enc_output(o0)).is_prefix_of(
                        tail,
                    ) implies false by {
                    lemma_output_elems(o0, tail);
                    assert(tail.skip(
                        1 + spec_enc_str("Data"@).len() + spec_enc_bin(o0.data).len()
                            + spec_enc_str("Error"@).len() as int,
                    ) =~= b@.skip(p3 as int));
                }
            }
            None
        },
    }
}

impl Output {
    /// Wraps a handler's result: an encoded return value on success, the
    /// reported failure with empty data otherwise.
    pub fn from_result(res: Result<Value, CallError>) -> (o: Output)
        requires
            res matches Ok(v) ==> crate::codec::value_encodable(v@),
        ensures
            res matches Ok(v) ==> o@.data == crate::codec::spec_enc_value(v@) && o@.error is None,
            res matches Err(e) ==> o@.data == Seq::<u8>::empty() && o@.error == Some(e@),
    {
        match res {
            Ok(v) => match crate::codec::encode_value(&v) {
                Ok(data) => Output { data, error: None },
                Err(_) => vstd::pervasive::unreached(),
            },
            Err(e) => {
                let o = Output { data: Vec::new(), error: Some(e) };
                proof {
                    assert(o@.data =~= Seq::<u8>::empty());
                }
                o
            },
        }
    }

    /// Reads an output back on the caller's side: a reported failure becomes
    /// a `Call` error, else the data blob is decoded.
    pub fn into_result(self) -> (r: Result<Value, Error>)
        ensures
            self@.error matches Some(c) ==> (r matches Err(e) && e@ == crate::error::ErrorV::Call(
                c,
            )),
            self@.error is None ==> ((r matches Ok(v) ==> crate::codec::value_encodable(v@)
                && self@.data == crate::codec::spec_enc_value(v@)) && (forall|
                v0: crate::codec::ValueV,
            |
                crate::codec::value_encodable(v0) && self@.data
                    == #[trigger] crate::codec::spec_enc_value(v0) ==> (r matches Ok(v) && v@
                    == v0)) && (r matches Err(e) ==> e@ is Encoding)),
    {
        match self.error {
            Some(c) => Err(Error::Call(c)),
            None => crate::codec::decode_value(&self.data),
        }
    }
}

/// One call in flight: addressed to an object's method, carrying encoded
/// inputs, answered on the queue named by its correlation id.
#[derive(Debug, Clone, PartialEq)]
pub struct Request {
    pub id: String,
    pub inputs: Tuple,
    pub object: ObjectID,
    pub reply_to: String,
    pub method: String,
}

/// Mathematical model of a `Request`.
pub struct RequestV {
    pub id: Seq<char>,
    pub inputs: Seq<Seq<u8>>,
    pub object: ObjectIDV,
    pub reply_to: Seq<char>,
    pub method: Seq<char>,
}

impl View for Request {
    type V = RequestV;

    open spec fn view(&self) -> RequestV {
        RequestV {
            id: self.id@,
            inputs: self.inputs@,
            object: self.object@,
            reply_to: self.reply_to@,
            method: self.method@,
        }
    }
}

/// A request on the wire: a five-field record.
pub open spec fn spec_enc_request(r: RequestV) -> Seq<u8> {
    seq![TAG_MAP5] + spec_enc_str("ID"@) + spec_enc_str(r.id) + spec_enc_str("Inputs"@)
        + spec_enc_tuple(r.inputs) + spec_enc_str("Object"@) + spec_enc_object(r.object)
        + spec_enc_str("ReplyTo"@) + spec_enc_str(r.reply_to) + spec_enc_str("Method"@)
        + spec_enc_str(r.method)
}

/// A request is representable when each of its fields is.
pub open spec fn request_encodable(r: RequestV) -> bool {
    str_encodable(r.id) && tuple_encodable(r.inputs) && object_encodable(r.object)
        && str_encodable(r.reply_to) && str_encodable(r.method)
}

/// The keys of the five fields of a request.
pub proof fn lemma_request_keys()
    ensures
        str_encodable("ID"@),
        str_encodable("Inputs"@),
        str_encodable("Object"@),
        str_encodable("ReplyTo"@),
        str_encodable("Method"@),
{
    reveal_strlit("ID");
    reveal_strlit("Inputs");
    reveal_strlit("Object");
    reveal_strlit("ReplyTo");
    reveal_strlit("Method");
    assert(is_ascii_chars("ID"@));
    assert(is_ascii_chars("Inputs"@));
    assert(is_ascii_chars("Object"@));
    assert(is_ascii_chars("ReplyTo"@));
    assert(is_ascii_chars("Method"@));
    lemma_key_encodable("ID"@, 2);
    lemma_key_encodable("Inputs"@, 6);
    lemma_key_encodable("Object"@, 6);
    lemma_key_encodable("ReplyTo"@, 7);
    lemma_key_encodable("Method"@, 6);
}

/// Where the id value starts inside an encoded request.
pub open spec fn req_off_id(r: RequestV) -> int {
    1 + spec_enc_str("ID"@).len() as int
}

/// Where the `Inputs` key starts.
pub open spec fn req_off_kin(r: RequestV) -> int {
    req_off_id(r) + spec_enc_str(r.id).len() as int
}

/// Where the argument list starts.
pub open spec fn req_off_in(r: RequestV) -> int {
    req_off_kin(r) + spec_enc_str("Inputs"@).len() as int
}

/// Where the `Object` key starts.
pub open spec fn req_off_kobj(r: RequestV) -> int {
    req_off_in(r) + spec_enc_tuple(r.inputs).len() as int
}

/// Where the object identifier starts.
pub open spec fn req_off_obj(r: RequestV) -> int {
    req_off_kobj(r) + spec_enc_str("Object"@).len() as int
}

/// Where the `ReplyTo` key starts.
pub open spec fn req_off_krt(r: RequestV) -> int {
    req_off_obj(r) + spec_enc_object(r.object).len() as int
}

/// Where the reply queue name starts.
pub open spec fn req_off_rt(r: RequestV) -> int {
    req_off_krt(r) + spec_enc_str("ReplyTo"@).len() as int
}

/// Where the `Method` key starts.
pub open spec fn req_off_km(r: RequestV) -> int {
    req_off_rt(r) + spec_enc_str(r.reply_to).len() as int
}

/// Where the method name starts.
pub open spec fn req_off_m(r: RequestV) -> int {
    req_off_km(r) + spec_enc_str("Method"@).len() as int
}

/// Where each element of an encoded request stands.
pub proof fn lemma_request_elems(r0: RequestV, tail: Seq<u8>)
    requires
        request_encodable(r0),
        spec_enc_request(r0).is_prefix_of(tail),
    ensures
        tail.len() >= 1 && tail[0] == TAG_MAP5,
        spec_enc_str("ID"@).is_prefix_of(tail.skip(1)),
        spec_enc_str(r0.id).is_prefix_of(tail.skip(req_off_id(r0))),
        spec_enc_str("Inputs"@).is_prefix_of(tail.skip(req_off_kin(r0))),
        spec_enc_tuple(r0.inputs).is_prefix_of(tail.skip(req_off_in(r0))),
        spec_enc_str("Object"@).is_prefix_of(tail.skip(req_off_kobj(r0))),
        spec_enc_object(r0.object).is_prefix_of(tail.skip(req_off_obj(r0))),
        spec_enc_str("ReplyTo"@).is_prefix_of(tail.skip(req_off_krt(r0))),
        spec_enc_str(r0.reply_to).is_prefix_of(tail.skip(req_off_rt(r0))),
        spec_enc_str("Method"@).is_prefix_of(tail.skip(req_off_km(r0))),
        spec_enc_str(r0.method).is_prefix_of(tail.skip(req_off_m(r0))),
{
    let hdr = seq![TAG_MAP5];
    let k1 = spec_enc_str("ID"@);
    let s1 = spec_enc_str(r0.id);
    let k2 = spec_enc_str("Inputs"@);
    let t = spec_enc_tuple(r0.inputs);
    let k3 = spec_enc_str("Object"@);
    let ob = spec_enc_object(r0.object);
    let k4 = spec_enc_str("ReplyTo"@);
    let s4 = spec_enc_str(r0.reply_to);
    let k5 = spec_enc_str("Method"@);
    let s5 = spec_enc_str(r0.method);
    lemma_concat_prefix(hdr + k1 + s1 + k2 + t + k3 + ob + k4 + s4 + k5, s5, tail);
    lemma_concat_prefix(hdr + k1 + s1 + k2 + t + k3 + ob + k4 + s4, k5, tail);
    lemma_concat_prefix(hdr + k1 + s1 + k2 + t + k3 + ob + k4, s4, tail);
    lemma_concat_prefix(hdr + k1 + s1 + k2 + t + k3 + ob, k4, tail);
    lemma_concat_prefix(hdr + k1 + s1 + k2 + t + k3, ob, tail);
    lemma_concat_prefix(hdr + k1 + s1 + k2 + t, k3, tail);
    lemma_concat_prefix(hdr + k1 + s1 + k2, t, tail);
    lemma_concat_prefix(hdr + k1 + s1, k2, tail);
    lemma_concat_prefix(hdr + k1, s1, tail);
    lemma_concat_prefix(hdr, k1, tail);
    assert(hdr[0] == TAG_MAP5);
}

/// Two encoded requests that open the same byte run are equal.
pub proof fn lemma_enc_request_prefix_injective(r1: RequestV, r2: RequestV, s: Seq<u8>)
    requires
        request_encodable(r1),
        request_encodable(r2),
        spec_enc_request(r1).is_prefix_of(s),
        spec_enc_request(r2).is_prefix_of(s),
    ensures
        r1 == r2,
{
    lemma_request_keys();
    lemma_request_elems(r1, s);
    lemma_request_elems(r2, s);
    lemma_enc_str_prefix_injective(r1.id, r2.id, s.skip(req_off_id(r1)));
    assert(req_off_in(r2) == req_off_in(r1));
    lemma_enc_tuple_prefix_injective(r1.inputs, r2.inputs, s.skip(req_off_in(r1)));
    assert(req_off_obj(r2) == req_off_obj(r1));
    lemma_enc_object_prefix_injective(r1.object, r2.object, s.skip(req_off_obj(r1)));
    assert(req_off_rt(r2) == req_off_rt(r1));
    lemma_enc_str_prefix_injective(r1.reply_to, r2.reply_to, s.skip(req_off_rt(r1)));
    assert(req_off_m(r2) == req_off_m(r1));
    lemma_enc_str_prefix_injective(r1.method, r2.method, s.skip(req_off_m(r1)));
}

fn enc_err() -> (e: Error)
    ensures
        e@ is Encoding,
{
    Error::Encoding(String::from_str("value too large for the wire"))
}

/// Encodes a request for the broker.
///
/// Fails exactly when some field cannot be represented on the wire.
pub fn encode_request(r: &Request) -> (res: Result<Vec<u8>, Error>)
    ensures
        res matches Ok(bts) ==> request_encodable(r@) && bts@ == spec_enc_request(r@),
        res matches Err(e) ==> !request_encodable(r@) && e@ is Encoding,
{
    proof {
        lemma_request_keys();
    }
    let mut out: Vec<u8> = Vec::new();
    out.push(TAG_MAP5);
    enc_key_into("ID", &mut out);
    if !enc_str_into(&r.id, &mut out) {
        return Err(enc_err());
    }
    enc_key_into("Inputs", &mut out);
    if !tuple_encodable_exec(&r.inputs) {
        return Err(enc_err());
    }
    enc_tuple_into(&r.inputs, &mut out);
    enc_key_into("Object", &mut out);
    if !enc_object_into(&r.object, &mut out) {
        return Err(enc_err());
    }
    enc_key_into("ReplyTo", &mut out);
    if !enc_str_into(&r.reply_to, &mut out) {
        return Err(enc_err());
    }
    enc_key_into("Method", &mut out);
    if !enc_str_into(&r.method, &mut out) {
        return Err(enc_err());
    }
    proof {
        assert(out@ =~= spec_enc_request(r@));
    }
    Ok(out)
}


/// No encoded request opens this run: its `ID` key is not where it belongs.
#[verifier::rlimit(100)]
#[verifier::spinoff_prover]
proof fn lemma_req_nopfx_kid(b: Seq<u8>, pos: int)
    requires
        0 <= pos <= b.len(),
        !spec_enc_str("ID"@).is_prefix_of(b.skip(pos + 1)),
    ensures
        forall|r0: RequestV|
            request_encodable(r0) ==> !(#[trigger] spec_enc_request(r0)).is_prefix_of(b.skip(pos)),
{
    lemma_request_keys();
    assert forall|r0: RequestV|
        request_encodable(r0) implies !(#[trigger] spec_enc_request(r0)).is_prefix_of(
        b.skip(pos),
    ) by {
        if spec_enc_request(r0).is_prefix_of(b.skip(pos)) {
            lemma_request_elems(r0, b.skip(pos));
            assert(b.skip(pos).skip(1) =~= b.skip(pos + 1));
        }
    }
}

/// No encoded request opens this run: no string stands where its id belongs.
#[verifier::rlimit(100)]
#[verifier::spinoff_prover]
proof fn lemma_req_nopfx_id(b: Seq<u8>, pos: int, p1: int)
    requires
        0 <= pos && pos + 1 <= p1 <= b.len(),
        b.subrange(pos + 1, p1) == spec_enc_str("ID"@),
        forall|s0: Seq<char>|
            str_encodable(s0) ==> !(#[trigger] spec_enc_str(s0)).is_prefix_of(b.skip(p1)),
    ensures
        forall|r0: RequestV|
            request_encodable(r0) ==> !(#[trigger] spec_enc_request(r0)).is_prefix_of(b.skip(pos)),
{
    lemma_request_keys();
    assert forall|r0: RequestV|
        request_encodable(r0) implies !(#[trigger] spec_enc_request(r0)).is_prefix_of(
        b.skip(pos),
    ) by {
        if spec_enc_request(r0).is_prefix_of(b.skip(pos)) {
            lemma_request_elems(r0, b.skip(pos));
            assert(b.skip(pos).skip(req_off_id(r0)) =~= b.skip(p1));
        }
    }
}

/// Whatever encoded request opens this run carries this id, and its
/// `Inputs` key starts where the parser now stands.
#[verifier::rlimit(100)]
#[verifier::spinoff_prover]
proof fn lemma_req_align_id(b: Seq<u8>, pos: int, p1: int, p2: int, idv: Seq<char>)
    requires
        0 <= pos && pos + 1 <= p1 <= p2 <= b.len(),
        b.subrange(pos + 1, p1) == spec_enc_str("ID"@),
        str_encodable(idv),
        b.subrange(p1, p2) == spec_enc_str(idv),
    ensures
        forall|r0: RequestV|
            request_encodable(r0) && (#[trigger] spec_enc_request(r0)).is_prefix_of(
                b.skip(pos),
            ) ==> (r0.id == idv && pos + req_off_kin(r0) == p2),
{
    lemma_request_keys();
    assert forall|r0: RequestV|
        request_encodable(r0) && (#[trigger] spec_enc_request(r0)).is_prefix_of(
            b.skip(pos),
        ) implies (r0.id == idv && pos + req_off_kin(r0) == p2) by {
        lemma_request_elems(r0, b.skip(pos));
        assert(b.skip(pos).skip(req_off_id(r0)) =~= b.skip(p1));
        assert(spec_enc_str(idv).is_prefix_of(b.skip(p1))) by {
            assert(spec_enc_str(idv) =~= b.skip(p1).subrange(0, p2 - p1));
        }
        lemma_enc_str_prefix_injective(r0.id, idv, b.skip(p1));
    }
}

/// No encoded request opens this run: its `Inputs` key is missing.
#[verifier::rlimit(100)]
#[verifier::spinoff_prover]
proof fn lemma_req_nopfx_kin(b: Seq<u8>, pos: int, p1: int, p2: int, idv: Seq<char>)
    requires
        0 <= pos && pos + 1 <= p1 <= p2 <= b.len(),
        b.subrange(pos + 1, p1) == spec_enc_str("ID"@),
        str_encodable(idv),
        b.subrange(p1, p2) == spec_enc_str(idv),
        !spec_enc_str("Inputs"@).is_prefix_of(b.skip(p2)),
    ensures
        forall|r0: RequestV|
            request_encodable(r0) ==> !(#[trigger] spec_enc_request(r0)).is_prefix_of(b.skip(pos)),
{
    lemma_request_keys();
    lemma_req_align_id(b, pos, p1, p2, idv);
    assert forall|r0: RequestV|
        request_encodable(r0) implies !(#[trigger] spec_enc_request(r0)).is_prefix_of(
        b.skip(pos),
    ) by {
        if spec_enc_request(r0).is_prefix_of(b.skip(pos)) {
            lemma_request_elems(r0, b.skip(pos));
            assert(b.skip(pos).skip(req_off_kin(r0)) =~= b.skip(p2));
        }
    }
}

/// No encoded request opens this run: no argument list stands after `Inputs`.
#[verifier::rlimit(100)]
#[verifier::spinoff_prover]
proof fn lemma_req_nopfx_in(b: Seq<u8>, pos: int, p1: int, p2: int, p3: int, idv: Seq<char>)
    requires
        0 <= pos && pos + 1 <= p1 <= p2 <= p3 <= b.len(),
        b.subrange(pos + 1, p1) == spec_enc_str("ID"@),
        str_encodable(idv),
        b.subrange(p1, p2) == spec_enc_str(idv),
        b.subrange(p2, p3) == spec_enc_str("Inputs"@),
        forall|t0: Seq<Seq<u8>>|
            tuple_encodable(t0) ==> !(#[trigger] spec_enc_tuple(t0)).is_prefix_of(b.skip(p3)),
    ensures
        forall|r0: RequestV|
            request_encodable(r0) ==> !(#[trigger] spec_enc_request(r0)).is_prefix_of(b.skip(pos)),
{
    lemma_request_keys();
    lemma_req_align_id(b, pos, p1, p2, idv);
    assert forall|r0: RequestV|
        request_encodable(r0) implies !(#[trigger] spec_enc_request(r0)).is_prefix_of(
        b.skip(pos),
    ) by {
        if spec_enc_request(r0).is_prefix_of(b.skip(pos)) {
            lemma_request_elems(r0, b.skip(pos));
            assert(b.skip(pos).skip(req_off_in(r0)) =~= b.skip(p3));
        }
    }
}

/// Whatever encoded request opens this run carries these inputs, and its
/// `Object` key starts where the parser now stands.
#[verifier::rlimit(100)]
#[verifier::spinoff_prover]
proof fn lemma_req_align_in(
    b: Seq<u8>,
    pos: int,
    p1: int,
    p2: int,
    p3: int,
    p4: int,
    idv: Seq<char>,
    tv: Seq<Seq<u8>>,
)
    requires
        0 <= pos && pos + 1 <= p1 <= p2 <= p3 <= p4 <= b.len(),
        b.subrange(pos + 1, p1) == spec_enc_str("ID"@),
        str_encodable(idv),
        b.subrange(p1, p2) == spec_enc_str(idv),
        b.subrange(p2, p3) == spec_enc_str("Inputs"@),
        tuple_encodable(tv),
        b.subrange(p3, p4) == spec_enc_tuple(tv),
    ensures
        forall|r0: RequestV|
            request_encodable(r0) && (#[trigger] spec_enc_request(r0)).is_prefix_of(
                b.skip(pos),
            ) ==> (r0.id == idv && r0.inputs == tv && pos + req_off_kobj(r0) == p4),
{
    lemma_request_keys();
    lemma_req_align_id(b, pos, p1, p2, idv);
    assert forall|r0: RequestV|
        request_encodable(r0) && (#[trigger] spec_enc_request(r0)).is_prefix_of(
            b.skip(pos),
        ) implies (r0.id == idv && r0.inputs == tv && pos + req_off_kobj(r0) == p4) by {
        lemma_request_elems(r0, b.skip(pos));
        assert(b.skip(pos).skip(req_off_in(r0)) =~= b.skip(p3));
        assert(spec_enc_tuple(tv).is_prefix_of(b.skip(p3))) by {
            assert(spec_enc_tuple(tv) =~= b.skip(p3).subrange(0, p4 - p3));
        }
        lemma_enc_tuple_prefix_injective(r0.inputs, tv, b.skip(p3));
    }
}

/// No encoded request opens this run: its `Object` key is missing.
#[verifier::rlimit(100)]
#[verifier::spinoff_prover]
proof fn lemma_req_nopfx_kobj(
    b: Seq<u8>,
    pos: int,
    p1: int,
    p2: int,
    p3: int,
    p4: int,
    idv: Seq<char>,
    tv: Seq<Seq<u8>>,
)
    requires
        0 <= pos && pos + 1 <= p1 <= p2 <= p3 <= p4 <= b.len(),
        b.subrange(pos + 1, p1) == spec_enc_str("ID"@),
        str_encodable(idv),
        b.subrange(p1, p2) == spec_enc_str(idv),
        b.subrange(p2, p3) == spec_enc_str("Inputs"@),
        tuple_encodable(tv),
        b.subrange(p3, p4) == spec_enc_tuple(tv),
        !spec_enc_str("Object"@).is_prefix_of(b.skip(p4)),
    ensures
        forall|r0: RequestV|
            request_encodable(r0) ==> !(#[trigger] spec_enc_request(r0)).is_prefix_of(b.skip(pos)),
{
    lemma_request_keys();
    lemma_req_align_in(b, pos, p1, p2, p3, p4, idv, tv);
    assert forall|r0: RequestV|
        request_encodable(r0) implies !(#[trigger] spec_enc_request(r0)).is_prefix_of(
        b.skip(pos),
    ) by {
        if spec_enc_request(r0).is_prefix_of(b.skip(pos)) {
            lemma_request_elems(r0, b.skip(pos));
            assert(b.skip(pos).skip(req_off_kobj(r0)) =~= b.skip(p4));
        }
    }
}

/// No encoded request opens this run: no object identifier stands after `Object`.
#[verifier::rlimit(100)]
#[verifier::spinoff_prover]
proof fn lemma_req_nopfx_obj(
    b: Seq<u8>,
    pos: int,
    p1: int,
    p2: int,
    p3: int,
    p4: int,
    p5: int,
    idv: Seq<char>,
    tv: Seq<Seq<u8>>,
)
    requires
        0 <= pos && pos + 1 <= p1 <= p2 <= p3 <= p4 <= p5 <= b.len(),
        b.subrange(pos + 1, p1) == spec_enc_str("ID"@),
        str_encodable(idv),
        b.subrange(p1, p2) == spec_enc_str(idv),
        b.subrange(p2, p3) == spec_enc_str("Inputs"@),
        tuple_encodable(tv),
        b.subrange(p3, p4) == spec_enc_tuple(tv),
        b.subrange(p4, p5) == spec_enc_str("Object"@),
        forall|o0: ObjectIDV|
            object_encodable(o0) ==> !(#[trigger] spec_enc_object(o0)).is_prefix_of(b.skip(p5)),
    ensures
        forall|r0: RequestV|
            request_encodable(r0) ==> !(#[trigger] spec_enc_request(r0)).is_prefix_of(b.skip(pos)),
{
    lemma_request_keys();
    lemma_req_align_in(b, pos, p1, p2, p3, p4, idv, tv);
    assert forall|r0: RequestV|
        request_encodable(r0) implies !(#[trigger] spec_enc_request(r0)).is_prefix_of(
        b.skip(pos),
    ) by {
        if spec_enc_request(r0).is_prefix_of(b.skip(pos)) {
            lemma_request_elems(r0, b.skip(pos));
            assert(b.skip(pos).skip(req_off_obj(r0)) =~= b.skip(p5));
        }
    }
}

/// Whatever encoded request opens this run is addressed to this object, and
/// its `ReplyTo` key starts where the parser now stands.
#[verifier::rlimit(100)]
#[verifier::spinoff_prover]
proof fn lemma_req_align_obj(
    b: Seq<u8>,
    pos: int,
    p1: int,
    p2: int,
    p3: int,
    p4: int,
    p5: int,
    p6: int,
    idv: Seq<char>,
    tv: Seq<Seq<u8>>,
    ov: ObjectIDV,
)
    requires
        0 <= pos && pos + 1 <= p1 <= p2 <= p3 <= p4 <= p5 <= p6 <= b.len(),
        b.subrange(pos + 1, p1) == spec_enc_str("ID"@),
        str_encodable(idv),
        b.subrange(p1, p2) == spec_enc_str(idv),
        b.subrange(p2, p3) == spec_enc_str("Inputs"@),
        tuple_encodable(tv),
        b.subrange(p3, p4) == spec_enc_tuple(tv),
        b.subrange(p4, p5) == spec_enc_str("Object"@),
        object_encodable(ov),
        b.subrange(p5, p6) == spec_enc_object(ov),
    ensures
        forall|r0: RequestV|
            request_encodable(r0) && (#[trigger] spec_enc_request(r0)).is_prefix_of(
                b.skip(pos),
            ) ==> (r0.id == idv && r0.inputs == tv && r0.object == ov && pos + req_off_krt(r0)
                == p6),
{
    lemma_request_keys();
    lemma_req_align_in(b, pos, p1, p2, p3, p4, idv, tv);
    assert forall|r0: RequestV|
        request_encodable(r0) && (#[trigger] spec_enc_request(r0)).is_prefix_of(
            b.skip(pos),
        ) implies (r0.id == idv && r0.inputs == tv && r0.object == ov && pos + req_off_krt(r0)
        == p6) by {
        lemma_request_elems(r0, b.skip(pos));
        assert(b.skip(pos).skip(req_off_obj(r0)) =~= b.skip(p5));
        assert(spec_enc_object(ov).is_prefix_of(b.skip(p5))) by {
            assert(spec_enc_object(ov) =~= b.skip(p5).subrange(0, p6 - p5));
        }
        lemma_enc_object_prefix_injective(r0.object, ov, b.skip(p5));
    }
}

/// No encoded request opens this run: its `ReplyTo` key is missing.
#[verifier::rlimit(100)]
#[verifier::spinoff_prover]
proof fn lemma_req_nopfx_krt(
    b: Seq<u8>,
    pos: int,
    p1: int,
    p2: int,
    p3: int,
    p4: int,
    p5: int,
    p6: int,
    idv: Seq<char>,
    tv: Seq<Seq<u8>>,
    ov: ObjectIDV,
)
    requires
        0 <= pos && pos + 1 <= p1 <= p2 <= p3 <= p4 <= p5 <= p6 <= b.len(),
        b.subrange(pos + 1, p1) == spec_enc_str("ID"@),
        str_encodable(idv),
        b.subrange(p1, p2) == spec_enc_str(idv),
        b.subrange(p2, p3) == spec_enc_str("Inputs"@),
        tuple_encodable(tv),
        b.subrange(p3, p4) == spec_enc_tuple(tv),
        b.subrange(p4, p5) == spec_enc_str("Object"@),
        object_encodable(ov),
        b.subrange(p5, p6) == spec_enc_object(ov),
        !spec_enc_str("ReplyTo"@).is_prefix_of(b.skip(p6)),
    ensures
        forall|r0: RequestV|
            request_encodable(r0) ==> !(#[trigger] spec_enc_request(r0)).is_prefix_of(b.skip(pos)),
{
    lemma_request_keys();
    lemma_req_align_obj(b, pos, p1, p2, p3, p4, p5, p6, idv, tv, ov);
    assert forall|r0: RequestV|
        request_encodable(r0) implies !(#[trigger] spec_enc_request(r0)).is_prefix_of(
        b.skip(pos),
    ) by {
        if spec_enc_request(r0).is_prefix_of(b.skip(pos)) {
            lemma_request_elems(r0, b.skip(pos));
            assert(b.skip(pos).skip(req_off_krt(r0)) =~= b.skip(p6));
        }
    }
}

/// No encoded request opens this run: no string stands after `ReplyTo`.
#[verifier::rlimit(100)]
#[verifier::spinoff_prover]
proof fn lemma_req_nopfx_rt(
    b: Seq<u8>,
    pos: int,
    p1: int,
    p2: int,
    p3: int,
    p4: int,
    p5: int,
    p6: int,
    p7: int,
    idv: Seq<char>,
    tv: Seq<Seq<u8>>,
    ov: ObjectIDV,
)
    requires
        0 <= pos && pos + 1 <= p1 <= p2 <= p3 <= p4 <= p5 <= p6 <= p7 <= b.len(),
        b.subrange(pos + 1, p1) == spec_enc_str("ID"@),
        str_encodable(idv),
        b.subrange(p1, p2) == spec_enc_str(idv),
        b.subrange(p2, p3) == spec_enc_str("Inputs"@),
        tuple_encodable(tv),
        b.subrange(p3, p4) == spec_enc_tuple(tv),
        b.subrange(p4, p5) == spec_enc_str("Object"@),
        object_encodable(ov),
        b.subrange(p5, p6) == spec_enc_object(ov),
        b.subrange(p6, p7) == spec_enc_str("ReplyTo"@),
        forall|s0: Seq<char>|
            str_encodable(s0) ==> !(#[trigger] spec_enc_str(s0)).is_prefix_of(b.skip(p7)),
    ensures
        forall|r0: RequestV|
            request_encodable(r0) ==> !(#[trigger] spec_enc_request(r0)).is_prefix_of(b.skip(pos)),
{
    lemma_request_keys();
    lemma_req_align_obj(b, pos, p1, p2, p3, p4, p5, p6, idv, tv, ov);
    assert forall|r0: RequestV|
        request_encodable(r0) implies !(#[trigger] spec_enc_request(r0)).is_prefix_of(
        b.skip(pos),
    ) by {
        if spec_enc_request(r0).is_prefix_of(b.skip(pos)) {
            lemma_request_elems(r0, b.skip(pos));
            assert(b.skip(pos).skip(req_off_rt(r0)) =~= b.skip(p7));
        }
    }
}

/// Whatever encoded request opens this run names this reply queue, and its
/// `Method` key starts where the parser now stands.
#[verifier::rlimit(100)]
#[verifier::spinoff_prover]
proof fn lemma_req_align_rt(
    b: Seq<u8>,
    pos: int,
    p1: int,
    p2: int,
    p3: int,
    p4: int,
    p5: int,
    p6: int,
    p7: int,
    p8: int,
    idv: Seq<char>,
    tv: Seq<Seq<u8>>,
    ov: ObjectIDV,
    rtv: Seq<char>,
)
    requires
        0 <= pos && pos + 1 <= p1 <= p2 <= p3 <= p4 <= p5 <= p6 <= p7 <= p8 <= b.len(),
        b.subrange(pos + 1, p1) == spec_enc_str("ID"@),
        str_encodable(idv),
        b.subrange(p1, p2) == spec_enc_str(idv),
        b.subrange(p2, p3) == spec_enc_str("Inputs"@),
        tuple_encodable(tv),
        b.subrange(p3, p4) == spec_enc_tuple(tv),
        b.subrange(p4, p5) == spec_enc_str("Object"@),
        object_encodable(ov),
        b.subrange(p5, p6) == spec_enc_object(ov),
        b.subrange(p6, p7) == spec_enc_str("ReplyTo"@),
        str_encodable(rtv),
        b.subrange(p7, p8) == spec_enc_str(rtv),
    ensures
        forall|r0: RequestV|
            request_encodable(r0) && (#[trigger] spec_enc_request(r0)).is_prefix_of(
                b.skip(pos),
            ) ==> (r0.reply_to == rtv && pos + req_off_km(r0) == p8),
{
    lemma_request_keys();
    lemma_req_align_obj(b, pos, p1, p2, p3, p4, p5, p6, idv, tv, ov);
    assert forall|r0: RequestV|
        request_encodable(r0) && (#[trigger] spec_enc_request(r0)).is_prefix_of(
            b.skip(pos),
        ) implies (r0.reply_to == rtv && pos + req_off_km(r0) == p8) by {
        lemma_request_elems(r0, b.skip(pos));
        assert(b.skip(pos).skip(req_off_rt(r0)) =~= b.skip(p7));
        assert(spec_enc_str(rtv).is_prefix_of(b.skip(p7))) by {
            assert(spec_enc_str(rtv) =~= b.skip(p7).subrange(0, p8 - p7));
        }
        lemma_enc_str_prefix_injective(r0.reply_to, rtv, b.skip(p7));
    }
}

/// No encoded request opens this run: its `Method` key is missing.
#[verifier::rlimit(100)]
#[verifier::spinoff_prover]
proof fn lemma_req_nopfx_km(
    b: Seq<u8>,
    pos: int,
    p1: int,
    p2: int,
    p3: int,
    p4: int,
    p5: int,
    p6: int,
    p7: int,
    p8: int,
    idv: Seq<char>,
    tv: Seq<Seq<u8>>,
    ov: ObjectIDV,
    rtv: Seq<char>,
)
    requires
        0 <= pos && pos + 1 <= p1 <= p2 <= p3 <= p4 <= p5 <= p6 <= p7 <= p8 <= b.len(),
        b.subrange(pos + 1, p1) == spec_enc_str("ID"@),
        str_encodable(idv),
        b.subrange(p1, p2) == spec_enc_str(idv),
        b.subrange(p2, p3) == spec_enc_str("Inputs"@),
        tuple_encodable(tv),
        b.subrange(p3, p4) == spec_enc_tuple(tv),
        b.subrange(p4, p5) == spec_enc_str("Object"@),
        object_encodable(ov),
        b.subrange(p5, p6) == spec_enc_object(ov),
        b.subrange(p6, p7) == spec_enc_str("ReplyTo"@),
        str_encodable(rtv),
        b.subrange(p7, p8) == spec_enc_str(rtv),
        !spec_enc_str("Method"@).is_prefix_of(b.skip(p8)),
    ensures
        forall|r0: RequestV|
            request_encodable(r0) ==> !(#[trigger] spec_enc_request(r0)).is_prefix_of(b.skip(pos)),
{
    lemma_request_keys();
    lemma_req_align_rt(b, pos, p1, p2, p3, p4, p5, p6, p7, p8, idv, tv, ov, rtv);
    assert forall|r0: RequestV|
        request_encodable(r0) implies !(#[trigger] spec_enc_request(r0)).is_prefix_of(
        b.skip(pos),
    ) by {
        if spec_enc_request(r0).is_prefix_of(b.skip(pos)) {
            lemma_request_elems(r0, b.skip(pos));
            assert(b.skip(pos).skip(req_off_km(r0)) =~= b.skip(p8));
        }
    }
}

/// No encoded request opens this run: no string stands after `Method`.
#[verifier::rlimit(100)]
#[verifier::spinoff_prover]
proof fn lemma_req_nopfx_m(
    b: Seq<u8>,
    pos: int,
    p1: int,
    p2: int,
    p3: int,
    p4: int,
    p5: int,
    p6: int,
    p7: int,
    p8: int,
    p9: int,
    idv: Seq<char>,
    tv: Seq<Seq<u8>>,
    ov: ObjectIDV,
    rtv: Seq<char>,
)
    requires
        0 <= pos && pos + 1 <= p1 <= p2 <= p3 <= p4 <= p5 <= p6 <= p7 <= p8 <= p9 <= b.len(),
        b.subrange(pos + 1, p1) == spec_enc_str("ID"@),
        str_encodable(idv),
        b.subrange(p1, p2) == spec_enc_str(idv),
        b.subrange(p2, p3) == spec_enc_str("Inputs"@),
        tuple_encodable(tv),
        b.subrange(p3, p4) == spec_enc_tuple(tv),
        b.subrange(p4, p5) == spec_enc_str("Object"@),
        object_encodable(ov),
        b.subrange(p5, p6) == spec_enc_object(ov),
        b.subrange(p6, p7) == spec_enc_str("ReplyTo"@),
        str_encodable(rtv),
        b.subrange(p7, p8) == spec_enc_str(rtv),
        b.subrange(p8, p9) == spec_enc_str("Method"@),
        forall|s0: Seq<char>|
            str_encodable(s0) ==> !(#[trigger] spec_enc_str(s0)).is_prefix_of(b.skip(p9)),
    ensures
        forall|r0: RequestV|
            request_encodable(r0) ==> !(#[trigger] spec_enc_request(r0)).is_prefix_of(b.skip(pos)),
{
    lemma_request_keys();
    lemma_req_align_rt(b, pos, p1, p2, p3, p4, p5, p6, p7, p8, idv, tv, ov, rtv);
    assert forall|r0: RequestV|
        request_encodable(r0) implies !(#[trigger] spec_enc_request(r0)).is_prefix_of(
        b.skip(pos),
    ) by {
        if spec_enc_request(r0).is_prefix_of(b.skip(pos)) {
            lemma_request_elems(r0, b.skip(pos));
            assert(b.skip(pos).skip(req_off_m(r0)) =~= b.skip(p9));
        }
    }
}


/// The parsed pieces assemble to exactly one encoded request.
#[verifier::rlimit(100)]
#[verifier::spinoff_prover]
proof fn lemma_req_assemble(
    b: Seq<u8>,
    pos: int,
    p1: int,
    p2: int,
    p3: int,
    p4: int,
    p5: int,
    p6: int,
    p7: int,
    p8: int,
    p9: int,
    end: int,
    rq: RequestV,
)
    requires
        0 <= pos && pos + 1 <= p1 <= p2 <= p3 <= p4 <= p5 <= p6 <= p7 <= p8 <= p9 <= end
            <= b.len(),
        b[pos] == TAG_MAP5,
        b.subrange(pos + 1, p1) == spec_enc_str("ID"@),
        b.subrange(p1, p2) == spec_enc_str(rq.id),
        b.subrange(p2, p3) == spec_enc_str("Inputs"@),
        b.subrange(p3, p4) == spec_enc_tuple(rq.inputs),
        b.subrange(p4, p5) == spec_enc_str("Object"@),
        b.subrange(p5, p6) == spec_enc_object(rq.object),
        b.subrange(p6, p7) == spec_enc_str("ReplyTo"@),
        b.subrange(p7, p8) == spec_enc_str(rq.reply_to),
        b.subrange(p8, p9) == spec_enc_str("Method"@),
        b.subrange(p9, end) == spec_enc_str(rq.method),
    ensures
        b.subrange(pos, end) == spec_enc_request(rq),
{
    assert(b.subrange(pos, end) =~= spec_enc_request(rq));
}

#[verifier::rlimit(100)]
#[verifier::spinoff_prover]
fn parse_request(b: &Vec<u8>, pos: usize) -> (r: Option<(Request, usize)>)
    requires
        pos <= b@.len(),
    ensures
        r matches Some((rq, end)) ==> pos <= end <= b@.len() && request_encodable(rq@)
            && b@.subrange(pos as int, end as int) == spec_enc_request(rq@),
        forall|r0: RequestV|
            request_encodable(r0) && (#[trigger] spec_enc_request(r0)).is_prefix_of(
                b@.skip(pos as int),
            ) ==> r is Some,
{
    proof {
        lemma_request_keys();
    }
    if pos >= b.len() || b[pos] != TAG_MAP5 {
        proof {
            assert forall|r0: RequestV|
                request_encodable(r0) && (#[trigger] spec_enc_request(r0)).is_prefix_of(
                    b@.skip(pos as int),
                ) implies false by {
                lemma_request_elems(r0, b@.skip(pos as int));
            }
        }
        return None;
    }
    let p1 = match parse_key(b, pos + 1, "ID") {
        Some(p) => p,
        None => {
            proof {
                lemma_req_nopfx_kid(b@, pos as int);
            }
            return None;
        },
    };
    let id_parsed = parse_str(b, p1);
    if id_parsed.is_none() {
        proof {
            lemma_req_nopfx_id(b@, pos as int, p1 as int);
        }
        return None;
    }
    let (id, p2) = id_parsed.unwrap();
    let p3 = match parse_key(b, p2, "Inputs") {
        Some(p) => p,
        None => {
            proof {
                lemma_req_nopfx_kin(b@, pos as int, p1 as int, p2 as int, id@);
            }
            return None;
        },
    };
    let inputs_parsed = parse_tuple(b, p3);
    if inputs_parsed.is_none() {
        proof {
            lemma_req_nopfx_in(b@, pos as int, p1 as int, p2 as int, p3 as int, id@);
        }
        return None;
    }
    let (inputs, p4) = inputs_parsed.unwrap();
    let p5 = match parse_key(b, p4, "Object") {
        Some(p) => p,
        None => {
            proof {
                lemma_req_nopfx_kobj(b@, pos as int, p1 as int, p2 as int, p3 as int, p4 as int,
                    id@, inputs@);
            }
            return None;
        },
    };
    let object_parsed = parse_object(b, p5);
    if object_parsed.is_none() {
        proof {
            lemma_req_nopfx_obj(b@, pos as int, p1 as int, p2 as int, p3 as int, p4 as int,
                p5 as int, id@, inputs@);
        }
        return None;
    }
    let (object, p6) = object_parsed.unwrap();
    let p7 = match parse_key(b, p6, "ReplyTo") {
        Some(p) => p,
        None => {
            proof {
                lemma_req_nopfx_krt(b@, pos as int, p1 as int, p2 as int, p3 as int, p4 as int,
                    p5 as int, p6 as int, id@, inputs@, object@);
            }
            return None;
        },
    };
    let rt_parsed = parse_str(b, p7);
    if rt_parsed.is_none() {
        proof {
            lemma_req_nopfx_rt(b@, pos as int, p1 as int, p2 as int, p3 as int, p4 as int,
                p5 as int, p6 as int, p7 as int, id@, inputs@, object@);
        }
        return None;
    }
    let (reply_to, p8) = rt_parsed.unwrap();
    let p9 = match parse_key(b, p8, "Method") {
        Some(p) => p,
        None => {
            proof {
                lemma_req_nopfx_km(b@, pos as int, p1 as int, p2 as int, p3 as int, p4 as int,
                    p5 as int, p6 as int, p7 as int, p8 as int, id@, inputs@, object@, reply_to@);
            }
            return None;
        },
    };
    match parse_str(b, p9) {
        Some((method, end)) => {
            let rq = Request { id, inputs, object, reply_to, method };
            proof {
                lemma_req_assemble(b@, pos as int, p1 as int, p2 as int, p3 as int, p4 as int,
                    p5 as int, p6 as int, p7 as int, p8 as int, p9 as int, end as int, rq@);
            }
            Some((rq, end))
        },
        None => {
            proof {
                lemma_req_nopfx_m(b@, pos as int, p1 as int, p2 as int, p3 as int, p4 as int,
                    p5 as int, p6 as int, p7 as int, p8 as int, p9 as int, id@, inputs@, object@,
                    reply_to@);
            }
            None
        },
    }
}


/// Decodes a blob that holds exactly one request.
///
/// Succeeds exactly on the blobs `encode_request` produces, and then returns
/// the very request that was encoded.
pub fn decode_request(b: &Vec<u8>) -> (res: Result<Request, Error>)
    ensures
        res matches Ok(r) ==> request_encodable(r@) && b@ == spec_enc_request(r@),
        forall|r0: RequestV|
            request_encodable(r0) && b@ == #[trigger] spec_enc_request(r0) ==> (res matches Ok(r)
                && r@ == r0),
        res matches Err(e) ==> e@ is Encoding,
{
    proof {
        assert(b@.skip(0) =~= b@);
    }
    match parse_request(b, 0) {
        Some((r, end)) => {
            if end == b.len() {
                proof {
                    assert(b@.subrange(0, end as int) =~= b@);
                    assert forall|r0: RequestV|
                        request_encodable(r0) && b@ == #[trigger] spec_enc_request(r0) implies r@
                        == r0 by {
                        assert(spec_enc_request(r@).is_prefix_of(b@));
                        assert(spec_enc_request(r0).is_prefix_of(b@));
                        lemma_enc_request_prefix_injective(r@, r0, b@);
                    }
                }
                Ok(r)
            } else {
                proof {
                    assert forall|r0: RequestV|
                        request_encodable(r0) && b@ == #[trigger] spec_enc_request(
                            r0,
                        ) implies false by {
                        assert(b@.subrange(0, end as int) =~= spec_enc_request(r@));
                        assert(spec_enc_request(r@).is_prefix_of(b@));
                        assert(spec_enc_request(r0).is_prefix_of(b@));
                        lemma_enc_request_prefix_injective(r@, r0, b@);
                    }
                }
                Err(Error::Encoding(String::from_str("bytes left over after the request")))
            }
        },
        None => Err(Error::Encoding(String::from_str("malformed request"))),
    }
}

/// The answer to one request, correlated by its id.
#[derive(Debug, Clone, PartialEq)]
pub struct Response {
    pub id: String,
    pub output: Output,
    pub error: Option<String>,
}

/// Mathematical model of a `Response`.
pub struct ResponseV {
    pub id: Seq<char>,
    pub output: OutputV,
    pub error: Option<Seq<char>>,
}

impl View for Response {
    type V = ResponseV;

    open spec fn view(&self) -> ResponseV {
        ResponseV { id: self.id@, output: self.output@, error: view_opt_string(self.error) }
    }
}

/// A response on the wire: a three-field record.
pub open spec fn spec_enc_response(r: ResponseV) -> Seq<u8> {
    seq![TAG_MAP3] + spec_enc_str("ID"@) + spec_enc_str(r.id) + spec_enc_str("Output"@)
        + spec_enc_output(r.output) + spec_enc_str("Error"@) + spec_enc_opt_str(r.error)
}

/// A response is representable when each of its fields is.
pub open spec fn response_encodable(r: ResponseV) -> bool {
    str_encodable(r.id) && output_encodable(r.output) && opt_str_encodable(r.error)
}

/// The keys of the three fields of a response.
pub proof fn lemma_response_keys()
    ensures
        str_encodable("ID"@),
        str_encodable("Output"@),
        str_encodable("Error"@),
{
    reveal_strlit("ID");
    reveal_strlit("Output");
    reveal_strlit("Error");
    assert(is_ascii_chars("ID"@));
    assert(is_ascii_chars("Output"@));
    assert(is_ascii_chars("Error"@));
    lemma_key_encodable("ID"@, 2);
    lemma_key_encodable("Output"@, 6);
    lemma_key_encodable("Error"@, 5);
}

/// Where the id value starts inside an encoded response.
pub open spec fn resp_off_id(r: ResponseV) -> int {
    1 + spec_enc_str("ID"@).len() as int
}

/// Where the `Output` key starts.
pub open spec fn resp_off_kout(r: ResponseV) -> int {
    resp_off_id(r) + spec_enc_str(r.id).len() as int
}

/// Where the output record starts.
pub open spec fn resp_off_out(r: ResponseV) -> int {
    resp_off_kout(r) + spec_enc_str("Output"@).len() as int
}

/// Where the `Error` key starts.
pub open spec fn resp_off_kerr(r: ResponseV) -> int {
    resp_off_out(r) + spec_enc_output(r.output).len() as int
}

/// Where the optional framework error starts.
pub open spec fn resp_off_err(r: ResponseV) -> int {
    resp_off_kerr(r) + spec_enc_str("Error"@).len() as int
}

/// Where each element of an encoded response stands.
pub proof fn lemma_response_elems(r0: ResponseV, tail: Seq<u8>)
    requires
        response_encodable(r0),
        spec_enc_response(r0).is_prefix_of(tail),
    ensures
        tail.len() >= 1 && tail[0] == TAG_MAP3,
        spec_enc_str("ID"@).is_prefix_of(tail.skip(1)),
        spec_enc_str(r0.id).is_prefix_of(tail.skip(resp_off_id(r0))),
        spec_enc_str("Output"@).is_prefix_of(tail.skip(resp_off_kout(r0))),
        spec_enc_output(r0.output).is_prefix_of(tail.skip(resp_off_out(r0))),
        spec_enc_str("Error"@).is_prefix_of(tail.skip(resp_off_kerr(r0))),
        spec_enc_opt_str(r0.error).is_prefix_of(tail.skip(resp_off_err(r0))),
{
    let hdr = seq![TAG_MAP3];
    let k1 = spec_enc_str("ID"@);
    let s1 = spec_enc_str(r0.id);
    let k2 = spec_enc_str("Output"@);
    let o = spec_enc_output(r0.output);
    let k3 = spec_enc_str("Error"@);
    let e = spec_enc_opt_str(r0.error);
    lemma_concat_prefix(hdr + k1 + s1 + k2 + o + k3, e, tail);
    lemma_concat_prefix(hdr + k1 + s1 + k2 + o, k3, tail);
    lemma_concat_prefix(hdr + k1 + s1 + k2, o, tail);
    lemma_concat_prefix(hdr + k1 + s1, k2, tail);
    lemma_concat_prefix(hdr + k1, s1, tail);
    lemma_concat_prefix(hdr, k1, tail);
    assert(hdr[0] == TAG_MAP3);
}

/// Two encoded responses that open the same byte run are equal.
pub proof fn lemma_enc_response_prefix_injective(r1: ResponseV, r2: ResponseV, s: Seq<u8>)
    requires
        response_encodable(r1),
        response_encodable(r2),
        spec_enc_response(r1).is_prefix_of(s),
        spec_enc_response(r2).is_prefix_of(s),
    ensures
        r1 == r2,
{
    lemma_response_keys();
    lemma_response_elems(r1, s);
    lemma_response_elems(r2, s);
    lemma_enc_str_prefix_injective(r1.id, r2.id, s.skip(resp_off_id(r1)));
    assert(resp_off_out(r2) == resp_off_out(r1));
    lemma_enc_output_prefix_injective(r1.output, r2.output, s.skip(resp_off_out(r1)));
    assert(resp_off_err(r2) == resp_off_err(r1));
    lemma_enc_opt_str_prefix_injective(r1.error, r2.error, s.skip(resp_off_err(r1)));
}

/// Encodes a response for the broker.
///
/// Fails exactly when some field cannot be represented on the wire.
pub fn encode_response(r: &Response) -> (res: Result<Vec<u8>, Error>)
    ensures
        res matches Ok(bts) ==> response_encodable(r@) && bts@ == spec_enc_response(r@),
        res matches Err(e) ==> !response_encodable(r@) && e@ is Encoding,
{
    proof {
        lemma_response_keys();
    }
    let mut out: Vec<u8> = Vec::new();
    out.push(TAG_MAP3);
    enc_key_into("ID", &mut out);
    if !enc_str_into(&r.id, &mut out) {
        return Err(enc_err());
    }
    enc_key_into("Output", &mut out);
    if !enc_output_into(&r.output, &mut out) {
        return Err(enc_err());
    }
    enc_key_into("Error", &mut out);
    if !enc_opt_str_into(&r.error, &mut out) {
        return Err(enc_err());
    }
    proof {
        assert(out@ =~= spec_enc_response(r@));
    }
    Ok(out)
}


/// No encoded response opens this run: its `ID` key is not where it belongs.
#[verifier::rlimit(100)]
#[verifier::spinoff_prover]
proof fn lemma_resp_nopfx_kid(b: Seq<u8>, pos: int)
    requires
        0 <= pos <= b.len(),
        !spec_enc_str("ID"@).is_prefix_of(b.skip(pos + 1)),
    ensures
        forall|r0: ResponseV|
            response_encodable(r0) ==> !(#[trigger] spec_enc_response(r0)).is_prefix_of(
                b.skip(pos),
            ),
{
    lemma_response_keys();
    assert forall|r0: ResponseV|
        response_encodable(r0) implies !(#[trigger] spec_enc_response(r0)).is_prefix_of(
        b.skip(pos),
    ) by {
        if spec_enc_response(r0).is_prefix_of(b.skip(pos)) {
            lemma_response_elems(r0, b.skip(pos));
            assert(b.skip(pos).skip(1) =~= b.skip(pos + 1));
        }
    }
}

/// No encoded response opens this run: no string stands where its id belongs.
#[verifier::rlimit(100)]
#[verifier::spinoff_prover]
proof fn lemma_resp_nopfx_id(b: Seq<u8>, pos: int, p1: int)
    requires
        0 <= pos && pos + 1 <= p1 <= b.len(),
        b.subrange(pos + 1, p1) == spec_enc_str("ID"@),
        forall|s0: Seq<char>|
            str_encodable(s0) ==> !(#[trigger] spec_enc_str(s0)).is_prefix_of(b.skip(p1)),
    ensures
        forall|r0: ResponseV|
            response_encodable(r0) ==> !(#[trigger] spec_enc_response(r0)).is_prefix_of(
                b.skip(pos),
            ),
{
    lemma_response_keys();
    assert forall|r0: ResponseV|
        response_encodable(r0) implies !(#[trigger] spec_enc_response(r0)).is_prefix_of(
        b.skip(pos),
    ) by {
        if spec_enc_response(r0).is_prefix_of(b.skip(pos)) {
            lemma_response_elems(r0, b.skip(pos));
            assert(b.skip(pos).skip(resp_off_id(r0)) =~= b.skip(p1));
        }
    }
}

/// Whatever encoded response opens this run carries this id, and its
/// `Output` key starts where the parser now stands.
#[verifier::rlimit(100)]
#[verifier::spinoff_prover]
proof fn lemma_resp_align_id(b: Seq<u8>, pos: int, p1: int, p2: int, idv: Seq<char>)
    requires
        0 <= pos && pos + 1 <= p1 <= p2 <= b.len(),
        b.subrange(pos + 1, p1) == spec_enc_str("ID"@),
        str_encodable(idv),
        b.subrange(p1, p2) == spec_enc_str(idv),
    ensures
        forall|r0: ResponseV|
            response_encodable(r0) && (#[trigger] spec_enc_response(r0)).is_prefix_of(
                b.skip(pos),
            ) ==> (r0.id == idv && pos + resp_off_kout(r0) == p2),
{
    lemma_response_keys();
    assert forall|r0: ResponseV|
        response_encodable(r0) && (#[trigger] spec_enc_response(r0)).is_prefix_of(
            b.skip(pos),
        ) implies (r0.id == idv && pos + resp_off_kout(r0) == p2) by {
        lemma_response_elems(r0, b.skip(pos));
        assert(b.skip(pos).skip(resp_off_id(r0)) =~= b.skip(p1));
        assert(spec_enc_str(idv).is_prefix_of(b.skip(p1))) by {
            assert(spec_enc_str(idv) =~= b.skip(p1).subrange(0, p2 - p1));
        }
        lemma_enc_str_prefix_injective(r0.id, idv, b.skip(p1));
    }
}

/// No encoded response opens this run: its `Output` key is missing.
#[verifier::rlimit(100)]
#[verifier::spinoff_prover]
proof fn lemma_resp_nopfx_kout(b: Seq<u8>, pos: int, p1: int, p2: int, idv: Seq<char>)
    requires
        0 <= pos && pos + 1 <= p1 <= p2 <= b.len(),
        b.subrange(pos + 1, p1) == spec_enc_str("ID"@),
        str_encodable(idv),
        b.subrange(p1, p2) == spec_enc_str(idv),
        !spec_enc_str("Output"@).is_prefix_of(b.skip(p2)),
    ensures
        forall|r0: ResponseV|
            response_encodable(r0) ==> !(#[trigger] spec_enc_response(r0)).is_prefix_of(
                b.skip(pos),
            ),
{
    lemma_response_keys();
    lemma_resp_align_id(b, pos, p1, p2, idv);
    assert forall|r0: ResponseV|
        response_encodable(r0) implies !(#[trigger] spec_enc_response(r0)).is_prefix_of(
        b.skip(pos),
    ) by {
        if spec_enc_response(r0).is_prefix_of(b.skip(pos)) {
            lemma_response_elems(r0, b.skip(pos));
            assert(b.skip(pos).skip(resp_off_kout(r0)) =~= b.skip(p2));
        }
    }
}

/// No encoded response opens this run: no output stands after `Output`.
#[verifier::rlimit(100)]
#[verifier::spinoff_prover]
proof fn lemma_resp_nopfx_out(b: Seq<u8>, pos: int, p1: int, p2: int, p3: int, idv: Seq<char>)
    requires
        0 <= pos && pos + 1 <= p1 <= p2 <= p3 <= b.len(),
        b.subrange(pos + 1, p1) == spec_enc_str("ID"@),
        str_encodable(idv),
        b.subrange(p1, p2) == spec_enc_str(idv),
        b.subrange(p2, p3) == spec_enc_str("Output"@),
        forall|o0: OutputV|
            output_encodable(o0) ==> !(#[trigger] spec_enc_output(o0)).is_prefix_of(b.skip(p3)),
    ensures
        forall|r0: ResponseV|
            response_encodable(r0) ==> !(#[trigger] spec_enc_response(r0)).is_prefix_of(
                b.skip(pos),
            ),
{
    lemma_response_keys();
    lemma_resp_align_id(b, pos, p1, p2, idv);
    assert forall|r0: ResponseV|
        response_encodable(r0) implies !(#[trigger] spec_enc_response(r0)).is_prefix_of(
        b.skip(pos),
    ) by {
        if spec_enc_response(r0).is_prefix_of(b.skip(pos)) {
            lemma_response_elems(r0, b.skip(pos));
            assert(b.skip(pos).skip(resp_off_out(r0)) =~= b.skip(p3));
        }
    }
}

/// Whatever encoded response opens this run carries this output, and its
/// `Error` key starts where the parser now stands.
#[verifier::rlimit(100)]
#[verifier::spinoff_prover]
proof fn lemma_resp_align_out(
    b: Seq<u8>,
    pos: int,
    p1: int,
    p2: int,
    p3: int,
    p4: int,
    idv: Seq<char>,
    ov: OutputV,
)
    requires
        0 <= pos && pos + 1 <= p1 <= p2 <= p3 <= p4 <= b.len(),
        b.subrange(pos + 1, p1) == spec_enc_str("ID"@),
        str_encodable(idv),
        b.subrange(p1, p2) == spec_enc_str(idv),
        b.subrange(p2, p3) == spec_enc_str("Output"@),
        output_encodable(ov),
        b.subrange(p3, p4) == spec_enc_output(ov),
    ensures
        forall|r0: ResponseV|
            response_encodable(r0) && (#[trigger] spec_enc_response(r0)).is_prefix_of(
                b.skip(pos),
            ) ==> (r0.id == idv && r0.output == ov && pos + resp_off_kerr(r0) == p4),
{
    lemma_response_keys();
    lemma_resp_align_id(b, pos, p1, p2, idv);
    assert forall|r0: ResponseV|
        response_encodable(r0) && (#[trigger] spec_enc_response(r0)).is_prefix_of(
            b.skip(pos),
        ) implies (r0.id == idv && r0.output == ov && pos + resp_off_kerr(r0) == p4) by {
        lemma_response_elems(r0, b.skip(pos));
        assert(b.skip(pos).skip(resp_off_out(r0)) =~= b.skip(p3));
        assert(spec_enc_output(ov).is_prefix_of(b.skip(p3))) by {
            assert(spec_enc_output(ov) =~= b.skip(p3).subrange(0, p4 - p3));
        }
        lemma_enc_output_prefix_injective(r0.output, ov, b.skip(p3));
    }
}

/// No encoded response opens this run: its `Error` key is missing.
#[verifier::rlimit(100)]
#[verifier::spinoff_prover]
proof fn lemma_resp_nopfx_kerr(
    b: Seq<u8>,
    pos: int,
    p1: int,
    p2: int,
    p3: int,
    p4: int,
    idv: Seq<char>,
    ov: OutputV,
)
    requires
        0 <= pos && pos + 1 <= p1 <= p2 <= p3 <= p4 <= b.len(),
        b.subrange(pos + 1, p1) == spec_enc_str("ID"@),
        str_encodable(idv),
        b.subrange(p1, p2) == spec_enc_str(idv),
        b.subrange(p2, p3) == spec_enc_str("Output"@),
        output_encodable(ov),
        b.subrange(p3, p4) == spec_enc_output(ov),
        !spec_enc_str("Error"@).is_prefix_of(b.skip(p4)),
    ensures
        forall|r0: ResponseV|
            response_encodable(r0) ==> !(#[trigger] spec_enc_response(r0)).is_prefix_of(
                b.skip(pos),
            ),
{
    lemma_response_keys();
    lemma_resp_align_out(b, pos, p1, p2, p3, p4, idv, ov);
    assert forall|r0: ResponseV|
        response_encodable(r0) implies !(#[trigger] spec_enc_response(r0)).is_prefix_of(
        b.skip(pos),
    ) by {
        if spec_enc_response(r0).is_prefix_of(b.skip(pos)) {
            lemma_response_elems(r0, b.skip(pos));
            assert(b.skip(pos).skip(resp_off_kerr(r0)) =~= b.skip(p4));
        }
    }
}

/// No encoded response opens this run: nothing readable stands after `Error`.
#[verifier::rlimit(100)]
#[verifier::spinoff_prover]
proof fn lemma_resp_nopfx_err(
    b: Seq<u8>,
    pos: int,
    p1: int,
    p2: int,
    p3: int,
    p4: int,
    p5: int,
    idv: Seq<char>,
    ov: OutputV,
)
    requires
        0 <= pos && pos + 1 <= p1 <= p2 <= p3 <= p4 <= p5 <= b.len(),
        b.subrange(pos + 1, p1) == spec_enc_str("ID"@),
        str_encodable(idv),
        b.subrange(p1, p2) == spec_enc_str(idv),
        b.subrange(p2, p3) == spec_enc_str("Output"@),
        output_encodable(ov),
        b.subrange(p3, p4) == spec_enc_output(ov),
        b.subrange(p4, p5) == spec_enc_str("Error"@),
        forall|e0: Option<Seq<char>>|
            opt_str_encodable(e0) ==> !(#[trigger] spec_enc_opt_str(e0)).is_prefix_of(b.skip(p5)),
    ensures
        forall|r0: ResponseV|
            response_encodable(r0) ==> !(#[trigger] spec_enc_response(r0)).is_prefix_of(
                b.skip(pos),
            ),
{
    lemma_response_keys();
    lemma_resp_align_out(b, pos, p1, p2, p3, p4, idv, ov);
    assert forall|r0: ResponseV|
        response_encodable(r0) implies !(#[trigger] spec_enc_response(r0)).is_prefix_of(
        b.skip(pos),
    ) by {
        if spec_enc_response(r0).is_prefix_of(b.skip(pos)) {
            lemma_response_elems(r0, b.skip(pos));
            assert(b.skip(pos).skip(resp_off_err(r0)) =~= b.skip(p5));
        }
    }
}


/// The parsed pieces assemble to exactly one encoded response.
#[verifier::rlimit(100)]
#[verifier::spinoff_prover]
proof fn lemma_resp_assemble(
    b: Seq<u8>,
    pos: int,
    p1: int,
    p2: int,
    p3: int,
    p4: int,
    p5: int,
    end: int,
    rp: ResponseV,
)
    requires
        0 <= pos && pos + 1 <= p1 <= p2 <= p3 <= p4 <= p5 <= end <= b.len(),
        b[pos] == TAG_MAP3,
        b.subrange(pos + 1, p1) == spec_enc_str("ID"@),
        b.subrange(p1, p2) == spec_enc_str(rp.id),
        b.subrange(p2, p3) == spec_enc_str("Output"@),
        b.subrange(p3, p4) == spec_enc_output(rp.output),
        b.subrange(p4, p5) == spec_enc_str("Error"@),
        b.subrange(p5, end) == spec_enc_opt_str(rp.error),
    ensures
        b.subrange(pos, end) == spec_enc_response(rp),
{
    assert(b.subrange(pos, end) =~= spec_enc_response(rp));
}

#[verifier::rlimit(100)]
#[verifier::spinoff_prover]
fn parse_response(b: &Vec<u8>, pos: usize) -> (r: Option<(Response, usize)>)
    requires
        pos <= b@.len(),
    ensures
        r matches Some((rp, end)) ==> pos <= end <= b@.len() && response_encodable(rp@)
            && b@.subrange(pos as int, end as int) == spec_enc_response(rp@),
        forall|r0: ResponseV|
            response_encodable(r0) && (#[trigger] spec_enc_response(r0)).is_prefix_of(
                b@.skip(pos as int),
            ) ==> r is Some,
{
    proof {
        lemma_response_keys();
    }
    if pos >= b.len() || b[pos] != TAG_MAP3 {
        proof {
            assert forall|r0: ResponseV|
                response_encodable(r0) && (#[trigger] spec_enc_response(r0)).is_prefix_of(
                    b@.skip(pos as int),
                ) implies false by {
                lemma_response_elems(r0, b@.skip(pos as int));
            }
        }
        return None;
    }
    let p1 = match parse_key(b, pos + 1, "ID") {
        Some(p) => p,
        None => {
            proof {
                lemma_resp_nopfx_kid(b@, pos as int);
            }
            return None;
        },
    };
    let id_parsed = parse_str(b, p1);
    if id_parsed.is_none() {
        proof {
            lemma_resp_nopfx_id(b@, pos as int, p1 as int);
        }
        return None;
    }
    let (id, p2) = id_parsed.unwrap();
    let p3 = match parse_key(b, p2, "Output") {
        Some(p) => p,
        None => {
            proof {
                lemma_resp_nopfx_kout(b@, pos as int, p1 as int, p2 as int, id@);
            }
            return None;
        },
    };
    let out_parsed = parse_output(b, p3);
    if out_parsed.is_none() {
        proof {
            lemma_resp_nopfx_out(b@, pos as int, p1 as int, p2 as int, p3 as int, id@);
        }
        return None;
    }
    let (output, p4) = out_parsed.unwrap();
    let p5 = match parse_key(b, p4, "Error") {
        Some(p) => p,
        None => {
            proof {
                lemma_resp_nopfx_kerr(b@, pos as int, p1 as int, p2 as int, p3 as int, p4 as int,
                    id@, output@);
            }
            return None;
        },
    };
    match parse_opt_str(b, p5) {
        Some((error, end)) => {
            let rp = Response { id, output, error };
            proof {
                lemma_resp_assemble(b@, pos as int, p1 as int, p2 as int, p3 as int, p4 as int,
                    p5 as int, end as int, rp@);
            }
            Some((rp, end))
        },
        None => {
            proof {
                lemma_resp_nopfx_err(b@, pos as int, p1 as int, p2 as int, p3 as int, p4 as int,
                    p5 as int, id@, output@);
            }
            None
        },
    }
}


/// Decodes a blob that holds exactly one response.
///
/// Succeeds exactly on the blobs `encode_response` produces, and then returns
/// the very response that was encoded.
pub fn decode_response(b: &Vec<u8>) -> (res: Result<Response, Error>)
    ensures
        res matches Ok(r) ==> response_encodable(r@) && b@ == spec_enc_response(r@),
        forall|r0: ResponseV|
            response_encodable(r0) && b@ == #[trigger] spec_enc_response(r0) ==> (res matches Ok(r)
                && r@ == r0),
        res matches Err(e) ==> e@ is Encoding,
{
    proof {
        assert(b@.skip(0) =~= b@);
    }
    match parse_response(b, 0) {
        Some((r, end)) => {
            if end == b.len() {
                proof {
                    assert(b@.subrange(0, end as int) =~= b@);
                    assert forall|r0: ResponseV|
                        response_encodable(r0) && b@ == #[trigger] spec_enc_response(
                            r0,
                        ) implies r@ == r0 by {
                        assert(spec_enc_response(r@).is_prefix_of(b@));
                        assert(spec_enc_response(r0).is_prefix_of(b@));
                        lemma_enc_response_prefix_injective(r@, r0, b@);
                    }
                }
                Ok(r)
            } else {
                proof {
                    assert forall|r0: ResponseV|
                        response_encodable(r0) && b@ == #[trigger] spec_enc_response(
                            r0,
                        ) implies false by {
                        assert(b@.subrange(0, end as int) =~= spec_enc_response(r@));
                        assert(spec_enc_response(r@).is_prefix_of(b@));
                        assert(spec_enc_response(r0).is_prefix_of(b@));
                        lemma_enc_response_prefix_injective(r@, r0, b@);
                    }
                }
                Err(Error::Encoding(String::from_str("bytes left over after the response")))
            }
        },
        None => Err(Error::Encoding(String::from_str("malformed response"))),
    }
}

} // verus!
