//! The client side: building a fresh correlated request, naming the target
//! queue, and reading the reply the blocking pop returned.

use vstd::prelude::*;
use vstd::utf8::{is_ascii_chars, is_ascii_chars_encode_utf8};
use crate::codec::{Value, ValueV, str_encodable, value_encodable, spec_enc_value};
use crate::error::{Error, ErrorV};
use crate::protocol::{
    ObjectID, ObjectIDV, Request, ResponseV, Tuple, decode_response, response_encodable,
    spec_enc_response, spec_object_key,
};

verus! {

/// Relies on `uuid::Uuid::new_v4` and its rendering: a fresh random
/// identifier, shown in the hyphenated form of 36 ASCII characters. Nothing
/// is assumed of which identifier comes back.
#[verifier::external_body]
fn fresh_correlation_id() -> (r: String)
    ensures
        r@.len() == 36,
        is_ascii_chars(r@),
{
    uuid::Uuid::new_v4().to_string()
}

impl Request {
    /// A fresh request: a new collision-resistant correlation id, reused as
    /// the reply queue's name, and an empty argument list.
    pub fn new(object: ObjectID, method: String) -> (r: Request)
        ensures
            r@.id == r@.reply_to,
            r@.id.len() == 36,
            str_encodable(r@.id),
            r@.object == object@,
            r@.method == method@,
            r@.inputs == Seq::<Seq<u8>>::empty(),
    {
        let id = fresh_correlation_id();
        let reply_to = id.clone();
        proof {
            is_ascii_chars_encode_utf8(id@);
        }
        Request { id, inputs: Tuple::new(), object, reply_to, method }
    }

    /// Appends one argument to the request being built; everything else is
    /// kept. Fails exactly when the value cannot be represented.
    pub fn arg(self, argument: &Value) -> (r: Result<Request, Error>)
        ensures
            r matches Ok(rq) ==> value_encodable(argument@) && rq@.inputs == self@.inputs.push(
                spec_enc_value(argument@),
            ) && rq@.id == self@.id && rq@.object == self@.object && rq@.reply_to == self@.reply_to
                && rq@.method == self@.method,
            r matches Err(e) ==> !value_encodable(argument@) && e@ is Encoding,
    {
        let mut rq = self;
        match rq.inputs.add(argument) {
            Ok(_) => Ok(rq),
            Err(e) => Err(e),
        }
    }
}

/// The queue a request to `object` under `module` is pushed onto.
pub open spec fn spec_queue_name(module: Seq<char>, o: ObjectIDV) -> Seq<char> {
    module + "."@ + spec_object_key(o)
}

/// Names the broker queue of a target object.
pub fn target_queue(module: &String, object: &ObjectID) -> (r: String)
    ensures
        r@ == spec_queue_name(module@, object@),
{
    let mut r = module.clone();
    r.append(".");
    let key = object.key();
    r.append(key.as_str());
    r
}

/// Reads what the blocking pop on the reply queue returned.
///
/// No payload within the wait is a `Timeout`; an undecodable payload is a
/// `Protocol` failure; a response's outer error is a `Protocol` failure from
/// the far framework; a handler's reported failure is a `Call` error; else
/// the output's data is decoded into the returned value.
pub fn interpret_reply(popped: Option<Vec<u8>>) -> (r: Result<Value, Error>)
    ensures
        popped is None ==> (r matches Err(e) && e@ is Timeout),
        popped matches Some(bts) ==> ((forall|resp0: ResponseV|
            response_encodable(resp0) ==> bts@ != spec_enc_response(resp0)) ==> (r matches Err(e)
            && e@ is Protocol)),
        popped matches Some(bts) ==> (forall|resp0: ResponseV|
            response_encodable(resp0) && bts@ == #[trigger] spec_enc_response(resp0) ==> ({
                &&& (resp0.error matches Some(m) ==> (r matches Err(e) && e@ == ErrorV::Protocol(
                    m,
                )))
                &&& (resp0.error is None ==> (match resp0.output.error {
                    Option::Some(c) => r matches Err(e) && e@ == ErrorV::Call(c),
                    Option::None => ((r matches Ok(v) ==> value_encodable(v@)
                        && resp0.output.data == spec_enc_value(v@)) && (forall|v0: ValueV|
                        value_encodable(v0) && resp0.output.data == #[trigger] spec_enc_value(v0)
                            ==> (r matches Ok(v) && v@ == v0)) && (r matches Err(e)
                        ==> e@ is Encoding)),
                }))
            })),
{
    let bytes = match popped {
        None => {
            return Err(Error::Timeout);
        },
        Some(b) => b,
    };
    match decode_response(&bytes) {
        Err(_) => Err(Error::Protocol(String::from_str("undecodable reply"))),
        Ok(resp) => match resp.error {
            Some(m) => Err(Error::Protocol(m)),
            None => resp.output.into_result(),
        },
    }
}

} // verus!
