//! The server side: owns the registry, names the queues to pull from, and
//! turns one popped payload into one reply to push.

use vstd::prelude::*;
use crate::error::{Error, ErrorV, spec_error_message};
use crate::protocol::{
    Output, OutputV, Request, RequestV, Response, ResponseV, encode_response, decode_request,
    request_encodable, response_encodable, spec_enc_request, spec_enc_response, spec_object_key,
};
use crate::registry::{Object, Registry};

verus! {

/// The response a dispatching worker builds from one handler result: the
/// output on success, else the empty output and the failure's message text.
pub open spec fn spec_build_response(id: Seq<char>, res: Result<OutputV, ErrorV>) -> ResponseV {
    match res {
        Result::Ok(o) => ResponseV { id, output: o, error: Option::None },
        Result::Err(e) => ResponseV {
            id,
            output: OutputV { data: Seq::empty(), error: Option::None },
            error: Option::Some(spec_error_message(e)),
        },
    }
}

/// The response sent when a request names an object nobody registered.
pub open spec fn spec_unknown_object_response(r0: RequestV) -> ResponseV {
    spec_build_response(
        r0.id,
        Result::Err(ErrorV::UnknownObject(spec_object_key(r0.object))),
    )
}

/// Builds the reply to one dispatch result, mapping a framework failure to
/// the outer error field and keeping a handler's output as it is.
pub fn build_response(id: String, ret: Result<Output, Error>) -> (r: Response)
    ensures
        ret matches Ok(o) ==> r@ == spec_build_response(id@, Result::<OutputV, ErrorV>::Ok(o@)),
        ret matches Err(e) ==> r@ == spec_build_response(id@, Result::<OutputV, ErrorV>::Err(e@)),
{
    match ret {
        Ok(output) => Response { id, output, error: None },
        Err(err) => {
            let msg = err.message();
            let r = Response { id, output: Output::default(), error: Some(msg) };
            r
        },
    }
}

/// What a worker must do with a finished dispatch: push `payload` onto
/// `queue`, then set that queue's time-to-live to `ttl_secs`.
pub struct ReplyPlan {
    pub queue: String,
    pub payload: Vec<u8>,
    pub ttl_secs: u64,
}

/// The server: a module name, the worker-pool size, and the object registry.
///
/// Registration happens before the pull loop starts; from then on the
/// registry is only read.
pub struct Server<H> {
    module: String,
    workers: usize,
    objects: Registry<H>,
}

impl<H: Object> Server<H> {
    /// The module name queues are prefixed with.
    pub closed spec fn module_spec(&self) -> Seq<char> {
        self.module@
    }

    /// How many execution units the pool runs.
    pub closed spec fn workers_spec(&self) -> nat {
        self.workers as nat
    }

    /// The registered object keys.
    pub closed spec fn keys(&self) -> Seq<Seq<char>> {
        self.objects.keys()
    }

    /// Whether an object key is registered.
    pub open spec fn contains(&self, k: Seq<char>) -> bool {
        self.keys().contains(k)
    }

    /// The registry's well-formedness.
    pub closed spec fn wf(&self) -> bool {
        self.objects.wf()
    }

    /// A new server. At least one worker is demanded of every caller.
    pub fn new(module: String, workers: usize) -> (s: Server<H>)
        requires
            workers >= 1,
        ensures
            s.wf(),
            s.module_spec() == module@,
            s.workers_spec() == workers,
            s.keys() == Seq::<Seq<char>>::empty(),
    {
        Server { module, workers, objects: Registry::new() }
    }

    /// The pool size, as the runtime needs it.
    pub fn workers(&self) -> (n: usize)
        ensures
            n == self.workers_spec(),
    {
        self.workers
    }

    /// Registers a handler under the key its own identifier names.
    /// Only valid before the pull loop starts.
    pub fn register(&mut self, service: H)
        requires
            old(self).wf(),
        ensures
            final(self).wf(),
            final(self).module_spec() == old(self).module_spec(),
            final(self).workers_spec() == old(self).workers_spec(),
            exists|k: Seq<char>|
                final(self).contains(k) && (forall|k2: Seq<char>|
                    k2 != k ==> final(self).contains(k2) == old(self).contains(k2)),
    {
        let key = service.id().key();
        let ghost k = key@;
        self.objects.insert(key, service);
        proof {
            assert(self.objects.contains(k));
            assert(self.contains(k));
            assert forall|k2: Seq<char>|
                k2 != k implies self.contains(k2) == old(self).contains(k2) by {
                assert(self.objects.contains(k2) == old(self).objects.contains(k2));
            }
        }
    }

    /// The queue names the dispatch loop pulls from: `module.key`, one per
    /// registered object.
    pub fn queues(&self) -> (r: Vec<String>)
        ensures
            r@.len() == self.keys().len(),
            forall|i: int|
                0 <= i < r@.len() ==> r@[i]@ == self.module_spec() + "."@ + self.keys()[i],
    {
        let keys = self.objects.key_list();
        let n = keys.len();
        let mut r: Vec<String> = Vec::new();
        let mut i: usize = 0;
        while i < n
            invariant
                i <= n,
                n == keys@.len(),
                keys@.len() == self.keys().len(),
                forall|j: int| 0 <= j < n ==> keys@[j]@ == self.keys()[j],
                r@.len() == i,
                forall|j: int|
                    0 <= j < i ==> r@[j]@ == self.module_spec() + "."@ + self.keys()[j],
            decreases n - i,
        {
            let mut q = self.module.clone();
            q.append(".");
            q.append(keys[i].as_str());
            r.push(q);
            i = i + 1;
        }
        r
    }

    /// Handles one payload popped off a queue: decode, look the object up,
    /// dispatch, and plan the reply.
    ///
    /// An undecodable payload is dropped (`None`): the protocol has no
    /// redelivery or dead-letter path. A reply that cannot be encoded is
    /// dropped the same way. Every plan carries the reply time-to-live of
    /// `RESPONSE_TTL_SECS` seconds and is addressed to the request's own id.
    pub fn handle(&self, payload: &Vec<u8>) -> (r: Option<ReplyPlan>)
        ensures
            (forall|r0: RequestV| request_encodable(r0) ==> payload@ != spec_enc_request(r0))
                ==> r is None,
            r matches Some(p) ==> ({
                &&& p.ttl_secs == crate::RESPONSE_TTL_SECS
                &&& exists|r0: RequestV|
                    request_encodable(r0) && payload@ == #[trigger] spec_enc_request(r0)
                        && p.queue@ == r0.id && (exists|res: Result<OutputV, ErrorV>|
                        p.payload@ == spec_enc_response(
                            #[trigger] spec_build_response(r0.id, res),
                        ))
                &&& exists|resp: ResponseV|
                    response_encodable(resp) && p.payload@ == #[trigger] spec_enc_response(resp)
            }),
            forall|r0: RequestV|
                request_encodable(r0) && payload@ == #[trigger] spec_enc_request(r0) && !self.contains(
                    spec_object_key(r0.object),
                ) && response_encodable(spec_unknown_object_response(r0)) ==> (r matches Some(p)
                    && p.queue@ == r0.id && p.payload@ == spec_enc_response(
                    spec_unknown_object_response(r0),
                )),
    {
        let req = match decode_request(payload) {
            Ok(req) => req,
            Err(_) => {
                return None;
            },
        };
        let key = req.object.key();
        let id = req.id.clone();
        let ret = match self.objects.get(&key) {
            Some(handler) => handler.dispatch(&req),
            None => Err(Error::UnknownObject(key)),
        };
        let ghost gres: Result<OutputV, ErrorV> = match &ret {
            Ok(o) => Result::Ok(o@),
            Err(e) => Result::Err(e@),
        };
        let response = build_response(id, ret);
        proof {
            assert(response@ == spec_build_response(req@.id, gres));
        }
        match encode_response(&response) {
            Ok(bytes) => {
                let plan = ReplyPlan {
                    queue: req.id,
                    payload: bytes,
                    ttl_secs: crate::RESPONSE_TTL_SECS,
                };
                proof {
                    assert(plan.payload@ == spec_enc_response(spec_build_response(req@.id, gres)));
                }
                Some(plan)
            },
            Err(_) => None,
        }
    }
}

} // verus!
