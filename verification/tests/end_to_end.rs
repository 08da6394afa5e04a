use std::collections::HashMap;

use qbus::client::{interpret_reply, target_queue};
use qbus::codec::Value;
use qbus::error::{CallError, Error};
use qbus::protocol::{decode_request, encode_request, ObjectID, Output, Request};
use qbus::registry::Object;
use qbus::server::Server;

/// An in-memory stand-in for the list broker: queues of payloads and the
/// time-to-live set on each key.
struct FakeBroker {
    queues: HashMap<String, Vec<Vec<u8>>>,
    ttls: HashMap<String, u64>,
}

impl FakeBroker {
    fn new() -> FakeBroker {
        FakeBroker { queues: HashMap::new(), ttls: HashMap::new() }
    }

    fn push(&mut self, queue: &str, payload: Vec<u8>) {
        self.queues.entry(queue.to_owned()).or_default().push(payload);
    }

    fn pop(&mut self, queue: &str) -> Option<Vec<u8>> {
        let q = self.queues.get_mut(queue)?;
        if q.is_empty() {
            None
        } else {
            Some(q.remove(0))
        }
    }

    fn expire(&mut self, queue: &str, ttl: u64) {
        self.ttls.insert(queue.to_owned(), ttl);
    }

    fn ttl(&self, queue: &str) -> Option<u64> {
        self.ttls.get(queue).copied()
    }

    /// What the broker does once a key's time-to-live has elapsed.
    fn simulate_expiry(&mut self, queue: &str) {
        self.queues.remove(queue);
        self.ttls.remove(queue);
    }
}

struct Calculator;

impl Calculator {
    fn number(request: &Request, i: usize) -> Result<f64, Error> {
        match request.inputs.at(i)? {
            Value::F64(bits) => Ok(f64::from_bits(bits)),
            _ => Err(Error::Encoding(String::from("expected a number"))),
        }
    }
}

impl Object for Calculator {
    fn id(&self) -> ObjectID {
        ObjectID::new(String::from("calculator"), String::from("1.0"))
    }

    fn dispatch(&self, request: &Request) -> Result<Output, Error> {
        let a = Calculator::number(request, 0)?;
        let b = Calculator::number(request, 1)?;
        match request.method.as_str() {
            "Add" => Ok(Output::from_result(Ok(Value::F64((a + b).to_bits())))),
            "Divide" => {
                if b == 0.0 {
                    Ok(Output::from_result(Err(CallError::from(String::from(
                        "divide by zero",
                    )))))
                } else {
                    Ok(Output::from_result(Ok(Value::F64((a / b).to_bits()))))
                }
            },
            m => Err(Error::UnknownMethod(m.to_owned())),
        }
    }
}

/// One full client-to-server round over the fake broker.
fn call(
    broker: &mut FakeBroker,
    server: &Server<Calculator>,
    method: &str,
    a: f64,
    b: f64,
) -> Result<Value, Error> {
    let module = String::from("server");
    let object = ObjectID::new(String::from("calculator"), String::from("1.0"));
    // client side: build and push the request
    let req = Request::new(object.clone(), String::from(method))
        .arg(&Value::F64(a.to_bits()))
        .unwrap()
        .arg(&Value::F64(b.to_bits()))
        .unwrap();
    let reply_queue = req.reply_to.clone();
    let payload = encode_request(&req).unwrap();
    broker.push(&target_queue(&module, &object), payload);
    // server side: pop one message off the object queue and dispatch it
    let queues = server.queues();
    let popped = broker.pop(&queues[0]).expect("the request is queued");
    let plan = server.handle(&popped).expect("a reply is planned");
    broker.push(&plan.queue, plan.payload);
    broker.expire(&plan.queue, plan.ttl_secs);
    // client side: blocking pop on the reply queue, then decode
    assert_eq!(plan.queue, reply_queue);
    interpret_reply(broker.pop(&reply_queue))
}

#[test]
fn calculator_add_returns_three() {
    let mut broker = FakeBroker::new();
    let mut server: Server<Calculator> = Server::new(String::from("server"), 2);
    server.register(Calculator);
    match call(&mut broker, &server, "Add", 1.0, 2.0) {
        Ok(Value::F64(bits)) => assert_eq!(f64::from_bits(bits), 3.0),
        other => panic!("expected 3.0, got {:?}", other),
    }
}

#[test]
fn calculator_divide_by_zero_is_a_call_error() {
    let mut broker = FakeBroker::new();
    let mut server: Server<Calculator> = Server::new(String::from("server"), 2);
    server.register(Calculator);
    match call(&mut broker, &server, "Divide", 1.0, 0.0) {
        Err(Error::Call(c)) => assert_eq!(c.message, String::from("divide by zero")),
        other => panic!("expected a Call error, got {:?}", other),
    }
}

#[test]
fn calculator_divide_returns_quotient() {
    let mut broker = FakeBroker::new();
    let mut server: Server<Calculator> = Server::new(String::from("server"), 2);
    server.register(Calculator);
    match call(&mut broker, &server, "Divide", 9.0, 2.0) {
        Ok(Value::F64(bits)) => assert_eq!(f64::from_bits(bits), 4.5),
        other => panic!("expected 4.5, got {:?}", other),
    }
}

#[test]
fn unknown_method_reaches_client_as_protocol_error() {
    let mut broker = FakeBroker::new();
    let mut server: Server<Calculator> = Server::new(String::from("server"), 1);
    server.register(Calculator);
    match call(&mut broker, &server, "Mul", 2.0, 3.0) {
        Err(Error::Protocol(m)) => assert_eq!(m, String::from("unknown method 'Mul'")),
        other => panic!("expected a Protocol error, got {:?}", other),
    }
}

#[test]
fn reply_key_ttl_is_set_and_expiry_makes_it_unreadable() {
    let mut broker = FakeBroker::new();
    let mut server: Server<Calculator> = Server::new(String::from("server"), 1);
    server.register(Calculator);
    let object = ObjectID::new(String::from("calculator"), String::from("1.0"));
    let req = Request::new(object.clone(), String::from("Add"))
        .arg(&Value::F64(1.0f64.to_bits()))
        .unwrap()
        .arg(&Value::F64(1.0f64.to_bits()))
        .unwrap();
    let payload = encode_request(&req).unwrap();
    let plan = server.handle(&payload).unwrap();
    broker.push(&plan.queue, plan.payload);
    broker.expire(&plan.queue, plan.ttl_secs);
    // the TTL is set to exactly 300 seconds right after the push
    assert_eq!(broker.ttl(&req.reply_to), Some(300));
    // a reply not popped within the window becomes unreadable
    broker.simulate_expiry(&req.reply_to);
    match interpret_reply(broker.pop(&req.reply_to)) {
        Err(Error::Timeout) => {},
        other => panic!("expected Timeout, got {:?}", other),
    }
}

#[test]
fn client_timeout_on_empty_reply_queue() {
    assert!(matches!(interpret_reply(None), Err(Error::Timeout)));
}

#[test]
fn undecodable_reply_is_a_protocol_error() {
    assert!(matches!(
        interpret_reply(Some(vec![0u8, 1, 2])),
        Err(Error::Protocol(_))
    ));
}

#[test]
fn request_survives_the_queue_byte_for_byte() {
    let object = ObjectID::new(String::from("calculator"), String::from("1.0"));
    let req = Request::new(object, String::from("Add"))
        .arg(&Value::Str(String::from("x")))
        .unwrap();
    let payload = encode_request(&req).unwrap();
    let mut broker = FakeBroker::new();
    broker.push("server.calculator@1.0", payload);
    let popped = broker.pop("server.calculator@1.0").unwrap();
    let back = decode_request(&popped).unwrap();
    assert_eq!(back, req);
}
