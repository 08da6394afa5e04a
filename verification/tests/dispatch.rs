use qbus::codec::{encode_value, Value};
use qbus::error::{CallError, Error};
use qbus::pool::PoolState;
use qbus::protocol::{decode_response, encode_request, ObjectID, Output, Request};
use qbus::registry::Object;
use qbus::server::{build_response, Server};

struct Echo;

impl Object for Echo {
    fn id(&self) -> ObjectID {
        ObjectID::new(String::from("echo"), String::from("1.0"))
    }

    fn dispatch(&self, request: &Request) -> Result<Output, Error> {
        let v = request.inputs.at(0)?;
        Ok(Output::from_result(Ok(v)))
    }
}

#[test]
fn unknown_object_yields_exact_outer_error() {
    let mut server: Server<Echo> = Server::new(String::from("server"), 2);
    server.register(Echo);
    let target = ObjectID::new(String::from("nosuch"), String::from("2.0"));
    let req = Request::new(target, String::from("Anything"));
    let payload = encode_request(&req).unwrap();
    let plan = server.handle(&payload).expect("a reply is always attempted");
    assert_eq!(plan.queue, req.id);
    let resp = decode_response(&plan.payload).unwrap();
    assert_eq!(resp.id, req.id);
    assert_eq!(resp.error, Some(String::from("unknown object 'nosuch@2.0'")));
    assert!(resp.output.data.is_empty());
    assert!(resp.output.error.is_none());
}

#[test]
fn undecodable_payload_is_dropped() {
    let mut server: Server<Echo> = Server::new(String::from("server"), 1);
    server.register(Echo);
    assert!(server.handle(&vec![1u8, 2, 3]).is_none());
    assert!(server.handle(&Vec::new()).is_none());
}

#[test]
fn reply_ttl_is_three_hundred_seconds() {
    let mut server: Server<Echo> = Server::new(String::from("server"), 1);
    server.register(Echo);
    let target = ObjectID::new(String::from("echo"), String::from("1.0"));
    let req = Request::new(target, String::from("any"))
        .arg(&Value::U64(5))
        .unwrap();
    let payload = encode_request(&req).unwrap();
    let plan = server.handle(&payload).unwrap();
    assert_eq!(plan.ttl_secs, 300);
    assert_eq!(plan.ttl_secs, qbus::RESPONSE_TTL_SECS);
}

#[test]
fn handler_ok_gives_encoded_data_and_no_error() {
    // a handler returning Ok(x) yields output.data == encode(x), error null
    let out = Output::from_result(Ok(Value::U64(42)));
    assert_eq!(out.data, encode_value(&Value::U64(42)).unwrap());
    assert!(out.error.is_none());
    let resp = build_response(String::from("rid"), Ok(out));
    assert_eq!(resp.id, String::from("rid"));
    assert!(resp.error.is_none());
    assert!(resp.output.error.is_none());
}

#[test]
fn handler_err_gives_message_and_empty_data() {
    // a handler returning Err(e) yields output.error.message == e, empty data
    let out = Output::from_result(Err(CallError::from(String::from("divide by zero"))));
    assert!(out.data.is_empty());
    assert_eq!(
        out.error.as_ref().map(|c| c.message.clone()),
        Some(String::from("divide by zero"))
    );
}

#[test]
fn dispatch_failure_becomes_outer_error_text() {
    let resp = build_response(
        String::from("rid"),
        Err(Error::UnknownMethod(String::from("Frobnicate"))),
    );
    assert_eq!(resp.error, Some(String::from("unknown method 'Frobnicate'")));
    assert!(resp.output.data.is_empty());
    assert!(resp.output.error.is_none());
}

#[test]
fn queue_names_are_module_dot_key() {
    let mut server: Server<Echo> = Server::new(String::from("server"), 1);
    server.register(Echo);
    let queues = server.queues();
    assert_eq!(queues, vec![String::from("server.echo@1.0")]);
}

#[test]
fn pool_backpressure_never_exceeds_size() {
    // with N units busy, the loop must not issue another blocking pop
    let mut pool = PoolState::new(3);
    assert!(pool.can_pull());
    pool.accept();
    pool.accept();
    assert!(pool.can_pull());
    pool.accept();
    assert_eq!(pool.busy, 3);
    assert!(!pool.can_pull());
    // more pending messages change nothing: the loop is blocked on capacity
    assert!(!pool.can_pull());
    pool.finish();
    assert!(pool.can_pull());
    assert_eq!(pool.busy, 2);
    pool.finish();
    pool.finish();
    assert_eq!(pool.busy, 0);
    assert!(pool.can_pull());
}
