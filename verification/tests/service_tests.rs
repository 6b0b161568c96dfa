use http::StatusCode;
use kvs::CommandRequest;
use kvs::Kvpair;
use kvs::KvError;
use kvs::MemTable;
use kvs::RespHook;
use kvs::Service;
use kvs::ServiceInner;
use kvs::Value;
use kvs::assert_res_error;
use kvs::assert_res_ok;

#[test]
fn service_should_works() {
    // a service wraps one storage engine
    let service: Service = ServiceInner::new(MemTable::default()).into();

    // its clone is cheap and shares the same store
    let cloned = service.clone();

    // writing through the clone: t1/k1 = v1, no prior value
    let res = cloned.execute(CommandRequest::new_hset("t1", "k1", "v1".into()));
    assert!(assert_res_ok(&res, &[Value::default()], &[]));

    // reading through the original sees the clone's write
    let res = service.execute(CommandRequest::new_hget("t1", "k1"));
    assert!(assert_res_ok(&res, &["v1".into()], &[]));
}

#[test]
fn evnet_registration_should_work() {
    let service: Service = ServiceInner::new(MemTable::default())
        .fn_received("noop")
        .fn_received("b")
        .fn_executed("c")
        .fn_before_send(RespHook::SetStatus(StatusCode::CREATED.as_u16() as u32))
        .fn_after_send("e")
        .into();

    let res = service.execute(CommandRequest::new_hset("t1", "k1", "v1".into()));
    assert_eq!(res.status, StatusCode::CREATED.as_u16() as u32);
    assert_eq!(res.message, "");
    assert_eq!(res.values, vec![Value::default()]);
}

#[test]
fn before_send_hooks_fire_in_registration_order() {
    let service: Service = ServiceInner::new(MemTable::default())
        .fn_before_send(RespHook::SetMessage("x".to_string()))
        .fn_before_send(RespHook::PrefixMessage("a".to_string()))
        .into();
    let res = service.execute(CommandRequest::new_hget("t", "missing"));
    // the prefix hook ran after the set hook and saw its rewrite
    assert_eq!(res.message, "ax");

    // registered the other way around, the set hook wins
    let service: Service = ServiceInner::new(MemTable::default())
        .fn_before_send(RespHook::PrefixMessage("a".to_string()))
        .fn_before_send(RespHook::SetMessage("x".to_string()))
        .into();
    let res = service.execute(CommandRequest::new_hget("t", "missing"));
    assert_eq!(res.message, "x");
}

#[test]
fn execute_scenario_on_an_empty_store() {
    let service: Service = ServiceInner::new(MemTable::new()).into();

    let res = service.execute(CommandRequest::new_hset("t1", "k1", "v1".into()));
    assert_eq!(res.status, 200);
    assert_eq!(res.message, "");
    assert_eq!(res.values, vec![Value::Empty]);

    let res = service.execute(CommandRequest::new_hget("t1", "k1"));
    assert_eq!(res.status, 200);
    assert_eq!(res.values, vec![Value::Str("v1".to_string())]);

    let res = service.execute(CommandRequest::new_hget("t1", "missing"));
    assert_eq!(res.status, 404);
    assert!(assert_res_error(&res, 404, "Not found"));

    let res = service.execute(CommandRequest::new_hset("t1", "k2", "v2".into()));
    assert_eq!(res.status, 200);
    let mut res = service.execute(CommandRequest::new_hgetall("t1"));
    assert_eq!(res.status, 200);
    res.pairs.sort_by(|a, b| a.key.cmp(&b.key));
    assert_eq!(res.pairs.len(), 2);
    assert_eq!(res.pairs[0].key, "k1");
    assert_eq!(res.pairs[0].value, Value::Str("v1".to_string()));
    assert_eq!(res.pairs[1].key, "k2");
    assert_eq!(res.pairs[1].value, Value::Str("v2".to_string()));
}

#[test]
fn second_set_reports_the_first_write() {
    let service: Service = ServiceInner::new(MemTable::new()).into();
    let res = service.execute(CommandRequest::new_hset("t", "k", Value::Int(1)));
    assert!(assert_res_ok(&res, &[Value::Empty], &[]));
    let res = service.execute(CommandRequest::new_hset("t", "k", Value::Int(2)));
    assert!(assert_res_ok(&res, &[Value::Int(1)], &[]));
    let res = service.execute(CommandRequest::new_hget("t", "k"));
    assert!(assert_res_ok(&res, &[Value::Int(2)], &[]));
}

#[test]
fn request_without_data_is_an_invalid_command() {
    let service: Service = ServiceInner::new(MemTable::new()).into();
    let res = service.execute(CommandRequest { request_data: None });
    assert!(assert_res_error(&res, 400, "Request has no data"));
}

#[test]
fn unserved_variants_report_not_implemented() {
    let service: Service = ServiceInner::new(MemTable::new()).into();
    let res = service.execute(CommandRequest::new_hdel("t", "k"));
    assert!(assert_res_error(&res, 500, "Not implemented"));
    let res = service.execute(CommandRequest::new_hexist("t", "k"));
    assert!(assert_res_error(&res, 500, "Not implemented"));
}

#[test]
fn error_messages_carry_their_context() {
    let e = KvError::StorageError(
        "get".to_string(),
        "t1".to_string(),
        "k1".to_string(),
        "backend closed".to_string(),
    );
    assert_eq!(
        e.message(),
        "Cannot process command get with table: t1, key: k1. Error: backend closed"
    );
    assert_eq!(KvError::NotFound("t".to_string(), "k".to_string()).message(), "Not found");
}

#[test]
fn assert_res_helpers_report_mismatches() {
    let service: Service = ServiceInner::new(MemTable::new()).into();
    let res = service.execute(CommandRequest::new_hset("t", "k", Value::Bool(true)));
    // right expectation
    assert!(assert_res_ok(&res, &[Value::Empty], &[]));
    // wrong values
    assert!(!assert_res_ok(&res, &[Value::Bool(true)], &[]));
    // wrong status
    assert!(!assert_res_error(&res, 500, ""));
}

#[test]
fn observer_names_are_kept_in_registration_order() {
    let service: Service = ServiceInner::new(MemTable::new())
        .fn_received("a")
        .fn_received("b")
        .fn_executed("c")
        .fn_after_send("d")
        .into();
    assert_eq!(service.received_names(), &vec!["a".to_string(), "b".to_string()]);
    assert_eq!(service.executed_names(), &vec!["c".to_string()]);
    assert_eq!(service.after_send_names(), &vec!["d".to_string()]);
}

#[test]
fn executed_observers_see_the_response_before_rewrites() {
    let service: Service = ServiceInner::new(MemTable::new())
        .fn_executed("log_response")
        .fn_before_send(RespHook::SetStatus(201))
        .into();
    let (raw, sent) = service.execute_observed(CommandRequest::new_hset("t", "k", "v".into()));
    // the executed observers' view: the dispatched answer, before the rewrite
    assert_eq!(raw.status, 200);
    assert_eq!(raw.values, vec![Value::Empty]);
    // the transmitted answer carries the rewrite
    assert_eq!(sent.status, 201);
    assert_eq!(sent.values, vec![Value::Empty]);
}

#[test]
fn assert_res_ok_accepts_pairs_in_any_order() {
    let service: Service = ServiceInner::new(MemTable::new()).into();
    service.execute(CommandRequest::new_hset("t", "k1", "v1".into()));
    service.execute(CommandRequest::new_hset("t", "k2", "v2".into()));
    let res = service.execute(CommandRequest::new_hgetall("t"));
    // without sorting the response, both orders of the expectation match
    let sorted = vec![Kvpair::new("k1", "v1".into()), Kvpair::new("k2", "v2".into())];
    let reversed = vec![Kvpair::new("k2", "v2".into()), Kvpair::new("k1", "v1".into())];
    assert!(assert_res_ok(&res, &[], &sorted));
    assert!(assert_res_ok(&res, &[], &reversed));
    // a wrong value under a right key is refused
    let wrong = vec![Kvpair::new("k1", "v1".into()), Kvpair::new("k2", "other".into())];
    assert!(!assert_res_ok(&res, &[], &wrong));
    // a missing pair is refused
    let short = vec![Kvpair::new("k1", "v1".into())];
    assert!(!assert_res_ok(&res, &[], &short));
}
