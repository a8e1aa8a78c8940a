use kvs::memory::MemTable;
use kvs::pb::{CommandRequest, Value};
use kvs::service::{assert_res_ok, Service, StatusSetter};

#[test]
fn service_should_works() {
    // A service owns one storage backend; every command goes through it.
    let mut service: Service<MemTable, StatusSetter> = Service::new(MemTable::new());

    let res = service.execute(CommandRequest::new_hset("t1", "k1", Value::of_str("v1")));
    assert!(assert_res_ok(&res, &vec![Value::default()], &vec![]));

    let res = service.execute(CommandRequest::new_hget("t1", "k1"));
    assert!(assert_res_ok(&res, &vec![Value::of_str("v1")], &vec![]));
}

#[test]
fn event_registration_should_work() {
    let service: Service<MemTable, StatusSetter> = Service::new(MemTable::default());
    let mut service = service
        .fn_received(StatusSetter { status: 0 })
        .fn_received(StatusSetter { status: 0 })
        .fn_executed(StatusSetter { status: 0 })
        .fn_before_send(StatusSetter { status: 201 })
        .fn_after_send(StatusSetter { status: 0 });

    let res = service.execute(CommandRequest::new_hset("t1", "k1", Value::of_str("v1")));
    assert_eq!(res.status, 201);
    assert_eq!(res.message, "");
    assert_eq!(res.values.len(), 1);
    assert!(kvs::pb::value_eq(&res.values[0], &Value::default()));
}

#[test]
fn before_send_hooks_apply_in_registration_order() {
    let service: Service<MemTable, StatusSetter> = Service::new(MemTable::new());
    let mut service = service
        .fn_before_send(StatusSetter { status: 201 })
        .fn_before_send(StatusSetter { status: 202 });

    let res = service.execute(CommandRequest::new_hget_all("t"));
    // The last registered override sees the first one's output and wins.
    assert_eq!(res.status, 202);
}

#[test]
fn end_to_end_writes_then_scan() {
    let mut service: Service<MemTable, StatusSetter> = Service::new(MemTable::new());
    service.execute(CommandRequest::new_hset("t1", "k1", Value::of_int(10)));
    service.execute(CommandRequest::new_hset("t1", "k2", Value::of_int(5)));
    service.execute(CommandRequest::new_hset("t1", "k3", Value::of_int(6)));
    service.execute(CommandRequest::new_hset("t1", "k1", Value::of_int(9)));

    let res = service.execute(CommandRequest::new_hget_all("t1"));
    let pairs = vec![
        kvs::pb::Kvpair::new("k1", Value::of_int(9)),
        kvs::pb::Kvpair::new("k2", Value::of_int(5)),
        kvs::pb::Kvpair::new("k3", Value::of_int(6)),
    ];
    assert!(assert_res_ok(&res, &vec![], &pairs));
}
