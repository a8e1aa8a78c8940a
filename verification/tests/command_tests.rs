use kvs::error::KvError;
use kvs::memory::MemTable;
use kvs::pb::{CommandRequest, Kvpair, Value};
use kvs::service::{assert_res_error, assert_res_ok, dispatch};

#[test]
fn hset_should_work() {
    let mut store = MemTable::new();
    let cmd = CommandRequest::new_hset("t1", "hello", Value::of_str("world"));
    let res = dispatch(cmd, &mut store);

    assert!(assert_res_ok(&res, &vec![Value::default()], &vec![]));
}

#[test]
fn hget_should_work() {
    let mut store = MemTable::new();
    let cmd = CommandRequest::new_hset("score", "u1", Value::of_int(10));
    dispatch(cmd, &mut store);
    let cmd = CommandRequest::new_hget("score", "u1");
    let res = dispatch(cmd, &mut store);
    assert!(assert_res_ok(&res, &vec![Value::of_int(10)], &vec![]));
}

#[test]
fn hget_with_non_exist_key_should_return_404() {
    let mut store = MemTable::new();
    let cmd = CommandRequest::new_hget("score", "ui");
    let res = dispatch(cmd, &mut store);
    assert!(assert_res_error(&res, 404, "Not found"));
}

#[test]
fn hget_all_should_work() {
    let mut store = MemTable::new();
    let commands = vec![
        CommandRequest::new_hset("t1", "k1", Value::of_int(10)),
        CommandRequest::new_hset("t1", "k2", Value::of_int(5)),
        CommandRequest::new_hset("t1", "k3", Value::of_int(6)),
        CommandRequest::new_hset("t1", "k1", Value::of_int(9)),
    ];
    for command in commands {
        dispatch(command, &mut store);
    }

    let hget_all_command = CommandRequest::new_hget_all("t1");
    let res = dispatch(hget_all_command, &mut store);

    let pairs = vec![
        Kvpair::new("k1", Value::of_int(9)),
        Kvpair::new("k2", Value::of_int(5)),
        Kvpair::new("k3", Value::of_int(6)),
    ];

    assert!(assert_res_ok(&res, &vec![], &pairs));
}

#[test]
fn hget_missing_key_message_names_table_and_key() {
    let mut store = MemTable::new();
    let res = dispatch(CommandRequest::new_hget("score", "u1"), &mut store);
    assert!(assert_res_error(
        &res,
        404,
        "Not found for table: score, key: u1"
    ));
}

#[test]
fn hset_without_pair_should_return_400() {
    let mut store = MemTable::new();
    let cmd = CommandRequest {
        request_data: Some(kvs::pb::RequestData::Hset(kvs::pb::Hset {
            table: "t1".to_string(),
            pair: None,
        })),
    };
    let res = dispatch(cmd, &mut store);
    assert!(assert_res_error(&res, 400, "Command is invalid"));
}

#[test]
fn request_without_data_should_return_400() {
    let mut store = MemTable::new();
    let cmd = CommandRequest { request_data: None };
    let res = dispatch(cmd, &mut store);
    assert!(assert_res_error(&res, 400, "Request has no data"));
}

#[test]
fn error_messages_render_exactly() {
    assert_eq!(
        KvError::NotFound("score".to_string(), "u1".to_string()).message(),
        "Not found for table: score, key: u1"
    );
    assert_eq!(
        KvError::InvalidCommand("no data".to_string()).message(),
        "Command is invalid: `no data`"
    );
    assert_eq!(
        KvError::Internal("oops".to_string()).message(),
        "Internal error: oops"
    );
    assert_eq!(KvError::SledError.message(), "Failed to access sled db");
    assert_eq!(
        KvError::DecodeError.message(),
        "Fail to decode protobuf message"
    );
    assert_eq!(
        KvError::EncodeError.message(),
        "Fail to encode protobuf message"
    );
}
