use tunadb::command::{run, run_proto, Command};
use tunadb::proto;
use tunadb::proto::{STATUS_ERROR, STATUS_NOT_FOUND, STATUS_OK, STATUS_UNESPECIFIED};
use tunadb::response::{Response, Status};
use tunadb::storage::{new_engine, new_file_bytes, Engine};

fn fresh_engine() -> Engine {
    new_engine(new_file_bytes()).unwrap()
}

#[test]
fn run_get_missing_prints_nil() {
    let mut engine = fresh_engine();
    let out = run(&mut engine, Command::Get { key: "k".to_string() }).unwrap();
    assert_eq!(out, "(nil)\n");
}

#[test]
fn run_set_then_get_prints_value() {
    let mut engine = fresh_engine();
    let out = run(
        &mut engine,
        Command::Put { key: "k".to_string(), value: "v".to_string() },
    )
    .unwrap();
    assert_eq!(out, "ok\n");
    let out = run(&mut engine, Command::Get { key: "k".to_string() }).unwrap();
    assert_eq!(out, "v\n");
}

#[test]
fn run_del_prints_ok_and_hides_key() {
    let mut engine = fresh_engine();
    run(
        &mut engine,
        Command::Put { key: "k".to_string(), value: "v".to_string() },
    )
    .unwrap();
    let out = run(&mut engine, Command::Del { key: "k".to_string() }).unwrap();
    assert_eq!(out, "ok\n");
    let out = run(&mut engine, Command::Get { key: "k".to_string() }).unwrap();
    assert_eq!(out, "(nil)\n");
}

#[test]
fn run_list_prints_one_line_per_key_and_a_blank_line() {
    let mut engine = fresh_engine();
    run(
        &mut engine,
        Command::Put { key: "a".to_string(), value: "1".to_string() },
    )
    .unwrap();
    let out = run(&mut engine, Command::List).unwrap();
    assert_eq!(out, "- a\n\n");
}

#[test]
fn run_list_on_empty_store_prints_blank_line() {
    let mut engine = fresh_engine();
    assert_eq!(run(&mut engine, Command::List).unwrap(), "\n");
}

#[test]
fn run_reports_overlong_key_as_message() {
    let mut engine = fresh_engine();
    let out = run(
        &mut engine,
        Command::Put { key: "k".repeat(256), value: "v".to_string() },
    )
    .unwrap();
    assert_eq!(out, "key too long (max 255 bytes)");
}

#[test]
fn run_proto_get_found_and_missing() {
    let mut engine = fresh_engine();
    run_proto(
        &mut engine,
        Command::Put { key: "k".to_string(), value: "v".to_string() },
    );
    let found = run_proto(&mut engine, Command::Get { key: "k".to_string() });
    assert_eq!(found.status, Status::Okay);
    assert_eq!(found.content, Some("v".to_string()));
    let missing = run_proto(&mut engine, Command::Get { key: "nope".to_string() });
    assert_eq!(missing.status, Status::NotFound);
    assert_eq!(missing.content, None);
}

#[test]
fn run_proto_set_and_del_report_ok_without_content() {
    let mut engine = fresh_engine();
    let set = run_proto(
        &mut engine,
        Command::Put { key: "k".to_string(), value: "v".to_string() },
    );
    assert_eq!(set.status, Status::Okay);
    assert_eq!(set.content, None);
    let del = run_proto(&mut engine, Command::Del { key: "k".to_string() });
    assert_eq!(del.status, Status::Okay);
    assert_eq!(del.content, None);
}

#[test]
fn run_proto_reports_overlong_key_as_error() {
    let mut engine = fresh_engine();
    let r = run_proto(
        &mut engine,
        Command::Put { key: "k".repeat(256), value: "v".to_string() },
    );
    assert_eq!(r.status, Status::Error);
    assert_eq!(
        r.content,
        Some("error: key too long (max 255 bytes)".to_string())
    );
}

#[test]
fn run_proto_list_carries_rendered_lines() {
    let mut engine = fresh_engine();
    run_proto(
        &mut engine,
        Command::Put { key: "a".to_string(), value: "1".to_string() },
    );
    let r = run_proto(&mut engine, Command::List);
    assert_eq!(r.status, Status::Okay);
    assert_eq!(r.content, Some("- a\n\n".to_string()));
}

#[test]
fn response_to_proto_carries_status_code_and_content() {
    let r = Response { status: Status::Okay, content: Some("hi".to_string()) };
    let p = r.to_proto_response();
    assert_eq!(p.status, STATUS_OK);
    assert_eq!(p.content, Some("hi".to_string()));

    let r = Response { status: Status::NotFound, content: None };
    let p = r.to_proto_response();
    assert_eq!(p.status, STATUS_NOT_FOUND);
    assert_eq!(p.content, None);

    let r = Response { status: Status::Error, content: Some("e".to_string()) };
    assert_eq!(r.to_proto_response().status, STATUS_ERROR);

    let r = Response { status: Status::Unespecified, content: None };
    assert_eq!(r.to_proto_response().status, STATUS_UNESPECIFIED);
}

#[test]
fn response_from_proto_not_found_drops_content() {
    let p = proto::Response { status: STATUS_NOT_FOUND, content: Some("x".to_string()) };
    let r = Response::from_proto_response(p);
    assert_eq!(r.status, Status::NotFound);
    assert_eq!(r.content, None);
}

#[test]
fn response_from_proto_reads_missing_content_as_empty() {
    let p = proto::Response { status: STATUS_OK, content: None };
    let r = Response::from_proto_response(p);
    assert_eq!(r.status, Status::Okay);
    assert_eq!(r.content, Some(String::new()));
}

#[test]
fn response_from_proto_unknown_status_reads_as_unspecified() {
    let p = proto::Response { status: 42, content: Some("c".to_string()) };
    let r = Response::from_proto_response(p);
    assert_eq!(r.status, Status::Unespecified);
    assert_eq!(r.content, Some("c".to_string()));
}

#[test]
fn response_round_trips_through_proto() {
    let r = Response { status: Status::Okay, content: Some("payload".to_string()) };
    let back = Response::from_proto_response(r.to_proto_response());
    assert_eq!(back.status, Status::Okay);
    assert_eq!(back.content, Some("payload".to_string()));
}
