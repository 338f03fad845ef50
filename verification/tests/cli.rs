use saya::cli::{
    dev_request, exit_code_after, follow_step, last_lines, pretty_reply, response_exit_code,
};

#[test]
fn dev_request_builds_one_json_line() {
    let line = dev_request("ping", None).unwrap();
    assert_eq!(line, r#"{"id":1,"method":"ping","params":{}}"#);
    let line = dev_request("input.set", Some(r#"{"query":"chr"}"#)).unwrap();
    assert_eq!(line, r#"{"id":1,"method":"input.set","params":{"query":"chr"}}"#);
    assert!(!line.contains('\n'));
}

#[test]
fn dev_request_refuses_params_that_are_not_json() {
    assert!(dev_request("panel.open", Some("{kind:")).is_err());
}

#[test]
fn error_reply_exits_with_two_unless_following() {
    assert_eq!(response_exit_code(r#"{"id":1,"error":"nope"}"#, false), Some(2));
    assert_eq!(response_exit_code(r#"{"id":1,"error":"nope"}"#, true), None);
    assert_eq!(response_exit_code(r#"{"id":1,"result":"pong"}"#, false), None);
    assert_eq!(response_exit_code("not json", false), None);
    assert_eq!(exit_code_after(Some(true), false), Some(2));
    assert_eq!(exit_code_after(Some(false), false), None);
    assert_eq!(exit_code_after(None, false), None);
}

#[test]
fn last_lines_keeps_the_tail() {
    let content = "a\nb\r\nc\nd\n";
    assert_eq!(last_lines(content, 2), vec!["c", "d"]);
    assert_eq!(last_lines(content, 10), vec!["a", "b", "c", "d"]);
    assert!(last_lines(content, 0).is_empty());
    assert!(last_lines("", 5).is_empty());
}

#[test]
fn follow_resets_after_truncation() {
    assert_eq!(follow_step(100, 50), (0, true));
    assert_eq!(follow_step(100, 0), (0, false));
    assert_eq!(follow_step(100, 100), (100, false));
    assert_eq!(follow_step(100, 150), (100, true));
}

#[test]
fn dev_request_quotes_the_method_and_compacts_params() {
    let line = dev_request("say \"hi\"", Some("{ \"a\" : [1, 2] }")).unwrap();
    assert_eq!(line, r#"{"id":1,"method":"say \"hi\"","params":{"a":[1,2]}}"#);
}

#[test]
fn replies_are_pretty_printed() {
    assert_eq!(pretty_reply(r#"{"id":1,"result":"pong"}"#).unwrap(), "{\n  \"id\": 1,\n  \"result\": \"pong\"\n}");
    assert!(pretty_reply("not json").is_err());
}

#[test]
fn lines_split_like_str_lines() {
    assert_eq!(last_lines("a\r\nb\rc\n\nd", 10), vec!["a", "b\rc", "", "d"]);
    assert_eq!(last_lines("\n", 10), vec![""]);
}
