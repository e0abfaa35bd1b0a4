use gosu_lsp::json::{JsonNumber, JsonValue};
use gosu_lsp::lsp::Server;

fn s(text: &str) -> JsonValue {
    JsonValue::Str(text.to_string())
}

fn n(value: u64) -> JsonValue {
    JsonValue::Number(JsonNumber::PosInt(value))
}

fn obj(members: Vec<(&str, JsonValue)>) -> JsonValue {
    JsonValue::Object(members.into_iter().map(|(k, v)| (k.to_string(), v)).collect())
}

fn get<'a>(value: &'a JsonValue, key: &str) -> &'a JsonValue {
    value.get(key).expect("member present")
}

fn text_of(value: &JsonValue) -> String {
    value.as_str().expect("a string").clone()
}

fn did_open(uri: &str, text: &str) -> JsonValue {
    obj(vec![
        ("jsonrpc", s("2.0")),
        ("method", s("textDocument/didOpen")),
        (
            "params",
            obj(vec![(
                "textDocument",
                obj(vec![("uri", s(uri)), ("languageId", s("gosu")), ("text", s(text))]),
            )]),
        ),
    ])
}

fn formatting(id: u64, uri: &str, options: Option<JsonValue>) -> JsonValue {
    let mut params = vec![("textDocument", obj(vec![("uri", s(uri))]))];
    if let Some(options) = options {
        params.push(("options", options));
    }
    obj(vec![
        ("jsonrpc", s("2.0")),
        ("id", n(id)),
        ("method", s("textDocument/formatting")),
        ("params", obj(params)),
    ])
}

#[test]
fn initialize_reports_formatting_capability() {
    let mut server = Server::new("1.2.3");
    let request = obj(vec![("id", n(1)), ("method", s("initialize"))]);
    let reply = server.handle_message(&request).expect("a reply");
    assert_eq!(text_of(get(&reply, "jsonrpc")), "2.0");
    assert_eq!(get(&reply, "id").as_u64(), Some(1));
    let result = get(&reply, "result");
    let capabilities = get(result, "capabilities");
    assert_eq!(get(capabilities, "documentFormattingProvider").as_bool(), Some(true));
    let sync = get(capabilities, "textDocumentSync");
    assert_eq!(get(sync, "openClose").as_bool(), Some(true));
    assert_eq!(get(sync, "change").as_u64(), Some(1));
    let info = get(result, "serverInfo");
    assert_eq!(text_of(get(info, "name")), "gosu-lsp");
    assert_eq!(text_of(get(info, "version")), "1.2.3");
}

#[test]
fn shutdown_replies_null() {
    let mut server = Server::new("0");
    let request = obj(vec![("id", s("abc")), ("method", s("shutdown"))]);
    let reply = server.handle_message(&request).expect("a reply");
    assert_eq!(text_of(get(&reply, "id")), "abc");
    assert!(matches!(get(&reply, "result"), JsonValue::Null));
}

#[test]
fn notifications_get_no_reply() {
    let mut server = Server::new("0");
    for method in ["initialized", "exit", "shutdown", "initialize", "unknown/thing"] {
        let note = obj(vec![("method", s(method))]);
        assert!(server.handle_message(&note).is_none());
    }
    assert!(server.handle_message(&obj(vec![("id", n(3))])).is_none());
    assert!(server.handle_message(&JsonValue::Null).is_none());
}

#[test]
fn unknown_request_gets_method_not_found() {
    let mut server = Server::new("0");
    let request = obj(vec![("id", n(7)), ("method", s("textDocument/hover"))]);
    let reply = server.handle_message(&request).expect("a reply");
    assert_eq!(get(&reply, "id").as_u64(), Some(7));
    let error = get(&reply, "error");
    assert!(matches!(get(error, "code"), JsonValue::Number(JsonNumber::NegInt(-32601))));
    assert_eq!(text_of(get(error, "message")), "method not found");
    assert!(reply.get("result").is_none());
}

fn only_edit(reply: &JsonValue) -> &JsonValue {
    match get(reply, "result") {
        JsonValue::Array(edits) => {
            assert_eq!(edits.len(), 1);
            &edits[0]
        }
        _ => panic!("result is not an array"),
    }
}

fn no_edits(reply: &JsonValue) -> bool {
    matches!(get(reply, "result"), JsonValue::Array(edits) if edits.is_empty())
}

#[test]
fn opened_document_is_formatted_with_whole_range_edit() {
    let mut server = Server::new("0");
    assert!(server.handle_message(&did_open("file:///a.gs", "class A {\nx\n}")).is_none());
    let reply = server.handle_message(&formatting(2, "file:///a.gs", None)).expect("a reply");
    let edit = only_edit(&reply);
    assert_eq!(text_of(get(edit, "newText")), "class A {\n  x\n}\n");
    let range = get(edit, "range");
    let start = get(range, "start");
    assert_eq!(get(start, "line").as_u64(), Some(0));
    assert_eq!(get(start, "character").as_u64(), Some(0));
    let end = get(range, "end");
    assert_eq!(get(end, "line").as_u64(), Some(2));
    assert_eq!(get(end, "character").as_u64(), Some(1));
}

#[test]
fn formatted_document_gets_no_edits() {
    let mut server = Server::new("0");
    server.handle_message(&did_open("u", "class A {\n  x\n}\n"));
    let reply = server.handle_message(&formatting(5, "u", None)).expect("a reply");
    assert!(no_edits(&reply));
}

#[test]
fn unknown_document_gets_no_edits() {
    let mut server = Server::new("0");
    let reply = server.handle_message(&formatting(5, "nowhere", None)).expect("a reply");
    assert!(no_edits(&reply));
}

#[test]
fn did_change_replaces_text_with_last_change() {
    let mut server = Server::new("0");
    server.handle_message(&did_open("u", "a"));
    let change = obj(vec![
        ("method", s("textDocument/didChange")),
        (
            "params",
            obj(vec![
                ("textDocument", obj(vec![("uri", s("u")), ("version", n(2))])),
                (
                    "contentChanges",
                    JsonValue::Array(vec![obj(vec![("text", s("first"))]), obj(vec![("text", s("x {\ny\n}"))])]),
                ),
            ]),
        ),
    ]);
    assert!(server.handle_message(&change).is_none());
    let reply = server.handle_message(&formatting(1, "u", None)).expect("a reply");
    assert_eq!(text_of(get(only_edit(&reply), "newText")), "x {\n  y\n}\n");
}

#[test]
fn did_close_forgets_document() {
    let mut server = Server::new("0");
    server.handle_message(&did_open("u", "a {\nb\n}"));
    let close = obj(vec![
        ("method", s("textDocument/didClose")),
        ("params", obj(vec![("textDocument", obj(vec![("uri", s("u"))]))])),
    ]);
    assert!(server.handle_message(&close).is_none());
    let reply = server.handle_message(&formatting(1, "u", None)).expect("a reply");
    assert!(no_edits(&reply));
}

#[test]
fn formatting_honours_requested_options() {
    let mut server = Server::new("0");
    server.handle_message(&did_open("u", "a {\nb\n}\n"));
    let tabs = obj(vec![("tabSize", n(8)), ("insertSpaces", JsonValue::Bool(false))]);
    let reply = server.handle_message(&formatting(1, "u", Some(tabs))).expect("a reply");
    assert_eq!(text_of(get(only_edit(&reply), "newText")), "a {\n\tb\n}\n");
    let four = obj(vec![("tabSize", n(4)), ("insertSpaces", JsonValue::Bool(true))]);
    let reply = server.handle_message(&formatting(2, "u", Some(four))).expect("a reply");
    assert_eq!(text_of(get(only_edit(&reply), "newText")), "a {\n    b\n}\n");
    let zero = obj(vec![("tabSize", n(0))]);
    let reply = server.handle_message(&formatting(3, "u", Some(zero))).expect("a reply");
    assert_eq!(text_of(get(only_edit(&reply), "newText")), "a {\n  b\n}\n");
}

#[test]
fn server_formatting_keeps_blank_lines_and_colons() {
    let mut server = Server::new("0");
    server.handle_message(&did_open("u", "var a : int\n\n\nvar b : int"));
    let reply = server.handle_message(&formatting(1, "u", None)).expect("a reply");
    assert_eq!(text_of(get(only_edit(&reply), "newText")), "var a : int\n\n\nvar b : int\n");
}

#[test]
fn range_end_counts_utf16_units_after_last_newline() {
    let mut server = Server::new("0");
    server.handle_message(&did_open("u", "x\n\u{1F600}é  "));
    let reply = server.handle_message(&formatting(1, "u", None)).expect("a reply");
    let end = get(get(only_edit(&reply), "range"), "end");
    assert_eq!(get(end, "line").as_u64(), Some(1));
    assert_eq!(get(end, "character").as_u64(), Some(5));
}

#[test]
fn reopening_replaces_text() {
    let mut server = Server::new("0");
    server.handle_message(&did_open("u", "first {\n}"));
    server.handle_message(&did_open("v", "other"));
    server.handle_message(&did_open("u", "second {\nz\n}"));
    let reply = server.handle_message(&formatting(1, "u", None)).expect("a reply");
    assert_eq!(text_of(get(only_edit(&reply), "newText")), "second {\n  z\n}\n");
}

#[test]
fn json_get_finds_members_and_duplicate_copies() {
    let value = obj(vec![("a", n(1)), ("b", JsonValue::Array(vec![s("x"), JsonValue::Null]))]);
    assert_eq!(get(&value, "a").as_u64(), Some(1));
    assert!(value.get("c").is_none());
    assert!(n(3).get("a").is_none());
    let copy = value.duplicate();
    match get(&copy, "b").as_array() {
        Some(items) => {
            assert_eq!(items.len(), 2);
            assert_eq!(text_of(&items[0]), "x");
        }
        None => panic!("not an array"),
    }
}

#[test]
fn applying_the_edit_settles_formatting() {
    let mut server = Server::new("0");
    server.handle_message(&did_open("u", "a {\nvar b : int\n\n\n}\n"));
    let reply = server.handle_message(&formatting(1, "u", None)).expect("a reply");
    let new_text = text_of(get(only_edit(&reply), "newText"));
    server.handle_message(&did_open("u", &new_text));
    let reply = server.handle_message(&formatting(2, "u", None)).expect("a reply");
    assert!(no_edits(&reply));
}

#[test]
fn formatting_edits_are_empty_after_the_edit_is_applied() {
    let mut server = Server::new("0");
    server.handle_message(&did_open("u", "a {\nb\n}"));
    let request = formatting(1, "u", None);
    let edits = server.formatting_edits(&request);
    assert_eq!(edits.len(), 1);
    let new_text = text_of(get(&edits[0], "newText"));
    server.handle_message(&did_open("u", &new_text));
    assert!(server.formatting_edits(&request).is_empty());
}
