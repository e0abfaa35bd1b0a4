use vstd::prelude::*;

use crate::documents::Documents;
use crate::formatter::{format_chars, formatted, FormattingOptions};
use crate::json::{
    json_array, json_bool, json_get, json_get_in, json_member, json_object, json_str, json_string,
    json_u64, json_uint, lemma_member_models2, lemma_member_models3, lemma_models_index,
    models, Json, JsonNumber, JsonValue, Num,
};
use crate::text::{chars_of, string_from_chars};

verus! {

// ---------------------------------------------------------------------------
// What the server reads from a message
// ---------------------------------------------------------------------------

/// A pair of strings as a pair of their characters.
pub open spec fn pair_view(r: Option<(String, String)>) -> Option<(Seq<char>, Seq<char>)> {
    match r {
        Some((a, b)) => Some((a@, b@)),
        None => None,
    }
}

/// `params.textDocument` of a message.
pub open spec fn text_document(m: Json) -> Option<Json> {
    json_get_in(json_get(m, "params"@), "textDocument"@)
}

/// The URI and text of the document that a `didOpen` notification opens.
pub open spec fn opened_document(m: Json) -> Option<(Seq<char>, Seq<char>)> {
    let document = text_document(m);
    match (json_str(json_get_in(document, "uri"@)), json_str(json_get_in(document, "text"@))) {
        (Some(uri), Some(text)) => Some((uri, text)),
        _ => None,
    }
}

/// The URI of a `didChange` notification and the text of its last change.
pub open spec fn changed_document(m: Json) -> Option<(Seq<char>, Seq<char>)> {
    let uri = json_str(json_get_in(text_document(m), "uri"@));
    let changes = json_array(json_get_in(json_get(m, "params"@), "contentChanges"@));
    let text = match changes {
        Some(items) => if items.len() > 0 {
            json_str(json_get(items.last(), "text"@))
        } else {
            None
        },
        None => None,
    };
    match (uri, text) {
        (Some(uri), Some(text)) => Some((uri, text)),
        _ => None,
    }
}

/// `params.textDocument.uri` of a message.
pub open spec fn document_uri(m: Json) -> Option<Seq<char>> {
    json_str(json_get_in(text_document(m), "uri"@))
}

/// The formatting options of a request: `params.options.tabSize` where it is
/// a positive integer that fits in `usize` (else 2), and
/// `params.options.insertSpaces` where it is a boolean (else true).
pub open spec fn requested_options(m: Json) -> FormattingOptions {
    match json_get_in(json_get(m, "params"@), "options"@) {
        None => FormattingOptions { tab_size: 2, insert_spaces: true },
        Some(options) => FormattingOptions {
            tab_size: match json_u64(json_get(options, "tabSize"@)) {
                Some(n) => if 0 < n && n <= usize::MAX {
                    n as usize
                } else {
                    2
                },
                None => 2,
            },
            insert_spaces: match json_bool(json_get(options, "insertSpaces"@)) {
                Some(b) => b,
                None => true,
            },
        },
    }
}

/// The URI and text of the document that a `didOpen` notification opens.
fn did_open_text(message: &JsonValue) -> (r: Option<(String, String)>)
    ensures
        pair_view(r) == opened_document(message.model()),
{
    let text_document = message.get("params")?.get("textDocument")?;
    let uri = text_document.get("uri")?.as_str()?.clone();
    let text = text_document.get("text")?.as_str()?.clone();
    Some((uri, text))
}

/// The URI of a `didChange` notification and the text of its last change.
fn did_change_text(message: &JsonValue) -> (r: Option<(String, String)>)
    ensures
        pair_view(r) == changed_document(message.model()),
{
    let params = message.get("params")?;
    let uri = params.get("textDocument")?.get("uri")?.as_str()?.clone();
    let changes = params.get("contentChanges")?.as_array()?;
    if changes.len() == 0 {
        return None;
    }
    let last = &changes[changes.len() - 1];
    proof {
        lemma_models_index(changes@);
    }
    let text = last.get("text")?.as_str()?.clone();
    Some((uri, text))
}

/// `params.textDocument.uri` of a message.
fn text_document_uri(message: &JsonValue) -> (r: Option<String>)
    ensures
        r matches Some(uri) ==> document_uri(message.model()) == Some(uri@),
        r is None ==> document_uri(message.model()) is None,
{
    let uri = message.get("params")?.get("textDocument")?.get("uri")?.as_str()?;
    Some(uri.clone())
}

/// The formatting options that a request asks for.
fn formatting_options(message: &JsonValue) -> (r: FormattingOptions)
    ensures
        r == requested_options(message.model()),
{
    let options = match message.get("params") {
        Some(params) => match params.get("options") {
            Some(options) => options,
            None => return FormattingOptions { tab_size: 2, insert_spaces: true },
        },
        None => return FormattingOptions { tab_size: 2, insert_spaces: true },
    };
    let tab_size = match options.get("tabSize") {
        Some(value) => match value.as_u64() {
            Some(n) => if 0 < n && (n as u128) <= (usize::MAX as u128) {
                n as usize
            } else {
                2
            },
            None => 2,
        },
        None => 2,
    };
    let insert_spaces = match options.get("insertSpaces") {
        Some(value) => match value.as_bool() {
            Some(b) => b,
            None => true,
        },
        None => true,
    };
    FormattingOptions { tab_size, insert_spaces }
}


// ---------------------------------------------------------------------------
// Formatting a document
// ---------------------------------------------------------------------------

/// Formats Gosu source as the language server does: trims each line, indents
/// brace blocks by `options`, drops the blank lines at the end, and ends the
/// text with one newline (an empty result stays empty). Blank lines inside
/// the text are kept, and type colons are left as they are.
pub fn format_gosu(source: &str, options: FormattingOptions) -> (r: String)
    ensures
        r@ == formatted(source@, options, false),
{
    let chars = chars_of(source);
    let out = format_chars(&chars, options, false);
    string_from_chars(&out)
}

/// `x + y` wrapped round at `2^32`.
pub open spec fn wrap_add(x: u32, y: u32) -> u32 {
    if x + y > u32::MAX {
        (x + y - 0x1_0000_0000) as u32
    } else {
        (x + y) as u32
    }
}

/// The number of UTF-16 code units that encode `c`.
pub open spec fn utf16_len(c: char) -> u32 {
    if c as u32 >= 0x10000 {
        2
    } else {
        1
    }
}

/// The position just past the end of `text`, as a line and a UTF-16 column,
/// both counted modulo `2^32`: the number of newlines, and the UTF-16 length
/// of what follows the last newline.
pub open spec fn end_position(text: Seq<char>) -> (u32, u32)
    decreases text.len(),
{
    if text.len() == 0 {
        (0, 0)
    } else {
        let before = end_position(text.drop_last());
        if text.last() == '\n' {
            (wrap_add(before.0, 1), 0)
        } else {
            (before.0, wrap_add(before.1, utf16_len(text.last())))
        }
    }
}

/// A position object.
pub open spec fn position_json(line: u32, character: u32) -> Json {
    Json::Object(
        seq![
            ("line"@, Json::Number(Num::PosInt(line as u64))),
            ("character"@, Json::Number(Num::PosInt(character as u64))),
        ],
    )
}

/// The range that covers all of `text`.
pub open spec fn document_range(text: Seq<char>) -> Json {
    Json::Object(
        seq![
            ("start"@, position_json(0, 0)),
            ("end"@, position_json(end_position(text).0, end_position(text).1)),
        ],
    )
}

/// A position object.
fn position(line: u32, character: u32) -> (r: JsonValue)
    ensures
        r.model() == position_json(line, character),
{
    let a = json_member("line", json_uint(line as u64));
    let b = json_member("character", json_uint(character as u64));
    proof {
        lemma_member_models2(a, b);
    }
    json_object(vec![a, b])
}

/// The range that covers all of `text`.
fn whole_document_range(text: &str) -> (r: JsonValue)
    ensures
        r.model() == document_range(text@),
{
    let chars = chars_of(text);
    let mut line: u32 = 0;
    let mut character: u32 = 0;
    let mut i: usize = 0;
    assert(chars@.take(0) =~= Seq::<char>::empty());
    while i < chars.len()
        invariant
            i <= chars.len(),
            (line, character) == end_position(chars@.take(i as int)),
        decreases chars.len() - i,
    {
        let ch = chars[i];
        assert(chars@.take(i + 1).drop_last() =~= chars@.take(i as int));
        if ch == '\n' {
            line = line.wrapping_add(1);
            character = 0;
        } else {
            let units: u32 = if (ch as u32) >= 0x10000 {
                2
            } else {
                1
            };
            character = character.wrapping_add(units);
        }
        i = i + 1;
    }
    assert(chars@.take(chars.len() as int) =~= chars@);
    let a = json_member("start", position(0, 0));
    let b = json_member("end", position(line, character));
    proof {
        lemma_member_models2(a, b);
    }
    json_object(vec![a, b])
}


// ---------------------------------------------------------------------------
// Replies
// ---------------------------------------------------------------------------

/// A text edit that replaces all of `text` by `new_text`.
pub open spec fn text_edit_json(text: Seq<char>, new_text: Seq<char>) -> Json {
    Json::Object(seq![("range"@, document_range(text)), ("newText"@, Json::Str(new_text))])
}

/// The edits that a formatting request gets: none where the request names no
/// open document or the document is formatted already, else one edit that
/// replaces the whole document by its formatted text.
pub open spec fn edits_for(documents: Map<Seq<char>, Seq<char>>, m: Json) -> Seq<Json> {
    match document_uri(m) {
        None => Seq::empty(),
        Some(uri) => if !documents.contains_key(uri) {
            Seq::empty()
        } else {
            let text = documents[uri];
            let new_text = formatted(text, requested_options(m), false);
            if new_text == text {
                Seq::empty()
            } else {
                seq![text_edit_json(text, new_text)]
            }
        },
    }
}

/// A JSON-RPC response carrying `result`.
pub open spec fn response_json(id: Json, result: Json) -> Json {
    Json::Object(seq![("jsonrpc"@, Json::Str("2.0"@)), ("id"@, id), ("result"@, result)])
}

/// An integer as a JSON number: non-negative ones as such, negative ones as
/// negative integers.
pub open spec fn integer_num(n: i64) -> Num {
    if n >= 0 {
        Num::PosInt(n as u64)
    } else {
        Num::NegInt(n)
    }
}

/// A JSON-RPC error response.
pub open spec fn error_json(id: Json, code: i64, message: Seq<char>) -> Json {
    Json::Object(
        seq![
            ("jsonrpc"@, Json::Str("2.0"@)),
            ("id"@, id),
            (
                "error"@,
                Json::Object(
                    seq![
                        ("code"@, Json::Number(integer_num(code))),
                        ("message"@, Json::Str(message)),
                    ],
                ),
            ),
        ],
    )
}

/// The JSON-RPC code of a request for a method the server does not know.
pub open spec fn method_not_found_code() -> i64 {
    -32601i64
}

/// What the server answers `initialize` with.
pub open spec fn initialize_result(version: Seq<char>) -> Json {
    Json::Object(
        seq![
            (
                "capabilities"@,
                Json::Object(
                    seq![
                        ("documentFormattingProvider"@, Json::Bool(true)),
                        (
                            "textDocumentSync"@,
                            Json::Object(
                                seq![
                                    ("openClose"@, Json::Bool(true)),
                                    ("change"@, Json::Number(Num::PosInt(1))),
                                ],
                            ),
                        ),
                    ],
                ),
            ),
            (
                "serverInfo"@,
                Json::Object(
                    seq![("name"@, Json::Str("gosu-lsp"@)), ("version"@, Json::Str(version))],
                ),
            ),
        ],
    )
}

/// The method of a message.
pub open spec fn method_of(m: Json) -> Option<Seq<char>> {
    json_str(json_get(m, "method"@))
}

/// A reply to the request `m` where it has an id; nothing for a notification.
pub open spec fn reply_with(m: Json, result: Json) -> Option<Json> {
    match json_get(m, "id"@) {
        Some(id) => Some(response_json(id, result)),
        None => None,
    }
}

/// What the server does with a message: the open documents after it, and
/// the reply that it writes, if any.
pub open spec fn handle(
    documents: Map<Seq<char>, Seq<char>>,
    version: Seq<char>,
    m: Json,
) -> (Map<Seq<char>, Seq<char>>, Option<Json>) {
    match method_of(m) {
        None => (documents, None),
        Some(method) => if method == "initialize"@ {
            (documents, reply_with(m, initialize_result(version)))
        } else if method == "shutdown"@ {
            (documents, reply_with(m, Json::Null))
        } else if method == "textDocument/didOpen"@ {
            match opened_document(m) {
                Some((uri, text)) => (documents.insert(uri, text), None),
                None => (documents, None),
            }
        } else if method == "textDocument/didChange"@ {
            match changed_document(m) {
                Some((uri, text)) => (documents.insert(uri, text), None),
                None => (documents, None),
            }
        } else if method == "textDocument/didClose"@ {
            match document_uri(m) {
                Some(uri) => (documents.remove(uri), None),
                None => (documents, None),
            }
        } else if method == "textDocument/formatting"@ {
            (documents, reply_with(m, Json::Array(edits_for(documents, m))))
        } else if method == "initialized"@ || method == "exit"@ {
            (documents, None)
        } else {
            match json_get(m, "id"@) {
                Some(id) => (
                    documents,
                    Some(error_json(id, method_not_found_code(), "method not found"@)),
                ),
                None => (documents, None),
            }
        },
    }
}

/// The model of a reply that may be missing.
pub open spec fn reply_model(r: Option<JsonValue>) -> Option<Json> {
    match r {
        Some(v) => Some(v.model()),
        None => None,
    }
}

/// A Gosu language server: the documents that the client has open, and the
/// version it reports.
pub struct Server {
    pub documents: Documents,
    pub version: String,
}

/// A text edit that replaces all of `text` by `new_text`.
fn text_edit(text: &str, new_text: String) -> (r: JsonValue)
    ensures
        r.model() == text_edit_json(text@, new_text@),
{
    let a = json_member("range", whole_document_range(text));
    let b = json_member("newText", JsonValue::Str(new_text));
    proof {
        lemma_member_models2(a, b);
    }
    json_object(vec![a, b])
}

/// A JSON-RPC response carrying `result`.
fn response(id: JsonValue, result: JsonValue) -> (r: JsonValue)
    ensures
        r.model() == response_json(id.model(), result.model()),
{
    let a = json_member("jsonrpc", json_string("2.0"));
    let b = json_member("id", id);
    let c = json_member("result", result);
    proof {
        lemma_member_models3(a, b, c);
    }
    json_object(vec![a, b, c])
}

/// A JSON-RPC error response.
fn error_response(id: JsonValue, code: i64, message: &str) -> (r: JsonValue)
    ensures
        r.model() == error_json(id.model(), code, message@),
{
    let number = if code >= 0 {
        JsonNumber::PosInt(code as u64)
    } else {
        JsonNumber::NegInt(code)
    };
    let e1 = json_member("code", JsonValue::Number(number));
    let e2 = json_member("message", json_string(message));
    proof {
        lemma_member_models2(e1, e2);
    }
    let a = json_member("jsonrpc", json_string("2.0"));
    let b = json_member("id", id);
    let c = json_member("error", json_object(vec![e1, e2]));
    proof {
        lemma_member_models3(a, b, c);
    }
    json_object(vec![a, b, c])
}

/// What the server answers `initialize` with.
fn initialize_result_value(version: &String) -> (r: JsonValue)
    ensures
        r.model() == initialize_result(version@),
{
    let s1 = json_member("openClose", JsonValue::Bool(true));
    let s2 = json_member("change", json_uint(1));
    proof {
        lemma_member_models2(s1, s2);
    }
    let c1 = json_member("documentFormattingProvider", JsonValue::Bool(true));
    let c2 = json_member("textDocumentSync", json_object(vec![s1, s2]));
    proof {
        lemma_member_models2(c1, c2);
    }
    let i1 = json_member("name", json_string("gosu-lsp"));
    let i2 = json_member("version", JsonValue::Str(version.clone()));
    proof {
        lemma_member_models2(i1, i2);
    }
    let a = json_member("capabilities", json_object(vec![c1, c2]));
    let b = json_member("serverInfo", json_object(vec![i1, i2]));
    proof {
        lemma_member_models2(a, b);
    }
    json_object(vec![a, b])
}

/// `s` holds exactly the characters of `lit`.
fn is_method(s: &String, lit: &str) -> (r: bool)
    ensures
        r == (s@ == lit@),
{
    *s == String::from_str(lit)
}

impl Server {
    /// A server with no open documents that reports `version`.
    pub fn new(version: &str) -> (r: Self)
        ensures
            r.documents@ == Map::<Seq<char>, Seq<char>>::empty(),
            r.version@ == version@,
    {
        Server { documents: Documents::new(), version: String::from_str(version) }
    }

    /// The reply to `message` where it is a request (it has an id), carrying
    /// `result`.
    fn respond(&self, message: &JsonValue, result: JsonValue) -> (r: Option<JsonValue>)
        ensures
            reply_model(r) == reply_with(message.model(), result.model()),
    {
        let id = message.get("id")?;
        Some(response(id.duplicate(), result))
    }

    /// The edits that a formatting request gets.
    pub fn formatting_edits(&self, message: &JsonValue) -> (r: Vec<JsonValue>)
        ensures
            models(r@) == edits_for(self.documents@, message.model()),
    {
        let uri = match text_document_uri(message) {
            Some(uri) => uri,
            None => {
                let r: Vec<JsonValue> = Vec::new();
                proof {
                    lemma_models_index(r@);
                }
                assert(models(r@) =~= Seq::<Json>::empty());
                return r;
            },
        };
        let text = match self.documents.get(&uri) {
            Some(text) => text,
            None => {
                let r: Vec<JsonValue> = Vec::new();
                proof {
                    lemma_models_index(r@);
                }
                assert(models(r@) =~= Seq::<Json>::empty());
                return r;
            },
        };
        let formatted_text = format_gosu(text.as_str(), formatting_options(message));
        if formatted_text == *text {
            let r: Vec<JsonValue> = Vec::new();
            proof {
                lemma_models_index(r@);
            }
            assert(models(r@) =~= Seq::<Json>::empty());
            return r;
        }
        let edit = text_edit(text.as_str(), formatted_text);
        let r = vec![edit];
        proof {
            lemma_models_index(r@);
        }
        assert(models(r@) =~= seq![edit.model()]);
        r
    }

    /// Handles one message: updates the open documents and gives the reply
    /// to write, if any.
    pub fn handle_message(&mut self, message: &JsonValue) -> (r: Option<JsonValue>)
        ensures
            final(self).version == old(self).version,
            (final(self).documents@, reply_model(r)) == handle(
                old(self).documents@,
                old(self).version@,
                message.model(),
            ),
    {
        let method = match message.get("method") {
            Some(value) => match value.as_str() {
                Some(method) => method,
                None => return None,
            },
            None => return None,
        };
        if is_method(method, "initialize") {
            let result = initialize_result_value(&self.version);
            self.respond(message, result)
        } else if is_method(method, "shutdown") {
            self.respond(message, JsonValue::Null)
        } else if is_method(method, "textDocument/didOpen") {
            if let Some((uri, text)) = did_open_text(message) {
                self.documents.insert(uri, text);
            }
            None
        } else if is_method(method, "textDocument/didChange") {
            if let Some((uri, text)) = did_change_text(message) {
                self.documents.insert(uri, text);
            }
            None
        } else if is_method(method, "textDocument/didClose") {
            if let Some(uri) = text_document_uri(message) {
                self.documents.remove(&uri);
            }
            None
        } else if is_method(method, "textDocument/formatting") {
            let edits = self.formatting_edits(message);
            proof {
                lemma_models_index(edits@);
            }
            self.respond(message, JsonValue::Array(edits))
        } else if is_method(method, "initialized") || is_method(method, "exit") {
            None
        } else {
            match message.get("id") {
                Some(id) => Some(error_response(id.duplicate(), -32601, "method not found")),
                None => None,
            }
        }
    }
}

} // verus!
