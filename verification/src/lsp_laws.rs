use vstd::prelude::*;

use crate::formatter::formatted;
use crate::json::{json_get, member, Json};
use crate::lsp::{
    changed_document, document_range, document_uri, edits_for, end_position, error_json, handle,
    method_not_found_code, method_of, opened_document, position_json, requested_options,
    response_json, text_edit_json, utf16_len, wrap_add,
};

verus! {

/// The member `"id"` of a response or an error response is the id it was
/// built with.
proof fn lemma_reply_id(id: Json, result: Json, code: i64, message: Seq<char>)
    ensures
        json_get(response_json(id, result), "id"@) == Some(id),
        json_get(error_json(id, code, message), "id"@) == Some(id),
{
    reveal_strlit("id");
    reveal_strlit("jsonrpc");
    assert("id"@.len() == 2);
    assert("jsonrpc"@.len() == 7);
    let r = seq![("jsonrpc"@, Json::Str("2.0"@)), ("id"@, id), ("result"@, result)];
    assert(r[0].0 != "id"@);
    assert(r.drop_first()[0].0 == "id"@);
    assert(member(r.drop_first(), "id"@) == Some(id));
    assert(member(r, "id"@) == Some(id));
    assert(response_json(id, result) == Json::Object(r));
    let e = seq![
        ("jsonrpc"@, Json::Str("2.0"@)),
        ("id"@, id),
        (
            "error"@,
            Json::Object(
                seq![
                    ("code"@, Json::Number(crate::lsp::integer_num(code))),
                    ("message"@, Json::Str(message)),
                ],
            ),
        ),
    ];
    assert(e[0].0 != "id"@);
    assert(e.drop_first()[0].0 == "id"@);
    assert(member(e.drop_first(), "id"@) == Some(id));
    assert(member(e, "id"@) == Some(id));
    assert(error_json(id, code, message) == Json::Object(e));
}

/// The methods that the server handles have different names.
proof fn lemma_method_names_differ()
    ensures
        "textDocument/didOpen"@ != "initialize"@,
        "textDocument/didOpen"@ != "shutdown"@,
        "textDocument/didChange"@ != "initialize"@,
        "textDocument/didChange"@ != "shutdown"@,
        "textDocument/didChange"@ != "textDocument/didOpen"@,
        "textDocument/didClose"@ != "initialize"@,
        "textDocument/didClose"@ != "shutdown"@,
        "textDocument/didClose"@ != "textDocument/didOpen"@,
        "textDocument/didClose"@ != "textDocument/didChange"@,
{
    reveal_strlit("initialize");
    reveal_strlit("shutdown");
    reveal_strlit("textDocument/didOpen");
    reveal_strlit("textDocument/didChange");
    reveal_strlit("textDocument/didClose");
    assert("initialize"@.len() == 10);
    assert("shutdown"@.len() == 8);
    assert("textDocument/didOpen"@.len() == 20);
    assert("textDocument/didChange"@.len() == 22);
    assert("textDocument/didClose"@.len() == 21);
}

/// A message without an id (a notification) is never answered.
pub proof fn law_notifications_get_no_reply(
    documents: Map<Seq<char>, Seq<char>>,
    version: Seq<char>,
    m: Json,
)
    requires
        json_get(m, "id"@) is None,
    ensures
        handle(documents, version, m).1 is None,
{
}

/// Every reply carries the id of the request it answers.
pub proof fn law_replies_carry_the_request_id(
    documents: Map<Seq<char>, Seq<char>>,
    version: Seq<char>,
    m: Json,
)
    ensures
        handle(documents, version, m).1 matches Some(reply) ==> json_get(m, "id"@) matches Some(
            id,
        ) && json_get(reply, "id"@) == Some(id),
{
    if let Some(id) = json_get(m, "id"@) {
        lemma_reply_id(id, Json::Null, method_not_found_code(), "method not found"@);
        lemma_reply_id(id, crate::lsp::initialize_result(version), 0, Seq::empty());
        lemma_reply_id(id, Json::Array(edits_for(documents, m)), 0, Seq::empty());
    }
}

/// Only the notifications that open, change and close documents change the
/// open documents.
pub proof fn law_only_document_notifications_change_documents(
    documents: Map<Seq<char>, Seq<char>>,
    version: Seq<char>,
    m: Json,
)
    requires
        !(method_of(m) == Some("textDocument/didOpen"@) || method_of(m) == Some(
            "textDocument/didChange"@,
        ) || method_of(m) == Some("textDocument/didClose"@)),
    ensures
        handle(documents, version, m).0 == documents,
{
}

/// After a document is opened (or changed) with some text, that text is what
/// a formatting request for it formats: it gets no edit where the text is
/// formatted already, else one edit to the formatted text.
pub proof fn law_formatting_sees_the_last_text(
    documents: Map<Seq<char>, Seq<char>>,
    version: Seq<char>,
    open: Json,
    request: Json,
    uri: Seq<char>,
    text: Seq<char>,
)
    requires
        method_of(open) == Some("textDocument/didOpen"@) && opened_document(open) == Some(
            (uri, text),
        ) || method_of(open) == Some("textDocument/didChange"@) && changed_document(open) == Some(
            (uri, text),
        ),
        document_uri(request) == Some(uri),
    ensures
        edits_for(handle(documents, version, open).0, request) == if formatted(
            text,
            requested_options(request),
            false,
        ) == text {
            Seq::<Json>::empty()
        } else {
            seq![text_edit_json(text, formatted(text, requested_options(request), false))]
        },
{
    lemma_method_names_differ();
    assert(handle(documents, version, open).0 == documents.insert(uri, text));
}

/// A document that has been closed gets no edits.
pub proof fn law_closed_documents_get_no_edits(
    documents: Map<Seq<char>, Seq<char>>,
    version: Seq<char>,
    close: Json,
    request: Json,
)
    requires
        method_of(close) == Some("textDocument/didClose"@),
        document_uri(close) is Some,
        document_uri(request) == document_uri(close),
    ensures
        edits_for(handle(documents, version, close).0, request) == Seq::<Json>::empty(),
{
    lemma_method_names_differ();
}

/// A request for a method the server does not know is answered with the
/// error `-32601`, "method not found".
pub proof fn law_unknown_requests_get_method_not_found(
    documents: Map<Seq<char>, Seq<char>>,
    version: Seq<char>,
    m: Json,
    method: Seq<char>,
    id: Json,
)
    requires
        method_of(m) == Some(method),
        json_get(m, "id"@) == Some(id),
        method != "initialize"@,
        method != "shutdown"@,
        method != "textDocument/didOpen"@,
        method != "textDocument/didChange"@,
        method != "textDocument/didClose"@,
        method != "textDocument/formatting"@,
        method != "initialized"@,
        method != "exit"@,
    ensures
        handle(documents, version, m) == (
            documents,
            Some(error_json(id, -32601i64, "method not found"@)),
        ),
{
}


/// Once the edit that a formatting request gets is applied, the same request
/// gets no edits, for a document without carriage returns.
pub proof fn law_formatting_edits_settle(
    documents: Map<Seq<char>, Seq<char>>,
    request: Json,
    uri: Seq<char>,
)
    requires
        document_uri(request) == Some(uri),
        documents.contains_key(uri),
        !documents[uri].contains('\r'),
    ensures
        edits_for(
            documents.insert(uri, formatted(documents[uri], requested_options(request), false)),
            request,
        ) == Seq::<Json>::empty(),
{
    crate::refold::law_server_formatting_is_idempotent(
        documents[uri],
        requested_options(request),
    );
}

/// Closing a document forgets that document and no other: every other
/// document stays open with the text it had.
pub proof fn law_closing_forgets_only_the_closed_document(
    documents: Map<Seq<char>, Seq<char>>,
    version: Seq<char>,
    close: Json,
    uri: Seq<char>,
)
    requires
        method_of(close) == Some("textDocument/didClose"@),
        document_uri(close) == Some(uri),
    ensures
        !handle(documents, version, close).0.contains_key(uri),
        forall|other: Seq<char>|
            other != uri ==> (#[trigger] handle(documents, version, close).0.contains_key(other)
                == documents.contains_key(other)),
        forall|other: Seq<char>|
            other != uri && documents.contains_key(other) ==> #[trigger] handle(
                documents,
                version,
                close,
            ).0[other] == documents[other],
        handle(documents, version, close).1 is None,
{
    lemma_method_names_differ();
}

/// Closing one document changes nothing that a formatting request for another
/// document gets.
pub proof fn law_closing_leaves_other_documents_formatted(
    documents: Map<Seq<char>, Seq<char>>,
    version: Seq<char>,
    close: Json,
    request: Json,
)
    requires
        method_of(close) == Some("textDocument/didClose"@),
        document_uri(close) is Some,
        document_uri(request) is Some,
        document_uri(request) != document_uri(close),
    ensures
        edits_for(handle(documents, version, close).0, request) == edits_for(documents, request),
{
    lemma_method_names_differ();
}

/// Opening (or changing) a document leaves every other open document as it
/// was.
pub proof fn law_opening_keeps_other_documents(
    documents: Map<Seq<char>, Seq<char>>,
    version: Seq<char>,
    open: Json,
    uri: Seq<char>,
    text: Seq<char>,
)
    requires
        method_of(open) == Some("textDocument/didOpen"@) && opened_document(open) == Some(
            (uri, text),
        ) || method_of(open) == Some("textDocument/didChange"@) && changed_document(open) == Some(
            (uri, text),
        ),
    ensures
        handle(documents, version, open).0.contains_key(uri),
        handle(documents, version, open).0[uri] == text,
        forall|other: Seq<char>|
            other != uri ==> (#[trigger] handle(documents, version, open).0.contains_key(other)
                == documents.contains_key(other)),
        forall|other: Seq<char>|
            other != uri && documents.contains_key(other) ==> #[trigger] handle(
                documents,
                version,
                open,
            ).0[other] == documents[other],
{
    lemma_method_names_differ();
}

/// The number of line breaks in `t`.
pub open spec fn line_breaks(t: Seq<char>) -> nat {
    t.filter(|c: char| c == '\n').len()
}

/// The number of UTF-16 code units that encode `s`.
pub open spec fn utf16_length(s: Seq<char>) -> nat
    decreases s.len(),
{
    if s.len() == 0 {
        0
    } else {
        utf16_length(s.drop_last()) + utf16_len(s.last()) as nat
    }
}

proof fn lemma_wrap_add_mod(n: int, x: u32, y: u32)
    requires
        n >= 0,
        x as int == n % 0x1_0000_0000,
    ensures
        wrap_add(x, y) as int == (n + y) % 0x1_0000_0000,
{
    assert(n == (n / 0x1_0000_0000) * 0x1_0000_0000 + x) by (nonlinear_arith)
        requires
            x as int == n % 0x1_0000_0000,
    ;
    let q = n / 0x1_0000_0000;
    if x + y > u32::MAX {
        assert(n + y == (q + 1) * 0x1_0000_0000 + (x + y - 0x1_0000_0000)) by (nonlinear_arith)
            requires
                n == q * 0x1_0000_0000 + x,
        ;
        vstd::arithmetic::div_mod::lemma_fundamental_div_mod_converse(
            n + y,
            0x1_0000_0000,
            q + 1,
            x + y - 0x1_0000_0000,
        );
    } else {
        vstd::arithmetic::div_mod::lemma_fundamental_div_mod_converse(
            n + y,
            0x1_0000_0000,
            q,
            x + y,
        );
    }
}

/// The line of the end position counts the line breaks.
proof fn lemma_end_line(t: Seq<char>)
    ensures
        end_position(t).0 as int == line_breaks(t) % 0x1_0000_0000,
    decreases t.len(),
{
    if t.len() > 0 {
        lemma_end_line(t.drop_last());
        assert(t =~= t.drop_last().push(t.last()));
        t.drop_last().lemma_filter_len_push(|c: char| c == '\n', t.last());
        if t.last() == '\n' {
            lemma_wrap_add_mod(line_breaks(t.drop_last()) as int, end_position(t.drop_last()).0, 1);
        }
    } else {
        reveal_with_fuel(Seq::filter, 1);
    }
}

/// The column of the end position is the UTF-16 length of the last line.
proof fn lemma_end_column(head: Seq<char>, last_line: Seq<char>)
    requires
        head.len() == 0 || head.last() == '\n',
        forall|k: int| 0 <= k < last_line.len() ==> last_line[k] != '\n',
    ensures
        end_position(head + last_line).1 as int == utf16_length(last_line) % 0x1_0000_0000,
    decreases last_line.len(),
{
    if last_line.len() == 0 {
        assert(head + last_line =~= head);
    } else {
        let shorter = last_line.drop_last();
        lemma_end_column(head, shorter);
        assert((head + last_line).drop_last() =~= head + shorter);
        assert((head + last_line).last() == last_line.last());
        lemma_wrap_add_mod(
            utf16_length(shorter) as int,
            end_position(head + shorter).1,
            utf16_len(last_line.last()),
        );
    }
}

/// The edit of a formatting request replaces the whole document: its range
/// starts at the first character and ends after the last one, on the line
/// that follows the last line break (a line per line break) and at the
/// UTF-16 length of the text after that line break (0 where the text ends in
/// a line break), both counted modulo `2^32`.
pub proof fn law_document_range_covers_the_text(head: Seq<char>, last_line: Seq<char>)
    requires
        head.len() == 0 || head.last() == '\n',
        forall|k: int| 0 <= k < last_line.len() ==> last_line[k] != '\n',
    ensures
        document_range(head + last_line) == Json::Object(
            seq![
                ("start"@, position_json(0, 0)),
                (
                    "end"@,
                    position_json(
                        (line_breaks(head + last_line) % 0x1_0000_0000) as u32,
                        (utf16_length(last_line) % 0x1_0000_0000) as u32,
                    ),
                ),
            ],
        ),
{
    lemma_end_line(head + last_line);
    lemma_end_column(head, last_line);
}

} // verus!
