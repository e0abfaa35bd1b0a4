use vstd::prelude::*;

use crate::colon_laws::{is_limit, lemma_colon_pass_rest, lemma_index_of, colon_rest};
use crate::formatter::{brace_count, colons_normalized, index_of_from, scan_braces, BraceCount};

verus! {

/// A quote character: string and character literals open and close with one.
pub open spec fn is_quote(q: char) -> bool {
    q == '"' || q == '\''
}

/// Text that can stand inside a literal quoted by `q` without ending it or
/// escaping anything.
pub open spec fn plain_literal_text(m: Seq<char>, q: char) -> bool {
    forall|k: int| 0 <= k < m.len() ==> m[k] != q && m[k] != '\\'
}

/// The literal `q m q`.
pub open spec fn literal(q: char, m: Seq<char>) -> Seq<char> {
    seq![q] + m + seq![q]
}

// ---------------------------------------------------------------------------
// Braces inside literals
// ---------------------------------------------------------------------------

/// Scanning the part of a line after a prefix is scanning that part alone.
proof fn lemma_scan_shift(
    p: Seq<char>,
    b: Seq<char>,
    j: int,
    in_block: bool,
    quote: Option<char>,
    escaped: bool,
    opens: int,
    closes: int,
)
    requires
        0 <= j <= b.len(),
    ensures
        scan_braces(p + b, p.len() + j, in_block, quote, escaped, opens, closes) == scan_braces(
            b,
            j,
            in_block,
            quote,
            escaped,
            opens,
            closes,
        ),
    decreases b.len() - j,
{
    let line = p + b;
    if j < b.len() {
        assert(line[p.len() + j] == b[j]);
        if j + 1 < b.len() {
            assert(line[p.len() + j + 1] == b[j + 1]);
        }
        lemma_scan_shift(p, b, j + 1, false, quote, false, opens, closes);
        lemma_scan_shift(p, b, j + 1, false, quote, true, opens, closes);
        lemma_scan_shift(p, b, j + 1, false, quote, escaped, opens, closes);
        lemma_scan_shift(p, b, j + 1, false, None, escaped, opens, closes);
        lemma_scan_shift(p, b, j + 1, true, quote, escaped, opens, closes);
        lemma_scan_shift(p, b, j + 1, false, Some(b[j]), escaped, opens, closes);
        lemma_scan_shift(p, b, j + 1, false, quote, escaped, opens + 1, closes);
        lemma_scan_shift(p, b, j + 1, false, quote, escaped, opens, closes + 1);
        if j + 2 <= b.len() {
            lemma_scan_shift(p, b, j + 2, false, quote, escaped, opens, closes);
            lemma_scan_shift(p, b, j + 2, true, quote, escaped, opens, closes);
        }
    }
}

/// Inside a literal, the scan passes over plain literal text.
proof fn lemma_scan_inside_literal(
    line: Seq<char>,
    start: int,
    m: Seq<char>,
    q: char,
    j: int,
    opens: int,
    closes: int,
)
    requires
        is_quote(q),
        plain_literal_text(m, q),
        0 <= start,
        start + m.len() <= line.len(),
        line.subrange(start, start + m.len()) == m,
        0 <= j <= m.len(),
    ensures
        scan_braces(line, start + j, false, Some(q), false, opens, closes) == scan_braces(
            line,
            start + m.len(),
            false,
            Some(q),
            false,
            opens,
            closes,
        ),
    decreases m.len() - j,
{
    if j < m.len() {
        assert(line[start + j] == m[j]);
        lemma_scan_inside_literal(line, start, m, q, j + 1, opens, closes);
    }
}

/// A string or character literal at the start of a line holds no braces that
/// count: the line counts exactly the braces of what follows the literal,
/// and ends in a block comment exactly when that does. This holds for either
/// kind of quote and for any text inside the literal.
pub proof fn law_literals_hold_no_braces(q: char, m: Seq<char>, rest: Seq<char>)
    requires
        is_quote(q),
        plain_literal_text(m, q),
    ensures
        brace_count(literal(q, m) + rest, false) == brace_count(rest, false),
{
    let lit = literal(q, m);
    let line = lit + rest;
    assert(line[0] == q);
    assert(line.subrange(1, 1 + m.len() as int) =~= m);
    lemma_scan_inside_literal(line, 1, m, q, 0, 0, 0);
    assert(line[1 + m.len() as int] == q);
    lemma_scan_shift(lit, rest, 0, false, None, false, 0, 0);
    assert(lit.len() == m.len() + 2);
}

/// Past code that opens no literal and no comment, a line with a literal in
/// it scans as the same line without the literal.
proof fn lemma_scan_skips_literal(
    a: Seq<char>,
    q: char,
    m: Seq<char>,
    rest: Seq<char>,
    i: int,
    opens: int,
    closes: int,
)
    requires
        is_quote(q),
        plain_literal_text(m, q),
        plain_code(a),
        0 <= i <= a.len(),
    ensures
        scan_braces(a + literal(q, m) + rest, i, false, None, false, opens, closes) == scan_braces(
            a + rest,
            i,
            false,
            None,
            false,
            opens,
            closes,
        ),
    decreases a.len() - i,
{
    let lit = literal(q, m);
    let with = a + lit + rest;
    let without = a + rest;
    if i < a.len() {
        assert(with[i] == a[i]);
        assert(without[i] == a[i]);
        assert(!is_quote(a[i]) && a[i] != '/');
        lemma_scan_skips_literal(a, q, m, rest, i + 1, opens, closes);
        lemma_scan_skips_literal(a, q, m, rest, i + 1, opens + 1, closes);
        lemma_scan_skips_literal(a, q, m, rest, i + 1, opens, closes + 1);
    } else {
        assert(with =~= (a + lit) + rest);
        let start: int = a.len() as int + 1;
        assert(with[a.len() as int] == q);
        assert(with.subrange(start, start + m.len()) =~= m);
        lemma_scan_inside_literal(with, start, m, q, 0, opens, closes);
        assert(with[start + m.len()] == q);
        lemma_scan_shift(a + lit, rest, 0, false, None, false, opens, closes);
        lemma_scan_shift(a, rest, 0, false, None, false, opens, closes);
        assert((a + lit).len() == a.len() + m.len() + 2);
    }
}

/// Braces inside a string or character literal never count, wherever the
/// literal stands: a line counts the same braces, and ends in a block comment
/// exactly when, the line without the literal does, provided the code before
/// the literal opens no literal or comment of its own.
pub proof fn law_braces_in_literals_do_not_count(
    a: Seq<char>,
    q: char,
    m: Seq<char>,
    rest: Seq<char>,
)
    requires
        is_quote(q),
        plain_literal_text(m, q),
        plain_code(a),
    ensures
        brace_count(a + literal(q, m) + rest, false) == brace_count(a + rest, false),
{
    lemma_scan_skips_literal(a, q, m, rest, 0, 0, 0);
}

/// Code braces count: a line that begins with `{` opens one block more than
/// the rest of it, and one that begins with `}` closes one more.
pub proof fn law_code_braces_count(rest: Seq<char>)
    ensures
        brace_count(seq!['{'] + rest, false).opens == brace_count(rest, false).opens + 1,
        brace_count(seq!['{'] + rest, false).closes == brace_count(rest, false).closes,
        brace_count(seq!['}'] + rest, false).closes == brace_count(rest, false).closes + 1,
        brace_count(seq!['}'] + rest, false).opens == brace_count(rest, false).opens,
{
    lemma_scan_accumulates(rest, 0, false, None, false, 0, 0, 1, 0);
    lemma_scan_accumulates(rest, 0, false, None, false, 0, 0, 0, 1);
    lemma_scan_shift(seq!['{'], rest, 0, false, None, false, 1, 0);
    lemma_scan_shift(seq!['}'], rest, 0, false, None, false, 0, 1);
}

/// The counts the scan starts from are added to what it finds.
proof fn lemma_scan_accumulates(
    line: Seq<char>,
    i: int,
    in_block: bool,
    quote: Option<char>,
    escaped: bool,
    opens: int,
    closes: int,
    d_opens: int,
    d_closes: int,
)
    requires
        0 <= i,
    ensures
        scan_braces(line, i, in_block, quote, escaped, opens + d_opens, closes + d_closes)
            == (BraceCount {
            opens: scan_braces(line, i, in_block, quote, escaped, opens, closes).opens + d_opens,
            closes: scan_braces(line, i, in_block, quote, escaped, opens, closes).closes + d_closes,
            in_block_comment: scan_braces(
                line,
                i,
                in_block,
                quote,
                escaped,
                opens,
                closes,
            ).in_block_comment,
        }),
    decreases line.len() + 1 - i,
{
    if i < line.len() {
        lemma_scan_accumulates(line, i + 1, false, quote, false, opens, closes, d_opens, d_closes);
        lemma_scan_accumulates(line, i + 1, false, quote, true, opens, closes, d_opens, d_closes);
        lemma_scan_accumulates(line, i + 1, false, quote, escaped, opens, closes, d_opens, d_closes);
        lemma_scan_accumulates(line, i + 1, false, None, escaped, opens, closes, d_opens, d_closes);
        lemma_scan_accumulates(line, i + 1, true, quote, escaped, opens, closes, d_opens, d_closes);
        lemma_scan_accumulates(
            line,
            i + 1,
            false,
            Some(line[i]),
            escaped,
            opens,
            closes,
            d_opens,
            d_closes,
        );
        lemma_scan_accumulates(
            line,
            i + 1,
            false,
            quote,
            escaped,
            opens + 1,
            closes,
            d_opens,
            d_closes,
        );
        lemma_scan_accumulates(
            line,
            i + 1,
            false,
            quote,
            escaped,
            opens,
            closes + 1,
            d_opens,
            d_closes,
        );
        lemma_scan_accumulates(line, i + 2, false, quote, escaped, opens, closes, d_opens, d_closes);
        lemma_scan_accumulates(line, i + 2, true, quote, escaped, opens, closes, d_opens, d_closes);
    }
}


// ---------------------------------------------------------------------------
// Colons inside literals
// ---------------------------------------------------------------------------

/// Text before a literal that opens no literal and no comment of its own.
pub open spec fn plain_code(a: Seq<char>) -> bool {
    forall|k: int| 0 <= k < a.len() ==> !is_quote(#[trigger] a[k]) && a[k] != '/'
}

proof fn lemma_rest_in_literal(
    t: Seq<char>,
    limit: int,
    start: int,
    q: char,
    m: Seq<char>,
    rest: Seq<char>,
    j: int,
) -> (r: Seq<char>)
    requires
        is_quote(q),
        plain_literal_text(m, q),
        0 <= start <= t.len(),
        t == t.take(start) + m + seq![q] + rest,
        0 <= j <= m.len(),
    ensures
        colon_rest(t, limit, start + j, Some(q), false) == m.skip(j) + seq![q] + r,
    decreases m.len() - j,
{
    let pos = start + j;
    assert(t.len() == start + m.len() + 1 + rest.len());
    if pos >= limit {
        assert(t.skip(pos) =~= m.skip(j) + seq![q] + rest);
        rest
    } else if j < m.len() {
        assert(t[pos] == m[j]);
        let s = lemma_rest_in_literal(t, limit, start, q, m, rest, j + 1);
        assert(m.skip(j) =~= seq![m[j]] + m.skip(j + 1));
        assert(colon_rest(t, limit, pos, Some(q), false) == seq![m[j]] + colon_rest(
            t,
            limit,
            pos + 1,
            Some(q),
            false,
        ));
        assert(seq![m[j]] + (m.skip(j + 1) + seq![q] + s) =~= m.skip(j) + seq![q] + s);
        s
    } else {
        assert(t[pos] == q);
        assert(m.skip(j) =~= Seq::<char>::empty());
        let s = colon_rest(t, limit, pos + 1, None, false);
        assert(seq![q] + s =~= m.skip(j) + seq![q] + s);
        s
    }
}

proof fn lemma_rest_reaches_literal(
    t: Seq<char>,
    limit: int,
    a: Seq<char>,
    q: char,
    m: Seq<char>,
    rest: Seq<char>,
    i: int,
) -> (r: (Seq<char>, Seq<char>))
    requires
        is_quote(q),
        plain_literal_text(m, q),
        plain_code(a),
        t == a + literal(q, m) + rest,
        is_limit(t, limit),
        0 <= i <= a.len(),
    ensures
        colon_rest(t, limit, i, None, false) == r.0 + literal(q, m) + r.1,
    decreases a.len() - i,
{
    let lit = literal(q, m);
    assert(t.len() == a.len() + m.len() + 2 + rest.len());
    assert(t[a.len() as int] == q);
    if i >= limit {
        assert(t.skip(i) =~= a.skip(i) + lit + rest);
        (a.skip(i), rest)
    } else if i == a.len() {
        assert(t =~= t.take(a.len() + 1int) + m + seq![q] + rest) by {
            assert(t.take(a.len() + 1int) =~= a + seq![q]);
        }
        let s = lemma_rest_in_literal(t, limit, a.len() + 1int, q, m, rest, 0);
        assert(m.skip(0) =~= m);
        assert(colon_rest(t, limit, i, None, false) == seq![q] + colon_rest(
            t,
            limit,
            i + 1,
            Some(q),
            false,
        ));
        assert(seq![q] + (m + seq![q] + s) =~= Seq::<char>::empty() + lit + s);
        (Seq::<char>::empty(), s)
    } else {
        let c = t[i];
        assert(c == a[i]);
        assert(!is_quote(c) && c != '/');
        if c == ':' {
            let j = crate::formatter::skip_hspace(t, i + 1);
            crate::formatter::lemma_skip_hspace_bounds(t, i + 1);
            assert(j <= a.len()) by {
                if j > a.len() {
                    assert(crate::text::is_hspace(t[a.len() as int]));
                }
            }
            let ins = if j < t.len() && !crate::formatter::is_colon_closer(t[j]) && t[j] != ':' {
                seq![' ']
            } else {
                Seq::<char>::empty()
            };
            let (p, s) = lemma_rest_reaches_literal(t, limit, a, q, m, rest, j);
            assert(seq![':'] + ins + (p + lit + s) =~= (seq![':'] + ins + p) + lit + s);
            (seq![':'] + ins + p, s)
        } else if crate::text::is_hspace(c) {
            let j = crate::formatter::skip_hspace(t, i);
            crate::formatter::lemma_skip_hspace_bounds(t, i);
            crate::formatter::lemma_skip_hspace_bounds(t, i + 1);
            if j < t.len() && t[j] == ':' {
                assert(j < a.len()) by {
                    if j >= a.len() {
                        if j > a.len() {
                            assert(crate::text::is_hspace(t[a.len() as int]));
                        }
                    }
                }
                lemma_rest_reaches_literal(t, limit, a, q, m, rest, j)
            } else {
                let (p, s) = lemma_rest_reaches_literal(t, limit, a, q, m, rest, i + 1);
                assert(seq![c] + (p + lit + s) =~= (seq![c] + p) + lit + s);
                (seq![c] + p, s)
            }
        } else {
            let (p, s) = lemma_rest_reaches_literal(t, limit, a, q, m, rest, i + 1);
            assert(seq![c] + (p + lit + s) =~= (seq![c] + p) + lit + s);
            (seq![c] + p, s)
        }
    }
}

/// Normalising colons never changes a string or character literal: where the
/// text before a literal opens no literal or comment of its own, the
/// normalised line still holds that literal, character for character, whatever
/// it holds (colons and spaces included) and whatever follows it.
pub proof fn law_colon_normalization_keeps_literals(
    a: Seq<char>,
    q: char,
    m: Seq<char>,
    rest: Seq<char>,
) -> (r: (Seq<char>, Seq<char>))
    requires
        is_quote(q),
        plain_literal_text(m, q),
        plain_code(a),
    ensures
        colons_normalized(a + literal(q, m) + rest) == r.0 + literal(q, m) + r.1,
{
    let t = a + literal(q, m) + rest;
    let limit = index_of_from(t, '=', 0);
    lemma_index_of(t, '=', 0);
    lemma_colon_pass_rest(t, limit, 0, Seq::empty(), None, false);
    assert(crate::text::trim_end_hspace(Seq::<char>::empty()) == Seq::<char>::empty());
    assert(colons_normalized(t) =~= colon_rest(t, limit, 0, None, false));
    lemma_rest_reaches_literal(t, limit, a, q, m, rest, 0)
}

} // verus!
