use vstd::prelude::*;

use crate::text::{
    chars_of, contains_chars, contains_seq, copy_range, is_hspace, join_terminated, occurs_at_chars,
    push_all, repeat_seq, split_lines, split_lines_chars, starts_with_seq, string_from_chars,
    trim_end_hspace, trim_hspace, trim_hspace_chars,
};

verus! {

/// How the formatter indents: `tab_size` spaces per level, or one tab per level
/// where `insert_spaces` is false.
#[derive(Clone, Copy)]
pub struct FormattingOptions {
    pub tab_size: usize,
    pub insert_spaces: bool,
}

impl Default for FormattingOptions {
    fn default() -> (r: Self)
        ensures
            r.tab_size == 2,
            r.insert_spaces,
    {
        FormattingOptions { tab_size: 2, insert_spaces: true }
    }
}

// ---------------------------------------------------------------------------
// The model
// ---------------------------------------------------------------------------

/// The text of one level of indentation.
pub open spec fn indent_unit(options: FormattingOptions) -> Seq<char> {
    if options.insert_spaces {
        Seq::new(options.tab_size as nat, |i: int| ' ')
    } else {
        seq!['\t']
    }
}

/// The indentation level after a line that opens `opens` and closes `closes`
/// braces: first the opens are added, then the closes taken away, both
/// saturating at the bounds of `usize`.
pub open spec fn brace_delta(level: usize, opens: int, closes: int) -> usize {
    let up: int = if level + opens > usize::MAX { usize::MAX as int } else { level + opens };
    if up < closes {
        0
    } else {
        (up - closes) as usize
    }
}

/// The number of `'}'` that `line` begins with.
pub open spec fn leading_closes(line: Seq<char>) -> nat
    decreases line.len(),
{
    if line.len() > 0 && line[0] == '}' {
        1 + leading_closes(line.drop_first())
    } else {
        0
    }
}

/// What a scan of the braces of a line finds: the braces that open and close
/// blocks, and whether the line ends inside a `/* */` comment.
pub struct BraceCount {
    pub opens: int,
    pub closes: int,
    pub in_block_comment: bool,
}

/// Scans `line` from index `i` for braces that are code: braces inside string
/// or character literals (with `\` escapes), after `//`, or inside `/* */`
/// comments (which may span lines) do not count.
pub open spec fn scan_braces(
    line: Seq<char>,
    i: int,
    in_block: bool,
    quote: Option<char>,
    escaped: bool,
    opens: int,
    closes: int,
) -> BraceCount
    decreases line.len() - i,
{
    if i < 0 || i >= line.len() {
        BraceCount { opens, closes, in_block_comment: in_block }
    } else {
        let c = line[i];
        let next_is = |d: char| i + 1 < line.len() && line[i + 1] == d;
        if in_block {
            if c == '*' && next_is('/') {
                scan_braces(line, i + 2, false, quote, escaped, opens, closes)
            } else {
                scan_braces(line, i + 1, true, quote, escaped, opens, closes)
            }
        } else if let Some(q) = quote {
            if escaped {
                scan_braces(line, i + 1, false, quote, false, opens, closes)
            } else if c == '\\' {
                scan_braces(line, i + 1, false, quote, true, opens, closes)
            } else if c == q {
                scan_braces(line, i + 1, false, None, escaped, opens, closes)
            } else {
                scan_braces(line, i + 1, false, quote, escaped, opens, closes)
            }
        } else if c == '"' || c == '\'' {
            scan_braces(line, i + 1, false, Some(c), escaped, opens, closes)
        } else if c == '/' && next_is('/') {
            BraceCount { opens, closes, in_block_comment: false }
        } else if c == '/' && next_is('*') {
            scan_braces(line, i + 2, true, quote, escaped, opens, closes)
        } else if c == '{' {
            scan_braces(line, i + 1, false, quote, escaped, opens + 1, closes)
        } else if c == '}' {
            scan_braces(line, i + 1, false, quote, escaped, opens, closes + 1)
        } else {
            scan_braces(line, i + 1, false, quote, escaped, opens, closes)
        }
    }
}

/// The braces of a whole line, which starts inside a block comment or not.
pub open spec fn brace_count(line: Seq<char>, in_block: bool) -> BraceCount {
    scan_braces(line, 0, in_block, None, false, 0, 0)
}


/// `"function "`
pub open spec fn kw_function() -> Seq<char> {
    seq!['f', 'u', 'n', 'c', 't', 'i', 'o', 'n', ' ']
}

/// `"var "`
pub open spec fn kw_var() -> Seq<char> {
    seq!['v', 'a', 'r', ' ']
}

/// `" var "`
pub open spec fn kw_inner_var() -> Seq<char> {
    seq![' ', 'v', 'a', 'r', ' ']
}

/// `"property get "`
pub open spec fn kw_property_get() -> Seq<char> {
    seq!['p', 'r', 'o', 'p', 'e', 'r', 't', 'y', ' ', 'g', 'e', 't', ' ']
}

/// `"property set "`
pub open spec fn kw_property_set() -> Seq<char> {
    seq!['p', 'r', 'o', 'p', 'e', 'r', 't', 'y', ' ', 's', 'e', 't', ' ']
}

/// A line whose type annotations get normalised: one that declares a
/// function, a variable or a property accessor.
pub open spec fn declares_types(line: Seq<char>) -> bool {
    ||| contains_seq(line, kw_function())
    ||| starts_with_seq(line, kw_var())
    ||| contains_seq(line, kw_inner_var())
    ||| starts_with_seq(line, kw_property_get())
    ||| starts_with_seq(line, kw_property_set())
}

/// The index of the first `c` in `s` at or after `i`, or `s.len()`.
pub open spec fn index_of_from(s: Seq<char>, c: char, i: int) -> int
    decreases s.len() - i,
{
    if i >= s.len() {
        s.len() as int
    } else if s[i] == c {
        i
    } else {
        index_of_from(s, c, i + 1)
    }
}

/// The index of the first character at or after `i` that is not a space or a
/// tab, or `s.len()`.
pub open spec fn skip_hspace(s: Seq<char>, i: int) -> int
    decreases s.len() - i,
{
    if i < s.len() && is_hspace(s[i]) {
        skip_hspace(s, i + 1)
    } else {
        i
    }
}

/// The characters after which no space is put behind a colon.
pub open spec fn is_colon_closer(c: char) -> bool {
    c == ')' || c == ',' || c == '{'
}

/// Rewrites `line` from index `i` on, with `out` written so far. Before index
/// `limit` (the first `=`), and outside string and character literals and
/// `//` comments, every `:` loses the spaces and tabs around it and gets one
/// space after it, unless it ends the line or `)`, `,` or `{` follows.
/// Everything else is copied.
pub open spec fn colon_pass(
    line: Seq<char>,
    limit: int,
    i: int,
    out: Seq<char>,
    quote: Option<char>,
    escaped: bool,
) -> Seq<char>
    decreases line.len() - i,
{
    if i < 0 || i >= line.len() {
        out
    } else if i >= limit {
        out + line.skip(i)
    } else {
        let c = line[i];
        if let Some(q) = quote {
            if escaped {
                colon_pass(line, limit, i + 1, out.push(c), quote, false)
            } else if c == '\\' {
                colon_pass(line, limit, i + 1, out.push(c), quote, true)
            } else if c == q {
                colon_pass(line, limit, i + 1, out.push(c), None, escaped)
            } else {
                colon_pass(line, limit, i + 1, out.push(c), quote, escaped)
            }
        } else if c == '"' || c == '\'' {
            colon_pass(line, limit, i + 1, out.push(c), Some(c), escaped)
        } else if c == '/' && i + 1 < line.len() && line[i + 1] == '/' {
            out + line.skip(i)
        } else if c == ':' {
            let j = skip_hspace(line, i + 1);
            let with_colon = trim_end_hspace(out).push(':');
            let spaced = if j < line.len() && !is_colon_closer(line[j]) {
                with_colon.push(' ')
            } else {
                with_colon
            };
            proof {
                lemma_skip_hspace_bounds(line, i + 1);
            }
            colon_pass(line, limit, j, spaced, None, escaped)
        } else {
            colon_pass(line, limit, i + 1, out.push(c), quote, escaped)
        }
    }
}

/// `line` with the spacing around its type colons normalised.
pub open spec fn colons_normalized(line: Seq<char>) -> Seq<char> {
    colon_pass(line, index_of_from(line, '=', 0), 0, Seq::empty(), None, false)
}

/// A trimmed line as the editor formatter writes it: declarations get their
/// type colons normalised, other lines stay as they are.
pub open spec fn spacing_normalized(line: Seq<char>) -> Seq<char> {
    if declares_types(line) {
        colons_normalized(line)
    } else {
        line
    }
}

/// What the formatter knows after some lines: the lines written so far, the
/// indentation level, whether a block comment is open, and whether the last
/// line read was blank.
#[verifier::ext_equal]
pub struct FormatState {
    pub lines: Seq<Seq<char>>,
    pub level: usize,
    pub in_block_comment: bool,
    pub previous_blank: bool,
}

pub open spec fn initial_state() -> FormatState {
    FormatState { lines: Seq::empty(), level: 0, in_block_comment: false, previous_blank: false }
}

/// One source line through the formatter. A blank line is written empty (in
/// `tidy` mode only where the line before was not blank too). Any other line is
/// trimmed (and in `tidy` mode has its type colons normalised), indented by the
/// current level less the `}` it begins with (unless a block comment is open),
/// and then moves the level by the braces it opens and closes.
pub open spec fn format_step(
    st: FormatState,
    line: Seq<char>,
    unit: Seq<char>,
    tidy: bool,
) -> FormatState {
    let trimmed = trim_hspace(line);
    if trimmed.len() == 0 {
        if tidy && st.previous_blank {
            st
        } else {
            FormatState { lines: st.lines.push(Seq::empty()), previous_blank: true, ..st }
        }
    } else {
        let text = if tidy {
            spacing_normalized(trimmed)
        } else {
            trimmed
        };
        let closes_first: int = if st.in_block_comment {
            0
        } else {
            leading_closes(text) as int
        };
        let indent: nat = if st.level < closes_first {
            0
        } else {
            (st.level - closes_first) as nat
        };
        let braces = brace_count(text, st.in_block_comment);
        FormatState {
            lines: st.lines.push(repeat_seq(unit, indent) + text),
            level: brace_delta(st.level, braces.opens, braces.closes),
            in_block_comment: braces.in_block_comment,
            previous_blank: false,
        }
    }
}

/// The formatter's state after the given source lines.
pub open spec fn format_fold(lines: Seq<Seq<char>>, unit: Seq<char>, tidy: bool) -> FormatState
    decreases lines.len(),
{
    if lines.len() == 0 {
        initial_state()
    } else {
        format_step(format_fold(lines.drop_last(), unit, tidy), lines.last(), unit, tidy)
    }
}

/// `lines` without the empty lines at its end.
pub open spec fn drop_trailing_empty(lines: Seq<Seq<char>>) -> Seq<Seq<char>>
    decreases lines.len(),
{
    if lines.len() > 0 && lines.last().len() == 0 {
        drop_trailing_empty(lines.drop_last())
    } else {
        lines
    }
}

/// The lines that formatting `source` writes.
pub open spec fn formatted_lines(source: Seq<char>, options: FormattingOptions, tidy: bool) -> Seq<
    Seq<char>,
> {
    drop_trailing_empty(format_fold(split_lines(source), indent_unit(options), tidy).lines)
}

/// The text that formatting `source` gives: its lines, each ended by `'\n'`.
pub open spec fn formatted(source: Seq<char>, options: FormattingOptions, tidy: bool) -> Seq<
    char,
> {
    join_terminated(formatted_lines(source, options, tidy))
}

pub proof fn lemma_skip_hspace_bounds(s: Seq<char>, i: int)
    ensures
        skip_hspace(s, i) >= i,
        i <= s.len() ==> skip_hspace(s, i) <= s.len(),
        forall|k: int| i <= k < skip_hspace(s, i) ==> is_hspace(s[k]),
        skip_hspace(s, i) < s.len() ==> !is_hspace(s[skip_hspace(s, i)]),
    decreases s.len() - i,
{
    if i < s.len() && is_hspace(s[i]) {
        lemma_skip_hspace_bounds(s, i + 1);
    }
}


// ---------------------------------------------------------------------------
// The formatter
// ---------------------------------------------------------------------------

/// The indentation level after a line with `opens` opening and `closes` closing
/// braces.
fn apply_brace_delta(indent_level: usize, opens: usize, closes: usize) -> (r: usize)
    ensures
        r == brace_delta(indent_level, opens as int, closes as int),
{
    indent_level.saturating_add(opens).saturating_sub(closes)
}

/// The number of `}` that `line` begins with.
fn leading_closing_braces(line: &Vec<char>) -> (r: usize)
    ensures
        r == leading_closes(line@),
{
    let mut i: usize = 0;
    assert(line@.skip(0) =~= line@);
    while i < line.len() && line[i] == '}'
        invariant
            i <= line.len(),
            leading_closes(line@) == i + leading_closes(line@.skip(i as int)),
        decreases line.len() - i,
    {
        assert(line@.skip(i as int).drop_first() =~= line@.skip(i + 1));
        i = i + 1;
    }
    i
}

/// Counts the braces of `line` that are code, and keeps track of block
/// comments across lines through `in_block_comment`.
fn count_braces(line: &Vec<char>, in_block_comment: &mut bool) -> (r: (usize, usize))
    ensures
        r.0 == brace_count(line@, *old(in_block_comment)).opens,
        r.1 == brace_count(line@, *old(in_block_comment)).closes,
        *final(in_block_comment) == brace_count(line@, *old(in_block_comment)).in_block_comment,
{
    let n = line.len();
    let mut opens: usize = 0;
    let mut closes: usize = 0;
    let mut quote: Option<char> = None;
    let mut escaped = false;
    let mut i: usize = 0;
    while i < n
        invariant
            n == line.len(),
            i <= n,
            opens + closes <= i,
            scan_braces(line@, i as int, *in_block_comment, quote, escaped, opens as int, closes as int)
                == brace_count(line@, *old(in_block_comment)),
        decreases n - i,
    {
        let c = line[i];
        if *in_block_comment {
            if c == '*' && i + 1 < n && line[i + 1] == '/' {
                *in_block_comment = false;
                i = i + 2;
            } else {
                i = i + 1;
            }
        } else if let Some(q) = quote {
            if escaped {
                escaped = false;
            } else if c == '\\' {
                escaped = true;
            } else if c == q {
                quote = None;
            }
            i = i + 1;
        } else if c == '"' || c == '\'' {
            quote = Some(c);
            i = i + 1;
        } else if c == '/' && i + 1 < n && line[i + 1] == '/' {
            i = n;
        } else if c == '/' && i + 1 < n && line[i + 1] == '*' {
            *in_block_comment = true;
            i = i + 2;
        } else if c == '{' {
            opens = opens + 1;
            i = i + 1;
        } else if c == '}' {
            closes = closes + 1;
            i = i + 1;
        } else {
            i = i + 1;
        }
    }
    (opens, closes)
}

/// Whether `line` declares a function, a variable or a property accessor, whose
/// type colons the formatter normalises.
fn should_normalize_type_colons(line: &Vec<char>) -> (r: bool)
    ensures
        r == declares_types(line@),
{
    let function_kw = vec!['f', 'u', 'n', 'c', 't', 'i', 'o', 'n', ' '];
    let var_kw = vec!['v', 'a', 'r', ' '];
    let inner_var_kw = vec![' ', 'v', 'a', 'r', ' '];
    let get_kw = vec!['p', 'r', 'o', 'p', 'e', 'r', 't', 'y', ' ', 'g', 'e', 't', ' '];
    let set_kw = vec!['p', 'r', 'o', 'p', 'e', 'r', 't', 'y', ' ', 's', 'e', 't', ' '];
    assert(function_kw@ =~= kw_function());
    assert(var_kw@ =~= kw_var());
    assert(inner_var_kw@ =~= kw_inner_var());
    assert(get_kw@ =~= kw_property_get());
    assert(set_kw@ =~= kw_property_set());
    contains_chars(line, &function_kw) || occurs_at_chars(line, &var_kw, 0) || contains_chars(
        line,
        &inner_var_kw,
    ) || occurs_at_chars(line, &get_kw, 0) || occurs_at_chars(line, &set_kw, 0)
}

/// The index of the first `c` in `line`, or its length.
fn index_of_char(line: &Vec<char>, c: char) -> (r: usize)
    ensures
        r == index_of_from(line@, c, 0),
{
    let mut i: usize = 0;
    while i < line.len() && line[i] != c
        invariant
            i <= line.len(),
            index_of_from(line@, c, i as int) == index_of_from(line@, c, 0),
        decreases line.len() - i,
    {
        i = i + 1;
    }
    i
}

/// Removes the spaces and tabs at the end of `out`.
fn pop_trailing_hspace(out: &mut Vec<char>)
    ensures
        final(out)@ == trim_end_hspace(old(out)@),
{
    while out.len() > 0 && (out[out.len() - 1] == ' ' || out[out.len() - 1] == '\t')
        invariant
            trim_end_hspace(out@) == trim_end_hspace(old(out)@),
        decreases out.len(),
    {
        let ghost before = out@;
        out.pop();
        assert(out@ =~= before.drop_last());
    }
}

/// `line` with one space after each type colon and none before it.
pub fn normalize_type_colons(line: &Vec<char>) -> (r: Vec<char>)
    ensures
        r@ == colons_normalized(line@),
{
    let n = line.len();
    let limit = index_of_char(line, '=');
    let mut output: Vec<char> = Vec::new();
    let mut quote: Option<char> = None;
    let mut escaped = false;
    let mut i: usize = 0;
    while i < n
        invariant
            n == line.len(),
            i <= n,
            colon_pass(line@, limit as int, i as int, output@, quote, escaped) == colons_normalized(
                line@,
            ),
        decreases n - i,
    {
        if i >= limit {
            let rest = copy_range(line, i, n);
            assert(rest@ =~= line@.skip(i as int));
            push_all(&mut output, &rest);
            i = n;
        } else {
            let c = line[i];
            if let Some(q) = quote {
                output.push(c);
                if escaped {
                    escaped = false;
                } else if c == '\\' {
                    escaped = true;
                } else if c == q {
                    quote = None;
                }
                i = i + 1;
            } else if c == '"' || c == '\'' {
                quote = Some(c);
                output.push(c);
                i = i + 1;
            } else if c == '/' && i + 1 < n && line[i + 1] == '/' {
                let rest = copy_range(line, i, n);
                assert(rest@ =~= line@.skip(i as int));
                push_all(&mut output, &rest);
                i = n;
            } else if c == ':' {
                pop_trailing_hspace(&mut output);
                output.push(':');
                let mut j = i + 1;
                while j < n && (line[j] == ' ' || line[j] == '\t')
                    invariant
                        n == line.len(),
                        i + 1 <= j <= n,
                        skip_hspace(line@, j as int) == skip_hspace(line@, i + 1),
                    decreases n - j,
                {
                    j = j + 1;
                }
                if j < n && !(line[j] == ')' || line[j] == ',' || line[j] == '{') {
                    output.push(' ');
                }
                i = j;
            } else {
                output.push(c);
                i = i + 1;
            }
        }
    }
    output
}

/// A trimmed line with its declaration colons normalised.
fn normalize_spacing(line: &Vec<char>) -> (r: Vec<char>)
    ensures
        r@ == spacing_normalized(line@),
{
    if should_normalize_type_colons(line) {
        normalize_type_colons(line)
    } else {
        let r = copy_range(line, 0, line.len());
        assert(r@ =~= line@);
        r
    }
}


/// The text of one indentation level.
fn indent_unit_chars(options: FormattingOptions) -> (r: Vec<char>)
    ensures
        r@ == indent_unit(options),
{
    if options.insert_spaces {
        let mut r: Vec<char> = Vec::new();
        let mut k: usize = 0;
        while k < options.tab_size
            invariant
                k <= options.tab_size,
                r@ == Seq::new(k as nat, |i: int| ' '),
            decreases options.tab_size - k,
        {
            r.push(' ');
            k = k + 1;
            assert(r@ =~= Seq::new(k as nat, |i: int| ' '));
        }
        r
    } else {
        let r = vec!['\t'];
        assert(r@ =~= seq!['\t']);
        r
    }
}

/// `unit` written `n` times, then `text`.
fn indented(unit: &Vec<char>, n: usize, text: &Vec<char>) -> (r: Vec<char>)
    ensures
        r@ == repeat_seq(unit@, n as nat) + text@,
{
    let mut r: Vec<char> = Vec::new();
    let mut k: usize = 0;
    assert(r@ =~= repeat_seq(unit@, 0));
    while k < n
        invariant
            k <= n,
            r@ == repeat_seq(unit@, k as nat),
        decreases n - k,
    {
        push_all(&mut r, unit);
        k = k + 1;
    }
    push_all(&mut r, text);
    r
}

/// The lines, each followed by `'\n'`.
fn join_lines(lines: &Vec<Vec<char>>) -> (r: Vec<char>)
    ensures
        r@ == join_terminated(lines.deep_view()),
{
    let mut r: Vec<char> = Vec::new();
    let mut i: usize = 0;
    assert(lines.deep_view().take(0) =~= Seq::<Seq<char>>::empty());
    while i < lines.len()
        invariant
            i <= lines.len(),
            r@ == join_terminated(lines.deep_view().take(i as int)),
        decreases lines.len() - i,
    {
        let ghost before = r@;
        push_all(&mut r, &lines[i]);
        r.push('\n');
        proof {
            let dv = lines.deep_view();
            assert(dv.take(i + 1).drop_last() =~= dv.take(i as int));
            assert(lines[i as int].deep_view() =~= lines[i as int]@);
            assert(dv.take(i + 1).last() == lines[i as int]@);
            assert(r@ =~= before + lines[i as int]@.push('\n'));
        }
        i = i + 1;
    }
    assert(lines.deep_view().take(lines.len() as int) =~= lines.deep_view());
    r
}

/// Removes the empty lines at the end of `lines`.
fn pop_trailing_empty(lines: &mut Vec<Vec<char>>)
    ensures
        final(lines).deep_view() == drop_trailing_empty(old(lines).deep_view()),
{
    while lines.len() > 0 && lines[lines.len() - 1].len() == 0
        invariant
            drop_trailing_empty(lines.deep_view()) == drop_trailing_empty(old(lines).deep_view()),
        decreases lines.len(),
    {
        let ghost before = lines.deep_view();
        proof {
            assert(lines[lines.len() - 1].deep_view().len() == 0);
        }
        lines.pop();
        assert(lines.deep_view() =~= before.drop_last());
    }
    proof {
        if lines.len() > 0 {
            assert(lines.deep_view().last().len() == lines[lines.len() - 1].len());
        }
    }
}

/// Formats `source`: in `tidy` mode as the editor formatter does, otherwise
/// as the language server's own formatting does.
pub(crate) fn format_chars(source: &Vec<char>, options: FormattingOptions, tidy: bool) -> (r: Vec<
    char,
>)
    ensures
        r@ == formatted(source@, options, tidy),
{
    let unit = indent_unit_chars(options);
    let source_lines = split_lines_chars(source);
    let ghost src = source_lines.deep_view();
    let mut lines: Vec<Vec<char>> = Vec::new();
    let mut indent_level: usize = 0;
    let mut in_block_comment = false;
    let mut previous_blank = false;
    let mut i: usize = 0;
    assert(src.take(0) =~= Seq::<Seq<char>>::empty());
    assert(lines.deep_view() =~= Seq::<Seq<char>>::empty());
    while i < source_lines.len()
        invariant
            i <= source_lines.len(),
            src == source_lines.deep_view(),
            unit@ == indent_unit(options),
            (FormatState {
                lines: lines.deep_view(),
                level: indent_level,
                in_block_comment,
                previous_blank,
            }) == format_fold(src.take(i as int), unit@, tidy),
        decreases source_lines.len() - i,
    {
        let ghost st = format_fold(src.take(i as int), unit@, tidy);
        let ghost before = lines.deep_view();
        proof {
            assert(src.take(i + 1).drop_last() =~= src.take(i as int));
            assert(source_lines[i as int].deep_view() =~= source_lines[i as int]@);
            assert(src.take(i + 1).last() == source_lines[i as int]@);
        }
        let trimmed = trim_hspace_chars(&source_lines[i]);
        if trimmed.len() == 0 {
            if !(tidy && previous_blank) {
                let empty: Vec<char> = Vec::new();
                assert(empty.deep_view() =~= Seq::<char>::empty());
                lines.push(empty);
                assert(lines.deep_view() =~= before.push(Seq::empty()));
                previous_blank = true;
            }
        } else {
            let text = if tidy {
                normalize_spacing(&trimmed)
            } else {
                trimmed
            };
            let closes_first = if in_block_comment {
                0
            } else {
                leading_closing_braces(&text)
            };
            let line_indent = indent_level.saturating_sub(closes_first);
            let (opens, closes) = count_braces(&text, &mut in_block_comment);
            let line = indented(&unit, line_indent, &text);
            assert(line.deep_view() =~= line@);
            lines.push(line);
            assert(lines.deep_view() =~= before.push(line@));
            indent_level = apply_brace_delta(indent_level, opens, closes);
            previous_blank = false;
        }
        i = i + 1;
    }
    assert(src.take(source_lines.len() as int) =~= src);
    pop_trailing_empty(&mut lines);
    join_lines(&lines)
}

/// Formats Gosu source: trims each line, collapses runs of blank lines into
/// one, normalises the type colons of declarations, indents brace blocks by
/// `options`, drops the blank lines at the end, and ends the text with one
/// newline (an empty result stays empty).
pub fn format_gosu(source: &str, options: FormattingOptions) -> (r: String)
    ensures
        r@ == formatted(source@, options, true),
{
    let chars = chars_of(source);
    let out = format_chars(&chars, options, true);
    string_from_chars(&out)
}

} // verus!
