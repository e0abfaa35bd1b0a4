use vstd::prelude::*;

use crate::formatter::{
    colon_pass, declares_types, format_fold, format_step, formatted,
    formatted_lines, drop_trailing_empty, indent_unit, index_of_from,
    lemma_skip_hspace_bounds, skip_hspace, spacing_normalized, FormatState, FormattingOptions,
};
use crate::text::{
    is_hspace, join_terminated, lemma_next_newline_bounds, lines_from, next_newline, repeat_seq,
    split_lines, strip_cr, trim_end_hspace, trim_hspace, trim_start_hspace,
};

verus! {

/// A line of text that holds something: it is not empty, neither begins nor
/// ends with a space or a tab, and holds no newline.
pub open spec fn is_solid(t: Seq<char>) -> bool {
    &&& t.len() > 0
    &&& !is_hspace(t[0])
    &&& !is_hspace(t.last())
    &&& !t.contains('\n')
}

/// An output line as the formatter writes it: empty, or some levels of
/// indentation followed by solid text.
pub open spec fn is_indented_line(line: Seq<char>, unit: Seq<char>) -> bool {
    line.len() == 0 || exists|n: nat, t: Seq<char>| line == repeat_seq(unit, n) + t && is_solid(t)
}

/// The text of one indentation level: spaces or a tab.
pub open spec fn is_indent_text(unit: Seq<char>) -> bool {
    forall|k: int| 0 <= k < unit.len() ==> unit[k] == ' ' || unit[k] == '\t'
}

// ---------------------------------------------------------------------------
// Trimming
// ---------------------------------------------------------------------------

pub(crate) proof fn lemma_trim_end_prefix(s: Seq<char>)
    ensures
        trim_end_hspace(s).len() <= s.len(),
        trim_end_hspace(s) =~= s.take(trim_end_hspace(s).len() as int),
        trim_end_hspace(s).len() > 0 ==> !is_hspace(trim_end_hspace(s).last()),
        s.len() > 0 && !is_hspace(s[0]) ==> trim_end_hspace(s).len() > 0,
        forall|k: int| trim_end_hspace(s).len() <= k < s.len() ==> is_hspace(#[trigger] s[k]),
    decreases s.len(),
{
    if s.len() > 0 && is_hspace(s.last()) {
        lemma_trim_end_prefix(s.drop_last());
        assert forall|k: int| trim_end_hspace(s).len() <= k < s.len() implies is_hspace(
            #[trigger] s[k],
        ) by {
            if k < s.len() - 1 {
                assert(s[k] == s.drop_last()[k]);
            }
        }
        assert(s.drop_last().take(trim_end_hspace(s).len() as int) =~= s.take(
            trim_end_hspace(s).len() as int,
        ));
    }
}

pub(crate) proof fn lemma_trim_start_suffix(s: Seq<char>)
    ensures
        trim_start_hspace(s).len() <= s.len(),
        trim_start_hspace(s) =~= s.skip(s.len() - trim_start_hspace(s).len()),
        trim_start_hspace(s).len() > 0 ==> !is_hspace(trim_start_hspace(s)[0]),
        forall|k: int| 0 <= k < s.len() - trim_start_hspace(s).len() ==> is_hspace(#[trigger] s[k]),
    decreases s.len(),
{
    if s.len() > 0 && is_hspace(s[0]) {
        lemma_trim_start_suffix(s.drop_first());
        assert forall|k: int| 0 <= k < s.len() - trim_start_hspace(s).len() implies is_hspace(
            #[trigger] s[k],
        ) by {
            if k > 0 {
                assert(s[k] == s.drop_first()[k - 1]);
            }
        }
        assert(s.drop_first().skip(s.drop_first().len() - trim_start_hspace(s).len()) =~= s.skip(
            s.len() - trim_start_hspace(s).len(),
        ));
    }
}

/// A trimmed line that is not empty is solid, where the line holds no newline.
pub(crate) proof fn lemma_trim_solid(s: Seq<char>)
    requires
        !s.contains('\n'),
        trim_hspace(s).len() > 0,
    ensures
        is_solid(trim_hspace(s)),
{
    let e = trim_end_hspace(s);
    lemma_trim_end_prefix(s);
    lemma_trim_start_suffix(e);
    let t = trim_hspace(s);
    assert(t.last() == e.last());
    assert forall|k: int| 0 <= k < t.len() implies t[k] != '\n' by {
        assert(t[k] == s[e.len() - t.len() + k]);
    }
}

// ---------------------------------------------------------------------------
// Lines
// ---------------------------------------------------------------------------

pub(crate) proof fn lemma_lines_from_no_newline(s: Seq<char>, start: int)
    ensures
        forall|k: int| 0 <= k < lines_from(s, start).len() ==> !(#[trigger] lines_from(s, start)[k]).contains('\n'),
    decreases s.len() - start,
{
    if 0 <= start < s.len() {
        let e = next_newline(s, start);
        lemma_next_newline_bounds(s, start);
        lemma_no_newline_before(s, start);
        if e < s.len() {
            lemma_lines_from_no_newline(s, e + 1);
            let first = strip_cr(s.subrange(start, e));
            assert(!first.contains('\n')) by {
                assert forall|k: int| 0 <= k < first.len() implies first[k] != '\n' by {
                    assert(first[k] == s[start + k]);
                }
            }
            assert forall|k: int| 0 <= k < lines_from(s, start).len() implies !(
            #[trigger] lines_from(s, start)[k]).contains('\n') by {
                if k > 0 {
                    assert(lines_from(s, start)[k] == lines_from(s, e + 1)[k - 1]);
                }
            }
        } else {
            let only = s.subrange(start, s.len() as int);
            assert forall|k: int| 0 <= k < only.len() implies only[k] != '\n' by {
                assert(only[k] == s[start + k]);
            }
        }
    }
}

pub(crate) proof fn lemma_no_newline_before(s: Seq<char>, start: int)
    requires
        0 <= start,
    ensures
        forall|k: int| start <= k < next_newline(s, start) ==> s[k] != '\n',
    decreases s.len() - start,
{
    if start < s.len() && s[start] != '\n' {
        lemma_no_newline_before(s, start + 1);
    }
}

/// No line of a text holds a newline.
pub(crate) proof fn lemma_split_lines_no_newline(s: Seq<char>)
    ensures
        forall|k: int| 0 <= k < split_lines(s).len() ==> !(#[trigger] split_lines(s)[k]).contains('\n'),
{
    lemma_lines_from_no_newline(s, 0);
}


// ---------------------------------------------------------------------------
// Normalising colons
// ---------------------------------------------------------------------------

/// What `colon_pass` keeps true while it runs over a solid line.
pub open spec fn colon_pass_ok(t: Seq<char>, i: int, out: Seq<char>) -> bool {
    &&& 0 <= i <= t.len()
    &&& !out.contains('\n')
    &&& out.len() > 0 ==> !is_hspace(out[0])
    &&& out.len() == 0 ==> i == 0
    &&& i == t.len() ==> out.len() > 0 && !is_hspace(out.last())
}

pub(crate) proof fn lemma_append_solid_rest(t: Seq<char>, i: int, out: Seq<char>)
    requires
        is_solid(t),
        colon_pass_ok(t, i, out),
        i < t.len(),
    ensures
        is_solid(out + t.skip(i)),
{
    let r = out + t.skip(i);
    assert(r.last() == t.last());
    if out.len() == 0 {
        assert(r[0] == t[0]);
    } else {
        assert(r[0] == out[0]);
    }
    assert forall|k: int| 0 <= k < r.len() implies r[k] != '\n' by {
        if k < out.len() {
            assert(r[k] == out[k]);
        } else {
            assert(r[k] == t[i + k - out.len()]);
        }
    }
}

pub(crate) proof fn lemma_push_keeps_ok(t: Seq<char>, i: int, out: Seq<char>)
    requires
        is_solid(t),
        colon_pass_ok(t, i, out),
        i < t.len(),
    ensures
        colon_pass_ok(t, i + 1, out.push(t[i])),
{
    let o = out.push(t[i]);
    if out.len() == 0 {
        assert(o[0] == t[0]);
    } else {
        assert(o[0] == out[0]);
    }
    assert forall|k: int| 0 <= k < o.len() implies o[k] != '\n' by {
        if k < out.len() {
            assert(o[k] == out[k]);
        } else {
            assert(o[k] == t[i]);
        }
    }
}

/// Normalising the colons of a solid line gives a solid line.
pub(crate) proof fn lemma_colon_pass_solid(
    t: Seq<char>,
    limit: int,
    i: int,
    out: Seq<char>,
    quote: Option<char>,
    escaped: bool,
)
    requires
        is_solid(t),
        colon_pass_ok(t, i, out),
    ensures
        is_solid(colon_pass(t, limit, i, out, quote, escaped)),
    decreases t.len() - i,
{
    if i >= t.len() {
    } else if i >= limit {
        lemma_append_solid_rest(t, i, out);
    } else {
        let c = t[i];
        if quote is Some {
            lemma_push_keeps_ok(t, i, out);
            let q = quote->0;
            if escaped {
                lemma_colon_pass_solid(t, limit, i + 1, out.push(c), quote, false);
            } else if c == '\\' {
                lemma_colon_pass_solid(t, limit, i + 1, out.push(c), quote, true);
            } else if c == q {
                lemma_colon_pass_solid(t, limit, i + 1, out.push(c), None, escaped);
            } else {
                lemma_colon_pass_solid(t, limit, i + 1, out.push(c), quote, escaped);
            }
        } else if c == '"' || c == '\'' {
            lemma_push_keeps_ok(t, i, out);
            lemma_colon_pass_solid(t, limit, i + 1, out.push(c), Some(c), escaped);
        } else if c == '/' && i + 1 < t.len() && t[i + 1] == '/' {
            lemma_append_solid_rest(t, i, out);
        } else if c == ':' {
            let j = skip_hspace(t, i + 1);
            lemma_skip_hspace_bounds(t, i + 1);
            lemma_trim_end_prefix(out);
            let trimmed = trim_end_hspace(out);
            let with_colon = trimmed.push(':');
            let spaced = if j < t.len() && !crate::formatter::is_colon_closer(t[j]) {
                with_colon.push(' ')
            } else {
                with_colon
            };
            if j == t.len() {
                assert(i + 1 == t.len()) by {
                    if i + 1 < t.len() {
                        assert(is_hspace(t[t.len() - 1]));
                    }
                }
            }
            if out.len() > 0 {
                assert(trimmed[0] == out[0]);
            }
            assert(spaced[0] == with_colon[0]);
            assert forall|k: int| 0 <= k < spaced.len() implies spaced[k] != '\n' by {
                if k < trimmed.len() {
                    assert(spaced[k] == out[k]);
                }
            }
            assert(colon_pass_ok(t, j, spaced));
            lemma_colon_pass_solid(t, limit, j, spaced, None, escaped);
        } else {
            lemma_push_keeps_ok(t, i, out);
            lemma_colon_pass_solid(t, limit, i + 1, out.push(c), quote, escaped);
        }
    }
}

/// The editor formatter's rewriting of a solid line is solid.
pub(crate) proof fn lemma_spacing_normalized_solid(t: Seq<char>)
    requires
        is_solid(t),
    ensures
        is_solid(spacing_normalized(t)),
{
    if declares_types(t) {
        lemma_colon_pass_solid(t, index_of_from(t, '=', 0), 0, Seq::empty(), None, false);
    }
}


// ---------------------------------------------------------------------------
// The lines the formatter writes
// ---------------------------------------------------------------------------

/// What every state of the formatter satisfies.
pub open spec fn fold_ok(st: FormatState, unit: Seq<char>, tidy: bool) -> bool {
    &&& forall|k: int| 0 <= k < st.lines.len() ==> is_indented_line(#[trigger] st.lines[k], unit)
    &&& st.previous_blank <==> (st.lines.len() > 0 && st.lines.last().len() == 0)
    &&& tidy ==> no_blank_runs(st.lines)
}

/// No two blank lines follow each other.
pub open spec fn no_blank_runs(lines: Seq<Seq<char>>) -> bool {
    forall|k: int| 0 <= k < lines.len() - 1 ==> !(#[trigger] lines[k].len() == 0 && lines[k + 1].len() == 0)
}

pub(crate) proof fn lemma_format_fold_ok(lines: Seq<Seq<char>>, unit: Seq<char>, tidy: bool)
    requires
        forall|k: int| 0 <= k < lines.len() ==> !(#[trigger] lines[k]).contains('\n'),
    ensures
        fold_ok(format_fold(lines, unit, tidy), unit, tidy),
    decreases lines.len(),
{
    if lines.len() > 0 {
        let prev = lines.drop_last();
        assert forall|k: int| 0 <= k < prev.len() implies !(#[trigger] prev[k]).contains('\n') by {
            assert(prev[k] == lines[k]);
        }
        lemma_format_fold_ok(prev, unit, tidy);
        let st = format_fold(prev, unit, tidy);
        let line = lines.last();
        assert(!line.contains('\n')) by {
            assert(line == lines[lines.len() - 1]);
        }
        let next = format_step(st, line, unit, tidy);
        assert(next == format_fold(lines, unit, tidy));
        let trimmed = trim_hspace(line);
        if trimmed.len() == 0 {
            if tidy && st.previous_blank {
            } else {
                assert forall|k: int| 0 <= k < next.lines.len() implies is_indented_line(
                    #[trigger] next.lines[k],
                    unit,
                ) by {
                    if k < st.lines.len() {
                        assert(next.lines[k] == st.lines[k]);
                    }
                }
            }
        } else {
            lemma_trim_solid(line);
            let text = if tidy {
                spacing_normalized(trimmed)
            } else {
                trimmed
            };
            if tidy {
                lemma_spacing_normalized_solid(trimmed);
            }
            assert(is_solid(text));
            let new_line = next.lines.last();
            assert(is_indented_line(new_line, unit)) by {
                let closes_first: int = if st.in_block_comment {
                    0
                } else {
                    crate::formatter::leading_closes(text) as int
                };
                let indent: nat = if st.level < closes_first {
                    0
                } else {
                    (st.level - closes_first) as nat
                };
                assert(new_line == repeat_seq(unit, indent) + text);
            }
            assert forall|k: int| 0 <= k < next.lines.len() implies is_indented_line(
                #[trigger] next.lines[k],
                unit,
            ) by {
                if k < st.lines.len() {
                    assert(next.lines[k] == st.lines[k]);
                }
            }
        }
    }
}

pub(crate) proof fn lemma_drop_trailing_empty(lines: Seq<Seq<char>>)
    ensures
        drop_trailing_empty(lines).len() <= lines.len(),
        drop_trailing_empty(lines) =~= lines.take(drop_trailing_empty(lines).len() as int),
        drop_trailing_empty(lines).len() > 0 ==> drop_trailing_empty(lines).last().len() > 0,
    decreases lines.len(),
{
    if lines.len() > 0 && lines.last().len() == 0 {
        lemma_drop_trailing_empty(lines.drop_last());
    }
}

/// Every line that the formatter writes is empty or is indentation followed
/// by text that neither begins nor ends with a space or a tab; no line holds a
/// newline; the last line is not empty; and the editor formatter never writes
/// two blank lines in a row.
pub proof fn law_formatted_lines(source: Seq<char>, options: FormattingOptions, tidy: bool)
    ensures
        forall|k: int|
            0 <= k < formatted_lines(source, options, tidy).len() ==> is_indented_line(
                #[trigger] formatted_lines(source, options, tidy)[k],
                indent_unit(options),
            ),
        forall|k: int|
            0 <= k < formatted_lines(source, options, tidy).len() ==> !(
            #[trigger] formatted_lines(source, options, tidy)[k]).contains('\n'),
        forall|k: int|
            0 <= k < formatted_lines(source, options, tidy).len() && (
            #[trigger] formatted_lines(source, options, tidy)[k]).len() > 0 ==> !is_hspace(
                formatted_lines(source, options, tidy)[k].last(),
            ),
        formatted_lines(source, options, tidy).len() > 0 ==> formatted_lines(
            source,
            options,
            tidy,
        ).last().len() > 0,
        tidy ==> no_blank_runs(formatted_lines(source, options, tidy)),
{
    let unit = indent_unit(options);
    let src = split_lines(source);
    lemma_split_lines_no_newline(source);
    lemma_format_fold_ok(src, unit, tidy);
    let all = format_fold(src, unit, tidy).lines;
    let out = formatted_lines(source, options, tidy);
    lemma_drop_trailing_empty(all);
    lemma_indent_unit_text(options);
    assert forall|k: int| 0 <= k < out.len() implies is_indented_line(#[trigger] out[k], unit)
        && !out[k].contains('\n') && (out[k].len() > 0 ==> !is_hspace(out[k].last())) by {
        assert(out[k] == all[k]);
        assert(is_indented_line(all[k], unit));
        if out[k].len() > 0 {
            let (n, t) = choose|n: nat, t: Seq<char>| out[k] == repeat_seq(unit, n) + t && is_solid(t);
            lemma_repeat_indent_text(unit, n);
            let r = repeat_seq(unit, n);
            assert(out[k].last() == t.last());
            assert forall|m: int| 0 <= m < out[k].len() implies out[k][m] != '\n' by {
                if m < r.len() {
                    assert(out[k][m] == r[m]);
                } else {
                    assert(out[k][m] == t[m - r.len()]);
                }
            }
        }
    }
    if tidy {
        assert forall|k: int| 0 <= k < out.len() - 1 implies !(#[trigger] out[k].len() == 0
            && out[k + 1].len() == 0) by {
            assert(out[k] == all[k]);
            assert(out[k + 1] == all[k + 1]);
        }
    }
}

pub(crate) proof fn lemma_indent_unit_text(options: FormattingOptions)
    ensures
        is_indent_text(indent_unit(options)),
{
}

pub(crate) proof fn lemma_repeat_indent_text(unit: Seq<char>, n: nat)
    requires
        is_indent_text(unit),
    ensures
        is_indent_text(repeat_seq(unit, n)),
    decreases n,
{
    if n > 0 {
        lemma_repeat_indent_text(unit, (n - 1) as nat);
        let prev = repeat_seq(unit, (n - 1) as nat);
        assert forall|k: int| 0 <= k < repeat_seq(unit, n).len() implies repeat_seq(unit, n)[k]
            == ' ' || repeat_seq(unit, n)[k] == '\t' by {
            if k < prev.len() {
                assert(repeat_seq(unit, n)[k] == prev[k]);
            } else {
                assert(repeat_seq(unit, n)[k] == unit[k - prev.len()]);
            }
        }
    }
}

/// The formatted text is empty, or ends with exactly one newline after a line
/// that is not empty: the formatter leaves no blank lines at the end and
/// always ends a non-empty text with a newline.
pub proof fn law_formatted_ending(source: Seq<char>, options: FormattingOptions, tidy: bool)
    ensures
        ({
            let r = formatted(source, options, tidy);
            r.len() == 0 || (r.len() >= 2 && r.last() == '\n' && r[r.len() - 2] != '\n')
        }),
{
    law_formatted_lines(source, options, tidy);
    let ls = formatted_lines(source, options, tidy);
    if ls.len() > 0 {
        let last = ls.last();
        assert(last == ls[ls.len() - 1]);
        let r = formatted(source, options, tidy);
        let head = join_terminated(ls.drop_last());
        assert(r == head + last.push('\n'));
        assert(r[r.len() - 2] == last.last());
    }
}


pub(crate) proof fn lemma_blank_fold(lines: Seq<Seq<char>>, unit: Seq<char>, tidy: bool)
    requires
        forall|k: int| 0 <= k < lines.len() ==> trim_hspace(#[trigger] lines[k]).len() == 0,
    ensures
        forall|k: int|
            0 <= k < format_fold(lines, unit, tidy).lines.len() ==> (#[trigger] format_fold(
                lines,
                unit,
                tidy,
            ).lines[k]).len() == 0,
    decreases lines.len(),
{
    if lines.len() > 0 {
        let prev = lines.drop_last();
        assert forall|k: int| 0 <= k < prev.len() implies trim_hspace(#[trigger] prev[k]).len()
            == 0 by {
            assert(prev[k] == lines[k]);
        }
        lemma_blank_fold(prev, unit, tidy);
        assert(trim_hspace(lines.last()).len() == 0) by {
            assert(lines.last() == lines[lines.len() - 1]);
        }
        let st = format_fold(prev, unit, tidy);
        let next = format_fold(lines, unit, tidy);
        assert forall|k: int| 0 <= k < next.lines.len() implies (#[trigger] next.lines[k]).len()
            == 0 by {
            if k < st.lines.len() {
                assert(next.lines[k] == st.lines[k]);
            }
        }
    }
}

pub(crate) proof fn lemma_drop_all_empty(lines: Seq<Seq<char>>)
    requires
        forall|k: int| 0 <= k < lines.len() ==> (#[trigger] lines[k]).len() == 0,
    ensures
        drop_trailing_empty(lines).len() == 0,
    decreases lines.len(),
{
    if lines.len() > 0 {
        assert(lines.last() == lines[lines.len() - 1]);
        let prev = lines.drop_last();
        assert forall|k: int| 0 <= k < prev.len() implies (#[trigger] prev[k]).len() == 0 by {
            assert(prev[k] == lines[k]);
        }
        lemma_drop_all_empty(prev);
    }
}

/// A source whose lines are all blank (empty, or only spaces and tabs)
/// formats to the empty text; in particular an empty file stays empty.
pub proof fn law_blank_source_formats_to_nothing(
    source: Seq<char>,
    options: FormattingOptions,
    tidy: bool,
)
    requires
        forall|k: int|
            0 <= k < split_lines(source).len() ==> trim_hspace(#[trigger] split_lines(source)[k]).len()
                == 0,
    ensures
        formatted(source, options, tidy) == Seq::<char>::empty(),
{
    let all = format_fold(split_lines(source), indent_unit(options), tidy).lines;
    lemma_blank_fold(split_lines(source), indent_unit(options), tidy);
    lemma_drop_all_empty(all);
    assert(formatted_lines(source, options, tidy) =~= Seq::<Seq<char>>::empty());
}


// ---------------------------------------------------------------------------
// Formatting changes only layout
// ---------------------------------------------------------------------------

/// Spaces, tabs, carriage returns and newlines: what formatting may change.
pub open spec fn is_layout(c: char) -> bool {
    c == ' ' || c == '\t' || c == '\r' || c == '\n'
}

/// The characters of `s` that are not layout, in order.
pub open spec fn code_of(s: Seq<char>) -> Seq<char>
    decreases s.len(),
{
    if s.len() == 0 {
        Seq::empty()
    } else if is_layout(s.last()) {
        code_of(s.drop_last())
    } else {
        code_of(s.drop_last()).push(s.last())
    }
}

/// The characters of all the lines that are not layout, in order.
pub open spec fn code_of_lines(lines: Seq<Seq<char>>) -> Seq<char>
    decreases lines.len(),
{
    if lines.len() == 0 {
        Seq::empty()
    } else {
        code_of(lines[0]) + code_of_lines(lines.drop_first())
    }
}

pub(crate) proof fn lemma_code_concat(a: Seq<char>, b: Seq<char>)
    ensures
        code_of(a + b) == code_of(a) + code_of(b),
    decreases b.len(),
{
    if b.len() == 0 {
        assert(a + b =~= a);
        assert(code_of(a) + code_of(b) =~= code_of(a));
    } else {
        lemma_code_concat(a, b.drop_last());
        assert((a + b).drop_last() =~= a + b.drop_last());
        assert((a + b).last() == b.last());
        if !is_layout(b.last()) {
            assert(code_of(a) + code_of(b) =~= (code_of(a) + code_of(b.drop_last())).push(
                b.last(),
            ));
        }
    }
}

pub(crate) proof fn lemma_code_all_layout(s: Seq<char>)
    requires
        forall|k: int| 0 <= k < s.len() ==> is_layout(#[trigger] s[k]),
    ensures
        code_of(s) == Seq::<char>::empty(),
    decreases s.len(),
{
    if s.len() > 0 {
        assert(is_layout(s[s.len() - 1]));
        assert forall|k: int| 0 <= k < s.drop_last().len() implies is_layout(
            #[trigger] s.drop_last()[k],
        ) by {
            assert(s.drop_last()[k] == s[k]);
        }
        lemma_code_all_layout(s.drop_last());
    }
}

/// Trimming removes only layout.
pub(crate) proof fn lemma_code_trim(s: Seq<char>)
    ensures
        code_of(trim_hspace(s)) == code_of(s),
{
    let e = trim_end_hspace(s);
    lemma_trim_end_prefix(s);
    lemma_trim_start_suffix(e);
    let t = trim_hspace(s);
    let front = e.take(e.len() - t.len());
    let back = s.skip(e.len() as int);
    assert(s =~= front + t + back);
    assert forall|k: int| 0 <= k < front.len() implies is_layout(#[trigger] front[k]) by {
        assert(front[k] == e[k]);
    }
    assert forall|k: int| 0 <= k < back.len() implies is_layout(#[trigger] back[k]) by {
        assert(back[k] == s[e.len() + k]);
    }
    lemma_code_all_layout(front);
    lemma_code_all_layout(back);
    lemma_code_concat(front + t, back);
    lemma_code_concat(front, t);
    assert(Seq::<char>::empty() + code_of(t) =~= code_of(t));
    assert(code_of(t) + Seq::<char>::empty() =~= code_of(t));
}

pub(crate) proof fn lemma_code_trim_end(s: Seq<char>)
    ensures
        code_of(trim_end_hspace(s)) == code_of(s),
{
    lemma_trim_end_prefix(s);
    let e = trim_end_hspace(s);
    let back = s.skip(e.len() as int);
    assert(s =~= e + back);
    assert forall|k: int| 0 <= k < back.len() implies is_layout(#[trigger] back[k]) by {
        assert(back[k] == s[e.len() + k]);
    }
    lemma_code_all_layout(back);
    lemma_code_concat(e, back);
    assert(code_of(e) + Seq::<char>::empty() =~= code_of(e));
}

/// Normalising colons removes and adds only spaces and tabs.
pub(crate) proof fn lemma_code_colon_pass(
    t: Seq<char>,
    limit: int,
    i: int,
    out: Seq<char>,
    quote: Option<char>,
    escaped: bool,
)
    requires
        0 <= i <= t.len(),
    ensures
        code_of(colon_pass(t, limit, i, out, quote, escaped)) == code_of(out) + code_of(t.skip(i)),
    decreases t.len() - i,
{
    if i >= t.len() {
        assert(t.skip(i) =~= Seq::<char>::empty());
        assert(code_of(out) + Seq::<char>::empty() =~= code_of(out));
    } else if i >= limit || (quote is None && t[i] == '/' && i + 1 < t.len() && t[i + 1] == '/') {
        lemma_code_concat(out, t.skip(i));
    } else {
        let c = t[i];
        assert(t.skip(i) =~= seq![c] + t.skip(i + 1));
        lemma_code_concat(seq![c], t.skip(i + 1));
        lemma_code_concat(out, seq![c]);
        assert(out.push(c) =~= out + seq![c]);
        if quote is Some {
            let q = quote->0;
            if escaped {
                lemma_code_colon_pass(t, limit, i + 1, out.push(c), quote, false);
            } else if c == '\\' {
                lemma_code_colon_pass(t, limit, i + 1, out.push(c), quote, true);
            } else if c == q {
                lemma_code_colon_pass(t, limit, i + 1, out.push(c), None, escaped);
            } else {
                lemma_code_colon_pass(t, limit, i + 1, out.push(c), quote, escaped);
            }
            assert(code_of(out.push(c)) + code_of(t.skip(i + 1)) =~= code_of(out) + code_of(
                t.skip(i),
            ));
        } else if c == '"' || c == '\'' {
            lemma_code_colon_pass(t, limit, i + 1, out.push(c), Some(c), escaped);
            assert(code_of(out.push(c)) + code_of(t.skip(i + 1)) =~= code_of(out) + code_of(
                t.skip(i),
            ));
        } else if c == ':' {
            let j = skip_hspace(t, i + 1);
            lemma_skip_hspace_bounds(t, i + 1);
            let with_colon = trim_end_hspace(out).push(':');
            let spaced = if j < t.len() && !crate::formatter::is_colon_closer(t[j]) {
                with_colon.push(' ')
            } else {
                with_colon
            };
            lemma_code_colon_pass(t, limit, j, spaced, None, escaped);
            lemma_code_trim_end(out);
            assert(with_colon.drop_last() =~= trim_end_hspace(out));
            assert(code_of(with_colon) == code_of(out).push(':'));
            if j < t.len() && !crate::formatter::is_colon_closer(t[j]) {
                assert(spaced.drop_last() =~= with_colon);
            }
            assert(code_of(spaced) == code_of(out).push(':'));
            let gap = t.subrange(i + 1, j);
            assert(t.skip(i + 1) =~= gap + t.skip(j));
            assert forall|k: int| 0 <= k < gap.len() implies is_layout(#[trigger] gap[k]) by {
                assert(gap[k] == t[i + 1 + k]);
            }
            lemma_code_all_layout(gap);
            lemma_code_concat(gap, t.skip(j));
            assert(Seq::<char>::empty() + code_of(t.skip(j)) =~= code_of(t.skip(j)));
            assert(seq![c].drop_last() =~= Seq::<char>::empty());
            assert(code_of(Seq::<char>::empty()) == Seq::<char>::empty());
            assert(seq![c].last() == ':');
            assert(code_of(seq![c]) =~= seq![':']);
            assert(code_of(spaced) + code_of(t.skip(j)) =~= code_of(out) + code_of(t.skip(i)));
        } else {
            lemma_code_colon_pass(t, limit, i + 1, out.push(c), quote, escaped);
            assert(code_of(out.push(c)) + code_of(t.skip(i + 1)) =~= code_of(out) + code_of(
                t.skip(i),
            ));
        }
    }
}

pub(crate) proof fn lemma_code_spacing(t: Seq<char>)
    ensures
        code_of(spacing_normalized(t)) == code_of(t),
{
    if declares_types(t) {
        lemma_code_colon_pass(t, index_of_from(t, '=', 0), 0, Seq::empty(), None, false);
        assert(t.skip(0) =~= t);
        assert(Seq::<char>::empty() + code_of(t) =~= code_of(t));
    }
}

pub(crate) proof fn lemma_code_repeat(unit: Seq<char>, n: nat)
    requires
        is_indent_text(unit),
    ensures
        code_of(repeat_seq(unit, n)) == Seq::<char>::empty(),
{
    lemma_repeat_indent_text(unit, n);
    let r = repeat_seq(unit, n);
    assert forall|k: int| 0 <= k < r.len() implies is_layout(#[trigger] r[k]) by {
        assert(r[k] == ' ' || r[k] == '\t');
    }
    lemma_code_all_layout(r);
}

pub(crate) proof fn lemma_code_of_lines_push(lines: Seq<Seq<char>>, line: Seq<char>)
    ensures
        code_of_lines(lines.push(line)) == code_of_lines(lines) + code_of(line),
    decreases lines.len(),
{
    assert(code_of_lines(Seq::<Seq<char>>::empty()) == Seq::<char>::empty());
    assert(lines.push(line)[0] == if lines.len() == 0 {
        line
    } else {
        lines[0]
    });
    if lines.len() == 0 {
        assert(lines.push(line).drop_first() =~= Seq::<Seq<char>>::empty());
        assert(code_of(line) + Seq::<char>::empty() =~= code_of(line));
        assert(Seq::<char>::empty() + code_of(line) =~= code_of(line));
    } else {
        lemma_code_of_lines_push(lines.drop_first(), line);
        assert(lines.push(line).drop_first() =~= lines.drop_first().push(line));
        assert(code_of(lines[0]) + (code_of_lines(lines.drop_first()) + code_of(line)) =~= (
        code_of(lines[0]) + code_of_lines(lines.drop_first())) + code_of(line));
    }
}

/// The text made of the lines carries exactly their non-layout characters.
pub(crate) proof fn lemma_code_join(lines: Seq<Seq<char>>)
    ensures
        code_of(join_terminated(lines)) == code_of_lines(lines),
    decreases lines.len(),
{
    if lines.len() > 0 {
        lemma_code_join(lines.drop_last());
        lemma_code_of_lines_push(lines.drop_last(), lines.last());
        assert(lines.drop_last().push(lines.last()) =~= lines);
        lemma_code_concat(join_terminated(lines.drop_last()), lines.last().push('\n'));
        assert(lines.last().push('\n').drop_last() =~= lines.last());
    }
}

/// A text carries exactly the non-layout characters of its lines.
pub(crate) proof fn lemma_code_lines_from(s: Seq<char>, start: int)
    requires
        0 <= start <= s.len(),
    ensures
        code_of(s.subrange(start, s.len() as int)) == code_of_lines(lines_from(s, start)),
    decreases s.len() - start,
{
    assert(code_of_lines(Seq::<Seq<char>>::empty()) == Seq::<char>::empty());
    if start == s.len() {
        assert(s.subrange(start, s.len() as int) =~= Seq::<char>::empty());
    } else {
        let e = next_newline(s, start);
        lemma_next_newline_bounds(s, start);
        if e >= s.len() {
            let only = s.subrange(start, s.len() as int);
            assert(lines_from(s, start) == seq![only]);
            assert(seq![only].drop_first() =~= Seq::<Seq<char>>::empty());
            assert(code_of(only) + Seq::<char>::empty() =~= code_of(only));
        } else {
            lemma_code_lines_from(s, e + 1);
            let line = s.subrange(start, e);
            let rest = s.subrange(e + 1, s.len() as int);
            assert(s.subrange(start, s.len() as int) =~= line.push('\n') + rest);
            lemma_code_concat(line.push('\n'), rest);
            assert(line.push('\n').drop_last() =~= line);
            assert(code_of(strip_cr(line)) == code_of(line)) by {
                if line.len() > 0 && line.last() == '\r' {
                    assert(code_of(line) == code_of(line.drop_last()));
                }
            }
            let ls = lines_from(s, start);
            assert(ls == seq![strip_cr(line)] + lines_from(s, e + 1));
            assert(ls[0] == strip_cr(line));
            assert(ls.drop_first() =~= lines_from(s, e + 1));
        }
    }
}

pub(crate) proof fn lemma_code_fold(lines: Seq<Seq<char>>, unit: Seq<char>, tidy: bool)
    requires
        is_indent_text(unit),
    ensures
        code_of_lines(format_fold(lines, unit, tidy).lines) == code_of_lines(lines),
    decreases lines.len(),
{
    if lines.len() > 0 {
        let prev = lines.drop_last();
        let line = lines.last();
        lemma_code_fold(prev, unit, tidy);
        lemma_code_of_lines_push(prev, line);
        assert(prev.push(line) =~= lines);
        let st = format_fold(prev, unit, tidy);
        let trimmed = trim_hspace(line);
        lemma_code_trim(line);
        if trimmed.len() == 0 {
            assert(code_of(trimmed) == Seq::<char>::empty());
            assert(code_of_lines(lines) =~= code_of_lines(prev));
            if !(tidy && st.previous_blank) {
                lemma_code_of_lines_push(st.lines, Seq::empty());
                assert(code_of_lines(st.lines) + Seq::<char>::empty() =~= code_of_lines(st.lines));
            }
        } else {
            let text = if tidy {
                spacing_normalized(trimmed)
            } else {
                trimmed
            };
            lemma_code_spacing(trimmed);
            let next = format_fold(lines, unit, tidy);
            let new_line = next.lines.last();
            assert(next.lines =~= st.lines.push(new_line));
            assert(code_of(new_line) == code_of(text)) by {
                let closes_first: int = if st.in_block_comment {
                    0
                } else {
                    crate::formatter::leading_closes(text) as int
                };
                let indent: nat = if st.level < closes_first {
                    0
                } else {
                    (st.level - closes_first) as nat
                };
                assert(new_line == repeat_seq(unit, indent) + text);
                lemma_code_repeat(unit, indent);
                lemma_code_concat(repeat_seq(unit, indent), text);
                assert(Seq::<char>::empty() + code_of(text) =~= code_of(text));
            }
            lemma_code_of_lines_push(st.lines, new_line);
        }
    }
}

pub(crate) proof fn lemma_code_drop_trailing_empty(lines: Seq<Seq<char>>)
    ensures
        code_of_lines(drop_trailing_empty(lines)) == code_of_lines(lines),
    decreases lines.len(),
{
    if lines.len() > 0 && lines.last().len() == 0 {
        lemma_code_drop_trailing_empty(lines.drop_last());
        lemma_code_of_lines_push(lines.drop_last(), lines.last());
        assert(lines.drop_last().push(lines.last()) =~= lines);
        assert(code_of(lines.last()) == Seq::<char>::empty());
        assert(code_of_lines(lines.drop_last()) + Seq::<char>::empty() =~= code_of_lines(
            lines.drop_last(),
        ));
    }
}

/// Formatting changes only layout: the formatted text and the source have the
/// same characters once spaces, tabs, carriage returns and newlines are taken
/// out.
pub proof fn law_formatting_changes_only_layout(
    source: Seq<char>,
    options: FormattingOptions,
    tidy: bool,
)
    ensures
        code_of(formatted(source, options, tidy)) == code_of(source),
{
    let unit = indent_unit(options);
    lemma_indent_unit_text(options);
    let all = format_fold(split_lines(source), unit, tidy).lines;
    lemma_code_lines_from(source, 0);
    assert(source.subrange(0, source.len() as int) =~= source);
    lemma_code_fold(split_lines(source), unit, tidy);
    lemma_code_drop_trailing_empty(all);
    lemma_code_join(formatted_lines(source, options, tidy));
}


// ---------------------------------------------------------------------------
// Text that holds something
// ---------------------------------------------------------------------------

proof fn lemma_fold_keeps_text(lines: Seq<Seq<char>>, unit: Seq<char>, tidy: bool, k: int)
    requires
        0 <= k < lines.len(),
        trim_hspace(lines[k]).len() > 0,
    ensures
        exists|p: int|
            0 <= p < format_fold(lines, unit, tidy).lines.len() && (#[trigger] format_fold(
                lines,
                unit,
                tidy,
            ).lines[p]).len() > 0,
    decreases lines.len(),
{
    let prev = lines.drop_last();
    let st = format_fold(prev, unit, tidy);
    let next = format_fold(lines, unit, tidy);
    if k == lines.len() - 1 {
        let line = lines.last();
        assert(line == lines[k]);
        let trimmed = trim_hspace(line);
        if tidy {
            if declares_types(trimmed) {
                crate::colon_laws::lemma_normalized_nonempty(trimmed);
            }
        }
        assert(next.lines.last().len() > 0);
        assert(next.lines[next.lines.len() - 1].len() > 0);
    } else {
        assert(prev[k] == lines[k]);
        lemma_fold_keeps_text(prev, unit, tidy, k);
        let p = choose|p: int| 0 <= p < st.lines.len() && (#[trigger] st.lines[p]).len() > 0;
        assert(next.lines[p] == st.lines[p]);
    }
}

proof fn lemma_drop_keeps_text(lines: Seq<Seq<char>>, p: int)
    requires
        0 <= p < lines.len(),
        lines[p].len() > 0,
    ensures
        drop_trailing_empty(lines).len() > 0,
    decreases lines.len(),
{
    if lines.last().len() == 0 {
        assert(p < lines.len() - 1);
        assert(lines.drop_last()[p] == lines[p]);
        lemma_drop_keeps_text(lines.drop_last(), p);
    }
}

/// A source with a line that is not blank never formats to the empty text.
pub proof fn law_text_never_formats_to_nothing(
    source: Seq<char>,
    options: FormattingOptions,
    tidy: bool,
    k: int,
)
    requires
        0 <= k < split_lines(source).len(),
        trim_hspace(split_lines(source)[k]).len() > 0,
    ensures
        formatted(source, options, tidy).len() > 0,
{
    let unit = indent_unit(options);
    lemma_fold_keeps_text(split_lines(source), unit, tidy, k);
    let all = format_fold(split_lines(source), unit, tidy).lines;
    let p = choose|p: int| 0 <= p < all.len() && (#[trigger] all[p]).len() > 0;
    lemma_drop_keeps_text(all, p);
    let ls = formatted_lines(source, options, tidy);
    assert(formatted(source, options, tidy) == join_terminated(ls.drop_last()) + ls.last().push(
        '\n',
    ));
}

} // verus!
