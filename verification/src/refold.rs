use vstd::prelude::*;

use crate::format_laws::{
    is_indent_text, is_solid, lemma_drop_trailing_empty,
    lemma_indent_unit_text, lemma_repeat_indent_text,
    lemma_spacing_normalized_solid, lemma_split_lines_no_newline, lemma_trim_end_prefix,
    lemma_trim_solid, lemma_trim_start_suffix,
};
use crate::formatter::{
    colon_pass, declares_types, drop_trailing_empty, format_fold, format_step, formatted,
    formatted_lines, indent_unit, index_of_from, is_colon_closer, lemma_skip_hspace_bounds, skip_hspace, spacing_normalized,
    FormattingOptions,
};
use crate::text::{
    is_hspace, join_terminated, lemma_next_newline_bounds, lines_from, next_newline, repeat_seq,
    split_lines, strip_cr, trim_end_hspace, trim_hspace, trim_start_hspace,
};

verus! {

// ---------------------------------------------------------------------------
// Characters that formatting never brings in
// ---------------------------------------------------------------------------

/// A character that formatting never writes unless the source holds it.
pub open spec fn is_foreign(x: char) -> bool {
    x != ' ' && x != '\t' && x != ':' && x != '\n'
}

pub(crate) proof fn lemma_lines_from_avoid(s: Seq<char>, start: int, x: char)
    requires
        !s.contains(x),
    ensures
        forall|k: int| 0 <= k < lines_from(s, start).len() ==> !(#[trigger] lines_from(s, start)[k]).contains(x),
    decreases s.len() - start,
{
    if 0 <= start < s.len() {
        let e = next_newline(s, start);
        lemma_next_newline_bounds(s, start);
        if e < s.len() {
            lemma_lines_from_avoid(s, e + 1, x);
            let first = strip_cr(s.subrange(start, e));
            assert forall|k: int| 0 <= k < first.len() implies first[k] != x by {
                assert(first[k] == s[start + k]);
            }
            assert forall|k: int| 0 <= k < lines_from(s, start).len() implies !(
            #[trigger] lines_from(s, start)[k]).contains(x) by {
                if k > 0 {
                    assert(lines_from(s, start)[k] == lines_from(s, e + 1)[k - 1]);
                }
            }
        } else {
            let only = s.subrange(start, s.len() as int);
            assert forall|k: int| 0 <= k < only.len() implies only[k] != x by {
                assert(only[k] == s[start + k]);
            }
        }
    }
}

proof fn lemma_trim_avoid(s: Seq<char>, x: char)
    requires
        !s.contains(x),
    ensures
        !trim_hspace(s).contains(x),
{
    let e = trim_end_hspace(s);
    lemma_trim_end_prefix(s);
    lemma_trim_start_suffix(e);
    let t = trim_hspace(s);
    assert forall|k: int| 0 <= k < t.len() implies t[k] != x by {
        assert(t[k] == s[e.len() - t.len() + k]);
    }
}

proof fn lemma_colon_pass_avoid(
    t: Seq<char>,
    limit: int,
    i: int,
    out: Seq<char>,
    quote: Option<char>,
    escaped: bool,
    x: char,
)
    requires
        is_foreign(x),
        !t.contains(x),
        !out.contains(x),
    ensures
        !colon_pass(t, limit, i, out, quote, escaped).contains(x),
    decreases t.len() - i,
{
    if i < 0 || i >= t.len() {
    } else if i >= limit || (quote is None && t[i] == '/' && i + 1 < t.len() && t[i + 1] == '/') {
        let r = out + t.skip(i);
        assert forall|k: int| 0 <= k < r.len() implies r[k] != x by {
            if k >= out.len() {
                assert(r[k] == t[i + k - out.len()]);
            }
        }
    } else {
        let c = t[i];
        assert(!out.push(c).contains(x)) by {
            assert forall|k: int| 0 <= k < out.push(c).len() implies out.push(c)[k] != x by {
                if k < out.len() {
                    assert(out.push(c)[k] == out[k]);
                }
            }
        }
        if quote is Some {
            let q = quote->0;
            if escaped {
                lemma_colon_pass_avoid(t, limit, i + 1, out.push(c), quote, false, x);
            } else if c == '\\' {
                lemma_colon_pass_avoid(t, limit, i + 1, out.push(c), quote, true, x);
            } else if c == q {
                lemma_colon_pass_avoid(t, limit, i + 1, out.push(c), None, escaped, x);
            } else {
                lemma_colon_pass_avoid(t, limit, i + 1, out.push(c), quote, escaped, x);
            }
        } else if c == '"' || c == '\'' {
            lemma_colon_pass_avoid(t, limit, i + 1, out.push(c), Some(c), escaped, x);
        } else if c == ':' {
            let j = skip_hspace(t, i + 1);
            lemma_skip_hspace_bounds(t, i + 1);
            lemma_trim_end_prefix(out);
            let trimmed = trim_end_hspace(out);
            let with_colon = trimmed.push(':');
            let spaced = if j < t.len() && !is_colon_closer(t[j]) {
                with_colon.push(' ')
            } else {
                with_colon
            };
            assert forall|k: int| 0 <= k < spaced.len() implies spaced[k] != x by {
                if k < trimmed.len() {
                    assert(spaced[k] == out[k]);
                }
            }
            lemma_colon_pass_avoid(t, limit, j, spaced, None, escaped, x);
        } else {
            lemma_colon_pass_avoid(t, limit, i + 1, out.push(c), quote, escaped, x);
        }
    }
}

proof fn lemma_spacing_avoid(t: Seq<char>, x: char)
    requires
        is_foreign(x),
        !t.contains(x),
    ensures
        !spacing_normalized(t).contains(x),
{
    if declares_types(t) {
        lemma_colon_pass_avoid(t, index_of_from(t, '=', 0), 0, Seq::empty(), None, false, x);
    }
}

proof fn lemma_fold_avoid(lines: Seq<Seq<char>>, unit: Seq<char>, tidy: bool, x: char)
    requires
        is_foreign(x),
        is_indent_text(unit),
        forall|k: int| 0 <= k < lines.len() ==> !(#[trigger] lines[k]).contains(x),
    ensures
        forall|k: int|
            0 <= k < format_fold(lines, unit, tidy).lines.len() ==> !(#[trigger] format_fold(
                lines,
                unit,
                tidy,
            ).lines[k]).contains(x),
    decreases lines.len(),
{
    if lines.len() > 0 {
        let prev = lines.drop_last();
        assert forall|k: int| 0 <= k < prev.len() implies !(#[trigger] prev[k]).contains(x) by {
            assert(prev[k] == lines[k]);
        }
        lemma_fold_avoid(prev, unit, tidy, x);
        let st = format_fold(prev, unit, tidy);
        let line = lines.last();
        assert(!line.contains(x)) by {
            assert(line == lines[lines.len() - 1]);
        }
        let next = format_fold(lines, unit, tidy);
        let trimmed = trim_hspace(line);
        lemma_trim_avoid(line, x);
        if trimmed.len() > 0 {
            let text = if tidy {
                spacing_normalized(trimmed)
            } else {
                trimmed
            };
            if tidy {
                lemma_spacing_avoid(trimmed, x);
            }
            let closes_first: int = if st.in_block_comment {
                0
            } else {
                crate::formatter::leading_closes(text) as int
            };
            let indent: nat = if st.level < closes_first {
                0
            } else {
                (st.level - closes_first) as nat
            };
            let r = repeat_seq(unit, indent);
            lemma_repeat_indent_text(unit, indent);
            let new_line = r + text;
            assert(next.lines == st.lines.push(new_line));
            assert forall|k: int| 0 <= k < new_line.len() implies new_line[k] != x by {
                if k < r.len() {
                    assert(new_line[k] == r[k]);
                } else {
                    assert(new_line[k] == text[k - r.len()]);
                }
            }
        }
        assert forall|k: int| 0 <= k < next.lines.len() implies !(#[trigger] next.lines[k]).contains(
            x,
        ) by {
            if k < st.lines.len() {
                assert(next.lines[k] == st.lines[k]);
            }
        }
    }
}


// ---------------------------------------------------------------------------
// Reading the formatted text back
// ---------------------------------------------------------------------------

proof fn lemma_trim_start_of_indent(r: Seq<char>, t: Seq<char>)
    requires
        forall|k: int| 0 <= k < r.len() ==> is_hspace(#[trigger] r[k]),
        t.len() > 0,
        !is_hspace(t[0]),
    ensures
        trim_start_hspace(r + t) == t,
    decreases r.len(),
{
    if r.len() == 0 {
        assert(r + t =~= t);
    } else {
        assert((r + t).drop_first() =~= r.drop_first() + t);
        assert((r + t)[0] == r[0]);
        assert forall|k: int| 0 <= k < r.drop_first().len() implies is_hspace(
            #[trigger] r.drop_first()[k],
        ) by {
            assert(r.drop_first()[k] == r[k + 1]);
        }
        lemma_trim_start_of_indent(r.drop_first(), t);
    }
}

/// Trimming an indented line gives back its text.
proof fn lemma_trim_indented(unit: Seq<char>, n: nat, t: Seq<char>)
    requires
        is_indent_text(unit),
        is_solid(t),
    ensures
        trim_hspace(repeat_seq(unit, n) + t) == t,
{
    let r = repeat_seq(unit, n);
    lemma_repeat_indent_text(unit, n);
    let line = r + t;
    assert(line.last() == t.last());
    assert(trim_end_hspace(line) == line);
    assert forall|k: int| 0 <= k < r.len() implies is_hspace(#[trigger] r[k]) by {
        assert(r[k] == ' ' || r[k] == '\t');
    }
    lemma_trim_start_of_indent(r, t);
}

proof fn lemma_join_front(lines: Seq<Seq<char>>)
    requires
        lines.len() > 0,
    ensures
        join_terminated(lines) == lines[0].push('\n') + join_terminated(lines.drop_first()),
    decreases lines.len(),
{
    if lines.len() == 1 {
        assert(lines.drop_last() =~= Seq::<Seq<char>>::empty());
        assert(lines.drop_first() =~= Seq::<Seq<char>>::empty());
        assert(join_terminated(Seq::<Seq<char>>::empty()) == Seq::<char>::empty());
        assert(lines.last() == lines[0]);
        assert(join_terminated(lines) =~= lines[0].push('\n'));
        assert(lines[0].push('\n') + Seq::<char>::empty() =~= lines[0].push('\n'));
    } else {
        lemma_join_front(lines.drop_last());
        assert(lines.drop_last().drop_first() =~= lines.drop_first().drop_last());
        assert(lines.drop_first().last() == lines.last());
        assert(lines.drop_last()[0] == lines[0]);
        assert(join_terminated(lines) =~= lines[0].push('\n') + join_terminated(
            lines.drop_first(),
        ));
    }
}

proof fn lemma_lines_from_join(prefix: Seq<char>, lines: Seq<Seq<char>>)
    requires
        forall|k: int|
            0 <= k < lines.len() ==> !(#[trigger] lines[k]).contains('\n') && !lines[k].contains(
                '\r',
            ),
    ensures
        lines_from(prefix + join_terminated(lines), prefix.len() as int) == lines,
    decreases lines.len(),
{
    let s = prefix + join_terminated(lines);
    let start = prefix.len() as int;
    if lines.len() == 0 {
        assert(s.len() == start);
        assert(lines_from(s, start) =~= lines);
    } else {
        lemma_join_front(lines);
        let first = lines[0];
        let rest = lines.drop_first();
        assert forall|k: int| 0 <= k < rest.len() implies !(#[trigger] rest[k]).contains('\n')
            && !rest[k].contains('\r') by {
            assert(rest[k] == lines[k + 1]);
        }
        let prefix2 = prefix + first.push('\n');
        lemma_lines_from_join(prefix2, rest);
        assert(s =~= prefix2 + join_terminated(rest));
        let e = start + first.len();
        assert(s[e] == '\n');
        assert forall|k: int| start <= k < e implies s[k] != '\n' by {
            assert(s[k] == first[k - start]);
        }
        lemma_next_newline_at(s, start, e);
        assert(s.subrange(start, e) =~= first);
        if first.len() > 0 {
            assert(first.last() != '\r') by {
                assert(first.last() == first[first.len() - 1]);
            }
        }
        assert(strip_cr(first) == first);
        assert(prefix2.len() == e + 1);
        assert(lines_from(s, start) =~= seq![first] + rest);
        assert(seq![first] + rest =~= lines);
    }
}

proof fn lemma_next_newline_at(s: Seq<char>, start: int, e: int)
    requires
        0 <= start <= e < s.len(),
        s[e] == '\n',
        forall|k: int| start <= k < e ==> s[k] != '\n',
    ensures
        next_newline(s, start) == e,
    decreases e - start,
{
    if start < e {
        lemma_next_newline_at(s, start + 1, e);
    }
}

/// Splitting the text made of some lines gives back those lines.
proof fn lemma_split_join(lines: Seq<Seq<char>>)
    requires
        forall|k: int|
            0 <= k < lines.len() ==> !(#[trigger] lines[k]).contains('\n') && !lines[k].contains(
                '\r',
            ),
    ensures
        split_lines(join_terminated(lines)) == lines,
{
    lemma_lines_from_join(Seq::empty(), lines);
    assert(Seq::<char>::empty() + join_terminated(lines) =~= join_terminated(lines));
}

// ---------------------------------------------------------------------------
// Formatting the formatter's own lines
// ---------------------------------------------------------------------------

/// The formatter, run over the lines it wrote, ends in the same state.
proof fn lemma_fold_refold(lines: Seq<Seq<char>>, unit: Seq<char>, tidy: bool)
    requires
        is_indent_text(unit),
        forall|k: int| 0 <= k < lines.len() ==> !(#[trigger] lines[k]).contains('\n'),
        tidy ==> forall|t: Seq<char>|
            is_solid(t) ==> #[trigger] spacing_normalized(spacing_normalized(t))
                == spacing_normalized(t),
    ensures
        format_fold(format_fold(lines, unit, tidy).lines, unit, tidy) == format_fold(
            lines,
            unit,
            tidy,
        ),
    decreases lines.len(),
{
    if lines.len() > 0 {
        let prev = lines.drop_last();
        assert forall|k: int| 0 <= k < prev.len() implies !(#[trigger] prev[k]).contains('\n') by {
            assert(prev[k] == lines[k]);
        }
        lemma_fold_refold(prev, unit, tidy);
        let st = format_fold(prev, unit, tidy);
        let line = lines.last();
        assert(!line.contains('\n')) by {
            assert(line == lines[lines.len() - 1]);
        }
        let next = format_fold(lines, unit, tidy);
        assert(next == format_step(st, line, unit, tidy));
        let trimmed = trim_hspace(line);
        if trimmed.len() == 0 {
            if !(tidy && st.previous_blank) {
                let empty = Seq::<char>::empty();
                assert(next.lines == st.lines.push(empty));
                assert(st.lines.push(empty).drop_last() =~= st.lines);
                assert(trim_hspace(empty) =~= empty);
                assert(format_fold(next.lines, unit, tidy) == format_step(st, empty, unit, tidy));
            }
        } else {
            lemma_trim_solid(line);
            let text = if tidy {
                spacing_normalized(trimmed)
            } else {
                trimmed
            };
            if tidy {
                lemma_spacing_normalized_solid(trimmed);
            }
            let closes_first: int = if st.in_block_comment {
                0
            } else {
                crate::formatter::leading_closes(text) as int
            };
            let indent: nat = if st.level < closes_first {
                0
            } else {
                (st.level - closes_first) as nat
            };
            let new_line = repeat_seq(unit, indent) + text;
            assert(next.lines == st.lines.push(new_line));
            assert(st.lines.push(new_line).drop_last() =~= st.lines);
            lemma_trim_indented(unit, indent, text);
            if tidy {
                assert(spacing_normalized(text) == text);
            }
            assert(format_fold(next.lines, unit, tidy) == format_step(st, new_line, unit, tidy));
            assert(format_step(st, new_line, unit, tidy) == next);
        }
    }
}

/// The formatter writes at most one line for each line it reads.
proof fn lemma_fold_len(lines: Seq<Seq<char>>, unit: Seq<char>, tidy: bool)
    ensures
        format_fold(lines, unit, tidy).lines.len() <= lines.len(),
    decreases lines.len(),
{
    if lines.len() > 0 {
        lemma_fold_len(lines.drop_last(), unit, tidy);
    }
}

/// Running the formatter over a prefix writes a prefix of its lines, at most
/// one line for each line read.
proof fn lemma_fold_prefix(lines: Seq<Seq<char>>, k: int, unit: Seq<char>, tidy: bool)
    requires
        0 <= k <= lines.len(),
    ensures
        format_fold(lines.take(k), unit, tidy).lines.len() <= k,
        format_fold(lines.take(k), unit, tidy).lines.len() <= format_fold(lines, unit, tidy).lines.len(),
        format_fold(lines, unit, tidy).lines.len() <= format_fold(lines.take(k), unit, tidy).lines.len()
            + lines.len() - k,
        format_fold(lines.take(k), unit, tidy).lines == format_fold(lines, unit, tidy).lines.take(
            format_fold(lines.take(k), unit, tidy).lines.len() as int,
        ),
    decreases lines.len(),
{
    if k == lines.len() {
        assert(lines.take(k) =~= lines);
        lemma_fold_len(lines, unit, tidy);
        assert(format_fold(lines, unit, tidy).lines.take(
            format_fold(lines, unit, tidy).lines.len() as int,
        ) =~= format_fold(lines, unit, tidy).lines);
    } else {
        let prev = lines.drop_last();
        lemma_fold_prefix(prev, k, unit, tidy);
        assert(prev.take(k) =~= lines.take(k));
        let a = format_fold(prev, unit, tidy).lines;
        let b = format_fold(lines, unit, tidy).lines;
        let c = format_fold(lines.take(k), unit, tidy).lines;
        assert(b == a || b == a.push(b.last()));
        assert(b.take(c.len() as int) =~= a.take(c.len() as int));
    }
}


/// Formatting what the formatter wrote changes nothing, where the source held
/// no carriage return (and, for the editor formatter, where normalising the
/// colons of a normalised line changes nothing).
proof fn lemma_reformat(source: Seq<char>, options: FormattingOptions, tidy: bool)
    requires
        !source.contains('\r'),
        tidy ==> forall|t: Seq<char>|
            is_solid(t) ==> #[trigger] spacing_normalized(spacing_normalized(t))
                == spacing_normalized(t),
    ensures
        formatted(formatted(source, options, tidy), options, tidy) == formatted(
            source,
            options,
            tidy,
        ),
{
    let unit = indent_unit(options);
    lemma_indent_unit_text(options);
    let src = split_lines(source);
    lemma_split_lines_no_newline(source);
    lemma_lines_from_avoid(source, 0, '\r');
    let o = format_fold(src, unit, tidy).lines;
    lemma_fold_avoid(src, unit, tidy, '\r');
    let d = formatted_lines(source, options, tidy);
    lemma_drop_trailing_empty(o);
    crate::format_laws::law_formatted_lines(source, options, tidy);
    assert forall|k: int| 0 <= k < d.len() implies !(#[trigger] d[k]).contains('\n')
        && !d[k].contains('\r') by {
        assert(d[k] == o[k]);
    }
    lemma_split_join(d);
    lemma_fold_refold(src, unit, tidy);
    lemma_fold_prefix(o, d.len() as int, unit, tidy);
    assert(o.take(d.len() as int) == d);
    let c = format_fold(d, unit, tidy).lines;
    assert(c.len() == d.len());
    assert(c =~= d);
    assert(drop_trailing_empty(d) == d);
}

/// The language server's formatting is idempotent: formatting a text that it
/// formatted, with the same options, gives the same text, for any source
/// without carriage returns.
pub proof fn law_server_formatting_is_idempotent(source: Seq<char>, options: FormattingOptions)
    requires
        !source.contains('\r'),
    ensures
        formatted(formatted(source, options, false), options, false) == formatted(
            source,
            options,
            false,
        ),
{
    lemma_reformat(source, options, false);
}


/// The editor formatter is idempotent: formatting a text that it formatted,
/// with the same options, gives the same text, for any source without
/// carriage returns.
pub proof fn law_editor_formatting_is_idempotent(source: Seq<char>, options: FormattingOptions)
    requires
        !source.contains('\r'),
    ensures
        formatted(formatted(source, options, true), options, true) == formatted(
            source,
            options,
            true,
        ),
{
    assert forall|t: Seq<char>| is_solid(t) implies #[trigger] spacing_normalized(
        spacing_normalized(t),
    ) == spacing_normalized(t) by {
        crate::colon_laws::law_spacing_normalization_is_idempotent(t);
    }
    lemma_reformat(source, options, true);
}

} // verus!
