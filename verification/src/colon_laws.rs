use vstd::prelude::*;

use crate::formatter::{
    colon_pass, colons_normalized, declares_types, index_of_from, is_colon_closer,
    lemma_skip_hspace_bounds, skip_hspace, spacing_normalized,
};
use crate::text::{is_hspace, trim_end_hspace};

verus! {

/// What `colon_pass` writes from index `i` on, described without taking
/// anything back: spaces and tabs that lead up to a `:` are never written, and
/// the space after a `:` is written only where no further `:` follows.
pub open spec fn colon_rest(t: Seq<char>, limit: int, i: int, quote: Option<char>, escaped: bool) -> Seq<
    char,
>
    decreases t.len() - i,
{
    if i < 0 || i >= t.len() {
        Seq::empty()
    } else if i >= limit {
        t.skip(i)
    } else {
        let c = t[i];
        if let Some(q) = quote {
            if escaped {
                seq![c] + colon_rest(t, limit, i + 1, quote, false)
            } else if c == '\\' {
                seq![c] + colon_rest(t, limit, i + 1, quote, true)
            } else if c == q {
                seq![c] + colon_rest(t, limit, i + 1, None, escaped)
            } else {
                seq![c] + colon_rest(t, limit, i + 1, quote, escaped)
            }
        } else if c == '"' || c == '\'' {
            seq![c] + colon_rest(t, limit, i + 1, Some(c), escaped)
        } else if c == '/' && i + 1 < t.len() && t[i + 1] == '/' {
            t.skip(i)
        } else if c == ':' {
            let j = skip_hspace(t, i + 1);
            proof {
                lemma_skip_hspace_bounds(t, i + 1);
            }
            seq![':'] + (if j < t.len() && !is_colon_closer(t[j]) && t[j] != ':' {
                seq![' ']
            } else {
                Seq::empty()
            }) + colon_rest(t, limit, j, None, escaped)
        } else if is_hspace(c) {
            let j = skip_hspace(t, i);
            proof {
                lemma_skip_hspace_bounds(t, i + 1);
            }
            if j < t.len() && t[j] == ':' {
                colon_rest(t, limit, j, None, escaped)
            } else {
                seq![c] + colon_rest(t, limit, i + 1, None, escaped)
            }
        } else {
            seq![c] + colon_rest(t, limit, i + 1, None, escaped)
        }
    }
}

/// What stays of `out` once `colon_pass` has taken back the spaces and tabs
/// that lead up to the next `:`.
pub open spec fn pending(t: Seq<char>, limit: int, i: int, out: Seq<char>, quote: Option<char>) -> Seq<
    char,
> {
    let j = skip_hspace(t, i);
    if quote is None && 0 <= i < limit && j < t.len() && t[j] == ':' {
        trim_end_hspace(out)
    } else {
        out
    }
}

/// The limit of a line: the index of its first `=`, or its length.
pub open spec fn is_limit(t: Seq<char>, limit: int) -> bool {
    limit >= t.len() || (0 <= limit && t[limit] == '=')
}

pub(crate) proof fn lemma_skip_stops_at_limit(t: Seq<char>, limit: int, i: int)
    requires
        is_limit(t, limit),
        0 <= i <= limit,
    ensures
        skip_hspace(t, i) <= limit || skip_hspace(t, i) >= t.len(),
        skip_hspace(t, i) < t.len() && t[skip_hspace(t, i)] == ':' ==> skip_hspace(t, i) < limit,
{
    lemma_skip_hspace_bounds(t, i);
    if limit < t.len() && skip_hspace(t, i) > limit {
        assert(is_hspace(t[limit]));
    }
}

pub(crate) proof fn lemma_trim_push_solid(out: Seq<char>, c: char)
    requires
        !is_hspace(c),
    ensures
        trim_end_hspace(out.push(c)) == out.push(c),
{
}

pub(crate) proof fn lemma_trim_push_space(out: Seq<char>, c: char)
    requires
        is_hspace(c),
    ensures
        trim_end_hspace(out.push(c)) == trim_end_hspace(out),
{
    assert(out.push(c).drop_last() =~= out);
}

/// `colon_pass` is what stays of its output so far, then `colon_rest`.
pub(crate) proof fn lemma_colon_pass_rest(
    t: Seq<char>,
    limit: int,
    i: int,
    out: Seq<char>,
    quote: Option<char>,
    escaped: bool,
)
    requires
        is_limit(t, limit),
        0 <= i <= t.len(),
        i <= limit,
        quote matches Some(q) ==> q == '"' || q == '\'',
    ensures
        colon_pass(t, limit, i, out, quote, escaped) == pending(t, limit, i, out, quote)
            + colon_rest(t, limit, i, quote, escaped),
    decreases t.len() - i,
{
    lemma_skip_hspace_bounds(t, i);
    if i >= t.len() {
        assert(out + Seq::<char>::empty() =~= out);
    } else if i >= limit {
    } else {
        let c = t[i];
        if quote is Some {
            let q = quote->0;
            if escaped {
                lemma_colon_pass_rest(t, limit, i + 1, out.push(c), quote, false);
            } else if c == '\\' {
                lemma_colon_pass_rest(t, limit, i + 1, out.push(c), quote, true);
            } else if c == q {
                lemma_colon_pass_rest(t, limit, i + 1, out.push(c), None, escaped);
                assert(!is_hspace(c));
                lemma_trim_push_solid(out, c);
            } else {
                lemma_colon_pass_rest(t, limit, i + 1, out.push(c), quote, escaped);
            }
            assert(out.push(c) + colon_rest(t, limit, i + 1, None, escaped) =~= out + (seq![c]
                + colon_rest(t, limit, i + 1, None, escaped)));
            assert(out.push(c) + colon_rest(t, limit, i + 1, quote, escaped) =~= out + (seq![c]
                + colon_rest(t, limit, i + 1, quote, escaped)));
            assert(out.push(c) + colon_rest(t, limit, i + 1, quote, false) =~= out + (seq![c]
                + colon_rest(t, limit, i + 1, quote, false)));
            assert(out.push(c) + colon_rest(t, limit, i + 1, quote, true) =~= out + (seq![c]
                + colon_rest(t, limit, i + 1, quote, true)));
        } else if c == '"' || c == '\'' {
            lemma_colon_pass_rest(t, limit, i + 1, out.push(c), Some(c), escaped);
            assert(out.push(c) + colon_rest(t, limit, i + 1, Some(c), escaped) =~= out + (seq![c]
                + colon_rest(t, limit, i + 1, Some(c), escaped)));
        } else if c == '/' && i + 1 < t.len() && t[i + 1] == '/' {
        } else if c == ':' {
            let j = skip_hspace(t, i + 1);
            lemma_skip_hspace_bounds(t, i + 1);
            lemma_skip_stops_at_limit(t, limit, i + 1);
            let with_colon = trim_end_hspace(out).push(':');
            let spaced = if j < t.len() && !is_colon_closer(t[j]) {
                with_colon.push(' ')
            } else {
                with_colon
            };
            lemma_colon_pass_rest(t, limit, j, spaced, None, escaped);
            lemma_skip_hspace_bounds(t, j);
            let ins = if j < t.len() && !is_colon_closer(t[j]) && t[j] != ':' {
                seq![' ']
            } else {
                Seq::<char>::empty()
            };
            if j < t.len() && t[j] == ':' {
                assert(spaced == with_colon.push(' '));
                lemma_trim_push_space(with_colon, ' ');
                lemma_trim_push_solid(trim_end_hspace(out), ':');
                assert(pending(t, limit, j, spaced, None) == with_colon);
            } else {
                assert(pending(t, limit, j, spaced, None) == spaced);
            }
            assert(pending(t, limit, j, spaced, None) =~= trim_end_hspace(out) + seq![':'] + ins);
            assert(pending(t, limit, i, out, None) == trim_end_hspace(out));
            assert(colon_rest(t, limit, i, None, escaped) == seq![':'] + ins + colon_rest(
                t,
                limit,
                j,
                None,
                escaped,
            ));
            assert(trim_end_hspace(out) + seq![':'] + ins + colon_rest(t, limit, j, None, escaped)
                =~= trim_end_hspace(out) + (seq![':'] + ins + colon_rest(t, limit, j, None, escaped)));
        } else if is_hspace(c) {
            let j = skip_hspace(t, i);
            lemma_skip_hspace_bounds(t, i + 1);
            assert(j == skip_hspace(t, i + 1));
            lemma_skip_stops_at_limit(t, limit, i);
            lemma_colon_pass_rest(t, limit, i + 1, out.push(c), None, escaped);
            if j < t.len() && t[j] == ':' {
                lemma_trim_push_space(out, c);
                assert(pending(t, limit, i + 1, out.push(c), None) == trim_end_hspace(out));
                if i + 1 < j {
                    assert(is_hspace(t[i + 1]));
                    assert(skip_hspace(t, i + 1) == skip_hspace(t, i + 2));
                    assert(colon_rest(t, limit, i + 1, None, escaped) == colon_rest(
                        t,
                        limit,
                        j,
                        None,
                        escaped,
                    ));
                }
            } else {
                assert(pending(t, limit, i + 1, out.push(c), None) == out.push(c));
                assert(out.push(c) + colon_rest(t, limit, i + 1, None, escaped) =~= out + (seq![c]
                    + colon_rest(t, limit, i + 1, None, escaped)));
            }
        } else {
            lemma_colon_pass_rest(t, limit, i + 1, out.push(c), None, escaped);
            lemma_trim_push_solid(out, c);
            assert(out.push(c) + colon_rest(t, limit, i + 1, None, escaped) =~= out + (seq![c]
                + colon_rest(t, limit, i + 1, None, escaped)));
        }
    }
}


// ---------------------------------------------------------------------------
// Normalising twice
// ---------------------------------------------------------------------------

pub(crate) proof fn lemma_index_of(s: Seq<char>, c: char, i: int)
    requires
        0 <= i <= s.len(),
    ensures
        i <= index_of_from(s, c, i) <= s.len(),
        forall|p: int| i <= p < index_of_from(s, c, i) ==> s[p] != c,
        index_of_from(s, c, i) < s.len() ==> s[index_of_from(s, c, i)] == c,
    decreases s.len() - i,
{
    if i < s.len() && s[i] != c {
        lemma_index_of(s, c, i + 1);
    }
}

pub(crate) proof fn lemma_index_of_skip(s: Seq<char>, c: char, i: int, x: int)
    requires
        0 <= i <= x <= s.len(),
        forall|p: int| i <= p < x ==> s[p] != c,
    ensures
        index_of_from(s, c, i) == index_of_from(s, c, x),
    decreases x - i,
{
    if i < x {
        lemma_index_of_skip(s, c, i + 1, x);
    }
}

pub(crate) proof fn lemma_skip_exact(s: Seq<char>, a: int, b: int)
    requires
        0 <= a <= b <= s.len(),
        forall|p: int| a <= p < b ==> is_hspace(#[trigger] s[p]),
        b == s.len() || !is_hspace(s[b]),
    ensures
        skip_hspace(s, a) == b,
    decreases b - a,
{
    if a < b {
        lemma_skip_exact(s, a + 1, b);
    }
}

/// The first character that `colon_rest` writes.
pub(crate) proof fn lemma_rest_first(t: Seq<char>, limit: int, i: int, quote: Option<char>, escaped: bool)
    requires
        is_limit(t, limit),
        0 <= i < t.len(),
        i <= limit,
    ensures
        colon_rest(t, limit, i, quote, escaped).len() > 0,
        colon_rest(t, limit, i, quote, escaped)[0] == t[i] || colon_rest(
            t,
            limit,
            i,
            quote,
            escaped,
        )[0] == ':',
        !is_hspace(t[i]) ==> colon_rest(t, limit, i, quote, escaped)[0] == t[i],
{
    reveal_with_fuel(colon_rest, 2);
    let c = t[i];
    if i < limit && quote is None && is_hspace(c) {
        let j = skip_hspace(t, i);
        lemma_skip_hspace_bounds(t, i);
        lemma_skip_stops_at_limit(t, limit, i);
        if j < t.len() && t[j] == ':' {
            lemma_skip_hspace_bounds(t, j + 1);
        }
    } else if i < limit && quote is None && c == ':' {
        lemma_skip_hspace_bounds(t, i + 1);
    }
}

/// A run of spaces and tabs that leads up to no `:` is written as it is.
pub(crate) proof fn lemma_rest_run(t: Seq<char>, limit: int, i: int, escaped: bool)
    requires
        is_limit(t, limit),
        0 <= i < t.len(),
        i < limit,
        is_hspace(t[i]),
        !(skip_hspace(t, i) < t.len() && t[skip_hspace(t, i)] == ':'),
    ensures
        colon_rest(t, limit, i, None, escaped) == t.subrange(i, skip_hspace(t, i)) + colon_rest(
            t,
            limit,
            skip_hspace(t, i),
            None,
            escaped,
        ),
    decreases t.len() - i,
{
    let j = skip_hspace(t, i);
    lemma_skip_hspace_bounds(t, i);
    lemma_skip_hspace_bounds(t, i + 1);
    assert(j == skip_hspace(t, i + 1));
    lemma_skip_stops_at_limit(t, limit, i);
    if i + 1 == j {
        assert(t.subrange(i, j) =~= seq![t[i]]);
    } else {
        assert(is_hspace(t[i + 1]));
        lemma_rest_run(t, limit, i + 1, escaped);
        assert(t.subrange(i, j) =~= seq![t[i]] + t.subrange(i + 1, j));
        assert(seq![t[i]] + (t.subrange(i + 1, j) + colon_rest(t, limit, j, None, escaped))
            =~= t.subrange(i, j) + colon_rest(t, limit, j, None, escaped));
    }
}

pub(crate) proof fn lemma_skip_next(r: Seq<char>, k: int, c: char, rest: Seq<char>)
    requires
        0 <= k <= r.len(),
        r.skip(k) == seq![c] + rest,
    ensures
        k < r.len(),
        r[k] == c,
        r.skip(k + 1) == rest,
        r.skip(k) == seq![c] + r.skip(k + 1),
{
    assert(r.skip(k)[0] == c);
    assert(r.skip(k + 1) =~= r.skip(k).drop_first());
    assert((seq![c] + rest).drop_first() =~= rest);
}

pub(crate) proof fn lemma_skip_split(r: Seq<char>, k: int, a: Seq<char>, b: Seq<char>)
    requires
        0 <= k <= r.len(),
        r.skip(k) == a + b,
    ensures
        k + a.len() <= r.len(),
        r.skip(k + a.len()) == b,
        forall|p: int| 0 <= p < a.len() ==> r[k + p] == a[p],
{
    assert(r.skip(k).len() == a.len() + b.len());
    assert forall|p: int| 0 <= p < a.len() implies r[k + p] == a[p] by {
        assert(r.skip(k)[p] == r[k + p]);
        assert((a + b)[p] == a[p]);
    }
    assert forall|p: int| 0 <= p < b.len() implies r.skip(k + a.len())[p] == b[p] by {
        assert(r.skip(k)[a.len() + p] == r[k + a.len() + p]);
        assert((a + b)[a.len() + p] == b[p]);
    }
    assert(r.skip(k + a.len()) =~= b);
}

/// Running `colon_rest` over what it wrote writes the same again.
pub(crate) proof fn lemma_rest_again(
    t: Seq<char>,
    limit: int,
    i: int,
    quote: Option<char>,
    escaped: bool,
    r: Seq<char>,
    k: int,
)
    requires
        is_limit(t, limit),
        forall|p: int| 0 <= p < limit && p < t.len() ==> t[p] != '=',
        0 <= i <= t.len(),
        i <= limit,
        0 <= k <= r.len(),
        r.skip(k) == colon_rest(t, limit, i, quote, escaped),
        forall|p: int| 0 <= p < k ==> r[p] != '=',
        quote matches Some(q) ==> q == '"' || q == '\'',
    ensures
        colon_rest(r, index_of_from(r, '=', 0), k, quote, escaped) == r.skip(k),
    decreases t.len() - i,
{
    let l2 = index_of_from(r, '=', 0);
    let m = colon_rest(t, limit, i, quote, escaped);
    lemma_index_of(r, '=', 0);
    if i >= t.len() {
        assert(r.skip(k).len() == 0);
    } else if i >= limit {
        assert(m.len() > 0);
        assert(r[k] == r.skip(k)[0]);
        assert(r[k] == '=');
        lemma_index_of_skip(r, '=', 0, k);
    } else {
        lemma_rest_first(t, limit, i, quote, escaped);
        let c = t[i];
        assert(r[k] == m[0]);
        assert(r[k] != '=');
        lemma_index_of_skip(r, '=', 0, k + 1);
        lemma_index_of(r, '=', k + 1);
        assert(l2 > k);
        assert(r.skip(k + 1) =~= m.drop_first());
        if quote is Some {
            let q = quote->0;
            assert(r[k] == c);
            if escaped {
                lemma_skip_next(r, k, c, colon_rest(t, limit, i + 1, quote, false));
                lemma_rest_again(t, limit, i + 1, quote, false, r, k + 1);
            } else if c == '\\' {
                lemma_skip_next(r, k, c, colon_rest(t, limit, i + 1, quote, true));
                lemma_rest_again(t, limit, i + 1, quote, true, r, k + 1);
            } else if c == q {
                lemma_skip_next(r, k, c, colon_rest(t, limit, i + 1, None, escaped));
                lemma_rest_again(t, limit, i + 1, None, escaped, r, k + 1);
            } else {
                lemma_skip_next(r, k, c, colon_rest(t, limit, i + 1, quote, escaped));
                lemma_rest_again(t, limit, i + 1, quote, escaped, r, k + 1);
            }
            assert(r.skip(k) =~= seq![c] + r.skip(k + 1));
        } else if c == '"' || c == '\'' {
            assert(r[k] == c);
            lemma_skip_next(r, k, c, colon_rest(t, limit, i + 1, Some(c), escaped));
            lemma_rest_again(t, limit, i + 1, Some(c), escaped, r, k + 1);
            assert(r.skip(k) =~= seq![c] + r.skip(k + 1));
        } else if c == '/' && i + 1 < t.len() && t[i + 1] == '/' {
            assert(r[k] == '/');
            assert(r[k + 1] == m[1]);
            assert(r[k + 1] == '/');
        } else if c == ':' {
            let j = skip_hspace(t, i + 1);
            lemma_skip_hspace_bounds(t, i + 1);
            lemma_skip_stops_at_limit(t, limit, i + 1);
            let ins = if j < t.len() && !is_colon_closer(t[j]) && t[j] != ':' {
                seq![' ']
            } else {
                Seq::<char>::empty()
            };
            let rest = colon_rest(t, limit, j, None, escaped);
            assert(m == seq![':'] + ins + rest);
            let j2 = k + 1 + ins.len();
            lemma_skip_split(r, k, seq![':'] + ins, rest);
            assert(r.skip(j2) =~= rest);
            if j < t.len() {
                lemma_rest_first(t, limit, j, None, escaped);
                assert(rest[0] == t[j]);
                assert(r[j2] == t[j]);
            } else {
                assert(rest.len() == 0);
                assert(j2 == r.len());
            }
            if ins.len() == 1 {
                assert((seq![':'] + ins)[1] == ' ');
                assert(r[k + 1] == ' ');
                lemma_skip_exact(r, k + 1, j2);
            } else {
                lemma_skip_exact(r, k + 1, j2);
            }
            assert(skip_hspace(r, k + 1) == j2);
            let ins2 = if j2 < r.len() && !is_colon_closer(r[j2]) && r[j2] != ':' {
                seq![' ']
            } else {
                Seq::<char>::empty()
            };
            assert(ins2 =~= ins);
            assert forall|p: int| 0 <= p < j2 implies r[p] != '=' by {
                if p > k {
                    assert(r[p] == ' ');
                }
            }
            lemma_rest_again(t, limit, j, None, escaped, r, j2);
            assert(r.skip(k) =~= seq![':'] + ins + r.skip(j2));
        } else if is_hspace(c) {
            let jj = skip_hspace(t, i);
            lemma_skip_hspace_bounds(t, i);
            lemma_skip_hspace_bounds(t, i + 1);
            lemma_skip_stops_at_limit(t, limit, i);
            if jj < t.len() && t[jj] == ':' {
                lemma_rest_again(t, limit, jj, None, escaped, r, k);
            } else {
                lemma_rest_run(t, limit, i, escaped);
                let run = t.subrange(i, jj);
                let rest = colon_rest(t, limit, jj, None, escaped);
                let end = k + run.len();
                lemma_skip_split(r, k, run, rest);
                assert(r.skip(end) =~= rest);
                assert forall|p: int| k <= p < end implies is_hspace(#[trigger] r[p]) by {
                    assert(r[p] == m[p - k]);
                    assert(m[p - k] == run[p - k]);
                }
                if jj < t.len() {
                    lemma_rest_first(t, limit, jj, None, escaped);
                    assert(r[end] == rest[0]);
                } else {
                    assert(rest.len() == 0);
                }
                lemma_skip_exact(r, k, end);
                lemma_skip_next(r, k, c, colon_rest(t, limit, i + 1, None, escaped));
                lemma_skip_next(r, k, c, colon_rest(t, limit, i + 1, None, escaped));
                lemma_rest_again(t, limit, i + 1, None, escaped, r, k + 1);
                assert(r.skip(k) =~= seq![c] + r.skip(k + 1));
            }
        } else {
            assert(m == seq![c] + colon_rest(t, limit, i + 1, None, escaped));
            lemma_skip_next(r, k, c, colon_rest(t, limit, i + 1, None, escaped));
            assert(r[k] == c);
            if c == '/' && k + 1 < r.len() {
                if i + 1 < t.len() {
                    lemma_rest_first(t, limit, i + 1, None, escaped);
                    assert(r[k + 1] == colon_rest(t, limit, i + 1, None, escaped)[0]);
                } else {
                    assert(false);
                }
            }
            lemma_rest_again(t, limit, i + 1, None, escaped, r, k + 1);
            assert(r.skip(k) =~= seq![c] + r.skip(k + 1));
        }
    }
}

/// Normalising the colons of a line twice is normalising them once.
pub proof fn law_colon_normalization_is_idempotent(line: Seq<char>)
    ensures
        colons_normalized(colons_normalized(line)) == colons_normalized(line),
{
    let limit = index_of_from(line, '=', 0);
    lemma_index_of(line, '=', 0);
    lemma_colon_pass_rest(line, limit, 0, Seq::empty(), None, false);
    let r = colons_normalized(line);
    assert(trim_end_hspace(Seq::<char>::empty()) == Seq::<char>::empty());
    assert(r =~= colon_rest(line, limit, 0, None, false));
    let l2 = index_of_from(r, '=', 0);
    lemma_index_of(r, '=', 0);
    lemma_colon_pass_rest(r, l2, 0, Seq::empty(), None, false);
    assert(colons_normalized(r) =~= colon_rest(r, l2, 0, None, false));
    assert(r.skip(0) =~= r);
    lemma_rest_again(line, limit, 0, None, false, r, 0);
}

/// The editor formatter's rewriting of a line changes nothing when done
/// again.
pub proof fn law_spacing_normalization_is_idempotent(line: Seq<char>)
    ensures
        spacing_normalized(spacing_normalized(line)) == spacing_normalized(line),
{
    if declares_types(line) {
        law_colon_normalization_is_idempotent(line);
    }
}


/// Normalising the colons of a line that is not empty leaves it not empty.
pub(crate) proof fn lemma_normalized_nonempty(line: Seq<char>)
    requires
        line.len() > 0,
    ensures
        colons_normalized(line).len() > 0,
{
    let limit = index_of_from(line, '=', 0);
    lemma_index_of(line, '=', 0);
    lemma_colon_pass_rest(line, limit, 0, Seq::empty(), None, false);
    assert(trim_end_hspace(Seq::<char>::empty()) == Seq::<char>::empty());
    lemma_rest_first(line, limit, 0, None, false);
}

} // verus!
