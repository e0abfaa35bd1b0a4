use vstd::prelude::*;

verus! {

/// A space or a tab: the characters that the formatter trims and that it
/// counts as blank.
pub open spec fn is_hspace(c: char) -> bool {
    c == ' ' || c == '\t'
}

/// `s` without its trailing spaces and tabs.
pub open spec fn trim_end_hspace(s: Seq<char>) -> Seq<char>
    decreases s.len(),
{
    if s.len() > 0 && is_hspace(s.last()) {
        trim_end_hspace(s.drop_last())
    } else {
        s
    }
}

/// `s` without its leading spaces and tabs.
pub open spec fn trim_start_hspace(s: Seq<char>) -> Seq<char>
    decreases s.len(),
{
    if s.len() > 0 && is_hspace(s[0]) {
        trim_start_hspace(s.drop_first())
    } else {
        s
    }
}

/// `s` without the spaces and tabs at either end.
pub open spec fn trim_hspace(s: Seq<char>) -> Seq<char> {
    trim_start_hspace(trim_end_hspace(s))
}

/// The index of the first `'\n'` at or after `i`, or `s.len()` if there is none.
pub open spec fn next_newline(s: Seq<char>, i: int) -> int
    decreases s.len() - i,
{
    if i >= s.len() {
        s.len() as int
    } else if s[i] == '\n' {
        i
    } else {
        next_newline(s, i + 1)
    }
}

/// A line without the `'\r'` of a `"\r\n"` line ending.
pub open spec fn strip_cr(line: Seq<char>) -> Seq<char> {
    if line.len() > 0 && line.last() == '\r' {
        line.drop_last()
    } else {
        line
    }
}

/// The lines of `s` from index `start` on, as `str::lines` yields them: split at
/// each `'\n'`, with one `'\r'` before that `'\n'` removed; a final line ending is
/// optional and yields no empty line after it.
pub open spec fn lines_from(s: Seq<char>, start: int) -> Seq<Seq<char>>
    decreases s.len() - start,
{
    if start < 0 || start >= s.len() {
        Seq::empty()
    } else {
        let e = next_newline(s, start);
        proof {
            lemma_next_newline_bounds(s, start);
        }
        if e >= s.len() {
            seq![s.subrange(start, s.len() as int)]
        } else {
            seq![strip_cr(s.subrange(start, e))] + lines_from(s, e + 1)
        }
    }
}

/// The lines of `s`, as `str::lines` yields them.
pub open spec fn split_lines(s: Seq<char>) -> Seq<Seq<char>> {
    lines_from(s, 0)
}

/// `unit` written `n` times in a row.
pub open spec fn repeat_seq(unit: Seq<char>, n: nat) -> Seq<char>
    decreases n,
{
    if n == 0 {
        Seq::empty()
    } else {
        repeat_seq(unit, (n - 1) as nat) + unit
    }
}

/// Each line followed by `'\n'`, all in a row: the lines joined by `'\n'` with one
/// final `'\n'`, or nothing where there are no lines.
pub open spec fn join_terminated(lines: Seq<Seq<char>>) -> Seq<char>
    decreases lines.len(),
{
    if lines.len() == 0 {
        Seq::empty()
    } else {
        join_terminated(lines.drop_last()) + lines.last().push('\n')
    }
}

/// `pat` occurs in `s` starting at index `i`.
pub open spec fn occurs_at(s: Seq<char>, pat: Seq<char>, i: int) -> bool {
    0 <= i && i + pat.len() <= s.len() && s.subrange(i, i + pat.len()) == pat
}

/// `pat` occurs somewhere in `s` (`str::contains`).
pub open spec fn contains_seq(s: Seq<char>, pat: Seq<char>) -> bool {
    exists|i: int| occurs_at(s, pat, i)
}

/// `s` begins with `pat` (`str::starts_with`).
pub open spec fn starts_with_seq(s: Seq<char>, pat: Seq<char>) -> bool {
    occurs_at(s, pat, 0)
}

pub proof fn lemma_next_newline_bounds(s: Seq<char>, i: int)
    requires
        0 <= i,
    ensures
        i <= s.len() ==> i <= next_newline(s, i) <= s.len(),
        next_newline(s, i) < s.len() ==> s[next_newline(s, i)] == '\n',
    decreases s.len() - i,
{
    if i < s.len() && s[i] != '\n' {
        lemma_next_newline_bounds(s, i + 1);
    }
}

/// Skipping characters that are not `'\n'` does not move the next newline.
proof fn lemma_next_newline_skip(s: Seq<char>, start: int, i: int)
    requires
        0 <= start <= i <= s.len(),
        forall|k: int| start <= k < i ==> s[k] != '\n',
    ensures
        next_newline(s, start) == next_newline(s, i),
    decreases i - start,
{
    if start < i {
        lemma_next_newline_skip(s, start + 1, i);
    }
}

/// The characters of `s`, in order.
pub fn chars_of(s: &str) -> (v: Vec<char>)
    ensures
        v@ == s@,
{
    let mut v: Vec<char> = Vec::new();
    for c in it: s.chars()
        invariant
            v@ == it.seq().take(it.index() as int),
    {
        v.push(c);
    }
    v
}

/// Appends `c` to `s` (`String::push`).
#[verifier::external_body]
fn string_push(s: &mut String, c: char)
    ensures
        final(s)@ == old(s)@.push(c),
{
    s.push(c);
}

/// The string made of the characters in `chars`.
pub fn string_from_chars(chars: &Vec<char>) -> (s: String)
    ensures
        s@ == chars@,
{
    let mut s = String::new();
    let mut k: usize = 0;
    while k < chars.len()
        invariant
            k <= chars.len(),
            s@ == chars@.take(k as int),
        decreases chars.len() - k,
    {
        string_push(&mut s, chars[k]);
        k = k + 1;
        assert(s@ =~= chars@.take(k as int));
    }
    assert(chars@.take(chars.len() as int) =~= chars@);
    s
}

/// A copy of `s[from..to]`.
pub fn copy_range(s: &Vec<char>, from: usize, to: usize) -> (r: Vec<char>)
    requires
        from <= to <= s.len(),
    ensures
        r@ == s@.subrange(from as int, to as int),
{
    let mut r: Vec<char> = Vec::new();
    let mut k = from;
    while k < to
        invariant
            from <= k <= to <= s.len(),
            r@ == s@.subrange(from as int, k as int),
        decreases to - k,
    {
        r.push(s[k]);
        k = k + 1;
        assert(r@ =~= s@.subrange(from as int, k as int));
    }
    r
}

/// Appends all of `src` to `dst`.
pub fn push_all(dst: &mut Vec<char>, src: &Vec<char>)
    ensures
        final(dst)@ == old(dst)@ + src@,
{
    let mut k: usize = 0;
    while k < src.len()
        invariant
            k <= src.len(),
            dst@ == old(dst)@ + src@.take(k as int),
        decreases src.len() - k,
    {
        dst.push(src[k]);
        k = k + 1;
        assert(dst@ =~= old(dst)@ + src@.take(k as int));
    }
    assert(src@.take(src.len() as int) =~= src@);
}

/// `s` without the spaces and tabs at either end.
pub fn trim_hspace_chars(s: &Vec<char>) -> (r: Vec<char>)
    ensures
        r@ == trim_hspace(s@),
{
    let mut end = s.len();
    assert(s@.take(s.len() as int) =~= s@);
    while end > 0 && (s[end - 1] == ' ' || s[end - 1] == '\t')
        invariant
            end <= s.len(),
            trim_end_hspace(s@.take(end as int)) == trim_end_hspace(s@),
        decreases end,
    {
        assert(s@.take(end as int).drop_last() =~= s@.take(end - 1));
        end = end - 1;
    }
    assert(s@ =~= s@.take(s.len() as int));
    assert(trim_end_hspace(s@) == s@.take(end as int));
    let mut start: usize = 0;
    while start < end && (s[start] == ' ' || s[start] == '\t')
        invariant
            start <= end <= s.len(),
            trim_start_hspace(s@.subrange(start as int, end as int)) == trim_start_hspace(
                s@.take(end as int),
            ),
        decreases end - start,
    {
        assert(s@.subrange(start as int, end as int).drop_first() =~= s@.subrange(
            start + 1,
            end as int,
        ));
        start = start + 1;
    }
    assert(s@.subrange(0, end as int) =~= s@.take(end as int));
    copy_range(s, start, end)
}

/// The lines of `s`, as `str::lines` yields them.
pub fn split_lines_chars(s: &Vec<char>) -> (lines: Vec<Vec<char>>)
    ensures
        lines.deep_view() == split_lines(s@),
{
    let mut lines: Vec<Vec<char>> = Vec::new();
    let mut start: usize = 0;
    let mut i: usize = 0;
    assert(lines.deep_view() =~= Seq::<Seq<char>>::empty());
    while i < s.len()
        invariant
            start <= i <= s.len(),
            forall|k: int| start <= k < i ==> s@[k] != '\n',
            lines.deep_view() + lines_from(s@, start as int) == split_lines(s@),
        decreases s.len() - i,
    {
        if s[i] == '\n' {
            proof {
                lemma_next_newline_skip(s@, start as int, i as int);
                assert(next_newline(s@, i as int) == i);
            }
            let end = if i > start && s[i - 1] == '\r' {
                i - 1
            } else {
                i
            };
            let line = copy_range(s, start, end);
            assert(line@ == strip_cr(s@.subrange(start as int, i as int)));
            let ghost before = lines.deep_view();
            assert(line.deep_view() =~= line@);
            lines.push(line);
            assert(lines.deep_view() =~= before.push(line@));
            assert(next_newline(s@, start as int) == i);
            assert(lines_from(s@, start as int) == seq![strip_cr(s@.subrange(start as int, i as int))] + lines_from(s@, i + 1));
            assert(lines_from(s@, start as int) == seq![line@] + lines_from(s@, i + 1));
            assert(lines.deep_view() + lines_from(s@, (i + 1) as int) =~= before + lines_from(
                s@,
                start as int,
            ));
            start = i + 1;
        }
        i = i + 1;
    }
    if start < s.len() {
        proof {
            lemma_next_newline_skip(s@, start as int, s.len() as int);
            assert(next_newline(s@, s.len() as int) == s.len());
        }
        let line = copy_range(s, start, s.len());
        let ghost before = lines.deep_view();
        assert(line.deep_view() =~= line@);
        lines.push(line);
        assert(lines.deep_view() =~= before.push(line@));
        assert(lines.deep_view() =~= before + lines_from(s@, start as int));
    } else {
        assert(lines.deep_view() =~= lines.deep_view() + lines_from(s@, start as int));
    }
    lines
}

/// `pat` occurs in `s` at index `i`.
pub fn occurs_at_chars(s: &Vec<char>, pat: &Vec<char>, i: usize) -> (r: bool)
    ensures
        r == occurs_at(s@, pat@, i as int),
{
    if i > s.len() || pat.len() > s.len() - i {
        return false;
    }
    let mut j: usize = 0;
    while j < pat.len()
        invariant
            i + pat.len() <= s.len(),
            j <= pat.len(),
            forall|k: int| 0 <= k < j ==> s@[i + k] == pat@[k],
        decreases pat.len() - j,
    {
        if s[i + j] != pat[j] {
            assert(s@.subrange(i as int, i + pat.len())[j as int] != pat@[j as int]);
            return false;
        }
        j = j + 1;
    }
    assert(s@.subrange(i as int, i + pat.len()) =~= pat@);
    true
}

/// `pat` occurs somewhere in `s`.
pub fn contains_chars(s: &Vec<char>, pat: &Vec<char>) -> (r: bool)
    ensures
        r == contains_seq(s@, pat@),
{
    let mut i: usize = 0;
    while i < s.len()
        invariant
            i <= s.len(),
            forall|k: int| 0 <= k < i ==> !occurs_at(s@, pat@, k),
        decreases s.len() - i,
    {
        if occurs_at_chars(s, pat, i) {
            return true;
        }
        i = i + 1;
    }
    if occurs_at_chars(s, pat, s.len()) {
        return true;
    }
    assert forall|k: int| !occurs_at(s@, pat@, k) by {
        if 0 <= k < i {
        }
    }
    false
}

} // verus!
