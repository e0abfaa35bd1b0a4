use vstd::prelude::*;

use crate::text::{chars_of, copy_range, occurs_at_chars, starts_with_seq};

verus! {

// ---------------------------------------------------------------------------
// Reading headers
// ---------------------------------------------------------------------------

/// White space as Unicode's `White_Space` property has it (`char::is_whitespace`).
pub open spec fn is_unicode_space(c: char) -> bool {
    let n = c as u32;
    ||| 0x9 <= n <= 0xD
    ||| n == 0x20
    ||| n == 0x85
    ||| n == 0xA0
    ||| n == 0x1680
    ||| 0x2000 <= n <= 0x200A
    ||| n == 0x2028
    ||| n == 0x2029
    ||| n == 0x202F
    ||| n == 0x205F
    ||| n == 0x3000
}

/// `s` without white space at its end.
pub open spec fn trim_end_space(s: Seq<char>) -> Seq<char>
    decreases s.len(),
{
    if s.len() > 0 && is_unicode_space(s.last()) {
        trim_end_space(s.drop_last())
    } else {
        s
    }
}

/// `s` without white space at its start.
pub open spec fn trim_start_space(s: Seq<char>) -> Seq<char>
    decreases s.len(),
{
    if s.len() > 0 && is_unicode_space(s[0]) {
        trim_start_space(s.drop_first())
    } else {
        s
    }
}

/// `s` without white space at either end (`str::trim`).
pub open spec fn trim_space(s: Seq<char>) -> Seq<char> {
    trim_start_space(trim_end_space(s))
}

/// `s` without the carriage returns and line feeds at its end.
pub open spec fn trim_line_end(s: Seq<char>) -> Seq<char>
    decreases s.len(),
{
    if s.len() > 0 && (s.last() == '\r' || s.last() == '\n') {
        trim_line_end(s.drop_last())
    } else {
        s
    }
}

pub open spec fn is_digit(c: char) -> bool {
    '0' <= c && c <= '9'
}

/// The value of a string of decimal digits.
pub open spec fn decimal_value(digits: Seq<char>) -> nat
    decreases digits.len(),
{
    if digits.len() == 0 {
        0
    } else {
        decimal_value(digits.drop_last()) * 10 + (digits.last() as u32 - '0' as u32) as nat
    }
}

/// `s` without the `+` it may begin with.
pub open spec fn unsigned_digits(s: Seq<char>) -> Seq<char> {
    if s.len() > 0 && s[0] == '+' {
        s.drop_first()
    } else {
        s
    }
}

/// `s` read as a `usize` the way `str::parse` does: an optional `+`, then one or
/// more decimal digits and nothing else, of a value that fits.
pub open spec fn parse_usize(s: Seq<char>) -> Option<usize> {
    let digits = unsigned_digits(s);
    if digits.len() > 0 && (forall|k: int| 0 <= k < digits.len() ==> is_digit(#[trigger] digits[k]))
        && decimal_value(digits) <= usize::MAX {
        Some(decimal_value(digits) as usize)
    } else {
        None
    }
}

/// What one header line tells the reader of a message.
#[derive(PartialEq, Eq, Structural)]
pub enum HeaderStep {
    /// The blank line that ends the headers.
    EndOfHeaders,
    /// Another header; the content length known after it.
    Continue(Option<usize>),
}

/// What the header line `line` (with its line ending, if any) does, where
/// `content_length` is what the headers before it gave: a line that is empty
/// once its line ending is removed ends the headers; a `Content-Length:` header
/// gives the length that its value parses to, after white space is trimmed
/// (or none where it does not parse); any other header changes nothing.
pub open spec fn header_step(content_length: Option<usize>, line: Seq<char>) -> HeaderStep {
    let trimmed = trim_line_end(line);
    if trimmed.len() == 0 {
        HeaderStep::EndOfHeaders
    } else if starts_with_seq(trimmed, "Content-Length:"@) {
        HeaderStep::Continue(parse_usize(trim_space(trimmed.skip("Content-Length:"@.len() as int))))
    } else {
        HeaderStep::Continue(content_length)
    }
}

fn is_space_char(c: char) -> (r: bool)
    ensures
        r == is_unicode_space(c),
{
    let n = c as u32;
    (0x9 <= n && n <= 0xD) || n == 0x20 || n == 0x85 || n == 0xA0 || n == 0x1680 || (0x2000 <= n
        && n <= 0x200A) || n == 0x2028 || n == 0x2029 || n == 0x202F || n == 0x205F || n == 0x3000
}

/// `s[from..to]` without white space at either end.
fn trim_space_range(s: &Vec<char>, from: usize, to: usize) -> (r: Vec<char>)
    requires
        from <= to <= s.len(),
    ensures
        r@ == trim_space(s@.subrange(from as int, to as int)),
{
    let ghost whole = s@.subrange(from as int, to as int);
    let mut end = to;
    assert(s@.subrange(from as int, end as int) =~= whole);
    while end > from && is_space_char(s[end - 1])
        invariant
            from <= end <= to <= s.len(),
            whole == s@.subrange(from as int, to as int),
            trim_end_space(s@.subrange(from as int, end as int)) == trim_end_space(whole),
        decreases end,
    {
        assert(s@.subrange(from as int, end as int).drop_last() =~= s@.subrange(
            from as int,
            end - 1,
        ));
        end = end - 1;
    }
    let mut start = from;
    while start < end && is_space_char(s[start])
        invariant
            from <= start <= end <= to <= s.len(),
            trim_start_space(s@.subrange(start as int, end as int)) == trim_start_space(
                s@.subrange(from as int, end as int),
            ),
        decreases end - start,
    {
        assert(s@.subrange(start as int, end as int).drop_first() =~= s@.subrange(
            start + 1,
            end as int,
        ));
        start = start + 1;
    }
    copy_range(s, start, end)
}

proof fn lemma_decimal_value_grows(digits: Seq<char>, i: int)
    requires
        0 <= i <= digits.len(),
        forall|k: int| 0 <= k < digits.len() ==> is_digit(#[trigger] digits[k]),
    ensures
        decimal_value(digits.take(i)) <= decimal_value(digits),
    decreases digits.len() - i,
{
    if i < digits.len() {
        lemma_decimal_value_grows(digits, i + 1);
        assert(digits.take(i + 1).drop_last() =~= digits.take(i));
    } else {
        assert(digits.take(i) =~= digits);
    }
}

/// `s` read as a `usize` the way `str::parse` does.
fn parse_usize_chars(s: &Vec<char>) -> (r: Option<usize>)
    ensures
        r == parse_usize(s@),
{
    let start: usize = if s.len() > 0 && s[0] == '+' {
        1
    } else {
        0
    };
    let ghost digits = s@.skip(start as int);
    assert(digits =~= unsigned_digits(s@));
    if start >= s.len() {
        return None;
    }
    let mut i = start;
    while i < s.len()
        invariant
            start <= i <= s.len(),
            digits == s@.skip(start as int),
            digits == unsigned_digits(s@),
            forall|k: int| 0 <= k < i - start ==> is_digit(#[trigger] digits[k]),
        decreases s.len() - i,
    {
        if !('0' <= s[i] && s[i] <= '9') {
            assert(!is_digit(digits[i - start]));
            return None;
        }
        i = i + 1;
    }
    let mut value: usize = 0;
    let mut i = start;
    assert(digits.take(0) =~= Seq::<char>::empty());
    while i < s.len()
        invariant
            start <= i <= s.len(),
            digits == s@.skip(start as int),
            digits == unsigned_digits(s@),
            forall|k: int| 0 <= k < digits.len() ==> is_digit(#[trigger] digits[k]),
            value == decimal_value(digits.take(i - start)),
        decreases s.len() - i,
    {
        assert(digits[i - start] == s@[i as int]);
        assert(is_digit(digits[i - start]));
        let d = (s[i] as u32 - '0' as u32) as usize;
        assert(digits.take(i - start + 1).drop_last() =~= digits.take(i - start));
        if value > (usize::MAX - d) / 10 {
            proof {
                assert(value * 10 + d > usize::MAX) by (nonlinear_arith)
                    requires
                        value > (usize::MAX - d) / 10,
                        d <= 9,
                ;
                lemma_decimal_value_grows(digits, i - start + 1);
                assert(decimal_value(digits.take(i - start + 1)) == value * 10 + d);
                assert(decimal_value(digits) > usize::MAX);
            }
            return None;
        }
        assert(value * 10 + d <= usize::MAX) by (nonlinear_arith)
            requires
                value <= (usize::MAX - d) / 10,
                d <= 9,
        ;
        value = value * 10 + d;
        i = i + 1;
    }
    assert(digits.take(s.len() - start) =~= digits);
    Some(value)
}

/// What the header line `line` does, where the headers before it gave
/// `content_length`.
pub fn header_line(content_length: Option<usize>, line: &str) -> (r: HeaderStep)
    ensures
        r == header_step(content_length, line@),
{
    let chars = chars_of(line);
    let mut end = chars.len();
    assert(chars@.take(end as int) =~= chars@);
    while end > 0 && (chars[end - 1] == '\r' || chars[end - 1] == '\n')
        invariant
            end <= chars.len(),
            trim_line_end(chars@.take(end as int)) == trim_line_end(chars@),
        decreases end,
    {
        assert(chars@.take(end as int).drop_last() =~= chars@.take(end - 1));
        end = end - 1;
    }
    let ghost trimmed = chars@.take(end as int);
    assert(trim_line_end(chars@) == trimmed);
    if end == 0 {
        return HeaderStep::EndOfHeaders;
    }
    let trimmed_chars = copy_range(&chars, 0, end);
    assert(trimmed_chars@ =~= trimmed);
    let prefix = chars_of("Content-Length:");
    if occurs_at_chars(&trimmed_chars, &prefix, 0) {
        let value = trim_space_range(&trimmed_chars, prefix.len(), end);
        assert(trimmed_chars@.subrange(prefix.len() as int, end as int) =~= trimmed.skip(
            prefix.len() as int,
        ));
        HeaderStep::Continue(parse_usize_chars(&value))
    } else {
        HeaderStep::Continue(content_length)
    }
}

// ---------------------------------------------------------------------------
// Writing messages
// ---------------------------------------------------------------------------

/// The decimal digits of `n`, as ASCII bytes.
pub open spec fn decimal_bytes(n: nat) -> Seq<u8>
    decreases n,
{
    if n < 10 {
        seq![(48 + n) as u8]
    } else {
        decimal_bytes(n / 10) + seq![(48 + n % 10) as u8]
    }
}

/// `"Content-Length: "` as ASCII bytes.
pub open spec fn length_header_bytes() -> Seq<u8> {
    seq![
        67u8, 111u8, 110u8, 116u8, 101u8, 110u8, 116u8, 45u8, 76u8, 101u8, 110u8, 103u8, 116u8, 104u8, 58u8, 32u8,
    ]
}

/// A message as it goes on the wire: a `Content-Length` header with the
/// length of the body in bytes, a blank line, then the body.
pub open spec fn framed(body: Seq<u8>) -> Seq<u8> {
    length_header_bytes() + decimal_bytes(body.len()) + seq![13u8, 10u8, 13u8, 10u8] + body
}

fn push_decimal(out: &mut Vec<u8>, n: usize)
    ensures
        final(out)@ == old(out)@ + decimal_bytes(n as nat),
    decreases n,
{
    if n >= 10 {
        push_decimal(out, n / 10);
    }
    out.push((48 + n % 10) as u8);
}

/// The bytes that carry `body` as one protocol message.
pub fn frame_message(body: &Vec<u8>) -> (r: Vec<u8>)
    ensures
        r@ == framed(body@),
{
    let mut out = vec![
        67u8, 111u8, 110u8, 116u8, 101u8, 110u8, 116u8, 45u8, 76u8, 101u8, 110u8, 103u8, 116u8, 104u8, 58u8, 32u8,
    ];
    assert(out@ =~= length_header_bytes());
    push_decimal(&mut out, body.len());
    out.push(13u8);
    out.push(10u8);
    out.push(13u8);
    out.push(10u8);
    let mut k: usize = 0;
    let ghost head = out@;
    while k < body.len()
        invariant
            k <= body.len(),
            out@ == head + body@.take(k as int),
        decreases body.len() - k,
    {
        out.push(body[k]);
        k = k + 1;
        assert(out@ =~= head + body@.take(k as int));
    }
    assert(body@.take(body.len() as int) =~= body@);
    assert(out@ =~= framed(body@));
    out
}

} // verus!
verus! {

// ---------------------------------------------------------------------------
// Reading back what was written
// ---------------------------------------------------------------------------

/// ASCII bytes as the characters they encode.
pub open spec fn ascii_chars(bytes: Seq<u8>) -> Seq<char> {
    bytes.map_values(|b: u8| b as char)
}

proof fn lemma_decimal_digits(n: nat)
    ensures
        ascii_chars(decimal_bytes(n)).len() > 0,
        ascii_chars(decimal_bytes(n))[0] != '+',
        forall|k: int|
            0 <= k < ascii_chars(decimal_bytes(n)).len() ==> is_digit(
                #[trigger] ascii_chars(decimal_bytes(n))[k],
            ),
        decimal_value(ascii_chars(decimal_bytes(n))) == n,
    decreases n,
{
    let d = ascii_chars(decimal_bytes(n));
    if n < 10 {
        assert(d =~= seq![((48 + n) as u8) as char]);
        assert(d.drop_last() =~= Seq::<char>::empty());
        assert(((48 + n) as u8) as char as u32 - '0' as u32 == n);
        assert(d.last() == ((48 + n) as u8) as char);
        assert(decimal_value(d.drop_last()) == 0);
        assert(decimal_value(d) == n);
    } else {
        lemma_decimal_digits(n / 10);
        let head = ascii_chars(decimal_bytes(n / 10));
        let last = ((48 + n % 10) as u8) as char;
        assert(d =~= head.push(last));
        assert(d.drop_last() =~= head);
        assert(d[0] == head[0]);
        assert forall|k: int| 0 <= k < d.len() implies is_digit(#[trigger] d[k]) by {
            if k < head.len() {
                assert(d[k] == head[k]);
            }
        }
        assert(((48 + n % 10) as u8) as char as u32 - '0' as u32 == n % 10);
        assert(d.last() == last);
        assert(decimal_value(d) == decimal_value(head) * 10 + n % 10);
        assert(n / 10 * 10 + n % 10 == n) by (nonlinear_arith);
    }
}

/// Removing the line ending of a line that ends in one character other than
/// a carriage return or line feed, then `"\r\n"`.
proof fn lemma_trim_crlf(s: Seq<char>)
    requires
        s.len() > 0,
        s.last() != '\r' && s.last() != '\n',
    ensures
        trim_line_end(s + seq!['\r', '\n']) == s,
{
    reveal_with_fuel(trim_line_end, 3);
    let t = s + seq!['\r', '\n'];
    assert(t.drop_last() =~= s.push('\r'));
    assert(s.push('\r').drop_last() =~= s);
}

/// The header that `frame_message` writes for a body of `n` bytes, read back
/// as a line (its bytes as characters, with its `"\r\n"`), gives the length
/// `n`, whatever length was known before it; the blank line after it ends the
/// headers; and the `n` bytes after that blank line are the body, whole.
pub proof fn law_length_header_reads_back(n: usize, known: Option<usize>)
    ensures
        header_step(
            known,
            ascii_chars(length_header_bytes() + decimal_bytes(n as nat) + seq![13u8, 10u8]),
        ) == HeaderStep::Continue(Some(n)),
        header_step(known, ascii_chars(seq![13u8, 10u8])) == HeaderStep::EndOfHeaders,
        forall|body: Seq<u8>|
            body.len() == n ==> #[trigger] framed(body) == length_header_bytes() + decimal_bytes(
                n as nat,
            ) + seq![13u8, 10u8] + seq![13u8, 10u8] + body,
        forall|body: Seq<u8>|
            body.len() == n ==> #[trigger] framed(body).skip(
                (length_header_bytes() + decimal_bytes(n as nat)).len() + 4int,
            ) == body,
{
    assert forall|body: Seq<u8>| body.len() == n implies #[trigger] framed(body).skip(
        (length_header_bytes() + decimal_bytes(n as nat)).len() + 4int,
    ) == body by {
        let head = length_header_bytes() + decimal_bytes(n as nat) + seq![13u8, 10u8, 13u8, 10u8];
        assert(framed(body) =~= head + body);
        assert((head + body).skip(head.len() as int) =~= body);
    }
    reveal_strlit("Content-Length:");
    let prefix = "Content-Length:"@;
    assert(prefix.len() == 15);
    let digits = ascii_chars(decimal_bytes(n as nat));
    lemma_decimal_digits(n as nat);
    let head = ascii_chars(length_header_bytes());
    assert(head =~= prefix.push(' '));
    let line = ascii_chars(length_header_bytes() + decimal_bytes(n as nat) + seq![13u8, 10u8]);
    let text = head + digits;
    assert(line =~= text + seq!['\r', '\n']);
    assert(text.last() == digits.last());
    assert(is_digit(digits[digits.len() - 1]));
    lemma_trim_crlf(text);
    assert(text.subrange(0, 15) =~= prefix);
    let value = text.skip(15);
    assert(value =~= seq![' '] + digits);
    assert(is_digit(digits[0]));
    assert(trim_end_space(value) == value);
    assert(value.drop_first() =~= digits);
    assert(trim_start_space(digits) == digits);
    assert(trim_space(value) == digits);
    assert(unsigned_digits(digits) == digits);
    assert(parse_usize(digits) == Some(n));
    lemma_blank_line_ends_headers(known);
}

proof fn lemma_blank_line_ends_headers(known: Option<usize>)
    ensures
        header_step(known, ascii_chars(seq![13u8, 10u8])) == HeaderStep::EndOfHeaders,
{
    reveal_with_fuel(trim_line_end, 3);
    let blank = ascii_chars(seq![13u8, 10u8]);
    assert(blank =~= seq!['\r', '\n']);
    assert(blank.drop_last() =~= seq!['\r']);
    assert(seq!['\r'].drop_last() =~= Seq::<char>::empty());
}

} // verus!
