//! The proxy's handling of HTTP message heads, on raw bytes: where a head
//! ends, its lines, header lookup by case-insensitive name, the body length
//! that `Content-Length` announces, framing of a message read so far, and
//! extending the `x-forwarded-for` header with the client's address.
use vstd::prelude::*;
use crate::load_balancer::RequestError;

verus! {

/// Carriage return.
pub const CR: u8 = 13;

/// Line feed.
pub const LF: u8 = 10;

/// The largest head the proxy reads before giving up on a message.
pub const MAX_HEAD_SIZE: usize = 8000;

/// The largest body the proxy forwards.
pub const MAX_BODY_SIZE: usize = 10_000_000;

/// The head of `s` ends just before position `i`: the four bytes before `i`
/// are `\r\n\r\n`.
pub open spec fn ends_head_at(s: Seq<u8>, i: int) -> bool {
    4 <= i <= s.len() && s[i - 4] == CR && s[i - 3] == LF && s[i - 2] == CR && s[i - 1] == LF
}

/// Where the head of `buf` ends: just after its first `\r\n\r\n`.
pub fn find_head_end(buf: &Vec<u8>) -> (r: Option<usize>)
    ensures
        match r {
            Some(i) => ends_head_at(buf@, i as int) && forall|j: int|
                0 <= j < i ==> !ends_head_at(buf@, j),
            None => forall|j: int| 0 <= j <= buf@.len() ==> !ends_head_at(buf@, j),
        },
{
    if buf.len() < 4 {
        return None;
    }
    let n = buf.len();
    let mut k: usize = 0;
    while k < n - 3
        invariant
            4 <= n == buf@.len(),
            k <= n - 3,
            forall|j: int| 0 <= j < k + 4 ==> !ends_head_at(buf@, j),
        decreases n - k,
    {
        if buf[k] == CR && buf[k + 1] == LF && buf[k + 2] == CR && buf[k + 3] == LF {
            return Some(k + 4);
        }
        k = k + 1;
    }
    None
}

/// The pieces of `s` between line feeds: one more piece than line feeds.
pub open spec fn split_lf(s: Seq<u8>) -> Seq<Seq<u8>>
    decreases s.len(),
{
    if s.len() == 0 {
        seq![Seq::empty()]
    } else {
        let p = split_lf(s.drop_last());
        if s.last() == LF {
            p.push(Seq::empty())
        } else {
            p.update(p.len() - 1, p[p.len() - 1].push(s.last()))
        }
    }
}

/// A line without the carriage return that ends it, if any.
pub open spec fn strip_cr(line: Seq<u8>) -> Seq<u8> {
    if line.len() > 0 && line.last() == CR {
        line.drop_last()
    } else {
        line
    }
}

/// The lines of a head, given without its closing blank line: split at line
/// feeds, each without its carriage return.
pub open spec fn head_lines(head: Seq<u8>) -> Seq<Seq<u8>> {
    split_lf(head).map_values(|l: Seq<u8>| strip_cr(l))
}

proof fn lemma_split_lf_nonempty(s: Seq<u8>)
    ensures
        split_lf(s).len() >= 1,
    decreases s.len(),
{
    if s.len() > 0 {
        lemma_split_lf_nonempty(s.drop_last());
    }
}

/// Reading on never changes a piece that a line feed has closed.
proof fn lemma_split_lf_prefix(s: Seq<u8>, i: int, j: int)
    requires
        0 <= i <= s.len(),
        0 <= j < split_lf(s.take(i)).len() - 1,
    ensures
        j < split_lf(s).len() - 1,
        split_lf(s)[j] == split_lf(s.take(i))[j],
    decreases s.len() - i,
{
    if i < s.len() {
        let t = s.take(i + 1);
        assert(t.drop_last() =~= s.take(i));
        lemma_split_lf_nonempty(s.take(i));
        lemma_split_lf_prefix(s, i + 1, j);
    } else {
        assert(s.take(i) =~= s);
    }
}

/// The bytes `buf[start..end]`.
fn copy_range(buf: &Vec<u8>, start: usize, end: usize) -> (r: Vec<u8>)
    requires
        start <= end <= buf@.len(),
    ensures
        r@ == buf@.subrange(start as int, end as int),
{
    let mut out: Vec<u8> = Vec::new();
    let mut i = start;
    while i < end
        invariant
            start <= i <= end <= buf@.len(),
            out@ == buf@.subrange(start as int, i as int),
        decreases end - i,
    {
        out.push(buf[i]);
        i = i + 1;
        assert(out@ =~= buf@.subrange(start as int, i as int));
    }
    out
}

/// `line` without a final carriage return.
fn without_cr(line: Vec<u8>) -> (r: Vec<u8>)
    ensures
        r@ == strip_cr(line@),
{
    let mut line = line;
    if line.len() > 0 && line[line.len() - 1] == CR {
        line.pop();
    }
    line
}

/// The lines of `buf[..end]`, split at line feeds, each without its
/// carriage return.
pub fn lines_of(buf: &Vec<u8>, end: usize) -> (r: Vec<Vec<u8>>)
    requires
        end <= buf@.len(),
    ensures
        r@.len() == head_lines(buf@.take(end as int)).len(),
        forall|k: int| 0 <= k < r@.len() ==> (#[trigger] r@[k])@ == head_lines(buf@.take(end as int))[k],
{
    let ghost text = buf@.take(end as int);
    let mut out: Vec<Vec<u8>> = Vec::new();
    let mut start: usize = 0;
    let mut i: usize = 0;
    proof {
        assert(text.take(0) =~= Seq::<u8>::empty());
    }
    while i < end
        invariant
            start <= i <= end <= buf@.len(),
            text == buf@.take(end as int),
            split_lf(text.take(i as int)).len() == out@.len() + 1,
            forall|k: int| 0 <= k < out@.len() ==> (#[trigger] out@[k])@ == strip_cr(split_lf(text)[k]),
            split_lf(text.take(i as int))[out@.len() as int] == buf@.subrange(start as int, i as int),
        decreases end - i,
    {
        let ghost p = split_lf(text.take(i as int));
        assert(text.take(i + 1).drop_last() =~= text.take(i as int));
        assert(text.take(i + 1).last() == buf@[i as int]);
        if buf[i] == LF {
            let piece = copy_range(buf, start, i);
            proof {
                assert(split_lf(text.take(i + 1)) == p.push(Seq::empty()));
                lemma_split_lf_prefix(text, i + 1, out@.len() as int);
            }
            let ghost before = out@;
            out.push(without_cr(piece));
            proof {
                assert forall|k: int| 0 <= k < out@.len() implies (#[trigger] out@[k])@ == strip_cr(
                    split_lf(text)[k],
                ) by {
                    if k < before.len() {
                        assert(out@[k] == before[k]);
                    }
                }
            }
            start = i + 1;
            i = i + 1;
            assert(buf@.subrange(start as int, i as int) =~= Seq::<u8>::empty());
        } else {
            i = i + 1;
            assert(buf@.subrange(start as int, i as int) =~= buf@.subrange(start as int, i - 1).push(
                buf@[i - 1],
            ));
        }
    }
    proof {
        assert(text.take(end as int) =~= text);
    }
    let piece = copy_range(buf, start, end);
    let ghost before = out@;
    out.push(without_cr(piece));
    proof {
        assert forall|k: int| 0 <= k < out@.len() implies (#[trigger] out@[k])@ == head_lines(
            text,
        )[k] by {
            if k < before.len() {
                assert(out@[k] == before[k]);
            }
        }
    }
    out
}

/// A byte in lower case, for ASCII letters.
pub open spec fn ascii_lower(b: u8) -> u8 {
    if 65 <= b && b <= 90 {
        (b + 32) as u8
    } else {
        b
    }
}

/// `line` is a header called `name` (given in lower case): the name,
/// in any case, then a colon.
pub open spec fn is_header(line: Seq<u8>, name: Seq<u8>) -> bool {
    &&& line.len() > name.len()
    &&& line[name.len() as int] == 58
    &&& forall|i: int| 0 <= i < name.len() ==> ascii_lower(#[trigger] line[i]) == name[i]
}

/// Optional white space: a space or a tab.
pub open spec fn is_ows(b: u8) -> bool {
    b == 32 || b == 9
}

/// `s` without leading optional white space.
pub open spec fn trim_ows_start(s: Seq<u8>) -> Seq<u8>
    decreases s.len(),
{
    if s.len() > 0 && is_ows(s[0]) {
        trim_ows_start(s.drop_first())
    } else {
        s
    }
}

/// `s` without trailing optional white space.
pub open spec fn trim_ows_end(s: Seq<u8>) -> Seq<u8>
    decreases s.len(),
{
    if s.len() > 0 && is_ows(s.last()) {
        trim_ows_end(s.drop_last())
    } else {
        s
    }
}

/// The value of a header line: what follows the colon, without optional
/// white space at either end.
pub open spec fn header_value(line: Seq<u8>, name: Seq<u8>) -> Seq<u8> {
    trim_ows_end(trim_ows_start(line.skip((name.len() + 1) as int)))
}

/// The value of the first of `lines` that is a header called `name`.
pub open spec fn find_header(lines: Seq<Seq<u8>>, name: Seq<u8>) -> Option<Seq<u8>>
    decreases lines.len(),
{
    if lines.len() == 0 {
        None
    } else if is_header(lines[0], name) {
        Some(header_value(lines[0], name))
    } else {
        find_header(lines.drop_first(), name)
    }
}

/// Whether `line` is a header called `name` (lower case).
pub fn is_header_line(line: &Vec<u8>, name: &Vec<u8>) -> (r: bool)
    ensures
        r == is_header(line@, name@),
{
    if line.len() <= name.len() || line[name.len()] != 58 {
        return false;
    }
    let mut i: usize = 0;
    while i < name.len()
        invariant
            i <= name@.len() < line@.len(),
            forall|j: int| 0 <= j < i ==> ascii_lower(#[trigger] line@[j]) == name@[j],
        decreases name@.len() - i,
    {
        let b = line[i];
        let lower: u8 = if 65 <= b && b <= 90 {
            b + 32
        } else {
            b
        };
        if lower != name[i] {
            assert(ascii_lower(line@[i as int]) != name@[i as int]);
            return false;
        }
        i = i + 1;
    }
    true
}

/// The value of the header line `line` called by a name `name_len` long.
fn value_of(line: &Vec<u8>, name: &Vec<u8>) -> (r: Vec<u8>)
    requires
        is_header(line@, name@),
    ensures
        r@ == header_value(line@, name@),
{
    let n = line.len();
    let mut a: usize = name.len() + 1;
    let ghost rest = line@.skip((name@.len() + 1) as int);
    assert(line@.skip(a as int) == rest);
    while a < n && (line[a] == 32 || line[a] == 9)
        invariant
            name@.len() + 1 <= a <= n,
            n == line@.len(),
            trim_ows_start(rest) == trim_ows_start(line@.skip(a as int)),
            rest == line@.skip((name@.len() + 1) as int),
        decreases n - a,
    {
        assert(line@.skip(a as int).drop_first() =~= line@.skip(a + 1));
        a = a + 1;
    }
    assert(trim_ows_start(rest) == line@.subrange(a as int, n as int)) by {
        assert(line@.skip(a as int) =~= line@.subrange(a as int, n as int));
    }
    let mut b: usize = n;
    while b > a && (line[b - 1] == 32 || line[b - 1] == 9)
        invariant
            a <= b <= n,
            n == line@.len(),
            header_value(line@, name@) == trim_ows_end(line@.subrange(a as int, b as int)),
        decreases b,
    {
        assert(line@.subrange(a as int, b as int).drop_last() =~= line@.subrange(a as int, b - 1));
        b = b - 1;
    }
    copy_range(line, a, b)
}

/// The value of the first header called `name` after the first line of
/// `lines` (the request or status line).
pub fn find_header_value(lines: &Vec<Vec<u8>>, name: &Vec<u8>) -> (r: Option<Vec<u8>>)
    requires
        lines@.len() >= 1,
    ensures
        match find_header(lines@.map_values(|l: Vec<u8>| l@).drop_first(), name@) {
            Some(v) => r matches Some(x) && x@ == v,
            None => r is None,
        },
{
    let ghost views = lines@.map_values(|l: Vec<u8>| l@);
    let mut k: usize = 1;
    assert(views.drop_first().skip(0) =~= views.drop_first());
    while k < lines.len()
        invariant
            1 <= k <= lines@.len(),
            views == lines@.map_values(|l: Vec<u8>| l@),
            find_header(views.drop_first(), name@) == find_header(
                views.drop_first().skip(k - 1),
                name@,
            ),
        decreases lines@.len() - k,
    {
        let ghost tail = views.drop_first().skip(k - 1);
        assert(tail[0] == lines@[k as int]@);
        assert(tail.drop_first() =~= views.drop_first().skip(k as int));
        if is_header_line(&lines[k], name) {
            return Some(value_of(&lines[k], name));
        }
        k = k + 1;
    }
    assert(views.drop_first().skip(k - 1).len() == 0);
    None
}

/// The number that the decimal digits `s` denote.
pub open spec fn decimal_value(s: Seq<u8>) -> nat
    decreases s.len(),
{
    if s.len() == 0 {
        0
    } else {
        decimal_value(s.drop_last()) * 10 + (s.last() - 48) as nat
    }
}

/// `s` is a non-empty run of decimal digits whose value fits in `usize`.
pub open spec fn parse_decimal(s: Seq<u8>) -> Option<usize> {
    if s.len() > 0 && (forall|i: int| 0 <= i < s.len() ==> 48 <= #[trigger] s[i] <= 57)
        && decimal_value(s) <= usize::MAX {
        Some(decimal_value(s) as usize)
    } else {
        None
    }
}

proof fn lemma_decimal_value_prefix(s: Seq<u8>, k: int)
    requires
        0 <= k <= s.len(),
        forall|i: int| 0 <= i < s.len() ==> 48 <= #[trigger] s[i] <= 57,
    ensures
        decimal_value(s.take(k)) <= decimal_value(s),
    decreases s.len(),
{
    if k < s.len() {
        let p = s.drop_last();
        assert(p.take(k) =~= s.take(k));
        assert forall|i: int| 0 <= i < p.len() implies 48 <= #[trigger] p[i] <= 57 by {
            assert(p[i] == s[i]);
        }
        lemma_decimal_value_prefix(p, k);
    } else {
        assert(s.take(k) =~= s);
    }
}

/// Every non-empty run of decimal digits whose value fits in `usize` is
/// read, whatever digit it begins with (`0` included).
pub proof fn law_every_digit_run_is_read(s: Seq<u8>)
    requires
        s.len() > 0,
        forall|i: int| 0 <= i < s.len() ==> 48 <= #[trigger] s[i] <= 57,
        decimal_value(s) <= usize::MAX,
    ensures
        parse_decimal(s) == Some(decimal_value(s) as usize),
{
}

/// A single digit reads as its own value: `0` is zero.
pub proof fn law_single_digit(d: u8)
    requires
        48 <= d <= 57,
    ensures
        parse_decimal(seq![d]) == Some((d - 48) as usize),
{
    let s = seq![d];
    assert(s.drop_last() =~= Seq::<u8>::empty());
    assert(decimal_value(s.drop_last()) == 0);
    assert(decimal_value(s) == (d - 48) as nat);
}

/// Appending a digit to a number that was read multiplies it by ten and
/// adds the digit, while the result fits in `usize`.
pub proof fn law_digit_appended(s: Seq<u8>, d: u8, v: usize)
    requires
        parse_decimal(s) == Some(v),
        48 <= d <= 57,
        10 * v + (d - 48) <= usize::MAX,
    ensures
        parse_decimal(s.push(d)) == Some((10 * v + (d - 48)) as usize),
{
    let t = s.push(d);
    assert(t.drop_last() =~= s);
    assert forall|i: int| 0 <= i < t.len() implies 48 <= #[trigger] t[i] <= 57 by {
        if i < s.len() {
            assert(t[i] == s[i]);
        }
    }
}

proof fn lemma_leading_zero_value(s: Seq<u8>)
    ensures
        decimal_value(seq![48u8] + s) == decimal_value(s),
    decreases s.len(),
{
    let t = seq![48u8] + s;
    if s.len() == 0 {
        assert(t.drop_last() =~= Seq::<u8>::empty());
        assert(decimal_value(t.drop_last()) == 0);
        assert(t.last() == 48);
    } else {
        assert(t.drop_last() =~= seq![48u8] + s.drop_last());
        assert(t.last() == s.last());
        lemma_leading_zero_value(s.drop_last());
    }
}

/// A leading zero changes nothing: `007` reads as `7`, and `00` as `0`.
pub proof fn law_leading_zero_changes_nothing(s: Seq<u8>)
    requires
        s.len() > 0,
    ensures
        parse_decimal(seq![48u8] + s) == parse_decimal(s),
{
    let t = seq![48u8] + s;
    lemma_leading_zero_value(s);
    if forall|i: int| 0 <= i < s.len() ==> 48 <= #[trigger] s[i] <= 57 {
        assert forall|i: int| 0 <= i < t.len() implies 48 <= #[trigger] t[i] <= 57 by {
            if i > 0 {
                assert(t[i] == s[i - 1]);
            }
        }
    } else {
        let i = choose|i: int| 0 <= i < s.len() && !(48 <= #[trigger] s[i] <= 57);
        assert(t[i + 1] == s[i]);
    }
}

/// Reads a run of decimal digits as a number.
pub fn decimal(s: &Vec<u8>) -> (r: Option<usize>)
    ensures
        r == parse_decimal(s@),
{
    if s.len() == 0 {
        return None;
    }
    let mut acc: u128 = 0;
    let mut i: usize = 0;
    while i < s.len()
        invariant
            i <= s@.len(),
            s@.len() > 0,
            acc <= usize::MAX,
            acc == decimal_value(s@.take(i as int)),
            forall|j: int| 0 <= j < i ==> 48 <= #[trigger] s@[j] <= 57,
        decreases s@.len() - i,
    {
        let b = s[i];
        if b < 48 || b > 57 {
            return None;
        }
        assert(s@.take(i + 1).drop_last() =~= s@.take(i as int));
        let next: u128 = acc * 10 + ((b - 48) as u128);
        if next > (usize::MAX as u128) {
            proof {
                if forall|j: int| 0 <= j < s@.len() ==> 48 <= #[trigger] s@[j] <= 57 {
                    lemma_decimal_value_prefix(s@, i + 1);
                }
            }
            return None;
        }
        acc = next;
        i = i + 1;
    }
    assert(s@.take(i as int) =~= s@);
    Some(acc as usize)
}

/// The header that gives a body's length.
pub open spec fn content_length_name() -> Seq<u8> {
    seq![99u8, 111, 110, 116, 101, 110, 116, 45, 108, 101, 110, 103, 116, 104]
}

/// The header that lists the clients a request was forwarded for.
pub open spec fn forwarded_for_name() -> Seq<u8> {
    seq![120u8, 45, 102, 111, 114, 119, 97, 114, 100, 101, 100, 45, 102, 111, 114]
}

/// How far a message read so far has got.
#[derive(Debug, Clone, Copy, PartialEq, Eq)]
pub enum Framing {
    /// More bytes are needed.
    NeedMore,
    /// A whole message: its head (blank line included) and its body, in
    /// that many bytes from the start; bytes after them belong to the next
    /// message.
    Complete { head_len: usize, body_len: usize },
    /// The bytes cannot make a message.
    Invalid(RequestError),
}

/// The framing of `buf` when it holds no complete head yet.
pub open spec fn frame_without_head(buf: Seq<u8>, eof: bool) -> Framing {
    if eof {
        Framing::Invalid(RequestError::IncompleteRequest(buf.len() as usize))
    } else if buf.len() > MAX_HEAD_SIZE {
        Framing::Invalid(RequestError::MalformedRequest(buf.len() as usize))
    } else {
        Framing::NeedMore
    }
}

/// The framing of `buf` whose head ends at `h`: the body is as long as
/// `Content-Length` says; without that header a request has no body and a
/// response runs until the connection closes (`until_close`).
pub open spec fn frame_with_head(buf: Seq<u8>, h: int, eof: bool, until_close: bool) -> Framing {
    let lines = head_lines(buf.take(h - 4));
    let avail = buf.len() - h;
    if h > MAX_HEAD_SIZE {
        Framing::Invalid(RequestError::MalformedRequest(h as usize))
    } else {
        match find_header(lines.drop_first(), content_length_name()) {
            Some(v) => match parse_decimal(v) {
                None => Framing::Invalid(RequestError::InvalidContentLength),
                Some(n) => if n > MAX_BODY_SIZE {
                    Framing::Invalid(RequestError::RequestBodyTooLarge)
                } else if avail >= n {
                    Framing::Complete { head_len: h as usize, body_len: n }
                } else if eof {
                    Framing::Invalid(RequestError::ContentLengthMismatch)
                } else {
                    Framing::NeedMore
                },
            },
            None => if !until_close {
                Framing::Complete { head_len: h as usize, body_len: 0 }
            } else if eof {
                Framing::Complete { head_len: h as usize, body_len: avail as usize }
            } else {
                Framing::NeedMore
            },
        }
    }
}

/// When the head ends at `h` and `Content-Length` announces `n` bytes (no
/// more than the largest body), the message is complete, with a head of
/// `h` bytes and a body of `n`, exactly when at least `n` bytes follow the
/// head; until then more bytes are needed, or, once the sender has closed,
/// the body is too short.
pub proof fn law_complete_once_the_body_has_arrived(
    buf: Seq<u8>,
    h: int,
    eof: bool,
    until_close: bool,
    v: Seq<u8>,
    n: usize,
)
    requires
        ends_head_at(buf, h),
        h <= MAX_HEAD_SIZE,
        find_header(head_lines(buf.take(h - 4)).drop_first(), content_length_name()) == Some(v),
        parse_decimal(v) == Some(n),
        n <= MAX_BODY_SIZE,
    ensures
        (buf.len() - h >= n) <==> frame_with_head(buf, h, eof, until_close) == (Framing::Complete {
            head_len: h as usize,
            body_len: n,
        }),
        buf.len() - h < n ==> frame_with_head(buf, h, eof, until_close) == if eof {
            Framing::Invalid(RequestError::ContentLengthMismatch)
        } else {
            Framing::NeedMore
        },
{
}

/// Without `Content-Length`, a request ends with its head and has no body,
/// while a response's body is everything up to the close of the connection.
pub proof fn law_no_length_header(buf: Seq<u8>, h: int, eof: bool, until_close: bool)
    requires
        ends_head_at(buf, h),
        h <= MAX_HEAD_SIZE,
        find_header(head_lines(buf.take(h - 4)).drop_first(), content_length_name()) is None,
    ensures
        !until_close ==> frame_with_head(buf, h, eof, until_close) == (Framing::Complete {
            head_len: h as usize,
            body_len: 0,
        }),
        until_close && eof ==> frame_with_head(buf, h, eof, until_close) == (Framing::Complete {
            head_len: h as usize,
            body_len: (buf.len() - h) as usize,
        }),
        until_close && !eof ==> frame_with_head(buf, h, eof, until_close) == Framing::NeedMore,
{
}

/// A head longer than the largest allowed makes the message malformed,
/// whatever follows.
pub proof fn law_oversized_head_is_malformed(buf: Seq<u8>, h: int, eof: bool, until_close: bool)
    requires
        ends_head_at(buf, h),
        h > MAX_HEAD_SIZE,
    ensures
        frame_with_head(buf, h, eof, until_close) == Framing::Invalid(
            RequestError::MalformedRequest(h as usize),
        ),
{
}

/// A message found complete stays complete, with the same lengths, when
/// more bytes (the next message) arrive behind it.
pub proof fn law_complete_message_stays_complete(
    buf: Seq<u8>,
    more: Seq<u8>,
    h: int,
    eof: bool,
    eof_later: bool,
    until_close: bool,
    v: Seq<u8>,
)
    requires
        ends_head_at(buf, h),
        find_header(head_lines(buf.take(h - 4)).drop_first(), content_length_name()) == Some(v),
        frame_with_head(buf, h, eof, until_close) is Complete,
    ensures
        ends_head_at(buf + more, h),
        frame_with_head(buf + more, h, eof_later, until_close) == frame_with_head(
            buf,
            h,
            eof,
            until_close,
        ),
        frame_with_head(buf, h, eof, until_close)->head_len == h,
        frame_with_head(buf, h, eof, until_close)->head_len + frame_with_head(
            buf,
            h,
            eof,
            until_close,
        )->body_len <= buf.len(),
{
    assert((buf + more).take(h - 4) =~= buf.take(h - 4));
    assert((buf + more)[h - 4] == buf[h - 4]);
    assert((buf + more)[h - 3] == buf[h - 3]);
    assert((buf + more)[h - 2] == buf[h - 2]);
    assert((buf + more)[h - 1] == buf[h - 1]);
}

/// Frames the bytes `buf` read so far of a message; `eof` tells that the
/// sender has closed, `until_close` that a body without `Content-Length`
/// runs until then.
pub fn frame(buf: &Vec<u8>, eof: bool, until_close: bool) -> (r: Framing)
    ensures
        (forall|j: int| 0 <= j <= buf@.len() ==> !ends_head_at(buf@, j)) ==> r
            == frame_without_head(buf@, eof),
        forall|h: int|
            ends_head_at(buf@, h) && (forall|j: int| 0 <= j < h ==> !ends_head_at(buf@, j)) ==> r
                == frame_with_head(buf@, h, eof, until_close),
{
    match find_head_end(buf) {
        None => {
            if eof {
                Framing::Invalid(RequestError::IncompleteRequest(buf.len()))
            } else if buf.len() > MAX_HEAD_SIZE {
                Framing::Invalid(RequestError::MalformedRequest(buf.len()))
            } else {
                Framing::NeedMore
            }
        },
        Some(h) => {
            proof {
                assert forall|g: int|
                    ends_head_at(buf@, g) && (forall|j: int| 0 <= j < g ==> !ends_head_at(buf@, j))
                        implies g == h by {
                    if g < h {
                        assert(!ends_head_at(buf@, g));
                    } else if g > h {
                        assert(!ends_head_at(buf@, h as int));
                    }
                }
            }
            if h > MAX_HEAD_SIZE {
                return Framing::Invalid(RequestError::MalformedRequest(h));
            }
            let lines = lines_of(buf, h - 4);
            let ghost expected = head_lines(buf@.take(h - 4));
            proof {
                lemma_split_lf_nonempty(buf@.take(h - 4));
                assert(lines@.map_values(|l: Vec<u8>| l@) =~= expected);
            }
            let avail = buf.len() - h;
            let name = content_length_bytes();
            match find_header_value(&lines, &name) {
                Some(v) => match decimal(&v) {
                    None => Framing::Invalid(RequestError::InvalidContentLength),
                    Some(n) => {
                        if n > MAX_BODY_SIZE {
                            Framing::Invalid(RequestError::RequestBodyTooLarge)
                        } else if avail >= n {
                            Framing::Complete { head_len: h, body_len: n }
                        } else if eof {
                            Framing::Invalid(RequestError::ContentLengthMismatch)
                        } else {
                            Framing::NeedMore
                        }
                    },
                },
                None => {
                    if !until_close {
                        Framing::Complete { head_len: h, body_len: 0 }
                    } else if eof {
                        Framing::Complete { head_len: h, body_len: avail }
                    } else {
                        Framing::NeedMore
                    }
                },
            }
        },
    }
}

/// `lines` without those that are headers called `name`.
pub open spec fn without_header(lines: Seq<Seq<u8>>, name: Seq<u8>) -> Seq<Seq<u8>>
    decreases lines.len(),
{
    if lines.len() == 0 {
        Seq::empty()
    } else {
        let p = without_header(lines.drop_last(), name);
        if is_header(lines.last(), name) {
            p
        } else {
            p.push(lines.last())
        }
    }
}

/// The lines joined with `\r\n` between them.
pub open spec fn join_crlf(lines: Seq<Seq<u8>>) -> Seq<u8>
    decreases lines.len(),
{
    if lines.len() == 0 {
        Seq::empty()
    } else if lines.len() == 1 {
        lines[0]
    } else {
        join_crlf(lines.drop_last()) + seq![CR, LF] + lines.last()
    }
}

/// The new `x-forwarded-for` value: the client appended to the first value
/// already there, after a comma and a space, or the client alone.
pub open spec fn extended_value(existing: Option<Seq<u8>>, client: Seq<u8>) -> Seq<u8> {
    match existing {
        Some(v) => if v.len() > 0 {
            v + seq![44u8, 32u8] + client
        } else {
            client
        },
        None => client,
    }
}

/// A head with the lines `lines` as forwarded for `client`: the first line,
/// the other lines but the `x-forwarded-for` headers, then one
/// `x-forwarded-for` header with the extended value, and the blank line.
pub open spec fn forwarded_head(lines: Seq<Seq<u8>>, client: Seq<u8>) -> Seq<u8> {
    let kept = seq![lines[0]] + without_header(lines.drop_first(), forwarded_for_name());
    let added = forwarded_for_name() + seq![58u8, 32u8] + extended_value(
        find_header(lines.drop_first(), forwarded_for_name()),
        client,
    );
    join_crlf(kept.push(added)) + seq![CR, LF, CR, LF]
}

/// A forwarded request names its client last in `x-forwarded-for`, and no
/// other line of it is an `x-forwarded-for` header.
pub proof fn law_forwarded_for_names_client(lines: Seq<Seq<u8>>, client: Seq<u8>)
    ensures
        ({
            let v = extended_value(find_header(lines, forwarded_for_name()), client);
            v.len() >= client.len() && v.subrange(v.len() - client.len(), v.len() as int)
                == client
        }),
        forall|i: int|
            0 <= i < without_header(lines, forwarded_for_name()).len() ==> !is_header(
                #[trigger] without_header(lines, forwarded_for_name())[i],
                forwarded_for_name(),
            ),
{
    let v = extended_value(find_header(lines, forwarded_for_name()), client);
    assert(v.subrange(v.len() - client.len(), v.len() as int) =~= client);
    lemma_without_header(lines, forwarded_for_name());
}

proof fn lemma_without_header(lines: Seq<Seq<u8>>, name: Seq<u8>)
    ensures
        forall|i: int|
            0 <= i < without_header(lines, name).len() ==> !is_header(
                #[trigger] without_header(lines, name)[i],
                name,
            ),
    decreases lines.len(),
{
    if lines.len() > 0 {
        lemma_without_header(lines.drop_last(), name);
        let p = without_header(lines.drop_last(), name);
        if !is_header(lines.last(), name) {
            assert forall|i: int| 0 <= i < p.push(lines.last()).len() implies !is_header(
                #[trigger] p.push(lines.last())[i],
                name,
            ) by {
                if i < p.len() {
                    assert(p.push(lines.last())[i] == p[i]);
                }
            }
        }
    }
}

/// Appends the bytes of `src` to `out`.
fn append(out: &mut Vec<u8>, src: &Vec<u8>)
    ensures
        final(out)@ == old(out)@ + src@,
{
    let mut i: usize = 0;
    while i < src.len()
        invariant
            i <= src@.len(),
            out@ == old(out)@ + src@.take(i as int),
        decreases src@.len() - i,
    {
        out.push(src[i]);
        i = i + 1;
        assert(out@ =~= old(out)@ + src@.take(i as int));
    }
    assert(src@.take(i as int) =~= src@);
}

/// The head of the request in `buf`, ending at `head_end`, rewritten to be
/// forwarded on behalf of `client` (its address as text).
pub fn forward_head(buf: &Vec<u8>, head_end: usize, client: &Vec<u8>) -> (r: Vec<u8>)
    requires
        ends_head_at(buf@, head_end as int),
    ensures
        r@ == forwarded_head(head_lines(buf@.take(head_end - 4)), client@),
{
    let lines = lines_of(buf, head_end - 4);
    let ghost views = head_lines(buf@.take(head_end - 4));
    proof {
        lemma_split_lf_nonempty(buf@.take(head_end - 4));
        assert(lines@.map_values(|l: Vec<u8>| l@) =~= views);
    }
    let name = forwarded_for_bytes();
    let existing = find_header_value(&lines, &name);
    let mut out: Vec<u8> = Vec::new();
    append(&mut out, &lines[0]);
    let ghost rest = views.drop_first();
    proof {
        assert(rest.take(0) =~= Seq::<Seq<u8>>::empty());
        assert(seq![views[0]] + without_header(rest.take(0), name@) =~= seq![views[0]]);
    }
    let mut k: usize = 1;
    while k < lines.len()
        invariant
            1 <= k <= lines@.len(),
            lines@.len() == views.len(),
            forall|m: int| 0 <= m < lines@.len() ==> (#[trigger] lines@[m])@ == views[m],
            rest == views.drop_first(),
            name@ == forwarded_for_name(),
            out@ == join_crlf(seq![views[0]] + without_header(rest.take(k - 1), name@)),
        decreases lines@.len() - k,
    {
        let ghost before = seq![views[0]] + without_header(rest.take(k - 1), name@);
        assert(rest.take(k as int).drop_last() =~= rest.take(k - 1));
        assert(rest.take(k as int).last() == views[k as int]);
        if !is_header_line(&lines[k], &name) {
            out.push(CR);
            out.push(LF);
            append(&mut out, &lines[k]);
            proof {
                let after = seq![views[0]] + without_header(rest.take(k as int), name@);
                assert(after =~= before.push(views[k as int]));
                assert(after.drop_last() =~= before);
                assert(out@ =~= join_crlf(before) + seq![CR, LF] + views[k as int]);
            }
        } else {
            proof {
                assert(seq![views[0]] + without_header(rest.take(k as int), name@) =~= before);
            }
        }
        k = k + 1;
    }
    let ghost kept = seq![views[0]] + without_header(rest, name@);
    proof {
        assert(rest.take(k - 1) =~= rest);
    }
    out.push(CR);
    out.push(LF);
    let mut added: Vec<u8> = Vec::new();
    append(&mut added, &name);
    added.push(58);
    added.push(32);
    let mut value: Vec<u8> = Vec::new();
    match existing {
        Some(v) => {
            if v.len() > 0 {
                append(&mut value, &v);
                value.push(44);
                value.push(32);
            }
        },
        None => {},
    }
    append(&mut value, client);
    append(&mut added, &value);
    append(&mut out, &added);
    proof {
        assert(value@ =~= extended_value(find_header(views.drop_first(), forwarded_for_name()), client@));
        assert(added@ =~= forwarded_for_name() + seq![58u8, 32u8] + value@);
        assert(kept.push(added@).drop_last() =~= kept);
        assert(out@ =~= join_crlf(kept.push(added@)));
    }
    out.push(CR);
    out.push(LF);
    out.push(CR);
    out.push(LF);
    assert(out@ =~= join_crlf(kept.push(added@)) + seq![CR, LF, CR, LF]);
    out
}

fn content_length_bytes() -> (r: Vec<u8>)
    ensures
        r@ == content_length_name(),
{
    let r: Vec<u8> = vec![99u8, 111, 110, 116, 101, 110, 116, 45, 108, 101, 110, 103, 116, 104];
    assert(r@ =~= content_length_name());
    r
}

fn forwarded_for_bytes() -> (r: Vec<u8>)
    ensures
        r@ == forwarded_for_name(),
{
    let r: Vec<u8> = vec![120u8, 45, 102, 111, 114, 119, 97, 114, 100, 101, 100, 45, 102, 111, 114];
    assert(r@ =~= forwarded_for_name());
    r
}

} // verus!
