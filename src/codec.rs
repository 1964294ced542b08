//! The wire codec: tagged protocol atoms, their canonical bytes, and an
//! incremental decoder over a byte buffer.
use vstd::prelude::*;
use vstd::slice::{slice_subrange, slice_to_vec};
use vstd::utf8::encode_utf8;

use crate::number::{decimal, digit_run, digits_value, in_i64, is_digit, lemma_decimal, signed_decimal, push_decimal, push_signed_decimal};
use crate::text::{decode_lossy, lossy_text};

verus! {

/// One protocol atom. An array carries only its length; its elements follow
/// as tokens of their own.
#[derive(Clone, Debug, Eq, PartialEq)]
pub enum Token {
    SimpleString(String),
    Integer(i64),
    Error(String),
    BulkString(Option<Vec<u8>>),
    Array(i64),
}

/// The mathematical content of a [`Token`].
pub enum TokenView {
    SimpleString(Seq<char>),
    Integer(i64),
    Error(Seq<char>),
    BulkString(Option<Seq<u8>>),
    Array(i64),
}

impl View for Token {
    type V = TokenView;

    open spec fn view(&self) -> TokenView {
        match self {
            Token::SimpleString(s) => TokenView::SimpleString(s@),
            Token::Integer(v) => TokenView::Integer(*v),
            Token::Error(s) => TokenView::Error(s@),
            Token::BulkString(None) => TokenView::BulkString(None),
            Token::BulkString(Some(b)) => TokenView::BulkString(Some(b@)),
            Token::Array(n) => TokenView::Array(*n),
        }
    }
}

/// Why a buffer does not start with a token.
#[derive(Debug)]
pub enum ReadError {
    /// The tag byte is not one of the protocol's.
    NotImplemented,
    /// The buffer ends before the token does; more bytes may complete it.
    InsufficientBytes,
    /// The bytes break the grammar.
    Malformed(&'static str),
}

/// The mathematical content of a [`ReadError`].
pub enum ReadErrorView {
    NotImplemented,
    InsufficientBytes,
    Malformed(Seq<char>),
}

impl View for ReadError {
    type V = ReadErrorView;

    open spec fn view(&self) -> ReadErrorView {
        match self {
            ReadError::NotImplemented => ReadErrorView::NotImplemented,
            ReadError::InsufficientBytes => ReadErrorView::InsufficientBytes,
            ReadError::Malformed(m) => ReadErrorView::Malformed(m@),
        }
    }
}

/// Why a token could not be written. Writing into a byte vector, as
/// [`encode`] does, never fails; a writer that sends the bytes on reports
/// its own failures with these.
#[derive(Debug)]
pub enum WriteError {
    NotImplemented,
    Failed,
}

/// Carriage return.
pub const CR: u8 = 13;

/// Line feed.
pub const LF: u8 = 10;

/// The line terminator.
pub open spec fn crlf() -> Seq<u8> {
    seq![CR, LF]
}

/// The canonical bytes of a token.
pub open spec fn token_bytes(t: TokenView) -> Seq<u8> {
    match t {
        TokenView::SimpleString(s) => seq![43u8] + encode_utf8(s) + crlf(),
        TokenView::Error(s) => seq![45u8] + encode_utf8(s) + crlf(),
        TokenView::Integer(v) => seq![58u8] + signed_decimal(v as int) + crlf(),
        TokenView::BulkString(None) => seq![36u8] + signed_decimal(-1) + crlf(),
        TokenView::BulkString(Some(b)) => seq![36u8] + decimal(b.len()) + crlf() + b + crlf(),
        TokenView::Array(n) => seq![42u8] + signed_decimal(n as int) + crlf(),
    }
}

/// The reason given for a CR that no LF follows.
pub open spec fn missing_lf() -> Seq<char> {
    "expected \\n after \\r"@
}

/// The reason given for an integer outside the range of `i64`.
pub open spec fn overflow_reason() -> Seq<char> {
    "overflowed i64"@
}

/// The reason given for a byte that is not a digit in an integer.
pub open spec fn bad_digit() -> Seq<char> {
    "invalid digit"@
}

/// The reason given for an integer without digits.
pub open spec fn no_digits() -> Seq<char> {
    "expected digit"@
}

/// The reason given for a negative bulk length other than -1.
pub open spec fn bad_bulk_length() -> Seq<char> {
    "invalid bulk string length"@
}

/// The reason given for a bulk payload that CRLF does not follow.
pub open spec fn bad_bulk_end() -> Seq<char> {
    "expected \\r\\n after bulk string"@
}

/// Reads a signed decimal integer line of `s` from `p` on: an optional `-`,
/// one or more digits, then CRLF. On success, the value and the index past
/// the CRLF.
pub open spec fn int_line(s: Seq<u8>, p: int) -> Result<(i64, int), ReadErrorView> {
    let neg = 0 <= p < s.len() && s[p] == 45;
    let d = if neg {
        p + 1
    } else {
        p
    };
    let run = digit_run(s, d);
    let j = d + run;
    let magnitude = digits_value(s.subrange(d, j));
    let v: int = if neg {
        -magnitude
    } else {
        magnitude as int
    };
    if !in_i64(v) {
        Err(ReadErrorView::Malformed(overflow_reason()))
    } else if j >= s.len() {
        Err(ReadErrorView::InsufficientBytes)
    } else if s[j] != CR {
        Err(ReadErrorView::Malformed(bad_digit()))
    } else if run == 0 {
        Err(ReadErrorView::Malformed(no_digits()))
    } else if j + 1 >= s.len() {
        Err(ReadErrorView::InsufficientBytes)
    } else if s[j + 1] != LF {
        Err(ReadErrorView::Malformed(missing_lf()))
    } else {
        Ok((v as i64, j + 2))
    }
}

/// The index of the first CR of `s` at or after `p`; the length of `s` where
/// there is none.
pub open spec fn first_cr(s: Seq<u8>, p: int) -> int
    decreases s.len() - p,
{
    if p >= s.len() {
        s.len() as int
    } else if s[p] == CR {
        p
    } else {
        first_cr(s, p + 1)
    }
}

/// Reads a text line of `s` from `p` on: the bytes up to the first CR, which
/// must be followed by LF.
pub open spec fn text_line(s: Seq<u8>, p: int) -> Result<(Seq<u8>, int), ReadErrorView> {
    let j = first_cr(s, p);
    if j + 1 >= s.len() {
        Err(ReadErrorView::InsufficientBytes)
    } else if s[j + 1] != LF {
        Err(ReadErrorView::Malformed(missing_lf()))
    } else {
        Ok((s.subrange(p, j), j + 2))
    }
}

/// Reads a bulk string whose length line starts at `p`.
pub open spec fn bulk(s: Seq<u8>, p: int) -> Result<(TokenView, int), ReadErrorView> {
    match int_line(s, p) {
        Err(e) => Err(e),
        Ok((len, q)) => {
            if len == -1 {
                Ok((TokenView::BulkString(None), q))
            } else if len < 0 {
                Err(ReadErrorView::Malformed(bad_bulk_length()))
            } else if q + len + 2 > s.len() {
                Err(ReadErrorView::InsufficientBytes)
            } else if s[q + len] != CR || s[q + len + 1] != LF {
                Err(ReadErrorView::Malformed(bad_bulk_end()))
            } else {
                Ok((TokenView::BulkString(Some(s.subrange(q, q + len))), q + len + 2))
            }
        },
    }
}

/// What decoding the start of `s` gives: a token and the number of bytes it
/// takes, or the reason there is none.
pub open spec fn decode_spec(s: Seq<u8>) -> Result<(TokenView, int), ReadErrorView> {
    if s.len() == 0 {
        Err(ReadErrorView::InsufficientBytes)
    } else if s[0] == 58 {
        match int_line(s, 1) {
            Ok((v, n)) => Ok((TokenView::Integer(v), n)),
            Err(e) => Err(e),
        }
    } else if s[0] == 43 {
        match text_line(s, 1) {
            Ok((b, n)) => Ok((TokenView::SimpleString(lossy_text(b)), n)),
            Err(e) => Err(e),
        }
    } else if s[0] == 45 {
        match text_line(s, 1) {
            Ok((b, n)) => Ok((TokenView::Error(lossy_text(b)), n)),
            Err(e) => Err(e),
        }
    } else if s[0] == 36 {
        bulk(s, 1)
    } else if s[0] == 42 {
        match int_line(s, 1) {
            Ok((v, n)) => Ok((TokenView::Array(v), n)),
            Err(e) => Err(e),
        }
    } else {
        Err(ReadErrorView::NotImplemented)
    }
}

/// Appends all of `b`.
pub(crate) fn push_bytes(out: &mut Vec<u8>, b: &[u8])
    ensures
        final(out)@ == old(out)@ + b@,
{
    let mut i: usize = 0;
    while i < b.len()
        invariant
            0 <= i <= b.len(),
            out@ == old(out)@ + b@.take(i as int),
        decreases b.len() - i,
    {
        out.push(b[i]);
        assert(b@.take(i + 1) =~= b@.take(i as int).push(b@[i as int]));
        assert(out@ =~= old(out)@ + b@.take(i + 1));
        i = i + 1;
    }
    assert(b@.take(i as int) =~= b@);
}

/// Appends a line terminator.
fn push_crlf(out: &mut Vec<u8>)
    ensures
        final(out)@ == old(out)@ + crlf(),
{
    out.push(CR);
    out.push(LF);
    assert(out@ =~= old(out)@ + crlf());
}

/// Appends the canonical bytes of `token` to `w`. Writing to a byte vector
/// does not fail.
pub fn encode(w: &mut Vec<u8>, token: &Token) -> (r: Result<(), WriteError>)
    ensures
        r is Ok,
        final(w)@ == old(w)@ + token_bytes(token@),
{
    match token {
        Token::SimpleString(s) => {
            w.push(43);
            push_bytes(w, s.as_str().as_bytes());
            push_crlf(w);
        },
        Token::Error(s) => {
            w.push(45);
            push_bytes(w, s.as_str().as_bytes());
            push_crlf(w);
        },
        Token::Integer(v) => {
            w.push(58);
            push_signed_decimal(w, *v);
            push_crlf(w);
        },
        Token::BulkString(Some(b)) => {
            w.push(36);
            push_decimal(w, b.len() as u64);
            push_crlf(w);
            push_bytes(w, b.as_slice());
            push_crlf(w);
        },
        Token::BulkString(None) => {
            w.push(36);
            push_signed_decimal(w, -1);
            push_crlf(w);
        },
        Token::Array(n) => {
            w.push(42);
            push_signed_decimal(w, *n);
            push_crlf(w);
        },
    }
    assert(w@ =~= old(w)@ + token_bytes(token@));
    Ok(())
}


/// A longer run of digits is worth at least as much.
pub proof fn lemma_digits_value_mono(s: Seq<u8>, a: int, b: int, c: int)
    requires
        0 <= a <= b <= c <= s.len(),
    ensures
        digits_value(s.subrange(a, b)) <= digits_value(s.subrange(a, c)),
    decreases c - b,
{
    if b < c {
        lemma_digits_value_mono(s, a, b, c - 1);
        assert(s.subrange(a, c).drop_last() =~= s.subrange(a, c - 1));
    }
}

/// Reads the integer line that starts at `pos`.
fn read_integer(buf: &[u8], pos: usize) -> (r: Result<(i64, usize), ReadError>)
    requires
        pos <= buf.len(),
    ensures
        r matches Ok((v, n)) ==> int_line(buf@, pos as int) == Ok::<(i64, int), ReadErrorView>((v, n as int)),
        r matches Err(e) ==> int_line(buf@, pos as int) == Err::<(i64, int), ReadErrorView>(e@),
{
    let ghost s = buf@;
    let neg = pos < buf.len() && buf[pos] == 45;
    let d: usize = if neg {
        pos + 1
    } else {
        pos
    };
    let mut i: usize = d;
    let mut val: i64 = 0;
    while i < buf.len() && 48 <= buf[i] && buf[i] <= 57
        invariant
            d <= i <= buf.len(),
            s == buf@,
            pos <= buf.len(),
            neg == (pos < buf.len() && s[pos as int] == 45),
            d == if neg {
                pos + 1
            } else {
                pos as int
            },
            digit_run(s, d as int) == (i - d) + digit_run(s, i as int),
            val as int == if neg {
                -digits_value(s.subrange(d as int, i as int))
            } else {
                digits_value(s.subrange(d as int, i as int)) as int
            },
        decreases buf.len() - i,
    {
        let digit = (buf[i] - 48) as i64;
        let ghost next = s.subrange(d as int, i + 1);
        assert(next.drop_last() =~= s.subrange(d as int, i as int));
        proof {
            assert(is_digit(s[i as int]));
            assert(digit_run(s, i as int) == 1 + digit_run(s, i + 1));
            crate::number::lemma_digit_run(s, d as int);
            lemma_digits_value_mono(s, d as int, i + 1, d + digit_run(s, d as int));
            assert(digits_value(next) == digits_value(s.subrange(d as int, i as int)) * 10 + digit);
        }
        let stepped = match val.checked_mul(10) {
            Some(t) => if neg {
                t.checked_sub(digit)
            } else {
                t.checked_add(digit)
            },
            None => None,
        };
        match stepped {
            Some(t) => {
                val = t;
            },
            None => {
                proof {
                    let full = digits_value(s.subrange(d as int, d + digit_run(s, d as int)));
                    assert(full >= digits_value(next));
                    if neg {
                        assert(-full < i64::MIN);
                    } else {
                        assert(full > i64::MAX);
                    }

                }
                return Err(ReadError::Malformed("overflowed i64"));
            },
        }
        i = i + 1;
    }
    if i >= buf.len() {
        return Err(ReadError::InsufficientBytes);
    }
    if buf[i] != CR {
        return Err(ReadError::Malformed("invalid digit"));
    }
    if i == d {
        return Err(ReadError::Malformed("expected digit"));
    }
    if i + 1 >= buf.len() {
        return Err(ReadError::InsufficientBytes);
    }
    if buf[i + 1] != LF {
        return Err(ReadError::Malformed("expected \\n after \\r"));
    }
    Ok((val, i + 2))
}

/// Reads the text line that starts at `pos`; the text is decoded lossily.
fn read_simple_string(buf: &[u8], pos: usize) -> (r: Result<(String, usize), ReadError>)
    requires
        pos <= buf.len(),
    ensures
        r matches Ok((t, n)) ==> text_line(buf@, pos as int) matches Ok((b, m)) && t@
            == lossy_text(b) && m == n,
        r matches Err(e) ==> text_line(buf@, pos as int) == Err::<(Seq<u8>, int), ReadErrorView>(e@),
{
    let ghost s = buf@;
    let mut i: usize = pos;
    while i < buf.len() && buf[i] != CR
        invariant
            pos <= i <= buf.len(),
            first_cr(s, pos as int) == first_cr(s, i as int),
            s == buf@,
        decreases buf.len() - i,
    {
        i = i + 1;
    }
    if buf.len() - i <= 1 {
        return Err(ReadError::InsufficientBytes);
    }
    if buf[i + 1] != LF {
        return Err(ReadError::Malformed("expected \\n after \\r"));
    }
    let text = decode_lossy(slice_subrange(buf, pos, i));
    Ok((text, i + 2))
}

/// Reads the payload of a bulk string of `length` bytes at `pos`, and the
/// CRLF after it.
fn read_bulk_string(buf: &[u8], pos: usize, length: usize) -> (r: Result<(Vec<u8>, usize), ReadError>)
    requires
        pos <= buf.len(),
    ensures
        r matches Ok((b, n)) ==> pos + length + 2 <= buf.len() && b@ == buf@.subrange(pos as int, pos + length)
            && n == pos + length + 2 && buf@[pos + length] == CR && buf@[pos + length + 1] == LF,
        r matches Err(e) ==> (e is InsufficientBytes && pos + length + 2 > buf.len()) || (e@
            == ReadErrorView::Malformed(bad_bulk_end()) && pos + length + 2 <= buf.len() && (buf@[pos + length] != CR
            || buf@[pos + length + 1] != LF)),
{
    if length > buf.len() - pos || buf.len() - pos - length < 2 {
        return Err(ReadError::InsufficientBytes);
    }
    let end = pos + length;
    if buf[end] != CR || buf[end + 1] != LF {
        return Err(ReadError::Malformed("expected \\r\\n after bulk string"));
    }
    let payload = slice_to_vec(slice_subrange(buf, pos, end));
    Ok((payload, end + 2))
}

/// Decodes the token at the start of `buf`, and says how many bytes it
/// takes. `InsufficientBytes` means that a longer buffer may hold a token:
/// the caller keeps the bytes and tries again when more have come.
pub fn decode(buf: &[u8]) -> (r: Result<(Token, usize), ReadError>)
    ensures
        r matches Ok((t, n)) ==> decode_spec(buf@) == Ok::<(TokenView, int), ReadErrorView>((t@, n as int)),
        r matches Err(e) ==> decode_spec(buf@) == Err::<(TokenView, int), ReadErrorView>(e@),
{
    if buf.len() == 0 {
        return Err(ReadError::InsufficientBytes);
    }
    let tag = buf[0];
    if tag == 58 {
        let (v, n) = read_integer(buf, 1)?;
        Ok((Token::Integer(v), n))
    } else if tag == 43 {
        let (t, n) = read_simple_string(buf, 1)?;
        Ok((Token::SimpleString(t), n))
    } else if tag == 45 {
        let (t, n) = read_simple_string(buf, 1)?;
        Ok((Token::Error(t), n))
    } else if tag == 36 {
        let (length, q) = read_integer(buf, 1)?;
        if length == -1 {
            Ok((Token::BulkString(None), q))
        } else if length < 0 {
            Err(ReadError::Malformed("invalid bulk string length"))
        } else if length as u64 > (buf.len() - q) as u64 {
            Err(ReadError::InsufficientBytes)
        } else {
            let (b, n) = read_bulk_string(buf, q, length as usize)?;
            Ok((Token::BulkString(Some(b)), n))
        }
    } else if tag == 42 {
        let (v, n) = read_integer(buf, 1)?;
        Ok((Token::Array(v), n))
    } else {
        Err(ReadError::NotImplemented)
    }
}


/// Whether a token's canonical bytes read back as the token: the text of a
/// simple string or error holds no CR, and a bulk string's length fits the
/// length field.
pub open spec fn encodable(t: TokenView) -> bool {
    match t {
        TokenView::SimpleString(s) => !encode_utf8(s).contains(CR),
        TokenView::Error(s) => !encode_utf8(s).contains(CR),
        TokenView::BulkString(Some(b)) => b.len() <= i64::MAX,
        _ => true,
    }
}

/// A run of exactly `k` digits from `d` on.
pub proof fn lemma_digit_run_exact(s: Seq<u8>, d: int, k: int)
    requires
        0 <= d,
        0 <= k,
        d + k <= s.len(),
        forall|i: int| d <= i < d + k ==> is_digit(#[trigger] s[i]),
        d + k == s.len() || !is_digit(s[d + k]),
    ensures
        digit_run(s, d) == k,
    decreases k,
{
    if k > 0 {
        lemma_digit_run_exact(s, d + 1, k - 1);
    }
}

/// The first CR from `p` on is at `q`.
pub proof fn lemma_first_cr_at(s: Seq<u8>, p: int, q: int)
    requires
        0 <= p <= q < s.len(),
        s[q] == CR,
        forall|i: int| p <= i < q ==> s[i] != CR,
    ensures
        first_cr(s, p) == q,
    decreases q - p,
{
    if p < q {
        lemma_first_cr_at(s, p + 1, q);
    }
}

/// An integer line in canonical form reads back as its value.
pub proof fn lemma_int_line(s: Seq<u8>, p: int, v: i64)
    requires
        0 <= p,
        p + signed_decimal(v as int).len() + 2 <= s.len(),
        s.subrange(p, p + signed_decimal(v as int).len() + 2) == signed_decimal(v as int) + crlf(),
    ensures
        int_line(s, p) == Ok::<(i64, int), ReadErrorView>((v, p + signed_decimal(v as int).len() + 2)),
{
    let sd = signed_decimal(v as int);
    let m: nat = if v < 0 {
        (-v) as nat
    } else {
        v as nat
    };
    lemma_decimal(m);
    let dec = decimal(m);
    let d = if v < 0 {
        p + 1
    } else {
        p
    };
    assert(sd == if v < 0 {
        seq![45u8] + dec
    } else {
        dec
    });
    assert forall|i: int| d <= i < d + dec.len() implies is_digit(#[trigger] s[i]) by {
        assert(s[i] == s.subrange(p, p + sd.len() + 2)[i - p]);
        assert(dec[i - d] == sd[i - p]);
    }
    assert(s[d + dec.len()] == s.subrange(p, p + sd.len() + 2)[d + dec.len() - p]);
    assert(s[d + dec.len()] == CR);
    assert(s[d + dec.len() + 1] == s.subrange(p, p + sd.len() + 2)[d + dec.len() + 1 - p]);
    assert(s[p] == s.subrange(p, p + sd.len() + 2)[0]);
    if v >= 0 {
        assert(is_digit(dec[0]));
    }
    lemma_digit_run_exact(s, d, dec.len() as int);
    assert(s.subrange(d, d + dec.len()) =~= dec) by {
        assert forall|i: int| 0 <= i < dec.len() implies s.subrange(d, d + dec.len())[i] == dec[i] by {
            assert(s[d + i] == s.subrange(p, p + sd.len() + 2)[d + i - p]);
        }
    }
}

/// The canonical bytes of a token that reads back, whatever follows them,
/// decode to the token and take exactly those bytes.
pub proof fn lemma_decode_token_bytes(t: TokenView, rest: Seq<u8>)
    requires
        encodable(t),
    ensures
        decode_spec(token_bytes(t) + rest) == Ok::<(TokenView, int), ReadErrorView>((t, token_bytes(t).len() as int)),
{
    let s = token_bytes(t) + rest;
    match t {
        TokenView::Integer(v) => {
            let n: int = signed_decimal(v as int).len() as int;
            assert(s.subrange(1, 1 + n + 2) =~= signed_decimal(v as int) + crlf());
            lemma_int_line(s, 1, v);
        },
        TokenView::Array(v) => {
            let n: int = signed_decimal(v as int).len() as int;
            assert(s.subrange(1, 1 + n + 2) =~= signed_decimal(v as int) + crlf());
            lemma_int_line(s, 1, v);
        },
        TokenView::BulkString(None) => {
            let n: int = signed_decimal(-1).len() as int;
            assert(s.subrange(1, 1 + n + 2) =~= signed_decimal(-1) + crlf());
            lemma_int_line(s, 1, -1i64);
        },
        TokenView::BulkString(Some(b)) => {
            let len = b.len() as i64;
            let bl: int = b.len() as int;
            assert(decimal(b.len()) == signed_decimal(len as int));
            let n: int = signed_decimal(len as int).len() as int;
            assert(s.subrange(1, 1 + n + 2) =~= signed_decimal(len as int) + crlf());
            lemma_int_line(s, 1, len);
            let q: int = 1 + n + 2;
            assert(s.subrange(q, q + bl) =~= b);
            assert(s[q + bl] == CR);
            assert(s[q + bl + 1] == LF);
        },
        TokenView::SimpleString(text) => {
            let enc = encode_utf8(text);
            assert forall|i: int| 1 <= i < 1 + enc.len() implies s[i] != CR by {
                assert(s[i] == enc[i - 1]);
            }
            let el: int = enc.len() as int;
            lemma_first_cr_at(s, 1, 1 + el);
            assert(s.subrange(1, 1 + el) =~= enc);
            vstd::utf8::encode_utf8_valid_utf8(text);
            vstd::utf8::encode_utf8_decode_utf8(text);
        },
        TokenView::Error(text) => {
            let enc = encode_utf8(text);
            assert forall|i: int| 1 <= i < 1 + enc.len() implies s[i] != CR by {
                assert(s[i] == enc[i - 1]);
            }
            let el: int = enc.len() as int;
            lemma_first_cr_at(s, 1, 1 + el);
            assert(s.subrange(1, 1 + el) =~= enc);
            vstd::utf8::encode_utf8_valid_utf8(text);
            vstd::utf8::encode_utf8_decode_utf8(text);
        },
    }
}

/// Decoding the canonical bytes of a token gives the token back, for
/// simple strings and errors without CR, integers, null and non-null bulk
/// strings, and array headers.
pub proof fn law_codec_round_trip(t: TokenView)
    requires
        encodable(t),
    ensures
        decode_spec(token_bytes(t)) == Ok::<(TokenView, int), ReadErrorView>((t, token_bytes(t).len() as int)),
{
    lemma_decode_token_bytes(t, Seq::empty());
    assert(token_bytes(t) + Seq::<u8>::empty() =~= token_bytes(t));
}


/// The digit run of a prefix is the run of the whole, cut at the prefix's
/// end.
pub proof fn lemma_digit_run_take(s: Seq<u8>, d: int, k: int)
    requires
        0 <= d <= k <= s.len(),
    ensures
        digit_run(s.take(k), d) == if digit_run(s, d) <= k - d {
            digit_run(s, d) as int
        } else {
            k - d
        },
    decreases k - d,
{
    if d < k {
        lemma_digit_run_take(s, d + 1, k);
        assert(s.take(k)[d] == s[d]);
    }
}

/// The first CR from `p` on lies between `p` and the end.
pub proof fn lemma_first_cr_bounds(s: Seq<u8>, p: int)
    requires
        0 <= p <= s.len(),
    ensures
        p <= first_cr(s, p) <= s.len(),
        first_cr(s, p) < s.len() ==> s[first_cr(s, p)] == CR,
    decreases s.len() - p,
{
    if p < s.len() && s[p] != CR {
        lemma_first_cr_bounds(s, p + 1);
    }
}

/// The first CR of a prefix is the first CR of the whole, or the prefix's
/// end.
pub proof fn lemma_first_cr_take(s: Seq<u8>, p: int, k: int)
    requires
        0 <= p <= k <= s.len(),
    ensures
        first_cr(s.take(k), p) == if first_cr(s, p) <= k {
            first_cr(s, p)
        } else {
            k
        },
    decreases k - p,
{
    lemma_first_cr_bounds(s, p);
    if p < k {
        lemma_first_cr_take(s, p + 1, k);
        assert(s.take(k)[p] == s[p]);
    }
}

/// A prefix of an integer line wants more bytes until the line is whole,
/// and reads the same once it is.
pub proof fn lemma_int_line_take(s: Seq<u8>, p: int, k: int)
    requires
        0 <= p <= k <= s.len(),
        int_line(s, p) is Ok,
    ensures
        int_line(s.take(k), p) == if k < int_line(s, p)->Ok_0.1 {
            Err::<(i64, int), ReadErrorView>(ReadErrorView::InsufficientBytes)
        } else {
            int_line(s, p)
        },
{
    let t = s.take(k);
    let neg = 0 <= p < s.len() && s[p] == 45;
    let d = if neg {
        p + 1
    } else {
        p
    };
    let run = digit_run(s, d);
    let j = d + run;
    crate::number::lemma_digit_run(s, d);
    if k == p {
        assert(int_line(t, p) == Err::<(i64, int), ReadErrorView>(ReadErrorView::InsufficientBytes)) by {
            assert(digit_run(t, p) == 0);
            assert(t.subrange(p, p) =~= Seq::<u8>::empty());
        }
    } else {
        assert(t[p] == s[p]);
        lemma_digit_run_take(s, d, k);
        let run_t = digit_run(t, d);
        let j_t = d + run_t;
        assert(t.subrange(d, j_t) =~= s.subrange(d, j_t));
        lemma_digits_value_mono(s, d, j_t, j);
        if j_t < k {
            assert(j_t == j);
            assert(t[j] == s[j]);
            if j + 1 < k {
                assert(t[j + 1] == s[j + 1]);
            }
        }
    }
}

/// A prefix of a text line wants more bytes until the line is whole, and
/// reads the same once it is.
pub proof fn lemma_text_line_take(s: Seq<u8>, p: int, k: int)
    requires
        0 <= p <= k <= s.len(),
        text_line(s, p) is Ok,
    ensures
        text_line(s.take(k), p) == if k < text_line(s, p)->Ok_0.1 {
            Err::<(Seq<u8>, int), ReadErrorView>(ReadErrorView::InsufficientBytes)
        } else {
            text_line(s, p)
        },
{
    let t = s.take(k);
    lemma_first_cr_take(s, p, k);
    lemma_first_cr_bounds(s, p);
    lemma_first_cr_bounds(t, p);
    let j = first_cr(s, p);
    if j + 1 < k {
        assert(t[j + 1] == s[j + 1]);
        assert(t.subrange(p, j) =~= s.subrange(p, j));
    }
}

/// Decoding is incremental: where `s` starts with a token of `n` bytes,
/// each prefix of `s` shorter than `n` wants more bytes, and each prefix at
/// least `n` long decodes to the same token of the same length. Feeding the
/// bytes a few at a time thus yields the tokens that the whole buffer does.
pub proof fn law_codec_incremental(s: Seq<u8>, k: int)
    requires
        decode_spec(s) is Ok,
        0 <= k <= s.len(),
    ensures
        decode_spec(s.take(k)) == if k < decode_spec(s)->Ok_0.1 {
            Err::<(TokenView, int), ReadErrorView>(ReadErrorView::InsufficientBytes)
        } else {
            decode_spec(s)
        },
{
    let t = s.take(k);
    let n = decode_spec(s)->Ok_0.1;
    if s[0] == 58 || s[0] == 42 {
        assert(int_line(s, 1) is Ok);
        assert(n == int_line(s, 1)->Ok_0.1);
        assert(n >= 3);
        if k > 0 {
            assert(t[0] == s[0]);
            lemma_int_line_take(s, 1, k);
        }
    } else if s[0] == 43 || s[0] == 45 {
        assert(text_line(s, 1) is Ok);
        lemma_first_cr_bounds(s, 1);
        assert(n >= 3);
        if k > 0 {
            assert(t[0] == s[0]);
            lemma_text_line_take(s, 1, k);
        }
    } else {
        assert(s[0] == 36);
        assert(int_line(s, 1) is Ok);
        let (len, q) = int_line(s, 1)->Ok_0;
        assert(q >= 3);
        assert(n >= q);
        if k > 0 {
            assert(t[0] == s[0]);
            lemma_int_line_take(s, 1, k);
            if len >= 0 && q + len + 2 <= k {
                assert(t[q + len] == s[q + len]);
                assert(t[q + len + 1] == s[q + len + 1]);
                assert(t.subrange(q, q + len) =~= s.subrange(q, q + len));
            }
        }
    }
}

} // verus!
