//! The small web front: `curl` gets a number from Mazu, `HEAD` gets the
//! headers only, health checks get a tiny JSON.

use vstd::prelude::*;
use vstd::utf8::encode_utf8;

use crate::calendar::{is_day_text, local_day};
use crate::counter::{can_count, pilgrim_key, visit_recorded, Counter, Worship};
use crate::text::{
    before_first, chars_of, decimal, find_char, lemma_first_index, push_decimal, range_is,
    range_is_ignoring_case, same_ignoring_ascii_case, split_on, split_once, split_ranges, str_is,
    string_of, trim, trim_at, trim_end, trim_end_at, word_ranges, words,
};

verus! {

/// Wrapped around the plain-text answer: gold.
pub const GOLD: &'static str = "\x1b[33m";
/// Ends the colour.
pub const RESET: &'static str = "\x1b[0m";
/// At most this many header lines are read.
pub const MAX_HEADERS: usize = 64;
/// At most this many bytes are read for one line.
pub const MAX_LINE: u64 = 8192;

/// The content type of plain text.
pub const TEXT_PLAIN: &'static str = "text/plain; charset=utf-8";
/// The content type of JSON.
pub const APPLICATION_JSON: &'static str = "application/json; charset=utf-8";

/// Whether `flag` is among the `&`-separated parts of `query`: a part equal
/// to it, or, for a flag without `=`, a part `flag=...`.
pub open spec fn flag_set(query: Seq<char>, flag: Seq<char>) -> bool {
    let parts = split_on(query, '&');
    exists|j: int|
        0 <= j < parts.len() && (#[trigger] parts[j] == flag || (before_first(parts[j], '=') == flag
            && !flag.contains('=')))
}

/// Whether the query string holds a flag.
pub fn has_flag(query: &str, flag: &str) -> (b: bool)
    ensures
        b == flag_set(query@, flag@),
{
    let qc = chars_of(query);
    let fc = chars_of(flag);
    let flag_eq = find_char(&fc, 0, fc.len(), '=');
    proof {
        assert(fc@.subrange(0, fc@.len() as int) =~= fc@);
        assert(qc@.subrange(0, qc@.len() as int) =~= qc@);
        lemma_first_index(fc@, '=');
    }
    let flag_plain = flag_eq == fc.len();
    let parts = split_ranges(&qc, 0, qc.len(), '&');
    let ghost ps = split_on(query@, '&');
    let mut j: usize = 0;
    while j < parts.len()
        invariant
            qc@ == query@,
            fc@ == flag@,
            flag_plain == !flag@.contains('='),
            ps == split_on(query@, '&'),
            parts@.len() == ps.len(),
            forall|k: int|
                0 <= k < parts@.len() ==> (#[trigger] parts@[k]).0 <= parts@[k].1 <= qc@.len()
                    && qc@.subrange(parts@[k].0 as int, parts@[k].1 as int) == ps[k],
            j <= parts@.len(),
            forall|k: int|
                0 <= k < j ==> !(#[trigger] ps[k] == flag@ || (before_first(ps[k], '=') == flag@
                    && !flag@.contains('='))),
        decreases parts@.len() - j,
    {
        let (a, b) = parts[j];
        let e = find_char(&qc, a, b, '=');
        proof {
            lemma_first_index(ps[j as int], '=');
            assert(qc@.subrange(a as int, (a + e) as int) =~= ps[j as int].take(e as int));
        }
        if range_is(&qc, a, b, &fc) || (flag_plain && range_is(&qc, a, a + e, &fc)) {
            return true;
        }
        j = j + 1;
    }
    false
}

/// The sentence Mazu says to a visitor.
pub open spec fn message_text(rank: u64, repeat: bool) -> Seq<char> {
    if repeat {
        "你今天已經拜過了，仍是第 "@ + decimal(rank as nat) + " 位 🙏"@
    } else {
        "你是今天第 "@ + decimal(rank as nat) + " 位祭拜媽祖 🙏"@
    }
}

/// The sentence for a visit.
pub fn line(r: &Worship) -> (s: String)
    ensures
        s@ == message_text(r.rank, r.repeat),
{
    if r.repeat {
        let mut s = String::from_str("你今天已經拜過了，仍是第 ");
        push_decimal(&mut s, r.rank);
        s.append(" 位 🙏");
        s
    } else {
        let mut s = String::from_str("你是今天第 ");
        push_decimal(&mut s, r.rank);
        s.append(" 位祭拜媽祖 🙏");
        s
    }
}

/// A visit as JSON (the sentence is written as it is).
pub open spec fn json_text(day: Seq<char>, rank: u64, total: u64, repeat: bool) -> Seq<char> {
    "{\"day\":\""@ + day + "\",\"rank\":"@ + decimal(rank as nat) + ",\"total\":"@ + decimal(
        total as nat,
    ) + ",\"repeat\":"@ + (if repeat {
        "true"@
    } else {
        "false"@
    }) + ",\"message\":\""@ + message_text(rank, repeat) + "\"}\n"@
}

/// Where the `total` field of a visit's JSON starts: after the day and the rank.
pub open spec fn json_total_at(day: Seq<char>, rank: u64) -> int {
    ("{\"day\":\""@.len() + day.len() + "\",\"rank\":"@.len() + decimal(rank as nat).len()) as int
}

/// A visit's JSON as what comes before the day's count, the count, and what comes after.
proof fn lemma_json_around_total(day: Seq<char>, rank: u64, total: u64, repeat: bool)
    ensures
        ({
            let pre = "{\"day\":\""@ + day + "\",\"rank\":"@ + decimal(rank as nat) + ",\"total\":"@;
            let post = ",\"repeat\":"@ + (if repeat {
                "true"@
            } else {
                "false"@
            }) + ",\"message\":\""@ + message_text(rank, repeat) + "\"}\n"@;
            json_text(day, rank, total, repeat) == pre + decimal(total as nat) + post
        }),
{
    let pre = "{\"day\":\""@ + day + "\",\"rank\":"@ + decimal(rank as nat) + ",\"total\":"@;
    let post = ",\"repeat\":"@ + (if repeat {
        "true"@
    } else {
        "false"@
    }) + ",\"message\":\""@ + message_text(rank, repeat) + "\"}\n"@;
    assert(json_text(day, rank, total, repeat) =~= pre + decimal(total as nat) + post);
}

/// The JSON answer to a visit carries the day's count as its `total` field,
/// right after the rank: `,"total":` then the count in decimal, then `,"repeat":`.
pub proof fn law_json_carries_the_total(day: Seq<char>, rank: u64, total: u64, repeat: bool)
    ensures
        json_text(day, rank, total, repeat).subrange(
            json_total_at(day, rank),
            json_total_at(day, rank) + ",\"total\":"@.len() + decimal(total as nat).len() + ",\"repeat\":"@.len(),
        ) == ",\"total\":"@ + decimal(total as nat) + ",\"repeat\":"@,
{
    lemma_json_around_total(day, rank, total, repeat);
    let a = "{\"day\":\""@ + day + "\",\"rank\":"@ + decimal(rank as nat);
    let t = json_text(day, rank, total, repeat);
    let k = json_total_at(day, rank);
    assert(a.len() == k);
    let x = ",\"total\":"@ + decimal(total as nat) + ",\"repeat\":"@;
    let rest = (if repeat {
        "true"@
    } else {
        "false"@
    }) + ",\"message\":\""@ + message_text(rank, repeat) + "\"}\n"@;
    assert(t =~= a + x + rest);
    assert(t.subrange(k, k + x.len()) =~= x);
}

/// Two visits that differ only in the day's count get different JSON answers.
pub proof fn law_json_tells_totals_apart(day: Seq<char>, rank: u64, t1: u64, t2: u64, repeat: bool)
    requires
        t1 != t2,
    ensures
        json_text(day, rank, t1, repeat) != json_text(day, rank, t2, repeat),
{
    lemma_json_around_total(day, rank, t1, repeat);
    lemma_json_around_total(day, rank, t2, repeat);
    let pre = "{\"day\":\""@ + day + "\",\"rank\":"@ + decimal(rank as nat) + ",\"total\":"@;
    let d1 = decimal(t1 as nat);
    let d2 = decimal(t2 as nat);
    crate::text::lemma_decimal_digits(t1 as nat);
    crate::text::lemma_decimal_digits(t2 as nat);
    let x1 = json_text(day, rank, t1, repeat);
    let x2 = json_text(day, rank, t2, repeat);
    let post = ",\"repeat\":"@ + (if repeat {
        "true"@
    } else {
        "false"@
    }) + ",\"message\":\""@ + message_text(rank, repeat) + "\"}\n"@;
    assert(x1 == pre + d1 + post);
    assert(x2 == pre + d2 + post);
    assert(x1.len() == pre.len() + d1.len() + post.len());
    assert(x2.len() == pre.len() + d2.len() + post.len());
    if x1 == x2 {
        assert(d1.len() == d2.len());
        assert(x1.subrange(pre.len() as int, (pre.len() + d1.len()) as int) =~= d1);
        assert(x2.subrange(pre.len() as int, (pre.len() + d2.len()) as int) =~= d2);
        assert(d1 == d2);
    }
}

/// A visit as JSON.
pub fn json(r: &Worship) -> (s: String)
    ensures
        s@ == json_text(r.day@, r.rank, r.total, r.repeat),
{
    let mut s = String::from_str("{\"day\":\"");
    s.append(r.day.as_str());
    s.append("\",\"rank\":");
    push_decimal(&mut s, r.rank);
    s.append(",\"total\":");
    push_decimal(&mut s, r.total);
    s.append(",\"repeat\":");
    if r.repeat {
        s.append("true");
    } else {
        s.append("false");
    }
    s.append(",\"message\":\"");
    let l = line(r);
    s.append(l.as_str());
    s.append("\"}\n");
    s
}

/// The reason phrase sent with a status code.
pub open spec fn reason_text(status: u16) -> Seq<char> {
    if status == 200 {
        "OK"@
    } else if status == 400 {
        "Bad Request"@
    } else if status == 404 {
        "Not Found"@
    } else if status == 405 {
        "Method Not Allowed"@
    } else {
        "OK"@
    }
}

fn reason(status: u16) -> (s: &'static str)
    ensures
        s@ == reason_text(status),
{
    match status {
        200 => "OK",
        400 => "Bad Request",
        404 => "Not Found",
        405 => "Method Not Allowed",
        _ => "OK",
    }
}

/// The head of a response whose body is `len` bytes long.
pub open spec fn head_text(status: u16, content_type: Seq<char>, len: nat) -> Seq<char> {
    "HTTP/1.1 "@ + decimal(status as nat) + " "@ + reason_text(status) + "\r\ncontent-type: "@
        + content_type + "\r\ncontent-length: "@ + decimal(len) + "\r\ncache-control: no-store\r\nconnection: close\r\n\r\n"@
}

/// A whole response: the head, then the body, both in UTF-8; the
/// `content-length` is the number of bytes of the body.
pub open spec fn response_bytes(status: u16, content_type: Seq<char>, body: Seq<char>) -> Seq<u8> {
    encode_utf8(head_text(status, content_type, encode_utf8(body).len())) + encode_utf8(body)
}

fn push_bytes(out: &mut Vec<u8>, b: &[u8])
    ensures
        final(out)@ == old(out)@ + b@,
{
    let mut i: usize = 0;
    while i < b.len()
        invariant
            i <= b@.len(),
            out@ == old(out)@ + b@.take(i as int),
        decreases b@.len() - i,
    {
        out.push(b[i]);
        i = i + 1;
        proof {
            assert(out@ =~= old(out)@ + b@.take(i as int));
        }
    }
    proof {
        assert(b@.take(i as int) =~= b@);
    }
}

/// A complete HTTP/1.1 response that closes the connection.
pub fn response(status: u16, content_type: &str, body: &str) -> (r: Vec<u8>)
    ensures
        r@ == response_bytes(status, content_type@, body@),
{
    let mut head = String::from_str("HTTP/1.1 ");
    push_decimal(&mut head, status as u64);
    head.append(" ");
    head.append(reason(status));
    head.append("\r\ncontent-type: ");
    head.append(content_type);
    head.append("\r\ncontent-length: ");
    let body_bytes = body.as_bytes();
    push_decimal(&mut head, body_bytes.len() as u64);
    head.append("\r\ncache-control: no-store\r\nconnection: close\r\n\r\n");
    proof {
        assert(head@ =~= head_text(status, content_type@, encode_utf8(body@).len()));
    }
    let mut out: Vec<u8> = Vec::new();
    let hs = head.as_str();
    push_bytes(&mut out, hs.as_bytes());
    push_bytes(&mut out, body_bytes);
    proof {
        assert(out@ =~= response_bytes(status, content_type@, body@));
    }
    out
}

/// Whether the blank line `\r\n\r\n` starts at `i`.
pub open spec fn blank_line_at(b: Seq<u8>, i: int) -> bool {
    0 <= i && i + 4 <= b.len() && b[i] == 13 && b[i + 1] == 10 && b[i + 2] == 13 && b[i + 3] == 10
}

/// The head of a response: everything up to and including the first blank
/// line, or everything when there is none.
pub open spec fn head_of(b: Seq<u8>) -> Seq<u8> {
    if exists|i: int| blank_line_at(b, i) {
        let i = choose|i: int| blank_line_at(b, i) && forall|j: int| 0 <= j < i ==> !blank_line_at(b, j);
        b.take(i + 4)
    } else {
        b
    }
}

proof fn lemma_first_blank(b: Seq<u8>, k: int) -> (i: int)
    requires
        blank_line_at(b, k),
    ensures
        blank_line_at(b, i),
        forall|j: int| 0 <= j < i ==> !blank_line_at(b, j),
    decreases k,
{
    if exists|j: int| 0 <= j < k && blank_line_at(b, j) {
        let j = choose|j: int| 0 <= j < k && blank_line_at(b, j);
        lemma_first_blank(b, j)
    } else {
        k
    }
}

/// For `HEAD`: the headers only, with the `content-length` a `GET` would have.
pub fn headers_only(full: &[u8]) -> (h: Vec<u8>)
    ensures
        h@ == head_of(full@),
{
    let mut i: usize = 0;
    while full.len() >= 4 && i <= full.len() - 4
        invariant
            i <= full@.len(),
            forall|j: int| 0 <= j < i ==> !blank_line_at(full@, j),
        decreases full@.len() - i,
    {
        if full[i] == 13 && full[i + 1] == 10 && full[i + 2] == 13 && full[i + 3] == 10 {
            let mut h: Vec<u8> = Vec::new();
            push_bytes(&mut h, full);
            h.truncate(i + 4);
            proof {
                assert(blank_line_at(full@, i as int));
                let c = choose|c: int|
                    blank_line_at(full@, c) && forall|j: int| 0 <= j < c ==> !blank_line_at(full@, j);
                let w = lemma_first_blank(full@, i as int);
                assert(c == i) by {
                    if c < i {
                    } else if c > i {
                    }
                }
                assert(h@ =~= full@.take(i + 4));
            }
            return h;
        }
        i = i + 1;
    }
    let mut h: Vec<u8> = Vec::new();
    push_bytes(&mut h, full);
    proof {
        assert forall|j: int| !blank_line_at(full@, j) by {
            if blank_line_at(full@, j) {
                assert(j < i);
            }
        }
    }
    h
}

/// Whether `s` holds neither a carriage return nor a line feed.
pub open spec fn no_crlf(s: Seq<char>) -> bool {
    forall|i: int| 0 <= i < s.len() ==> s[i] != '\r' && s[i] != '\n'
}

/// Whether the characters `\r\n\r\n` start at `i`.
spec fn blank_chars_at(x: Seq<char>, i: int) -> bool {
    &&& 0 <= i
    &&& i + 4 <= x.len()
    &&& x[i] == '\r' && x[i + 1] == '\n' && x[i + 2] == '\r' && x[i + 3] == '\n'
}

/// Whether no blank line `\r\n\r\n` stands in `x`.
spec fn no_blank_chars(x: Seq<char>) -> bool {
    forall|i: int| !blank_chars_at(x, i)
}

proof fn lemma_encode_concat(a: Seq<char>, b: Seq<char>)
    ensures
        encode_utf8(a + b) == encode_utf8(a) + encode_utf8(b),
    decreases a.len(),
{
    if a.len() == 0 {
        assert(a + b =~= b);
        assert(encode_utf8(a) + encode_utf8(b) =~= encode_utf8(b));
    } else {
        lemma_encode_concat(a.drop_first(), b);
        assert((a + b).drop_first() =~= a.drop_first() + b);
        assert((a + b)[0] == a[0]);
        let c = vstd::utf8::encode_scalar(a[0] as u32);
        assert(c + (encode_utf8(a.drop_first()) + encode_utf8(b)) =~= (c + encode_utf8(a.drop_first()))
            + encode_utf8(b));
    }
}

/// The bytes of one character: itself alone when it is ASCII, otherwise
/// bytes of 0x80 and above only.
proof fn lemma_scalar_bytes(c: char)
    ensures
        vstd::utf8::encode_scalar(c as u32).len() >= 1,
        (c as u32) < 0x80 ==> vstd::utf8::encode_scalar(c as u32) == seq![(c as u32) as u8],
        (c as u32) >= 0x80 ==> forall|k: int|
            0 <= k < vstd::utf8::encode_scalar(c as u32).len() ==> #[trigger] vstd::utf8::encode_scalar(
                c as u32,
            )[k] >= 0x80,
{
    let s = c as u32;
    vstd::utf8::char_is_scalar(c);
    if s < 0x80 {
        assert(vstd::utf8::leading_byte_width_1(s) == s as u8) by (bit_vector)
            requires
                s < 0x80,
        ;
    } else {
        assert(vstd::utf8::leading_byte_width_2(s) >= 0x80) by (bit_vector);
        assert(vstd::utf8::leading_byte_width_3(s) >= 0x80) by (bit_vector);
        assert(vstd::utf8::leading_byte_width_4(s) >= 0x80) by (bit_vector);
        assert(vstd::utf8::last_continuation_byte(s) >= 0x80) by (bit_vector);
        assert(vstd::utf8::second_last_continuation_byte(s) >= 0x80) by (bit_vector);
        assert(vstd::utf8::third_last_continuation_byte(s) >= 0x80) by (bit_vector);
    }
}

/// An ASCII byte that starts the UTF-8 of `y` is the first character of `y`, encoded alone.
proof fn lemma_first_ascii(y: Seq<char>, b: u8)
    requires
        encode_utf8(y).len() > 0,
        encode_utf8(y)[0] == b,
        b < 0x80,
    ensures
        y.len() > 0,
        y[0] as u32 == b as u32,
        encode_utf8(y.drop_first()) == encode_utf8(y).drop_first(),
{
    if y.len() == 0 {
        assert(encode_utf8(y) =~= Seq::<u8>::empty());
    }
    lemma_scalar_bytes(y[0]);
    let e = vstd::utf8::encode_scalar(y[0] as u32);
    assert(encode_utf8(y) == e + encode_utf8(y.drop_first()));
    assert(encode_utf8(y)[0] == e[0]);
    if y[0] as u32 >= 0x80 {
        assert(e[0] >= 0x80);
    }
    assert(encode_utf8(y).drop_first() =~= encode_utf8(y.drop_first()));
}

/// Bytes `\r\n\r\n` in the UTF-8 of `x` come from characters `\r\n\r\n` in `x`.
proof fn lemma_blank_bytes_from_chars(x: Seq<char>, j: int)
    requires
        blank_line_at(encode_utf8(x), j),
    ensures
        exists|i: int| blank_chars_at(x, i),
    decreases x.len(),
{
    let e = encode_utf8(x);
    if x.len() == 0 {
        assert(e =~= Seq::<u8>::empty());
    }
    lemma_scalar_bytes(x[0]);
    let c = vstd::utf8::encode_scalar(x[0] as u32);
    let r = x.drop_first();
    assert(e == c + encode_utf8(r));
    if j >= c.len() {
        let er = encode_utf8(r);
        assert(er[j - c.len()] == e[j]);
        assert(er[j - c.len() + 1] == e[j + 1]);
        assert(er[j - c.len() + 2] == e[j + 2]);
        assert(er[j - c.len() + 3] == e[j + 3]);
        lemma_blank_bytes_from_chars(r, j - c.len());
        let i = choose|i: int| blank_chars_at(r, i);
        assert(blank_chars_at(x, i + 1));
    } else {
        if x[0] as u32 >= 0x80 {
            assert(c[j] >= 0x80);
        }
        assert(j == 0);
        assert(x[0] as u32 == 13);
        let e1 = encode_utf8(r);
        assert(e1 =~= e.drop_first());
        lemma_first_ascii(r, 10);
        let r2 = r.drop_first();
        assert(encode_utf8(r2)[0] == e[2]);
        lemma_first_ascii(r2, 13);
        let r3 = r2.drop_first();
        assert(encode_utf8(r3)[0] == e[3]);
        lemma_first_ascii(r3, 10);
        vstd::utf8::char_u32_cast(x[0], 13);
        vstd::utf8::char_u32_cast(r[0], 10);
        vstd::utf8::char_u32_cast(r2[0], 13);
        vstd::utf8::char_u32_cast(r3[0], 10);
        vstd::utf8::char_u32_cast('\r', 13);
        vstd::utf8::char_u32_cast('\n', 10);
        assert(x[1] == r[0] && x[2] == r2[0] && x[3] == r3[0]);
        assert(blank_chars_at(x, 0));
    }
}

proof fn lemma_no_crlf_concat(a: Seq<char>, b: Seq<char>)
    requires
        no_crlf(a),
        no_crlf(b),
    ensures
        no_crlf(a + b),
{
    assert forall|i: int| 0 <= i < (a + b).len() implies (a + b)[i] != '\r' && (a + b)[i] != '\n' by {
        if i < a.len() {
            assert((a + b)[i] == a[i]);
        } else {
            assert((a + b)[i] == b[i - a.len()]);
        }
    }
}

/// Joining two texts without blank lines, the first ending in neither `\r`
/// nor `\n`, makes no blank line.
proof fn lemma_no_blank_concat(a: Seq<char>, b: Seq<char>)
    requires
        no_blank_chars(a),
        no_blank_chars(b),
        a.len() > 0,
        a.last() != '\r' && a.last() != '\n',
    ensures
        no_blank_chars(a + b),
{
    let x = a + b;
    assert forall|i: int| !blank_chars_at(x, i) by {
        if blank_chars_at(x, i) {
            if i + 4 <= a.len() {
                assert(x[i] == a[i] && x[i + 1] == a[i + 1] && x[i + 2] == a[i + 2] && x[i + 3] == a[i + 3]);
                assert(blank_chars_at(a, i));
            } else if i >= a.len() {
                let k = i - a.len();
                assert(x[i] == b[k] && x[i + 1] == b[k + 1] && x[i + 2] == b[k + 2] && x[i + 3] == b[k + 3]);
                assert(blank_chars_at(b, k));
            } else {
                assert(x[a.len() - 1] == a.last());
            }
        }
    }
}

proof fn lemma_no_crlf_no_blank(s: Seq<char>)
    requires
        no_crlf(s),
    ensures
        no_blank_chars(s),
{
    assert forall|i: int| !blank_chars_at(s, i) by {
        if 0 <= i < s.len() {
            assert(s[i] != '\r');
        }
    }
}

/// The head of a response up to its last header line, and the head is that and a blank line.
proof fn lemma_head_parts(status: u16, content_type: Seq<char>, len: nat)
    requires
        no_crlf(content_type),
    ensures
        ({
            let x = "HTTP/1.1 "@ + decimal(status as nat) + " "@ + reason_text(status) + "\r\ncontent-type: "@
                + content_type + "\r\ncontent-length: "@ + decimal(len)
                + "\r\ncache-control: no-store\r\nconnection: close"@;
            &&& head_text(status, content_type, len) == x + "\r\n\r\n"@
            &&& no_blank_chars(x)
            &&& x.len() > 0
            &&& x.last() == 'e'
        }),
{
    reveal_strlit("HTTP/1.1 ");
    reveal_strlit(" ");
    reveal_strlit("OK");
    reveal_strlit("Bad Request");
    reveal_strlit("Not Found");
    reveal_strlit("Method Not Allowed");
    reveal_strlit("\r\ncontent-type: ");
    reveal_strlit("\r\ncontent-length: ");
    reveal_strlit("\r\ncache-control: no-store\r\nconnection: close");
    reveal_strlit("\r\ncache-control: no-store\r\nconnection: close\r\n\r\n");
    reveal_strlit("\r\n\r\n");
    crate::text::lemma_decimal_digits(status as nat);
    crate::text::lemma_decimal_digits(len);
    let ds = decimal(status as nat);
    let dl = decimal(len);
    assert(no_crlf(ds)) by {
        assert forall|i: int| 0 <= i < ds.len() implies ds[i] != '\r' && ds[i] != '\n' by {
            assert(crate::text::is_digit(ds[i]));
        }
    }
    assert(no_crlf(dl)) by {
        assert forall|i: int| 0 <= i < dl.len() implies dl[i] != '\r' && dl[i] != '\n' by {
            assert(crate::text::is_digit(dl[i]));
        }
    }
    assert(no_crlf("HTTP/1.1 "@));
    assert(no_crlf(" "@));
    assert(no_crlf(reason_text(status)));
    lemma_no_crlf_concat("HTTP/1.1 "@, ds);
    lemma_no_crlf_concat("HTTP/1.1 "@ + ds, " "@);
    lemma_no_crlf_concat("HTTP/1.1 "@ + ds + " "@, reason_text(status));
    let s1 = "HTTP/1.1 "@ + ds + " "@ + reason_text(status);
    lemma_no_crlf_no_blank(s1);
    assert(s1.last() != '\r' && s1.last() != '\n') by {
        assert(s1[s1.len() - 1] == s1.last());
    }
    let s2 = "\r\ncontent-type: "@;
    assert(no_blank_chars(s2));
    lemma_no_blank_concat(s1, s2);
    let a2 = s1 + s2;
    assert(a2.last() == ' ');
    lemma_no_crlf_no_blank(content_type);
    let a3 = a2 + content_type;
    if content_type.len() > 0 {
        lemma_no_blank_concat(a2, content_type);
        assert(a3.last() == content_type.last());
        assert(content_type[content_type.len() - 1] == content_type.last());
    } else {
        assert(a3 =~= a2);
    }
    let s4 = "\r\ncontent-length: "@;
    assert(no_blank_chars(s4));
    lemma_no_blank_concat(a3, s4);
    let a4 = a3 + s4;
    assert(a4.last() == ' ');
    lemma_no_crlf_no_blank(dl);
    lemma_no_blank_concat(a4, dl);
    let a5 = a4 + dl;
    assert(a5.last() == dl.last());
    assert(dl[dl.len() - 1] == dl.last());
    assert(crate::text::is_digit(dl[dl.len() - 1]));
    let s6 = "\r\ncache-control: no-store\r\nconnection: close"@;
    assert(no_blank_chars(s6));
    lemma_no_blank_concat(a5, s6);
    let x = a5 + s6;
    assert(x.last() == 'e');
    assert("\r\ncache-control: no-store\r\nconnection: close\r\n\r\n"@ =~= s6 + "\r\n\r\n"@);
    assert(head_text(status, content_type, len) =~= x + "\r\n\r\n"@);
}

/// After a text with no blank line that ends in neither `\r` nor `\n`, the
/// bytes `\r\n\r\n` are the first blank line, whatever follows them.
proof fn lemma_first_blank_after(x: Seq<char>, tail: Seq<u8>)
    requires
        no_blank_chars(x),
        x.len() > 0,
        x.last() != '\r' && x.last() != '\n',
    ensures
        ({
            let r = encode_utf8(x) + seq![13u8, 10u8, 13u8, 10u8] + tail;
            &&& blank_line_at(r, encode_utf8(x).len() as int)
            &&& forall|j: int| 0 <= j < encode_utf8(x).len() ==> !blank_line_at(r, j)
        }),
{
    let ex = encode_utf8(x);
    let r = ex + seq![13u8, 10u8, 13u8, 10u8] + tail;
    let k = ex.len() as int;
    let last = x.last();
    assert(x =~= x.drop_last() + seq![last]);
    lemma_encode_concat(x.drop_last(), seq![last]);
    lemma_scalar_bytes(last);
    let el = vstd::utf8::encode_scalar(last as u32);
    assert(encode_utf8(seq![last]) =~= el) by {
        assert(seq![last].drop_first() =~= Seq::<char>::empty());
        assert(encode_utf8(Seq::<char>::empty()) =~= Seq::<u8>::empty());
    }
    assert(ex == encode_utf8(x.drop_last()) + el);
    assert(ex[k - 1] == el[el.len() - 1]);
    if last as u32 >= 0x80 {
        assert(el[el.len() - 1] >= 0x80);
    } else {
        vstd::utf8::char_u32_cast('\r', 13);
        vstd::utf8::char_u32_cast('\n', 10);
        vstd::utf8::char_u32_cast(last, last as u32);
    }
    assert(ex[k - 1] != 13 && ex[k - 1] != 10);
    assert(r[k] == 13 && r[k + 1] == 10 && r[k + 2] == 13 && r[k + 3] == 10);
    assert forall|j: int| 0 <= j < k implies !blank_line_at(r, j) by {
        if blank_line_at(r, j) {
            if j + 4 <= k {
                assert(r[j] == ex[j] && r[j + 1] == ex[j + 1] && r[j + 2] == ex[j + 2] && r[j + 3] == ex[j + 3]);
                assert(blank_line_at(ex, j));
                lemma_blank_bytes_from_chars(x, j);
            } else {
                assert(r[k - 1] == ex[k - 1]);
            }
        }
    }
}

/// A `HEAD` request gets exactly the head a `GET` gets, its `content-length`
/// included, as long as the content type holds no line break.
pub proof fn law_head_is_the_get_head(status: u16, content_type: Seq<char>, body: Seq<char>)
    requires
        no_crlf(content_type),
    ensures
        head_of(response_bytes(status, content_type, body)) == encode_utf8(
            head_text(status, content_type, encode_utf8(body).len()),
        ),
{
    let len = encode_utf8(body).len();
    lemma_head_parts(status, content_type, len);
    let x = "HTTP/1.1 "@ + decimal(status as nat) + " "@ + reason_text(status) + "\r\ncontent-type: "@
        + content_type + "\r\ncontent-length: "@ + decimal(len) + "\r\ncache-control: no-store\r\nconnection: close"@;
    let blank = "\r\n\r\n"@;
    let ex = encode_utf8(x);
    lemma_encode_concat(x, blank);
    assert(encode_utf8(blank) =~= seq![13u8, 10u8, 13u8, 10u8]) by {
        reveal_strlit("\r\n\r\n");
        reveal_with_fuel(encode_utf8, 5);
        lemma_scalar_bytes('\r');
        lemma_scalar_bytes('\n');
    }
    let head = encode_utf8(head_text(status, content_type, len));
    let r = response_bytes(status, content_type, body);
    assert(r =~= ex + seq![13u8, 10u8, 13u8, 10u8] + encode_utf8(body));
    lemma_first_blank_after(x, encode_utf8(body));
    let k = ex.len() as int;
    let c = choose|c: int| blank_line_at(r, c) && forall|j: int| 0 <= j < c ==> !blank_line_at(r, j);
    assert(c == k) by {
        if c < k {
        } else if c > k {
        }
    }
    assert(r.take(k + 4) =~= head);
}

} // verus!

verus! {

/// What a request asks for.
pub enum Route {
    /// Not `GET` or `HEAD`.
    Refused,
    /// The health check.
    Health,
    /// A path that is not served.
    Missing,
    /// A visit: answer as JSON or as (coloured) text.
    Visit { json: bool, color: bool },
}

/// The path and the query string of a request target.
pub open spec fn path_and_query(target: Seq<char>) -> (Seq<char>, Seq<char>) {
    match split_once(target, '?') {
        Some(pq) => pq,
        None => (target, Seq::empty()),
    }
}

/// How a request is answered: only `GET` and `HEAD`; `/healthz` is the health
/// check; `/` and `/json` are visits, JSON for `/json` or `format=json`,
/// coloured unless `nocolor`; anything else is not found.
pub open spec fn route_of(method: Seq<char>, target: Seq<char>) -> Route {
    if method != "GET"@ && method != "HEAD"@ {
        Route::Refused
    } else {
        let (path, query) = path_and_query(target);
        if path == "/healthz"@ {
            Route::Health
        } else if path != "/"@ && path != "/json"@ {
            Route::Missing
        } else {
            Route::Visit {
                json: path == "/json"@ || flag_set(query, "format=json"@),
                color: !flag_set(query, "nocolor"@),
            }
        }
    }
}

/// Decides how a request is answered.
pub fn route_request(method: &str, target: &str) -> (r: Route)
    ensures
        r == route_of(method@, target@),
{
    if !str_is(method, "GET") && !str_is(method, "HEAD") {
        return Route::Refused;
    }
    let tc = chars_of(target);
    let q = find_char(&tc, 0, tc.len(), '?');
    proof {
        assert(tc@.subrange(0, tc@.len() as int) =~= tc@);
        lemma_first_index(tc@, '?');
    }
    let path = string_of(&tc, 0, q);
    let query = if q < tc.len() {
        string_of(&tc, q + 1, tc.len())
    } else {
        String::new()
    };
    proof {
        let (p, qs) = path_and_query(target@);
        assert(path@ =~= p);
        assert(query@ =~= qs);
    }
    if str_is(path.as_str(), "/healthz") {
        return Route::Health;
    }
    let is_json = str_is(path.as_str(), "/json");
    if !str_is(path.as_str(), "/") && !is_json {
        return Route::Missing;
    }
    let json = is_json || has_flag(query.as_str(), "format=json");
    let color = !has_flag(query.as_str(), "nocolor");
    Route::Visit { json, color }
}

/// The view of an optional string.
pub open spec fn opt_view(o: Option<&str>) -> Option<Seq<char>> {
    match o {
        Some(s) => Some(s@),
        None => None,
    }
}

/// Who is visiting: behind a proxy, the first address of `X-Forwarded-For`
/// (trimmed, if not empty); otherwise the peer address.
pub open spec fn identity_text(forwarded: Option<Seq<char>>, peer: Seq<char>) -> Seq<char> {
    match forwarded {
        Some(v) => {
            let first = trim(before_first(v, ','));
            if first.len() > 0 {
                first
            } else {
                peer
            }
        },
        None => peer,
    }
}

/// Who is visiting.
pub fn identity_of(forwarded: Option<&str>, peer: &str) -> (id: String)
    ensures
        id@ == identity_text(opt_view(forwarded), peer@),
{
    if let Some(v) = forwarded {
        let vc = chars_of(v);
        let e = find_char(&vc, 0, vc.len(), ',');
        let (a, b) = trim_at(&vc, 0, e);
        proof {
            assert(vc@.subrange(0, vc@.len() as int) =~= vc@);
            assert(vc@.subrange(0, e as int) =~= before_first(v@, ','));
        }
        if a < b {
            return string_of(&vc, a, b);
        }
    }
    String::from_str(peer)
}

/// The text answer to a visit, gold unless asked otherwise.
pub open spec fn visit_text(rank: u64, repeat: bool, color: bool) -> Seq<char> {
    if color {
        GOLD@ + message_text(rank, repeat) + RESET@ + "\n"@
    } else {
        message_text(rank, repeat) + "\n"@
    }
}

/// The response to a visit.
pub open spec fn visit_reply_bytes(day: Seq<char>, rank: u64, total: u64, repeat: bool, json: bool, color: bool) -> Seq<u8> {
    if json {
        response_bytes(200, APPLICATION_JSON@, json_text(day, rank, total, repeat))
    } else {
        response_bytes(200, TEXT_PLAIN@, visit_text(rank, repeat, color))
    }
}

/// The response to a visit.
pub fn visit_reply(w: &Worship, json: bool, color: bool) -> (r: Vec<u8>)
    ensures
        r@ == visit_reply_bytes(w.day@, w.rank, w.total, w.repeat, json, color),
{
    if json {
        let body = crate::http::json(w);
        return response(200, APPLICATION_JSON, body.as_str());
    }
    let l = line(w);
    let mut text = String::new();
    if color {
        text.append(GOLD);
        text.append(l.as_str());
        text.append(RESET);
        text.append("\n");
    } else {
        text.append(l.as_str());
        text.append("\n");
    }
    proof {
        assert(text@ =~= visit_text(w.rank, w.repeat, color));
    }
    response(200, TEXT_PLAIN, text.as_str())
}

/// The answer to anything but `GET` and `HEAD`.
pub open spec fn refused_bytes() -> Seq<u8> {
    response_bytes(405, TEXT_PLAIN@, "媽祖只受 GET 之禮\n"@)
}

/// The answer to the health check.
pub open spec fn health_bytes() -> Seq<u8> {
    response_bytes(200, APPLICATION_JSON@, "{\"ok\":true}\n"@)
}

/// The answer to a path that is not served.
pub open spec fn missing_bytes() -> Seq<u8> {
    response_bytes(404, TEXT_PLAIN@, "此路無廟\n"@)
}

/// The answer to a request that cannot be read.
pub open spec fn bad_request_bytes() -> Seq<u8> {
    response_bytes(400, TEXT_PLAIN@, "看不懂的請求\n"@)
}

/// The answer to a request that cannot be read.
pub fn bad_request() -> (r: Vec<u8>)
    ensures
        r@ == bad_request_bytes(),
{
    response(400, TEXT_PLAIN, "看不懂的請求\n")
}

/// Answers one request. A visit is recorded in the ledger under the
/// visitor's identity and today's date.
pub fn handle(method: &str, target: &str, forwarded: Option<&str>, peer: &str, counter: &mut Counter) -> (r: Vec<u8>)
    requires
        route_of(method@, target@) is Visit ==> forall|d: Seq<char>|
            can_count(
                old(counter)@,
                d,
                pilgrim_key(old(counter).salt(), identity_text(opt_view(forwarded), peer@)),
            ),
    ensures
        final(counter).salt() == old(counter).salt(),
        match route_of(method@, target@) {
            Route::Refused => r@ == refused_bytes(),
            Route::Health => r@ == health_bytes(),
            Route::Missing => r@ == missing_bytes(),
            Route::Visit { json, color } => exists|w: Worship, d: Seq<char>|
                {
                    &&& exists|secs: i64| is_day_text(local_day(secs), d)
                    &&& visit_recorded(
                        old(counter)@,
                        final(counter)@,
                        old(counter).pending(),
                        final(counter).pending(),
                        d,
                        pilgrim_key(old(counter).salt(), identity_text(opt_view(forwarded), peer@)),
                        w,
                    )
                    &&& r@ == visit_reply_bytes(w.day@, w.rank, w.total, w.repeat, json, color)
                },
        },
        !(route_of(method@, target@) is Visit) ==> final(counter)@ == old(counter)@,
        !(route_of(method@, target@) is Visit) ==> final(counter).pending() == old(counter).pending(),
{
    match route_request(method, target) {
        Route::Refused => response(405, TEXT_PLAIN, "媽祖只受 GET 之禮\n"),
        Route::Health => response(200, APPLICATION_JSON, "{\"ok\":true}\n"),
        Route::Missing => response(404, TEXT_PLAIN, "此路無廟\n"),
        Route::Visit { json, color } => {
            let identity = identity_of(forwarded, peer);
            let w = counter.worship(identity.as_str());
            visit_reply(&w, json, color)
        },
    }
}

/// What is sent back: for `HEAD` the head alone.
pub fn finish_reply(method: &str, full: Vec<u8>) -> (r: Vec<u8>)
    ensures
        r@ == if method@ == "HEAD"@ {
            head_of(full@)
        } else {
            full@
        },
{
    if str_is(method, "HEAD") {
        headers_only(full.as_slice())
    } else {
        full
    }
}

/// The method and the target of a request line: its first two words.
pub open spec fn request_line(line: Seq<char>) -> Option<(Seq<char>, Seq<char>)> {
    let w = words(line);
    if w.len() >= 2 {
        Some((w[0], w[1]))
    } else {
        None
    }
}

/// Reads the method and the target from the first line of a request.
pub fn parse_request_line(line: &str) -> (r: Option<(String, String)>)
    ensures
        match r {
            Some((m, t)) => request_line(line@) == Some((m@, t@)),
            None => request_line(line@) is None,
        },
{
    let cs = chars_of(line);
    let ws = word_ranges(&cs, cs.len());
    proof {
        assert(cs@.take(cs@.len() as int) =~= cs@);
    }
    if ws.len() < 2 {
        return None;
    }
    let method = string_of(&cs, ws[0].0, ws[0].1);
    let target = string_of(&cs, ws[1].0, ws[1].1);
    Some((method, target))
}

/// One header line, as far as it matters here.
pub enum Header {
    /// The blank line that ends the head.
    End,
    /// `X-Forwarded-For`, with its value trimmed.
    Forwarded(String),
    /// Any other header.
    Other,
}

/// What a header line says: the line is first stripped of trailing white
/// space; `X-Forwarded-For` is recognised in any ASCII case.
pub open spec fn header_of(line: Seq<char>) -> Option<Option<Seq<char>>> {
    let t = trim_end(line);
    if t.len() == 0 {
        None
    } else {
        match split_once(t, ':') {
            Some((name, value)) => if same_ignoring_ascii_case(name, "x-forwarded-for"@) {
                Some(Some(trim(value)))
            } else {
                Some(None)
            },
            None => Some(None),
        }
    }
}

/// Reads one header line.
pub fn classify_header(line: &str) -> (h: Header)
    ensures
        match h {
            Header::End => header_of(line@) is None,
            Header::Forwarded(v) => header_of(line@) == Some(Some(v@)),
            Header::Other => header_of(line@) == Some(None::<Seq<char>>),
        },
{
    let cs = chars_of(line);
    let e = trim_end_at(&cs, 0, cs.len());
    proof {
        assert(cs@.subrange(0, cs@.len() as int) =~= cs@);
    }
    if e == 0 {
        return Header::End;
    }
    let colon = find_char(&cs, 0, e, ':');
    proof {
        lemma_first_index(trim_end(line@), ':');
    }
    if colon == e {
        return Header::Other;
    }
    let name_lower = chars_of("x-forwarded-for");
    if range_is_ignoring_case(&cs, 0, colon, &name_lower) {
        let (a, b) = trim_at(&cs, colon + 1, e);
        proof {
            let t = trim_end(line@);
            assert(cs@.subrange(0, colon as int) =~= t.take(colon as int));
            assert(cs@.subrange(colon + 1, e as int) =~= t.skip(colon + 1));
        }
        Header::Forwarded(string_of(&cs, a, b))
    } else {
        proof {
            let t = trim_end(line@);
            assert(cs@.subrange(0, colon as int) =~= t.take(colon as int));
        }
        Header::Other
    }
}

/// Reading the header lines of a request: at most `MAX_HEADERS` of them,
/// up to the blank line or the end of the input; the last
/// `X-Forwarded-For` wins.
pub struct HeaderScan {
    pub forwarded: Option<String>,
    pub lines: usize,
    pub done: bool,
}

impl HeaderScan {
    /// Nothing read yet.
    pub fn new() -> (s: HeaderScan)
        ensures
            s.forwarded is None,
            s.lines == 0,
            !s.done,
    {
        HeaderScan { forwarded: None, lines: 0, done: false }
    }

    /// Whether another line is to be read.
    pub fn wants_more(&self) -> (b: bool)
        ensures
            b == (!self.done && self.lines < MAX_HEADERS),
    {
        !self.done && self.lines < MAX_HEADERS
    }

    /// Takes the next line read, or `None` at the end of the input.
    pub fn feed(&mut self, line: Option<&str>)
        requires
            old(self).lines < MAX_HEADERS,
        ensures
            final(self).lines == old(self).lines + 1,
            line is None ==> final(self).done && final(self).forwarded == old(self).forwarded,
            line matches Some(l) ==> match header_of(l@) {
                None => final(self).done && final(self).forwarded == old(self).forwarded,
                Some(None) => final(self).done == old(self).done && final(self).forwarded == old(
                    self,
                ).forwarded,
                Some(Some(v)) => final(self).done == old(self).done && (final(self).forwarded matches Some(
                    f,
                ) && f@ == v),
            },
    {
        self.lines = self.lines + 1;
        match line {
            None => {
                self.done = true;
            },
            Some(l) => match classify_header(l) {
                Header::End => {
                    self.done = true;
                },
                Header::Forwarded(v) => {
                    self.forwarded = Some(v);
                },
                Header::Other => {},
            },
        }
    }
}

} // verus!
