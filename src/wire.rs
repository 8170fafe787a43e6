use vstd::prelude::*;
use vstd::utf8::{
    encode_scalar, encode_utf8, encode_utf8_valid_utf8, has_width_1_encoding, pop_first_scalar,
    valid_first_scalar, valid_utf8, valid_utf8_concat,
};
use vstd::string::StringSliceAdditionalSpecFns;
use crate::event::{EditEvent, EditModel};

verus! {

/// The bytes of a fixed piece of ASCII text.
pub open spec fn text(s: &str) -> Seq<u8> {
    s.spec_bytes()
}

/// The lower-case hexadecimal digit of `n`, for `n < 16`.
pub open spec fn hex_lower(n: u8) -> u8 {
    if n < 10 {
        (48 + n) as u8
    } else {
        (87 + n) as u8
    }
}

/// How one byte stands inside a JSON string: quote, backslash and control bytes escaped,
/// every other byte (multi-byte UTF-8 included) as it is.
pub open spec fn escape_byte(b: u8) -> Seq<u8> {
    if b == 0x22 {
        seq![0x5cu8, 0x22u8]
    } else if b == 0x5c {
        seq![0x5cu8, 0x5cu8]
    } else if b == 0x08 {
        seq![0x5cu8, 0x62u8]
    } else if b == 0x0c {
        seq![0x5cu8, 0x66u8]
    } else if b == 0x0a {
        seq![0x5cu8, 0x6eu8]
    } else if b == 0x0d {
        seq![0x5cu8, 0x72u8]
    } else if b == 0x09 {
        seq![0x5cu8, 0x74u8]
    } else if b < 0x20 {
        seq![0x5cu8, 0x75u8, 0x30u8, 0x30u8, hex_lower(b / 16), hex_lower(b % 16)]
    } else {
        seq![b]
    }
}

pub open spec fn escape_bytes(s: Seq<u8>) -> Seq<u8>
    decreases s.len(),
{
    if s.len() == 0 {
        Seq::empty()
    } else {
        escape_bytes(s.drop_last()) + escape_byte(s.last())
    }
}

/// A text as a quoted JSON string.
pub open spec fn json_string(s: Seq<char>) -> Seq<u8> {
    seq![0x22u8] + escape_bytes(encode_utf8(s)) + seq![0x22u8]
}

/// The decimal digits of `n`, without leading zeros.
pub open spec fn digits(n: nat) -> Seq<u8>
    decreases n,
{
    if n < 10 {
        seq![(48 + n) as u8]
    } else {
        digits(n / 10).push((48 + n % 10) as u8)
    }
}

pub open spec fn json_bool(b: bool) -> Seq<u8> {
    if b {
        text("true")
    } else {
        text("false")
    }
}

pub open spec fn json_opt_string(c: Option<Seq<char>>) -> Seq<u8> {
    match c {
        Some(s) => json_string(s),
        None => text("null"),
    }
}

/// The JSON object of an edit event, fields in declaration order, no spaces.
#[verifier::opaque]
pub open spec fn event_json(e: EditModel) -> Seq<u8> {
    text("{\"doc_id\":") + json_string(e.doc_id) + text(",\"user_id\":") + json_string(e.user_id)
        + text(",\"operation\":") + json_string(e.operation) + text(",\"position\":") + digits(
        e.position,
    ) + text(",\"character\":") + json_opt_string(e.character) + text(",\"timestamp\":") + digits(
        e.timestamp,
    ) + text("}")
}

/// The echo of a typing indicator.
pub open spec fn typing_json(user: Seq<char>, is_typing: bool) -> Seq<u8> {
    text("{\"type\":\"typing\",\"user_id\":") + json_string(user) + text(",\"is_typing\":")
        + json_bool(is_typing) + text("}")
}

/// The echo of a cursor position.
pub open spec fn cursor_json(user: Seq<char>, position: nat) -> Seq<u8> {
    text("{\"type\":\"cursor\",\"user_id\":") + json_string(user) + text(",\"position\":") + digits(
        position,
    ) + text("}")
}

proof fn lemma_or_high(y: u8)
    ensures
        0x80u8 | y >= 0x80u8,
        0xc0u8 | y >= 0x80u8,
        0xe0u8 | y >= 0x80u8,
        0xf0u8 | y >= 0x80u8,
{
    assert(0x80u8 | y >= 0x80u8) by (bit_vector);
    assert(0xc0u8 | y >= 0x80u8) by (bit_vector);
    assert(0xe0u8 | y >= 0x80u8) by (bit_vector);
    assert(0xf0u8 | y >= 0x80u8) by (bit_vector);
}

proof fn lemma_low_byte(c: u32)
    ensures
        ((c & 0x7f) as u8) < 0x80u8,
{
    assert(((c & 0x7f) as u8) < 0x80u8) by (bit_vector);
}

/// Bytes below 0x80 are valid UTF-8.
proof fn lemma_ascii_valid(b: Seq<u8>)
    requires
        forall|i: int| 0 <= i < b.len() ==> b[i] < 0x80,
    ensures
        valid_utf8(b),
    decreases b.len(),
{
    if b.len() > 0 {
        let rest = b.subrange(1, b.len() as int);
        lemma_ascii_valid(rest);
        assert(valid_first_scalar(b));
        assert(pop_first_scalar(b) =~= rest);
    }
}

pub(crate) proof fn lemma_escape_bytes_append(x: Seq<u8>, y: Seq<u8>)
    ensures
        escape_bytes(x + y) == escape_bytes(x) + escape_bytes(y),
    decreases y.len(),
{
    if y.len() == 0 {
        assert(x + y =~= x);
        assert(escape_bytes(x) + escape_bytes(y) =~= escape_bytes(x));
    } else {
        assert((x + y).drop_last() =~= x + y.drop_last());
        lemma_escape_bytes_append(x, y.drop_last());
        assert((x + y).last() == y.last());
    }
}

proof fn lemma_escape_high(x: Seq<u8>)
    requires
        forall|i: int| 0 <= i < x.len() ==> x[i] >= 0x80,
    ensures
        escape_bytes(x) == x,
    decreases x.len(),
{
    if x.len() > 0 {
        lemma_escape_high(x.drop_last());
        assert(x.drop_last().push(x.last()) =~= x);
    }
}

proof fn lemma_escape_low(x: Seq<u8>)
    requires
        forall|i: int| 0 <= i < x.len() ==> x[i] < 0x80,
    ensures
        forall|i: int| 0 <= i < escape_bytes(x).len() ==> escape_bytes(x)[i] < 0x80,
    decreases x.len(),
{
    if x.len() > 0 {
        lemma_escape_low(x.drop_last());
        let a = escape_bytes(x.drop_last());
        let e = escape_byte(x.last());
        assert forall|i: int| 0 <= i < (a + e).len() implies (a + e)[i] < 0x80 by {
            if i >= a.len() {
                assert(e[i - a.len()] < 0x80);
            }
        }
    }
}

/// The escaped bytes of a text are valid UTF-8.
proof fn lemma_escaped_valid(s: Seq<char>)
    ensures
        valid_utf8(escape_bytes(encode_utf8(s))),
    decreases s.len(),
{
    if s.len() == 0 {
        assert(escape_bytes(encode_utf8(s)) =~= Seq::<u8>::empty());
        lemma_ascii_valid(Seq::<u8>::empty());
    } else {
        vstd::utf8::char_is_scalar(s[0]);
        let c = s[0] as u32;
        let e = encode_scalar(c);
        let tail = encode_utf8(s.drop_first());
        lemma_escape_bytes_append(e, tail);
        lemma_escaped_valid(s.drop_first());
        if has_width_1_encoding(c) {
            lemma_low_byte(c);
            lemma_escape_low(e);
            lemma_ascii_valid(escape_bytes(e));
        } else {
            lemma_or_high(((c >> 6) & 0x1F) as u8);
            lemma_or_high(((c >> 12) & 0x0F) as u8);
            lemma_or_high(((c >> 18) & 0x7) as u8);
            lemma_or_high((c & 0x3F) as u8);
            lemma_or_high(((c >> 6) & 0x3F) as u8);
            lemma_or_high(((c >> 12) & 0x3F) as u8);
            lemma_escape_high(e);
            let one = seq![s[0]];
            assert(one.drop_first() =~= Seq::<char>::empty());
            assert(one[0] == s[0]);
            assert(encode_utf8(Seq::<char>::empty()) =~= Seq::<u8>::empty());
            assert(encode_utf8(one) == e + encode_utf8(one.drop_first()));
            assert(encode_utf8(one) =~= e);
            encode_utf8_valid_utf8(one);
        }
        valid_utf8_concat(escape_bytes(e), escape_bytes(tail));
    }
}

/// A quoted JSON string is valid UTF-8.
proof fn lemma_json_string_valid(s: Seq<char>)
    ensures
        valid_utf8(json_string(s)),
{
    lemma_escaped_valid(s);
    lemma_ascii_valid(seq![0x22u8]);
    valid_utf8_concat(seq![0x22u8], escape_bytes(encode_utf8(s)));
    valid_utf8_concat(seq![0x22u8] + escape_bytes(encode_utf8(s)), seq![0x22u8]);
}

/// Fixed text is valid UTF-8.
proof fn lemma_text_valid(s: &str)
    ensures
        valid_utf8(text(s)),
{
    encode_utf8_valid_utf8(s@);
}

proof fn lemma_json_opt_string_valid(c: Option<Seq<char>>)
    ensures
        valid_utf8(json_opt_string(c)),
{
    match c {
        Some(s) => lemma_json_string_valid(s),
        None => lemma_text_valid("null"),
    }
}

/// Decimal digits are valid UTF-8.
proof fn lemma_digits_valid(n: nat)
    ensures
        valid_utf8(digits(n)),
    decreases n,
{
    if n >= 10 {
        lemma_digits_valid(n / 10);
        lemma_ascii_valid(seq![(48 + n % 10) as u8]);
        assert(digits(n) == digits(n / 10) + seq![(48 + n % 10) as u8]);
        valid_utf8_concat(digits(n / 10), seq![(48 + n % 10) as u8]);
    } else {
        lemma_ascii_valid(seq![(48 + n) as u8]);
    }
}

fn push_bytes(out: &mut Vec<u8>, b: &[u8])
    ensures
        final(out)@ == old(out)@ + b@,
{
    let ghost start = out@;
    let mut i: usize = 0;
    while i < b.len()
        invariant
            i <= b@.len(),
            out@ == start + b@.subrange(0, i as int),
        decreases b@.len() - i,
    {
        out.push(b[i]);
        assert(b@.subrange(0, i + 1) =~= b@.subrange(0, i as int).push(b@[i as int]));
        i = i + 1;
    }
    assert(b@.subrange(0, b@.len() as int) =~= b@);
}

fn push_text(out: &mut Vec<u8>, s: &str)
    ensures
        final(out)@ == old(out)@ + text(s),
{
    push_bytes(out, s.as_bytes());
}

fn hex_digit(n: u8) -> (r: u8)
    requires
        n < 16,
    ensures
        r == hex_lower(n),
{
    if n < 10 {
        48 + n
    } else {
        87 + n
    }
}

fn push_escaped_byte(out: &mut Vec<u8>, b: u8)
    ensures
        final(out)@ == old(out)@ + escape_byte(b),
{
    let ghost start = out@;
    if b == 0x22 || b == 0x5c {
        out.push(0x5c);
        out.push(b);
    } else if b == 0x08 || b == 0x0c || b == 0x0a || b == 0x0d || b == 0x09 {
        let letter: u8 = if b == 0x08 {
            0x62
        } else if b == 0x0c {
            0x66
        } else if b == 0x0a {
            0x6e
        } else if b == 0x0d {
            0x72
        } else {
            0x74
        };
        out.push(0x5c);
        out.push(letter);
    } else if b < 0x20 {
        out.push(0x5c);
        out.push(0x75);
        out.push(0x30);
        out.push(0x30);
        out.push(hex_digit(b / 16));
        out.push(hex_digit(b % 16));
    } else {
        out.push(b);
    }
    assert(out@ =~= start + escape_byte(b));
}

fn push_json_string(out: &mut Vec<u8>, s: &str)
    ensures
        final(out)@ == old(out)@ + json_string(s@),
{
    let ghost start = out@;
    let b = s.as_bytes();
    out.push(0x22);
    let mut i: usize = 0;
    while i < b.len()
        invariant
            i <= b@.len(),
            b@ == encode_utf8(s@),
            out@ == start + seq![0x22u8] + escape_bytes(b@.subrange(0, i as int)),
        decreases b@.len() - i,
    {
        assert(b@.subrange(0, i + 1).drop_last() =~= b@.subrange(0, i as int));
        push_escaped_byte(out, b[i]);
        i = i + 1;
    }
    assert(b@.subrange(0, b@.len() as int) =~= b@);
    out.push(0x22);
    assert(out@ =~= start + json_string(s@));
}

fn push_decimal(out: &mut Vec<u8>, n: u64)
    ensures
        final(out)@ == old(out)@ + digits(n as nat),
    decreases n,
{
    let ghost start = out@;
    if n >= 10 {
        push_decimal(out, n / 10);
    }
    out.push((48 + n % 10) as u8);
    assert(out@ =~= start + digits(n as nat));
}

/// The JSON text of an edit event, as it is appended to the log and sent to viewers.
pub fn encode_event(e: &EditEvent) -> (r: Vec<u8>)
    ensures
        r@ == event_json(e@),
        valid_utf8(r@),
{
    let mut out: Vec<u8> = Vec::new();
    push_text(&mut out, "{\"doc_id\":");
    push_json_string(&mut out, e.doc_id.as_str());
    push_text(&mut out, ",\"user_id\":");
    push_json_string(&mut out, e.user_id.as_str());
    push_text(&mut out, ",\"operation\":");
    push_json_string(&mut out, e.operation.as_str());
    push_text(&mut out, ",\"position\":");
    push_decimal(&mut out, e.position as u64);
    push_text(&mut out, ",\"character\":");
    match &e.character {
        Some(c) => push_json_string(&mut out, c.as_str()),
        None => push_text(&mut out, "null"),
    }
    push_text(&mut out, ",\"timestamp\":");
    push_decimal(&mut out, e.timestamp);
    push_text(&mut out, "}");
    reveal(event_json);
    assert(out@ =~= event_json(e@));
    proof {
        lemma_json_string_valid(e@.doc_id);
        lemma_json_string_valid(e@.user_id);
        lemma_json_string_valid(e@.operation);
        lemma_digits_valid(e@.position);
        lemma_digits_valid(e@.timestamp);
        lemma_text_valid("{\"doc_id\":");
        lemma_text_valid(",\"user_id\":");
        lemma_text_valid(",\"operation\":");
        lemma_text_valid(",\"position\":");
        lemma_text_valid(",\"character\":");
        lemma_text_valid(",\"timestamp\":");
        lemma_text_valid("}");
        lemma_json_opt_string_valid(e@.character);
        valid_utf8_concat(text("{\"doc_id\":"), json_string(e@.doc_id));
        valid_utf8_concat(text("{\"doc_id\":") + json_string(e@.doc_id), text(",\"user_id\":"));
        valid_utf8_concat(text("{\"doc_id\":") + json_string(e@.doc_id) + text(",\"user_id\":"), json_string(e@.user_id));
        valid_utf8_concat(text("{\"doc_id\":") + json_string(e@.doc_id) + text(",\"user_id\":") + json_string(e@.user_id), text(",\"operation\":"));
        valid_utf8_concat(text("{\"doc_id\":") + json_string(e@.doc_id) + text(",\"user_id\":") + json_string(e@.user_id) + text(",\"operation\":"), json_string(e@.operation));
        valid_utf8_concat(text("{\"doc_id\":") + json_string(e@.doc_id) + text(",\"user_id\":") + json_string(e@.user_id) + text(",\"operation\":") + json_string(e@.operation), text(",\"position\":"));
        valid_utf8_concat(text("{\"doc_id\":") + json_string(e@.doc_id) + text(",\"user_id\":") + json_string(e@.user_id) + text(",\"operation\":") + json_string(e@.operation) + text(",\"position\":"), digits(e@.position));
        valid_utf8_concat(text("{\"doc_id\":") + json_string(e@.doc_id) + text(",\"user_id\":") + json_string(e@.user_id) + text(",\"operation\":") + json_string(e@.operation) + text(",\"position\":") + digits(e@.position), text(",\"character\":"));
        valid_utf8_concat(text("{\"doc_id\":") + json_string(e@.doc_id) + text(",\"user_id\":") + json_string(e@.user_id) + text(",\"operation\":") + json_string(e@.operation) + text(",\"position\":") + digits(e@.position) + text(",\"character\":"), json_opt_string(e@.character));
        valid_utf8_concat(text("{\"doc_id\":") + json_string(e@.doc_id) + text(",\"user_id\":") + json_string(e@.user_id) + text(",\"operation\":") + json_string(e@.operation) + text(",\"position\":") + digits(e@.position) + text(",\"character\":") + json_opt_string(e@.character), text(",\"timestamp\":"));
        valid_utf8_concat(text("{\"doc_id\":") + json_string(e@.doc_id) + text(",\"user_id\":") + json_string(e@.user_id) + text(",\"operation\":") + json_string(e@.operation) + text(",\"position\":") + digits(e@.position) + text(",\"character\":") + json_opt_string(e@.character) + text(",\"timestamp\":"), digits(e@.timestamp));
        valid_utf8_concat(text("{\"doc_id\":") + json_string(e@.doc_id) + text(",\"user_id\":") + json_string(e@.user_id) + text(",\"operation\":") + json_string(e@.operation) + text(",\"position\":") + digits(e@.position) + text(",\"character\":") + json_opt_string(e@.character) + text(",\"timestamp\":") + digits(e@.timestamp), text("}"));
    }
    out
}

/// The message echoed to a client that reported typing.
pub fn encode_typing(user: &String, is_typing: bool) -> (r: Vec<u8>)
    ensures
        r@ == typing_json(user@, is_typing),
        valid_utf8(r@),
{
    let mut out: Vec<u8> = Vec::new();
    push_text(&mut out, "{\"type\":\"typing\",\"user_id\":");
    push_json_string(&mut out, user.as_str());
    push_text(&mut out, ",\"is_typing\":");
    if is_typing {
        push_text(&mut out, "true");
    } else {
        push_text(&mut out, "false");
    }
    push_text(&mut out, "}");
    assert(out@ =~= typing_json(user@, is_typing));
    proof {
        lemma_json_string_valid(user@);
        lemma_text_valid("{\"type\":\"typing\",\"user_id\":");
        lemma_text_valid(",\"is_typing\":");
        lemma_text_valid("}");
        lemma_text_valid("true");
        lemma_text_valid("false");
        valid_utf8_concat(text("{\"type\":\"typing\",\"user_id\":"), json_string(user@));
        valid_utf8_concat(text("{\"type\":\"typing\",\"user_id\":") + json_string(user@), text(",\"is_typing\":"));
        valid_utf8_concat(text("{\"type\":\"typing\",\"user_id\":") + json_string(user@) + text(",\"is_typing\":"), json_bool(is_typing));
        valid_utf8_concat(text("{\"type\":\"typing\",\"user_id\":") + json_string(user@) + text(",\"is_typing\":") + json_bool(is_typing), text("}"));
    }
    out
}

/// The message echoed to a client that moved its cursor.
pub fn encode_cursor(user: &String, position: usize) -> (r: Vec<u8>)
    ensures
        r@ == cursor_json(user@, position as nat),
        valid_utf8(r@),
{
    let mut out: Vec<u8> = Vec::new();
    push_text(&mut out, "{\"type\":\"cursor\",\"user_id\":");
    push_json_string(&mut out, user.as_str());
    push_text(&mut out, ",\"position\":");
    push_decimal(&mut out, position as u64);
    push_text(&mut out, "}");
    assert(out@ =~= cursor_json(user@, position as nat));
    proof {
        lemma_json_string_valid(user@);
        lemma_digits_valid(position as nat);
        lemma_text_valid("{\"type\":\"cursor\",\"user_id\":");
        lemma_text_valid(",\"position\":");
        lemma_text_valid("}");
        valid_utf8_concat(text("{\"type\":\"cursor\",\"user_id\":"), json_string(user@));
        valid_utf8_concat(text("{\"type\":\"cursor\",\"user_id\":") + json_string(user@), text(",\"position\":"));
        valid_utf8_concat(text("{\"type\":\"cursor\",\"user_id\":") + json_string(user@) + text(",\"position\":"), digits(position as nat));
        valid_utf8_concat(text("{\"type\":\"cursor\",\"user_id\":") + json_string(user@) + text(",\"position\":") + digits(position as nat), text("}"));
    }
    out
}

} // verus!
