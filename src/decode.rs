use vstd::prelude::*;
use vstd::utf8::{encode_utf8, valid_utf8, encode_utf8_valid_utf8, encode_utf8_decode_utf8};
use vstd::string::StringSliceAdditionalSpecFns;
use crate::event::{EditEvent, EditModel};
use crate::wire::{lemma_escape_bytes_append, digits, encode_event, escape_byte, escape_bytes, event_json, hex_lower, json_opt_string, json_string, text};

verus! {

/// The value of a lower-case hexadecimal digit.
pub open spec fn hex_value(h: u8) -> Option<u8> {
    if 48 <= h <= 57 {
        Some((h - 48) as u8)
    } else if 97 <= h <= 102 {
        Some((h - 87) as u8)
    } else {
        None
    }
}

/// The byte that the escape unit at `i` stands for, and where the next unit starts.
pub open spec fn unit_at(b: Seq<u8>, i: int) -> Option<(u8, int)> {
    if !(0 <= i < b.len()) || b[i] == 0x22 {
        None
    } else if b[i] != 0x5c {
        Some((b[i], i + 1))
    } else if i + 1 >= b.len() {
        None
    } else {
        let y = b[i + 1];
        if y == 0x22 || y == 0x5c {
            Some((y, i + 2))
        } else if y == 0x62 {
            Some((0x08u8, i + 2))
        } else if y == 0x66 {
            Some((0x0cu8, i + 2))
        } else if y == 0x6e {
            Some((0x0au8, i + 2))
        } else if y == 0x72 {
            Some((0x0du8, i + 2))
        } else if y == 0x74 {
            Some((0x09u8, i + 2))
        } else if y == 0x75 && b.len() - i > 5 && b[i + 2] == 0x30 && b[i + 3] == 0x30 {
            match (hex_value(b[i + 4]), hex_value(b[i + 5])) {
                (Some(h), Some(l)) => Some(((h * 16 + l) as u8, i + 6)),
                _ => None,
            }
        } else {
            None
        }
    }
}

/// The bytes of the JSON string body that starts at `i`, and the index after its closing quote.
pub open spec fn unescape_from(b: Seq<u8>, i: int) -> Option<(Seq<u8>, int)>
    decreases b.len() - i,
{
    if !(0 <= i < b.len()) {
        None
    } else if b[i] == 0x22 {
        Some((Seq::empty(), i + 1))
    } else {
        match unit_at(b, i) {
            Some((c, j)) => if i < j <= b.len() {
                match unescape_from(b, j) {
                    Some((t, k)) => Some((seq![c] + t, k)),
                    None => None,
                }
            } else {
                None
            },
            None => None,
        }
    }
}

proof fn lemma_unit_of_escape(b: Seq<u8>, i: int, c: u8)
    requires
        0 <= i,
        i + escape_byte(c).len() <= b.len(),
        b.subrange(i, i + escape_byte(c).len()) == escape_byte(c),
    ensures
        unit_at(b, i) == Some((c, i + escape_byte(c).len())),
{
    let e = escape_byte(c);
    assert(forall|k: int| 0 <= k < e.len() ==> b[i + k] == #[trigger] e[k]) by {
        assert forall|k: int| 0 <= k < e.len() implies b[i + k] == #[trigger] e[k] by {
            assert(b.subrange(i, i + e.len())[k] == b[i + k]);
        }
    }
    assert(b[i] == e[0]);
    if e.len() >= 2 {
        assert(b[i + 1] == e[1]);
    }
    if c < 0x20 && c != 0x08 && c != 0x0c && c != 0x0a && c != 0x0d && c != 0x09 {
        assert(e.len() == 6);
        assert(b[i + 2] == e[2]);
        assert(b[i + 3] == e[3]);
        assert(b[i + 4] == e[4]);
        assert(b[i + 5] == e[5]);
        assert(e[4] == hex_lower(c / 16));
        assert(e[5] == hex_lower(c % 16));
        assert(hex_value(hex_lower(c / 16)) == Some(c / 16));
        assert(hex_value(hex_lower(c % 16)) == Some(c % 16));
        assert(((c / 16) * 16 + c % 16) as u8 == c);
    }
}

/// Unescaping the escaped bytes of `x`, followed by a quote, gives back `x`.
proof fn lemma_unescape_escaped(pre: Seq<u8>, x: Seq<u8>, rest: Seq<u8>)
    ensures
        unescape_from(pre + escape_bytes(x) + seq![0x22u8] + rest, pre.len() as int) == Some(
            (x, pre.len() + escape_bytes(x).len() + 1 as int),
        ),
    decreases x.len(),
{
    let b = pre + escape_bytes(x) + seq![0x22u8] + rest;
    let i = pre.len() as int;
    if x.len() == 0 {
        assert(b[i] == 0x22);
    } else {
        let c = x[0];
        let t = x.drop_first();
        lemma_escape_bytes_append(seq![c], t);
        assert(seq![c] + t =~= x);
        assert(seq![c].drop_last() =~= Seq::<u8>::empty());
        assert(seq![c].last() == c);
        assert(escape_bytes(Seq::<u8>::empty()) =~= Seq::<u8>::empty());
        assert(escape_bytes(seq![c]) == escape_bytes(seq![c].drop_last()) + escape_byte(c));
        assert(escape_bytes(seq![c]) =~= escape_byte(c));
        let e = escape_byte(c);
        assert(b =~= (pre + e) + escape_bytes(t) + seq![0x22u8] + rest);
        assert(b.subrange(i, i + e.len()) =~= e);
        lemma_unit_of_escape(b, i, c);
        assert(b[i] == e[0]);
        lemma_unescape_escaped(pre + e, t, rest);
        assert(seq![c] + t =~= x);
    }
}

fn hex_digit_value(h: u8) -> (r: Option<u8>)
    ensures
        r == hex_value(h),
{
    if 48 <= h && h <= 57 {
        Some(h - 48)
    } else if 97 <= h && h <= 102 {
        Some(h - 87)
    } else {
        None
    }
}

fn read_unit(b: &[u8], i: usize) -> (r: Option<(u8, usize)>)
    ensures
        match r {
            Some((c, j)) => unit_at(b@, i as int) == Some((c, j as int)),
            None => unit_at(b@, i as int) is None,
        },
{
    if i >= b.len() || b[i] == 0x22 {
        return None;
    }
    if b[i] != 0x5c {
        return Some((b[i], i + 1));
    }
    if i + 1 >= b.len() {
        return None;
    }
    let y = b[i + 1];
    if y == 0x22 || y == 0x5c {
        Some((y, i + 2))
    } else if y == 0x62 {
        Some((0x08, i + 2))
    } else if y == 0x66 {
        Some((0x0c, i + 2))
    } else if y == 0x6e {
        Some((0x0a, i + 2))
    } else if y == 0x72 {
        Some((0x0d, i + 2))
    } else if y == 0x74 {
        Some((0x09, i + 2))
    } else if y == 0x75 && b.len() - i > 5 && b[i + 2] == 0x30 && b[i + 3] == 0x30 {
        match (hex_digit_value(b[i + 4]), hex_digit_value(b[i + 5])) {
            (Some(h), Some(l)) => Some((h * 16 + l, i + 6)),
            _ => None,
        }
    } else {
        None
    }
}

/// Reads the body of a JSON string that starts at `i`, just after its opening quote.
fn unescape(b: &[u8], i: usize) -> (r: Option<(Vec<u8>, usize)>)
    ensures
        match r {
            Some((t, k)) => unescape_from(b@, i as int) == Some((t@, k as int)),
            None => unescape_from(b@, i as int) is None,
        },
{
    let mut out: Vec<u8> = Vec::new();
    let mut j: usize = i;
    loop
        invariant
            i <= j,
            unescape_from(b@, i as int) == match unescape_from(b@, j as int) {
                Some((t, k)) => Some((out@ + t, k)),
                None => None,
            },
        decreases b@.len() - j,
    {
        if j >= b.len() {
            return None;
        }
        if b[j] == 0x22 {
            assert(out@ + Seq::<u8>::empty() =~= out@);
            return Some((out, j + 1));
        }
        match read_unit(b, j) {
            None => {
                return None;
            },
            Some((c, next)) => {
                assert(j < next <= b@.len());
                let ghost before = out@;
                out.push(c);
                proof {
                    match unescape_from(b@, next as int) {
                        Some((t, k)) => {
                            assert(before + (seq![c] + t) =~= out@ + t);
                        },
                        None => {},
                    }
                }
                j = next;
            },
        }
    }
}

/// Relies on std's String::from_utf8: it succeeds exactly on valid UTF-8, and the string
/// holds those bytes.
#[verifier::external_body]
fn string_from_utf8(v: Vec<u8>) -> (r: Option<String>)
    ensures
        match r {
            Some(s) => encode_utf8(s@) == v@,
            None => !valid_utf8(v@),
        },
{
    String::from_utf8(v).ok()
}

/// Whether a quoted JSON string for `s` stands in `b` at `i`.
#[verifier::opaque]
pub open spec fn string_at(b: Seq<u8>, i: int, s: Seq<char>) -> bool {
    &&& 0 <= i
    &&& i + json_string(s).len() <= b.len()
    &&& b.subrange(i, i + json_string(s).len()) == json_string(s)
}

/// Where the encoding of `s` stands at `i`, its body unescapes to the bytes of `s`.
proof fn lemma_string_at(b: Seq<u8>, i: int, s: Seq<char>)
    requires
        string_at(b, i, s),
    ensures
        unescape_from(b, i + 1) == Some((encode_utf8(s), i + json_string(s).len() as int)),
{
    reveal(string_at);
    let x = encode_utf8(s);
    let js = json_string(s);
    let pre = b.subrange(0, i + 1);
    let rest = b.subrange(i + js.len(), b.len() as int);
    assert(js =~= seq![0x22u8] + escape_bytes(x) + seq![0x22u8]);
    assert forall|k: int| 0 <= k < b.len() implies b[k] == (pre + escape_bytes(x) + seq![0x22u8]
        + rest)[k] by {
        if i <= k < i + js.len() {
            assert(b.subrange(i, i + js.len())[k - i] == b[k]);
        }
    }
    assert(b =~= pre + escape_bytes(x) + seq![0x22u8] + rest);
    lemma_unescape_escaped(pre, x, rest);
}

/// Reads a quoted JSON string at `i`; where the encoding of some text stands there, that
/// text comes back with the index after the closing quote.
fn parse_string(b: &[u8], i: usize) -> (r: Option<(String, usize)>)
    ensures
        forall|s: Seq<char>| #[trigger]
            string_at(b@, i as int, s) ==> match r {
                Some((t, k)) => t@ == s && k == i + json_string(s).len(),
                None => false,
            },
{
    if i >= b.len() || b[i] != 0x22 {
        proof {
            assert forall|s: Seq<char>| #[trigger] string_at(b@, i as int, s) implies false by {
                reveal(string_at);
                assert(b@.subrange(i as int, i + json_string(s).len())[0] == b@[i as int]);
            }
        }
        return None;
    }
    match unescape(b, i + 1) {
        None => {
            proof {
                assert forall|s: Seq<char>| #[trigger] string_at(b@, i as int, s) implies false by {
                    lemma_string_at(b@, i as int, s);
                }
            }
            None
        },
        Some((t, k)) => {
            let ghost bytes = t@;
            match string_from_utf8(t) {
                None => {
                    proof {
                        assert forall|s: Seq<char>| #[trigger] string_at(b@, i as int, s) implies false by {
                            lemma_string_at(b@, i as int, s);
                            encode_utf8_valid_utf8(s);
                        }
                    }
                    None
                },
                Some(text) => {
                    proof {
                        assert forall|s: Seq<char>| #[trigger] string_at(b@, i as int, s) implies text@
                            == s && k == i + json_string(s).len() by {
                            lemma_string_at(b@, i as int, s);
                            encode_utf8_decode_utf8(text@);
                            encode_utf8_decode_utf8(s);
                        }
                    }
                    Some((text, k))
                },
            }
        },
    }
}



/// The number that a run of decimal digits stands for.
pub open spec fn value_of(s: Seq<u8>) -> nat
    decreases s.len(),
{
    if s.len() == 0 {
        0
    } else {
        value_of(s.drop_last()) * 10 + (s.last() - 48) as nat
    }
}

pub open spec fn is_digit(c: u8) -> bool {
    48 <= c <= 57
}

/// Whether the digits of `n` stand in `b` at `i`, not followed by another digit.
#[verifier::opaque]
pub open spec fn number_at(b: Seq<u8>, i: int, n: nat) -> bool {
    &&& 0 <= i
    &&& i + digits(n).len() <= b.len()
    &&& b.subrange(i, i + digits(n).len()) == digits(n)
    &&& (i + digits(n).len() < b.len() ==> !is_digit(b[i + digits(n).len()]))
}

proof fn lemma_digits(n: nat)
    ensures
        digits(n).len() >= 1,
        forall|k: int| 0 <= k < digits(n).len() ==> is_digit(#[trigger] digits(n)[k]),
        value_of(digits(n)) == n,
    decreases n,
{
    if n >= 10 {
        lemma_digits(n / 10);
        assert(digits(n).drop_last() =~= digits(n / 10));
        assert(digits(n).last() == (48 + n % 10) as u8);
        assert((n / 10) * 10 + n % 10 == n);
        assert forall|k: int| 0 <= k < digits(n).len() implies is_digit(#[trigger] digits(n)[k]) by {
            if k < digits(n / 10).len() {
                assert(digits(n)[k] == digits(n / 10)[k]);
            }
        }
    } else {
        assert(seq![(48 + n) as u8].drop_last() =~= Seq::<u8>::empty());
        assert(value_of(Seq::<u8>::empty()) == 0);
    }
}

proof fn lemma_value_prefix(s: Seq<u8>, k: int)
    requires
        0 <= k <= s.len(),
    ensures
        value_of(s.subrange(0, k)) <= value_of(s),
    decreases s.len() - k,
{
    if k < s.len() {
        assert(s.drop_last().subrange(0, k) =~= s.subrange(0, k));
        lemma_value_prefix(s.drop_last(), k);
        assert(s.subrange(0, s.len() as int) =~= s);
    } else {
        assert(s.subrange(0, k) =~= s);
    }
}

/// Reads a run of decimal digits at `i` that fits in a `u64`; where the digits of a number
/// stand there, it comes back with the index after them.
fn parse_number(b: &[u8], i: usize) -> (r: Option<(u64, usize)>)
    ensures
        forall|n: nat| #[trigger]
            number_at(b@, i as int, n) && n <= u64::MAX ==> match r {
                Some((v, j)) => v == n && j == i + digits(n).len(),
                None => false,
            },
{
    proof {
        reveal(number_at);
    }
    if i > b.len() {
        return None;
    }
    let mut v: u128 = 0;
    let mut j: usize = i;
    assert(b@.subrange(i as int, i as int) =~= Seq::<u8>::empty());
    while j < b.len() && 48 <= b[j] && b[j] <= 57
        invariant
            i <= j <= b@.len(),
            v == value_of(b@.subrange(i as int, j as int)),
            v <= u64::MAX,
            forall|k: int| i <= k < j ==> is_digit(b@[k]),
        decreases b@.len() - j,
    {
        assert(b@.subrange(i as int, j + 1).drop_last() =~= b@.subrange(i as int, j as int));
        let next: u128 = v * 10 + (b[j] - 48) as u128;
        if next > 0xffff_ffff_ffff_ffff {
            proof {
                assert forall|n: nat| #[trigger] number_at(b@, i as int, n) && n <= u64::MAX implies false by {
                    reveal(number_at);
                    lemma_digits(n);
                    let d = digits(n);
                    if j - i >= d.len() {
                        assert(b@[i + d.len()] == b@[i + d.len()]);
                        assert(is_digit(b@[i + d.len()]));
                    } else {
                        assert(d.subrange(0, j - i + 1) =~= b@.subrange(i as int, j + 1));
                        lemma_value_prefix(d, j - i + 1);
                    }
                }
            }
            return None;
        }
        v = next;
        j = j + 1;
    }
    if j == i {
        proof {
            assert forall|n: nat| #[trigger] number_at(b@, i as int, n) && n <= u64::MAX implies false by {
                reveal(number_at);
                lemma_digits(n);
                assert(b@.subrange(i as int, i + digits(n).len())[0] == b@[i as int]);
            }
        }
        return None;
    }
    proof {
        assert forall|n: nat| #[trigger] number_at(b@, i as int, n) && n <= u64::MAX implies v == n && j
            == i + digits(n).len() by {
            reveal(number_at);
            lemma_digits(n);
            let d = digits(n);
            assert forall|k: int| i <= k < i + d.len() implies is_digit(b@[k]) by {
                assert(b@.subrange(i as int, i + d.len())[k - i] == b@[k]);
            }
            if j < i + d.len() {
                assert(is_digit(b@[j as int]));
            } else if j > i + d.len() {
                assert(is_digit(b@[i + d.len()]));
            }
            assert(b@.subrange(i as int, j as int) =~= d);
        }
    }
    Some((v as u64, j))
}

/// Matches the fixed text `lit` at `i`, and gives the index after it.
fn expect(b: &[u8], i: usize, lit: &str) -> (r: Option<usize>)
    ensures
        match r {
            Some(j) => j == i + text(lit).len() && b@.subrange(i as int, j as int) == text(lit),
            None => !(i + text(lit).len() <= b@.len() && b@.subrange(i as int, i + text(lit).len())
                == text(lit)),
        },
{
    let t = lit.as_bytes();
    let n: usize = b.len();
    if i > n || n - i < t.len() {
        return None;
    }
    let mut k: usize = 0;
    while k < t.len()
        invariant
            k <= t@.len(),
            t@ == text(lit),
            n == b@.len(),
            i <= n,
            t@.len() <= n - i,
            forall|m: int| 0 <= m < k ==> b@[i + m] == t@[m],
        decreases t@.len() - k,
    {
        if b[i + k] != t[k] {
            proof {
                assert(b@.subrange(i as int, i + t@.len())[k as int] == b@[i + k]);
            }
            return None;
        }
        k = k + 1;
    }
    assert(b@.subrange(i as int, i + t@.len()) =~= t@);
    Some(i + t.len())
}

fn bytes_eq(a: &Vec<u8>, b: &[u8]) -> (r: bool)
    ensures
        r == (a@ == b@),
{
    if a.len() != b.len() {
        return false;
    }
    let mut k: usize = 0;
    while k < a.len()
        invariant
            k <= a@.len(),
            a@.len() == b@.len(),
            forall|m: int| 0 <= m < k ==> a@[m] == b@[m],
        decreases a@.len() - k,
    {
        if a[k] != b[k] {
            return false;
        }
        k = k + 1;
    }
    assert(a@ =~= b@);
    true
}

/// The edit that `b` encodes, if it encodes one.
pub open spec fn decoded(b: Seq<u8>) -> Option<EditModel> {
    if exists|e: EditModel| fits(e) && event_json(e) == b {
        Some(choose|e: EditModel| fits(e) && event_json(e) == b)
    } else {
        None
    }
}

/// An edit whose numbers fit the executable types.
pub open spec fn fits(e: EditModel) -> bool {
    e.position <= usize::MAX && e.timestamp <= u64::MAX
}

proof fn lemma_json_string_head(s: Seq<char>)
    ensures
        json_string(s).len() >= 2,
        json_string(s)[0] == 0x22,
{
}

proof fn lemma_literal_heads()
    ensures
        text(",\"character\":").len() >= 1,
        text("}").len() == 1,
        text("null").len() == 4,
        text(",\"character\":")[0] == 0x2cu8,
        text("}")[0] == 0x7du8,
        text("null")[0] == 0x6eu8,
{
    reveal_strlit(",\"character\":");
    reveal_strlit("}");
    reveal_strlit("null");
    vstd::string::is_ascii_spec_bytes(",\"character\":");
    vstd::string::is_ascii_spec_bytes("}");
    vstd::string::is_ascii_spec_bytes("null");
}


#[verifier::opaque]
spec fn before_doc(e: EditModel) -> Seq<u8> {
    text("{\"doc_id\":")
}

#[verifier::opaque]
spec fn before_user(e: EditModel) -> Seq<u8> {
    before_doc(e) + json_string(e.doc_id) + text(",\"user_id\":")
}

#[verifier::opaque]
spec fn before_operation(e: EditModel) -> Seq<u8> {
    before_user(e) + json_string(e.user_id) + text(",\"operation\":")
}

#[verifier::opaque]
spec fn before_position(e: EditModel) -> Seq<u8> {
    before_operation(e) + json_string(e.operation) + text(",\"position\":")
}

#[verifier::opaque]
spec fn before_character(e: EditModel) -> Seq<u8> {
    before_position(e) + digits(e.position) + text(",\"character\":")
}

#[verifier::opaque]
spec fn before_timestamp(e: EditModel) -> Seq<u8> {
    before_character(e) + json_opt_string(e.character) + text(",\"timestamp\":")
}

#[verifier::opaque]
spec fn before_close(e: EditModel) -> Seq<u8> {
    before_timestamp(e) + digits(e.timestamp)
}

proof fn lemma_split(b: Seq<u8>, q: Seq<u8>, x: Seq<u8>)
    requires
        q.len() + x.len() <= b.len(),
        b.subrange(0, (q.len() + x.len()) as int) == q + x,
    ensures
        b.subrange(0, q.len() as int) == q,
        b.subrange(q.len() as int, (q.len() + x.len()) as int) == x,
{
    assert forall|k: int| 0 <= k < q.len() + x.len() implies b[k] == (q + x)[k] by {
        assert(b.subrange(0, (q.len() + x.len()) as int)[k] == b[k]);
    }
    assert(b.subrange(0, q.len() as int) =~= q);
    assert(b.subrange(q.len() as int, (q.len() + x.len()) as int) =~= x);
}

/// Where each piece of the encoding of `e` stands in it.
#[verifier::rlimit(100)]
#[verifier::spinoff_prover]
proof fn lemma_layout(b: Seq<u8>, e: EditModel)
    requires
        b == event_json(e),
    ensures
        b.subrange(0, text("{\"doc_id\":").len() as int) == text("{\"doc_id\":"),
        string_at(b, before_doc(e).len() as int, e.doc_id),
        b.subrange((before_doc(e) + json_string(e.doc_id)).len() as int, before_user(e).len() as int)
            == text(",\"user_id\":"),
        string_at(b, before_user(e).len() as int, e.user_id),
        b.subrange((before_user(e) + json_string(e.user_id)).len() as int, before_operation(e).len() as int)
            == text(",\"operation\":"),
        string_at(b, before_operation(e).len() as int, e.operation),
        b.subrange((before_operation(e) + json_string(e.operation)).len() as int, before_position(e).len() as int)
            == text(",\"position\":"),
        number_at(b, before_position(e).len() as int, e.position),
        b.subrange((before_position(e) + digits(e.position)).len() as int, before_character(e).len() as int)
            == text(",\"character\":"),
        before_character(e).len() < b.len(),
        match e.character {
            Some(s) => string_at(b, before_character(e).len() as int, s) && b[before_character(e).len() as int]
                == 0x22,
            None => b.subrange(before_character(e).len() as int, (before_character(e).len() + text("null").len()) as int)
                == text("null") && b[before_character(e).len() as int] != 0x22,
        },
        b.subrange((before_character(e) + json_opt_string(e.character)).len() as int, before_timestamp(e).len() as int)
            == text(",\"timestamp\":"),
        number_at(b, before_timestamp(e).len() as int, e.timestamp),
        b.subrange(before_close(e).len() as int, (before_close(e).len() + text("}").len()) as int) == text("}"),
        b.len() == before_close(e).len() + text("}").len(),
        before_position(e).len() <= before_close(e).len(),
{
    reveal(event_json);
    reveal(string_at);
    reveal(number_at);
    reveal(before_doc);
    reveal(before_user);
    reveal(before_operation);
    reveal(before_position);
    reveal(before_character);
    reveal(before_timestamp);
    reveal(before_close);
    lemma_literal_heads();
    lemma_json_string_head(e.doc_id);
    lemma_json_string_head(e.user_id);
    lemma_json_string_head(e.operation);
    if let Some(s) = e.character {
        lemma_json_string_head(s);
    }
    lemma_digits(e.position);
    lemma_digits(e.timestamp);
    assert(b.subrange(0, b.len() as int) =~= b);
    lemma_split(b, before_close(e), text("}"));
    lemma_split(b, before_timestamp(e), digits(e.timestamp));
    lemma_split(b, before_character(e) + json_opt_string(e.character), text(",\"timestamp\":"));
    lemma_split(b, before_character(e), json_opt_string(e.character));
    lemma_split(b, before_position(e) + digits(e.position), text(",\"character\":"));
    lemma_split(b, before_position(e), digits(e.position));
    lemma_split(b, before_operation(e) + json_string(e.operation), text(",\"position\":"));
    lemma_split(b, before_operation(e), json_string(e.operation));
    lemma_split(b, before_user(e) + json_string(e.user_id), text(",\"operation\":"));
    lemma_split(b, before_user(e), json_string(e.user_id));
    lemma_split(b, before_doc(e) + json_string(e.doc_id), text(",\"user_id\":"));
    lemma_split(b, before_doc(e), json_string(e.doc_id));
    let c = before_character(e).len() as int;
    assert(b.subrange(c, c + json_opt_string(e.character).len())[0] == b[c]);
    let p = (before_position(e).len() + digits(e.position).len()) as int;
    assert(b.subrange(p, before_character(e).len() as int)[0] == b[p]);
    let t = (before_timestamp(e).len() + digits(e.timestamp).len()) as int;
    assert(b.subrange(t, t + 1)[0] == b[t]);
    match e.character {
        Some(s) => {},
        None => {
            assert(json_opt_string(e.character) == text("null"));
        },
    }
}

/// Reads the three texts at the front of an encoded edit, up to its position.
#[verifier::rlimit(100)]
fn decode_texts(b: &[u8], Ghost(e): Ghost<EditModel>) -> (r: Option<(String, String, String, usize)>)
    ensures
        b@ == event_json(e) ==> match r {
            Some((d, u, o, k)) => d@ == e.doc_id && u@ == e.user_id && o@ == e.operation && k
                == before_position(e).len(),
            None => false,
        },
{
    proof {
        if b@ == event_json(e) {
            lemma_layout(b@, e);
            reveal(before_doc);
            reveal(before_user);
            reveal(before_operation);
            reveal(before_position);
        }
    }
    let i = match expect(b, 0, "{\"doc_id\":") {
        Some(i) => i,
        None => return None,
    };
    let (doc_id, i) = match parse_string(b, i) {
        Some(x) => x,
        None => return None,
    };
    let i = match expect(b, i, ",\"user_id\":") {
        Some(i) => i,
        None => return None,
    };
    let (user_id, i) = match parse_string(b, i) {
        Some(x) => x,
        None => return None,
    };
    let i = match expect(b, i, ",\"operation\":") {
        Some(i) => i,
        None => return None,
    };
    let (operation, i) = match parse_string(b, i) {
        Some(x) => x,
        None => return None,
    };
    let i = match expect(b, i, ",\"position\":") {
        Some(i) => i,
        None => return None,
    };
    Some((doc_id, user_id, operation, i))
}

/// Reads the position, character and timestamp of an encoded edit, from its position on.
#[verifier::rlimit(100)]
fn decode_fields(b: &[u8], i: usize, Ghost(e): Ghost<EditModel>) -> (r: Option<(usize, Option<String>, u64)>)
    ensures
        b@ == event_json(e) && fits(e) && i == before_position(e).len() ==> match r {
            Some((p, c, t)) => p == e.position && t == e.timestamp && match c {
                Some(s) => e.character == Some(s@),
                None => e.character is None,
            },
            None => false,
        },
{
    proof {
        if b@ == event_json(e) {
            lemma_layout(b@, e);
            reveal(before_character);
            reveal(before_timestamp);
            reveal(before_close);
        }
    }
    let i0 = i;
    let (position, i) = match parse_number(b, i) {
        Some(x) => x,
        None => return None,
    };
    if position > usize::MAX as u64 {
        return None;
    }
    proof {
        if b@ == event_json(e) && fits(e) && i0 == before_position(e).len() {
            reveal(number_at);
            assert(position == e.position);
            assert(i == (before_position(e) + digits(e.position)).len());
        }
    }
    let i = match expect(b, i, ",\"character\":") {
        Some(i) => i,
        None => return None,
    };
    let (character, i) = if i < b.len() && b[i] == 0x22 {
        match parse_string(b, i) {
            Some((c, i)) => (Some(c), i),
            None => return None,
        }
    } else {
        match expect(b, i, "null") {
            Some(i) => (None, i),
            None => return None,
        }
    };
    let i = match expect(b, i, ",\"timestamp\":") {
        Some(i) => i,
        None => return None,
    };
    let (timestamp, i) = match parse_number(b, i) {
        Some(x) => x,
        None => return None,
    };
    let i = match expect(b, i, "}") {
        Some(i) => i,
        None => return None,
    };
    if i != b.len() {
        return None;
    }
    Some((position as usize, character, timestamp))
}

/// Reads an edit event from its JSON text, in the form that the encoder writes. It succeeds
/// exactly on the encodings of edits, and then gives back the edit that was encoded.
pub fn decode_event(b: &[u8]) -> (r: Option<EditEvent>)
    ensures
        match r {
            Some(ev) => event_json(ev@) == b@ && decoded(b@) == Some(ev@),
            None => decoded(b@) is None,
        },
{
    let ghost found = exists|e: EditModel| fits(e) && event_json(e) == b@;
    let ghost e: EditModel = choose|e: EditModel| fits(e) && event_json(e) == b@;
    let (doc_id, user_id, operation, i) = match decode_texts(b, Ghost(e)) {
        Some(x) => x,
        None => return None,
    };
    let (position, character, timestamp) = match decode_fields(b, i, Ghost(e)) {
        Some(x) => x,
        None => return None,
    };
    let ev = EditEvent { doc_id, user_id, operation, position, character, timestamp };
    proof {
        if found {
            assert(ev@ == e);
        }
    }
    let enc = encode_event(&ev);
    if bytes_eq(&enc, b) {
        proof {
            assert(fits(ev@));
            let c = choose|c: EditModel| fits(c) && event_json(c) == b@;
            lemma_event_json_injective(c, ev@);
        }
        Some(ev)
    } else {
        None
    }
}


proof fn lemma_string_unique(b: Seq<u8>, i: int, s1: Seq<char>, s2: Seq<char>)
    requires
        string_at(b, i, s1),
        string_at(b, i, s2),
    ensures
        s1 == s2,
        json_string(s1).len() == json_string(s2).len(),
{
    lemma_string_at(b, i, s1);
    lemma_string_at(b, i, s2);
    encode_utf8_decode_utf8(s1);
    encode_utf8_decode_utf8(s2);
}

proof fn lemma_number_unique(b: Seq<u8>, i: int, n1: nat, n2: nat)
    requires
        number_at(b, i, n1),
        number_at(b, i, n2),
    ensures
        n1 == n2,
{
    reveal(number_at);
    lemma_digits(n1);
    lemma_digits(n2);
    let d1 = digits(n1);
    let d2 = digits(n2);
    if d1.len() < d2.len() {
        assert(b.subrange(i, i + d2.len())[d1.len() as int] == b[i + d1.len()]);
        assert(is_digit(d2[d1.len() as int]));
    } else if d2.len() < d1.len() {
        assert(b.subrange(i, i + d1.len())[d2.len() as int] == b[i + d2.len()]);
        assert(is_digit(d1[d2.len() as int]));
    }
}

/// Two edits with the same encoding are the same edit.
pub proof fn lemma_event_json_injective(e1: EditModel, e2: EditModel)
    requires
        event_json(e1) == event_json(e2),
    ensures
        e1 == e2,
{
    let b = event_json(e1);
    lemma_layout(b, e1);
    lemma_layout(b, e2);
    reveal(before_doc);
    reveal(before_user);
    reveal(before_operation);
    reveal(before_position);
    reveal(before_character);
    reveal(before_timestamp);
    reveal(before_close);
    lemma_string_unique(b, before_doc(e1).len() as int, e1.doc_id, e2.doc_id);
    assert(before_user(e1) == before_user(e2));
    lemma_string_unique(b, before_user(e1).len() as int, e1.user_id, e2.user_id);
    assert(before_operation(e1) == before_operation(e2));
    lemma_string_unique(b, before_operation(e1).len() as int, e1.operation, e2.operation);
    assert(before_position(e1) == before_position(e2));
    lemma_number_unique(b, before_position(e1).len() as int, e1.position, e2.position);
    assert(before_character(e1) == before_character(e2));
    match (e1.character, e2.character) {
        (Some(s1), Some(s2)) => {
            lemma_string_unique(b, before_character(e1).len() as int, s1, s2);
        },
        _ => {},
    }
    assert(e1.character == e2.character);
    assert(before_timestamp(e1) == before_timestamp(e2));
    lemma_number_unique(b, before_timestamp(e1).len() as int, e1.timestamp, e2.timestamp);
}


/// Decoding the encoding of an edit gives back that edit.
pub proof fn lemma_event_round_trip(e: EditModel)
    requires
        fits(e),
    ensures
        decoded(event_json(e)) == Some(e),
{
    let c = choose|c: EditModel| fits(c) && event_json(c) == event_json(e);
    lemma_event_json_injective(c, e);
}

} // verus!
