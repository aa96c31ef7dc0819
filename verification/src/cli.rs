//! Text helpers of the command line: truncating text to a width, showing a
//! stored value, and decoding a hex-encoded value.

use vstd::prelude::*;
use vstd::string::*;
use vstd::utf8::*;

use crate::strings::decimal;
use crate::strings::str_from_utf8;
use crate::model::OnDiskEntry;
use crate::model::is_tombstone_flag;

verus! {

/// The text `truncate` gives: empty for a zero width, the text itself when it
/// has at most `max` characters, else its first `max - 1` characters and an
/// ellipsis.
pub open spec fn truncated(s: Seq<char>, max: nat) -> Seq<char> {
    if max == 0 {
        Seq::empty()
    } else if s.len() <= max {
        s
    } else {
        s.subrange(0, max - 1).push('\u{2026}')
    }
}

/// Truncates `s` to at most `max` characters, marking a cut with `…`.
pub fn truncate(s: &str, max: usize) -> (r: String)
    ensures
        r@ == truncated(s@, max as nat),
{
    if max == 0 {
        return String::new();
    }
    let n = s.unicode_len();
    if n <= max {
        s.to_owned()
    } else {
        let head = s.substring_char(0, max - 1);
        let r = String::from_str(head);
        proof {
            reveal_strlit("\u{2026}");
        }
        let r = r.concat("\u{2026}");
        assert(r@ == s@.subrange(0, max - 1).push('\u{2026}'));
        r
    }
}

/// The text `format_value` shows for a value: nothing for an empty value, the
/// truncated text of a UTF-8 value, `[bin]` for any other bytes.
pub open spec fn formatted_value(bytes: Seq<u8>, max: nat) -> Seq<char> {
    if bytes.len() == 0 {
        Seq::empty()
    } else if valid_utf8(bytes) {
        truncated(decode_utf8(bytes), max)
    } else {
        "[bin]"@
    }
}

/// Shows a stored value in at most `max` characters.
pub fn format_value(bytes: &[u8], max: usize) -> (r: String)
    ensures
        r@ == formatted_value(bytes@, max as nat),
{
    if bytes.len() == 0 {
        return String::new();
    }
    match str_from_utf8(bytes) {
        Ok(s) => {
            proof {
                encode_utf8_decode_utf8(s@);
            }
            truncate(s, max)
        },
        Err(_) => "[bin]".to_owned(),
    }
}


/// The value of an ASCII hexadecimal digit (`0`-`9`, `a`-`f`, `A`-`F`).
pub open spec fn hex_digit_value(c: u8) -> Option<u8> {
    if 48 <= c <= 57 {
        Some((c - 48) as u8)
    } else if 97 <= c <= 102 {
        Some((c - 87) as u8)
    } else if 65 <= c <= 70 {
        Some((c - 55) as u8)
    } else {
        None
    }
}

/// The byte that the pair of bytes of `b` starting at `i` encodes, when both
/// are ASCII hexadecimal digits (high digit first).
pub open spec fn hex_pair(b: Seq<u8>, i: int) -> Option<u8> {
    match (hex_digit_value(b[i]), hex_digit_value(b[i + 1])) {
        (Some(h), Some(l)) => Some((h * 16 + l) as u8),
        _ => None,
    }
}

/// The text of the two bytes of `b` that start at `i`.
pub open spec fn pair_text(b: Seq<u8>, i: int) -> Seq<char> {
    decode_utf8(b.subrange(i, i + 2))
}

/// The message for a pair that is not a hex byte.
pub open spec fn invalid_hex_message(position: nat, pair: Seq<char>) -> Seq<char> {
    "invalid hex byte at position "@ + decimal(position) + ": '"@ + pair + "'"@
}

/// Every pair of bytes before byte `i` is a hex byte.
pub open spec fn pairs_decode_before(b: Seq<u8>, i: int) -> bool {
    forall|j: int| 0 <= j < i && j % 2 == 0 ==> #[trigger] hex_pair(b, j) is Some
}

/// Decoding the pairs of `b` from byte `i` on: their values, or the message
/// for the first pair that is not a hex byte.
pub open spec fn hex_from(b: Seq<u8>, i: int) -> Result<Seq<u8>, Seq<char>>
    decreases b.len() - i,
{
    if i < 0 || i + 2 > b.len() {
        Ok(Seq::empty())
    } else {
        match hex_pair(b, i) {
            Some(v) => match hex_from(b, i + 2) {
                Ok(rest) => Ok(seq![v] + rest),
                Err(e) => Err(e),
            },
            None => Err(invalid_hex_message(i as nat, pair_text(b, i))),
        }
    }
}

/// What `decode_hex` gives for the UTF-8 bytes `b` of its input.
pub open spec fn decoded_hex(b: Seq<u8>) -> Result<Seq<u8>, Seq<char>> {
    if b.len() % 2 == 1 {
        Err("hex string must have an even number of characters"@)
    } else {
        hex_from(b, 0)
    }
}

/// The first pair that is not a hex byte starts and ends on character
/// boundaries, so that its text can be quoted (elsewhere cutting it out
/// would panic).
pub open spec fn hex_pairs_sliceable(b: Seq<u8>) -> bool {
    forall|i: int| #![trigger pairs_decode_before(b, i)]
        0 <= i < b.len() && i % 2 == 0 && pairs_decode_before(b, i) && hex_pair(b, i) is None
            ==> !is_continuation_byte(b[i]) && (i + 2 == b.len() || !is_continuation_byte(b[i + 2]))
}

/// The value of a hex digit byte, if it is one.
fn hex_digit_of(c: u8) -> (r: Option<u8>)
    ensures
        r == hex_digit_value(c),
{
    if 48 <= c && c <= 57 {
        Some(c - 48)
    } else if 97 <= c && c <= 102 {
        Some(c - 87)
    } else if 65 <= c && c <= 70 {
        Some(c - 55)
    } else {
        None
    }
}

/// The byte the two bytes of `b` at `i` and `i + 1` encode, if they are hex digits.
fn hex_pair_at(b: &[u8], i: usize) -> (r: Option<u8>)
    requires
        i + 2 <= b@.len(),
    ensures
        r == hex_pair(b@, i as int),
{
    match (hex_digit_of(b[i]), hex_digit_of(b[i + 1])) {
        (Some(h), Some(l)) => Some(h * 16 + l),
        _ => None,
    }
}

/// The text of the pair of `s` at byte `i`, cut out of `s` where both its ends
/// are character boundaries.
fn pair_text_at(s: &str, i: usize) -> (r: &str)
    requires
        i + 2 <= s.spec_bytes().len(),
        !is_continuation_byte(s.spec_bytes()[i as int]),
        i + 2 == s.spec_bytes().len() || !is_continuation_byte(s.spec_bytes()[i + 2]),
    ensures
        r@ == pair_text(s.spec_bytes(), i as int),
{
    let ghost b = s.spec_bytes();
    proof {
        encode_utf8_valid_utf8(s@);
        is_char_boundary_iff_not_is_continuation_byte(b, i as int);
    }
    let (_, rest) = s.split_at(i);
    let ghost rb = rest.spec_bytes();
    proof {
        valid_utf8_split(b, i as int);
        assert(rb == b.subrange(i as int, b.len() as int));
        if i + 2 == b.len() {
            is_char_boundary_start_end_of_seq(rb);
        } else {
            is_char_boundary_iff_not_is_continuation_byte(rb, 2);
        }
    }
    let (pair, _) = rest.split_at(2);
    proof {
        assert(pair.spec_bytes() == b.subrange(i as int, i + 2));
        encode_utf8_decode_utf8(pair@);
    }
    pair
}

/// The message `invalid hex byte at position {position}: '{pair}'`.
fn invalid_hex_byte_message(position: usize, pair: &str) -> (r: String)
    ensures
        r@ == invalid_hex_message(position as nat, pair@),
{
    let number = decimal_text(position);
    let r = "invalid hex byte at position ".to_owned();
    let r = r.concat(number.as_str());
    let r = r.concat(": '");
    let r = r.concat(pair);
    r.concat("'")
}

/// Decodes a hex-encoded byte string such as `FF00AB`: each pair of ASCII hex
/// digits (either case, high digit first) is one byte.
///
/// Fails on an odd number of characters, and on the first pair that is not
/// two hex digits, naming its position.
pub fn decode_hex(s: &str) -> (r: Result<Vec<u8>, String>)
    requires
        s.spec_bytes().len() % 2 == 1 || hex_pairs_sliceable(s.spec_bytes()),
    ensures
        match (r, decoded_hex(s.spec_bytes())) {
            (Ok(v), Ok(w)) => v@ == w,
            (Err(m), Err(w)) => m@ == w,
            _ => false,
        },
{
    let ghost b = s.spec_bytes();
    let bytes = s.as_bytes();
    let len = bytes.len();
    if len % 2 == 1 {
        return Err("hex string must have an even number of characters".to_owned());
    }
    let mut out: Vec<u8> = Vec::new();
    let mut i: usize = 0;
    while i < len
        invariant
            len == b.len(),
            bytes@ == b,
            b == s.spec_bytes(),
            len % 2 == 0,
            i % 2 == 0,
            i <= len,
            hex_pairs_sliceable(b),
            pairs_decode_before(b, i as int),
            hex_from(b, 0) == match hex_from(b, i as int) {
                Ok(rest) => Ok(out@ + rest),
                Err(e) => Err::<Seq<u8>, Seq<char>>(e),
            },
        decreases len - i,
    {
        match hex_pair_at(bytes, i) {
            Some(v) => {
                let ghost out0 = out@;
                out.push(v);
                proof {
                    assert forall|j: int| 0 <= j < i + 2 && j % 2 == 0 implies #[trigger] hex_pair(b, j) is Some by {
                        if j < i {
                            assert(pairs_decode_before(b, i as int));
                        }
                    }
                    if let Ok(r2) = hex_from(b, i + 2) {
                        assert(out0 + (seq![v] + r2) =~= out@ + r2);
                    }
                }
                i = i + 2;
            },
            None => {
                assert(pairs_decode_before(b, i as int));
                let pair = pair_text_at(s, i);
                return Err(invalid_hex_byte_message(i, pair));
            },
        }
    }
    Ok(out)
}

/// Width of the key-size column of the inspect table.
pub const KEY_SIZE_WIDTH: usize = 7;
/// Width of the value-size column of the inspect table.
pub const VALUE_SIZE_WIDTH: usize = 12;
/// Width of the flags column of the inspect table.
pub const FLAGS_WIDTH: usize = 6;
/// The separator between columns of the inspect table.
pub const SEPARATOR_WIDTH: usize = 3;

/// The larger of two numbers.
pub open spec fn max_nat(a: nat, b: nat) -> nat {
    if a >= b { a } else { b }
}

/// The widths of the key and value columns of the inspect table on a
/// terminal `terminal_width` columns wide: of the space the fixed columns and
/// the four separators leave, the key column gets a third and the value column
/// the rest, each at least 10.
pub fn inspect_widths(terminal_width: usize) -> (r: (usize, usize))
    ensures
        ({
            let fixed = KEY_SIZE_WIDTH + VALUE_SIZE_WIDTH + FLAGS_WIDTH + SEPARATOR_WIDTH * 4;
            let remaining: nat = if terminal_width >= fixed { (terminal_width - fixed) as nat } else { 0 };
            &&& r.0 == max_nat(remaining / 3, 10)
            &&& r.1 == max_nat(if remaining >= r.0 { (remaining - r.0) as nat } else { 0 }, 10)
        }),
{
    let fixed = KEY_SIZE_WIDTH + VALUE_SIZE_WIDTH + FLAGS_WIDTH + SEPARATOR_WIDTH * 4;
    let remaining = terminal_width.saturating_sub(fixed);
    let third = remaining / 3;
    let key_w = if third >= 10 { third } else { 10 };
    let rest = remaining.saturating_sub(key_w);
    let val_w = if rest >= 10 { rest } else { 10 };
    (key_w, val_w)
}

/// The cells of one row of the inspect table: the flags as `0xNN`, the key
/// truncated to `key_w` characters, and the value shown in `val_w` characters,
/// or `[deleted]` for a tombstone.
pub fn inspect_row(entry: &OnDiskEntry, key_w: usize, val_w: usize) -> (r: (String, String, String))
    ensures
        r.0@ == hex_byte_label(entry.flags),
        r.1@ == truncated(entry.key@, key_w as nat),
        r.2@ == (if is_tombstone_flag(entry.flags) {
            "[deleted]"@
        } else {
            formatted_value(entry.value@, val_w as nat)
        }),
{
    let flags = entry.flags;
    let is_tombstone = flags & 0x01u8 != 0;
    assert(is_tombstone == (flags & 1u8 == 1u8)) by (bit_vector)
        requires
            is_tombstone == (flags & 0x01u8 != 0),
    ;
    let flags_str = hex_byte_text(entry.flags);
    let key_str = truncate(entry.key.as_str(), key_w);
    let value_str = if is_tombstone {
        "[deleted]".to_owned()
    } else {
        format_value(entry.value.as_slice(), val_w)
    };
    (flags_str, key_str, value_str)
}


/// Whether `decode_hex` can run on `s` without cutting inside a character:
/// true for an odd length, which it rejects first, and otherwise when the first
/// pair that is not a hex byte, if any, starts and ends on character boundaries.
pub fn decode_hex_can_slice(s: &str) -> (r: bool)
    ensures
        r == (s.spec_bytes().len() % 2 == 1 || hex_pairs_sliceable(s.spec_bytes())),
{
    let ghost b = s.spec_bytes();
    let bytes = s.as_bytes();
    let len = bytes.len();
    if len % 2 == 1 {
        return true;
    }
    let mut i: usize = 0;
    while i < len
        invariant
            len == b.len(),
            bytes@ == b,
            b == s.spec_bytes(),
            len % 2 == 0,
            i % 2 == 0,
            i <= len,
            pairs_decode_before(b, i as int),
        decreases len - i,
    {
        if hex_pair_at(bytes, i).is_none() {
            let first = bytes[i];
            let first_ok = !(0x80u8 <= first && first <= 0xbfu8);
            let end_ok = if i + 2 == len {
                true
            } else {
                let next = bytes[i + 2];
                !(0x80u8 <= next && next <= 0xbfu8)
            };
            proof {
                assert forall|j: int| #![trigger pairs_decode_before(b, j)]
                    0 <= j < b.len() && j % 2 == 0 && pairs_decode_before(b, j) && hex_pair(b, j) is None
                        implies j == i by {
                    if j > i {
                        assert(hex_pair(b, i as int) is None);
                    }
                    if j < i {
                        assert(pairs_decode_before(b, i as int));
                    }
                }
                assert(pairs_decode_before(b, i as int));
                assert(first_ok == !is_continuation_byte(b[i as int]));
            }
            return first_ok && end_ok;
        }
        proof {
            assert forall|j: int| 0 <= j < i + 2 && j % 2 == 0 implies #[trigger] hex_pair(b, j) is Some by {
                if j < i {
                    assert(pairs_decode_before(b, i as int));
                }
            }
        }
        i = i + 2;
    }
    true
}

/// The uppercase hexadecimal digit for `d` (below 16).
pub open spec fn upper_hex_digit(d: nat) -> char {
    if d < 10 {
        (d + 48) as char
    } else {
        (d + 55) as char
    }
}

/// `0x` followed by the two uppercase hexadecimal digits of a byte.
pub open spec fn hex_byte_label(b: u8) -> Seq<char> {
    "0x"@ + seq![upper_hex_digit(b as nat / 16), upper_hex_digit(b as nat % 16)]
}

/// The uppercase hexadecimal digit for `d`, as text.
fn upper_hex_text(d: u8) -> (r: &'static str)
    requires
        d < 16,
    ensures
        r@ == seq![upper_hex_digit(d as nat)],
{
    proof {
        reveal_strlit("0"); reveal_strlit("1"); reveal_strlit("2"); reveal_strlit("3");
        reveal_strlit("4"); reveal_strlit("5"); reveal_strlit("6"); reveal_strlit("7");
        reveal_strlit("8"); reveal_strlit("9"); reveal_strlit("A"); reveal_strlit("B");
        reveal_strlit("C"); reveal_strlit("D"); reveal_strlit("E"); reveal_strlit("F");
    }
    match d {
        0 => "0",
        1 => "1",
        2 => "2",
        3 => "3",
        4 => "4",
        5 => "5",
        6 => "6",
        7 => "7",
        8 => "8",
        9 => "9",
        10 => "A",
        11 => "B",
        12 => "C",
        13 => "D",
        14 => "E",
        _ => "F",
    }
}

/// A byte as `0x` and two uppercase hexadecimal digits, as `{:02X}` writes it.
fn hex_byte_text(b: u8) -> (r: String)
    ensures
        r@ == hex_byte_label(b),
{
    let r = "0x".to_owned();
    let r = r.concat(upper_hex_text(b / 16));
    r.concat(upper_hex_text(b % 16))
}

/// Byte-wise lexicographic order, the order in which `Ord` ranks `String`s.
pub open spec fn bytes_lt(a: Seq<u8>, b: Seq<u8>) -> bool
    decreases a.len(),
{
    if b.len() == 0 {
        false
    } else if a.len() == 0 {
        true
    } else if a[0] != b[0] {
        a[0] < b[0]
    } else {
        bytes_lt(a.drop_first(), b.drop_first())
    }
}

/// The UTF-8 bytes of a string, by which strings are ordered.
pub open spec fn text_bytes(s: String) -> Seq<u8> {
    encode_utf8(s@)
}

/// No string comes before itself.
pub proof fn lemma_bytes_lt_irreflexive(a: Seq<u8>)
    ensures
        !bytes_lt(a, a),
    decreases a.len(),
{
    if a.len() > 0 {
        lemma_bytes_lt_irreflexive(a.drop_first());
    }
}

/// The order is transitive.
pub proof fn lemma_bytes_lt_transitive(a: Seq<u8>, b: Seq<u8>, c: Seq<u8>)
    requires
        bytes_lt(a, b),
        bytes_lt(b, c),
    ensures
        bytes_lt(a, c),
    decreases a.len(),
{
    if a.len() > 0 && a[0] == b[0] && b[0] == c[0] {
        lemma_bytes_lt_transitive(a.drop_first(), b.drop_first(), c.drop_first());
    }
}

/// Whether `a` comes before `b` byte-wise.
fn bytes_less(a: &[u8], b: &[u8]) -> (r: bool)
    ensures
        r == bytes_lt(a@, b@),
{
    let mut i: usize = 0;
    assert(a@.skip(0) =~= a@ && b@.skip(0) =~= b@);
    while i < a.len() && i < b.len()
        invariant
            i <= a@.len(),
            i <= b@.len(),
            bytes_lt(a@, b@) == bytes_lt(a@.skip(i as int), b@.skip(i as int)),
        decreases a@.len() - i,
    {
        assert(a@.skip(i as int)[0] == a@[i as int] && b@.skip(i as int)[0] == b@[i as int]);
        if a[i] != b[i] {
            return a[i] < b[i];
        }
        assert(a@.skip(i as int).drop_first() =~= a@.skip(i + 1));
        assert(b@.skip(i as int).drop_first() =~= b@.skip(i + 1));
        i = i + 1;
    }
    i < b.len()
}

/// Sorts keys into the order `sort` gives strings, for listing.
pub fn sorted_keys(keys: &Vec<String>) -> (r: Vec<String>)
    ensures
        r@.to_multiset() == keys@.to_multiset(),
        forall|i: int, j: int| 0 <= i < j < r@.len() ==> !bytes_lt(text_bytes(r@[j]), text_bytes(r@[i])),
{
    let mut out: Vec<String> = Vec::new();
    let mut i: usize = 0;
    assert(out@ =~= keys@.subrange(0, 0));
    while i < keys.len()
        invariant
            i <= keys@.len(),
            out@.to_multiset() == keys@.subrange(0, i as int).to_multiset(),
            forall|a: int, b: int| 0 <= a < b < out@.len() ==> !bytes_lt(text_bytes(out@[b]), text_bytes(out@[a])),
        decreases keys@.len() - i,
    {
        let k = keys[i].clone();
        let kb = k.as_str().as_bytes();
        let mut p: usize = 0;
        while p < out.len()
            invariant
                p <= out@.len(),
                kb@ == text_bytes(k),
                forall|q: int| 0 <= q < p ==> !bytes_lt(text_bytes(k), text_bytes(#[trigger] out@[q])),
            ensures
                p <= out@.len(),
                forall|q: int| 0 <= q < p ==> !bytes_lt(text_bytes(k), text_bytes(#[trigger] out@[q])),
                p == out@.len() || bytes_lt(text_bytes(k), text_bytes(out@[p as int])),
            decreases out@.len() - p,
        {
            if bytes_less(kb, out[p].as_str().as_bytes()) {
                break;
            }
            p = p + 1;
        }
        let ghost old_out = out@;
        out.insert(p, k);
        proof {
            assert(keys@.subrange(0, i + 1) =~= keys@.subrange(0, i as int).push(keys@[i as int]));
            vstd::seq_lib::to_multiset_build(keys@.subrange(0, i as int), keys@[i as int]);
            vstd::seq_lib::to_multiset_insert(old_out, p as int, k);
            assert(out@ == old_out.insert(p as int, k));
            let s = out@;
            assert forall|a: int, b: int| 0 <= a < b < s.len() implies !bytes_lt(text_bytes(s[b]), text_bytes(s[a])) by {
                if a < p && b < p {
                    assert(s[a] == old_out[a] && s[b] == old_out[b]);
                } else if a < p && b == p {
                    assert(s[a] == old_out[a]);
                } else if a < p {
                    assert(s[a] == old_out[a] && s[b] == old_out[b - 1]);
                } else if a == p {
                    let t = old_out[b - 1];
                    assert(s[b] == t);
                    assert(bytes_lt(text_bytes(k), text_bytes(old_out[p as int])));
                    if bytes_lt(text_bytes(t), text_bytes(k)) {
                        lemma_bytes_lt_transitive(text_bytes(t), text_bytes(k), text_bytes(old_out[p as int]));
                        if b - 1 == p {
                            lemma_bytes_lt_irreflexive(text_bytes(t));
                        }
                    }
                } else {
                    assert(s[a] == old_out[a - 1] && s[b] == old_out[b - 1]);
                }
            }
        }
        i = i + 1;
    }
    proof {
        assert(keys@.subrange(0, keys@.len() as int) =~= keys@);
    }
    out
}

/// The decimal digits of `n`, as `Display` writes an unsigned integer.
fn decimal_text(n: usize) -> (r: String)
    ensures
        r@ == decimal(n as nat),
{
    let mut m = n;
    let mut acc = String::new();
    while m >= 10
        invariant
            decimal(n as nat) == decimal(m as nat) + acc@,
        decreases m,
    {
        let d = (m % 10) as u8;
        let digit = upper_hex_text(d);
        let ghost old_acc = acc@;
        acc = String::from_str(digit).concat(acc.as_str());
        proof {
            assert(decimal(m as nat) == decimal((m / 10) as nat).push(((m % 10) + 48) as char));
            assert(decimal((m / 10) as nat) + acc@ =~= decimal(m as nat) + old_acc);
        }
        m = m / 10;
    }
    let r = String::from_str(upper_hex_text(m as u8)).concat(acc.as_str());
    proof {
        assert(decimal(m as nat) == seq![(m as nat + 48) as char]);
    }
    r
}

/// The order keys are sorted in is the plain byte-wise lexicographic order of
/// `String`'s `Ord`: `a` comes before `b` exactly when, at the first position
/// where they differ, `a` has the smaller byte, or when `a` is a proper prefix
/// of `b`.
pub proof fn lemma_bytes_lt_is_lexicographic(a: Seq<u8>, b: Seq<u8>)
    ensures
        bytes_lt(a, b) <==> (
            (exists|i: int| 0 <= i < a.len() && i < b.len() && a.subrange(0, i) == b.subrange(0, i) && a[i] < b[i])
            || (a.len() < b.len() && a == b.subrange(0, a.len() as int))),
    decreases a.len(),
{
    let first_diff = exists|i: int| 0 <= i < a.len() && i < b.len() && a.subrange(0, i) == b.subrange(0, i) && a[i] < b[i];
    let prefix = a.len() < b.len() && a == b.subrange(0, a.len() as int);
    if b.len() == 0 {
        assert(!first_diff);
        assert(!prefix);
    } else if a.len() == 0 {
        assert(a =~= b.subrange(0, 0));
    } else if a[0] != b[0] {
        if a[0] < b[0] {
            assert(a.subrange(0, 0) =~= b.subrange(0, 0));
        } else {
            assert forall|i: int| 0 <= i < a.len() && i < b.len() && a.subrange(0, i) == b.subrange(0, i) implies !(a[i] < b[i]) by {
                if i > 0 {
                    assert(a.subrange(0, i)[0] == a[0] && b.subrange(0, i)[0] == b[0]);
                }
            }
            if prefix {
                assert(b.subrange(0, a.len() as int)[0] == b[0]);
            }
        }
    } else {
        let a1 = a.drop_first();
        let b1 = b.drop_first();
        lemma_bytes_lt_is_lexicographic(a1, b1);
        let first_diff1 = exists|i: int| 0 <= i < a1.len() && i < b1.len() && a1.subrange(0, i) == b1.subrange(0, i) && a1[i] < b1[i];
        let prefix1 = a1.len() < b1.len() && a1 == b1.subrange(0, a1.len() as int);
        if first_diff1 {
            let i = choose|i: int| 0 <= i < a1.len() && i < b1.len() && a1.subrange(0, i) == b1.subrange(0, i) && a1[i] < b1[i];
            assert(a.subrange(0, i + 1) =~= seq![a[0]] + a1.subrange(0, i));
            assert(b.subrange(0, i + 1) =~= seq![b[0]] + b1.subrange(0, i));
            assert(a[i + 1] == a1[i] && b[i + 1] == b1[i]);
        }
        if first_diff {
            let i = choose|i: int| 0 <= i < a.len() && i < b.len() && a.subrange(0, i) == b.subrange(0, i) && a[i] < b[i];
            assert(i != 0);
            assert(a1.subrange(0, i - 1) =~= a.subrange(0, i).drop_first());
            assert(b1.subrange(0, i - 1) =~= b.subrange(0, i).drop_first());
            assert(a1[i - 1] == a[i] && b1[i - 1] == b[i]);
        }
        if prefix1 {
            assert(a =~= b.subrange(0, a.len() as int)) by {
                assert forall|j: int| 0 <= j < a.len() implies a[j] == b.subrange(0, a.len() as int)[j] by {
                    if j > 0 {
                        assert(a[j] == a1[j - 1]);
                        assert(b1.subrange(0, a1.len() as int)[j - 1] == b1[j - 1]);
                    }
                }
            }
        }
        if prefix {
            assert(a1 =~= b1.subrange(0, a1.len() as int));
        }
    }
}

/// In particular, one byte comes before another exactly when it is smaller.
pub proof fn lemma_bytes_lt_single(x: u8, y: u8)
    ensures
        bytes_lt(seq![x], seq![y]) <==> x < y,
{
    reveal_with_fuel(bytes_lt, 2);
    assert(seq![x][0] == x && seq![y][0] == y);
    if x == y {
        assert(seq![x].drop_first() =~= Seq::<u8>::empty());
        assert(seq![y].drop_first() =~= Seq::<u8>::empty());
    }
}

/// The lowercase hexadecimal digits, in order of value.
pub open spec fn lower_hex_digits() -> Seq<char> {
    "0123456789abcdef"@
}

/// The uppercase hexadecimal digits, in order of value.
pub open spec fn upper_hex_digits() -> Seq<char> {
    "0123456789ABCDEF"@
}

/// Each hex digit, in either case, has its base-16 value: its position in
/// `0123456789abcdef` or `0123456789ABCDEF`; no other byte is a hex digit.
pub proof fn lemma_hex_digit_values(c: u8)
    ensures
        hex_digit_value(c) is Some <==> exists|d: int| 0 <= d < 16
            && (c == lower_hex_digits()[d] as u8 || c == upper_hex_digits()[d] as u8),
        forall|d: int| 0 <= d < 16 && (c == lower_hex_digits()[d] as u8 || c == upper_hex_digits()[d] as u8)
            ==> hex_digit_value(c) == Some(d as u8),
{
    reveal_strlit("0123456789abcdef");
    reveal_strlit("0123456789ABCDEF");
    let l = lower_hex_digits();
    let u = upper_hex_digits();
    assert(l =~= seq!['0', '1', '2', '3', '4', '5', '6', '7', '8', '9', 'a', 'b', 'c', 'd', 'e', 'f']);
    assert(u =~= seq!['0', '1', '2', '3', '4', '5', '6', '7', '8', '9', 'A', 'B', 'C', 'D', 'E', 'F']);
    if hex_digit_value(c) is Some {
        let d: int = hex_digit_value(c)->0 as int;
        if c <= 57 {
            assert(c == l[d] as u8);
        } else if c >= 97 {
            assert(c == l[d] as u8);
        } else {
            assert(c == u[d] as u8);
        }
    }
}

/// Decoding the two-digit rendering of a byte, high digit first, in lower or
/// upper case, gives back exactly that byte.
pub proof fn lemma_decode_hex_of_byte(v: u8, upper: bool)
    ensures
        ({
            let digits = if upper { upper_hex_digits() } else { lower_hex_digits() };
            let b = seq![digits[(v / 16) as int] as u8, digits[(v % 16) as int] as u8];
            decoded_hex(b) == Ok::<Seq<u8>, Seq<char>>(seq![v])
        }),
{
    let digits = if upper { upper_hex_digits() } else { lower_hex_digits() };
    let hi = digits[(v / 16) as int] as u8;
    let lo = digits[(v % 16) as int] as u8;
    let b = seq![hi, lo];
    lemma_hex_digit_values(hi);
    lemma_hex_digit_values(lo);
    assert(hex_digit_value(hi) == Some((v / 16) as u8));
    assert(hex_digit_value(lo) == Some((v % 16) as u8));
    assert(b[0] == hi && b[1] == lo);
    assert(hex_pair(b, 0) == Some(v));
    assert(hex_from(b, 2) == Ok::<Seq<u8>, Seq<char>>(Seq::empty()));
    assert(seq![v] + Seq::<u8>::empty() =~= seq![v]);
}

/// What the value cell shows: a non-empty value that is valid UTF-8 is its
/// text, truncated to the width; `[bin]` stands for a value that is not UTF-8;
/// an empty value shows nothing.
pub proof fn lemma_format_value_shows_text(b: Seq<u8>, max: nat)
    ensures
        b.len() > 0 && valid_utf8(b) ==> formatted_value(b, max) == truncated(decode_utf8(b), max),
        b.len() > 0 && !valid_utf8(b) ==> formatted_value(b, max) == "[bin]"@,
        b.len() == 0 ==> formatted_value(b, max) == Seq::<char>::empty(),
{
}

} // verus!
