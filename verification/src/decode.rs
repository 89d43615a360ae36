//! URL decoding and the replacement of control bytes.
//!
//! Exactly one layer of percent encoding is taken off. A text that is encoded twice
//! keeps its inner layer: to decode it again would turn harmless data into matches,
//! and whether the server behind the firewall decodes twice is for that server to
//! settle.

use crate::text;
use vstd::prelude::*;

verus! {

/// The kinds of bytes that the normalisation tells apart.
#[derive(Debug, Clone, Copy, PartialEq, Eq, Structural)]
pub enum ControlClass {
    /// Printable bytes and the bytes of multi-byte characters.
    Ordinary,
    /// NUL and the other control bytes, which ordinary traffic does not hold.
    Dangerous,
    /// Tab, line feed and carriage return.
    Benign,
}

/// The class of a byte.
pub open spec fn class_of(b: u8) -> ControlClass {
    if b == 9 || b == 10 || b == 13 {
        ControlClass::Benign
    } else if b < 32 || b == 127 {
        ControlClass::Dangerous
    } else {
        ControlClass::Ordinary
    }
}

/// The class of a byte.
pub fn class_control(b: u8) -> (c: ControlClass)
    ensures
        c == class_of(b),
{
    match b {
        0..=8 | 11 | 12 | 14..=31 | 127 => ControlClass::Dangerous,
        9 | 10 | 13 => ControlClass::Benign,
        _ => ControlClass::Ordinary,
    }
}

/// The value of a hexadecimal digit.
pub open spec fn hex_of(b: u8) -> Option<u8> {
    if 48 <= b <= 57 {
        Some((b - 48) as u8)
    } else if 97 <= b <= 102 {
        Some((b - 97 + 10) as u8)
    } else if 65 <= b <= 70 {
        Some((b - 65 + 10) as u8)
    } else {
        None
    }
}

/// The value of a hexadecimal digit.
pub fn hex_val(b: u8) -> (r: Option<u8>)
    ensures
        r == hex_of(b),
{
    match b {
        48..=57 => Some(b - 48),
        97..=102 => Some(b - 97 + 10),
        65..=70 => Some(b - 65 + 10),
        _ => None,
    }
}

/// The byte that starts the text `b` once it is decoded, and the number of bytes
/// that encode it.
pub open spec fn first_decoded(b: Seq<u8>) -> (u8, nat)
    recommends
        b.len() > 0,
{
    if b[0] == 43 {
        (32u8, 1)
    } else if b[0] == 37 && b.len() > 2 && hex_of(b[1]) is Some && hex_of(b[2]) is Some {
        ((hex_of(b[1]).unwrap() * 16 + hex_of(b[2]).unwrap()) as u8, 3)
    } else {
        (b[0], 1)
    }
}

/// `b` with `%XX` turned into the byte it names and `+` into a space, once.
pub open spec fn percent_decoded(b: Seq<u8>) -> Seq<u8>
    decreases b.len(),
{
    if b.len() == 0 {
        b
    } else {
        let (byte, width) = first_decoded(b);
        seq![byte] + percent_decoded(b.skip(width as int))
    }
}

/// A control byte reads as a space.
pub open spec fn plain(b: u8) -> u8 {
    if class_of(b) == ControlClass::Ordinary {
        b
    } else {
        32
    }
}

/// The bytes that the rules get to see of the encoded text `b`.
pub open spec fn normalized(b: Seq<u8>) -> Seq<u8> {
    percent_decoded(b).map_values(|x: u8| plain(x))
}

/// The number of dangerous bytes in `b`.
pub open spec fn danger_count(b: Seq<u8>) -> nat
    decreases b.len(),
{
    if b.len() == 0 {
        0
    } else {
        danger_count(b.drop_last()) + if class_of(b.last()) == ControlClass::Dangerous {
            1nat
        } else {
            0
        }
    }
}

/// The number of dangerous bytes in the encoded text `b`, once it is decoded.
pub open spec fn suspicion(b: Seq<u8>) -> nat {
    danger_count(percent_decoded(b))
}

proof fn lemma_danger_count_concat(a: Seq<u8>, b: Seq<u8>)
    ensures
        danger_count(a + b) == danger_count(a) + danger_count(b),
    decreases b.len(),
{
    if b.len() == 0 {
        assert(a + b =~= a);
    } else {
        assert((a + b).drop_last() =~= a + b.drop_last());
        lemma_danger_count_concat(a, b.drop_last());
    }
}

/// `n`, or the largest value of a `u32` where `n` is larger.
pub open spec fn capped(n: nat) -> u32 {
    if n <= u32::MAX {
        n as u32
    } else {
        u32::MAX
    }
}

/// Whether a character is one of the ASCII control characters.
pub open spec fn is_control(c: char) -> bool {
    c as u32 <= 31 || c as u32 == 127
}

/// Decodes `s` once and replaces control bytes by spaces; counts the dangerous ones,
/// up to the largest `u32`.
pub fn decode_and_normalize(s: &str) -> (r: (String, u32))
    ensures
        r.0@ == text::lossy(normalized(text::bytes_of(s@))),
        r.1 == capped(suspicion(text::bytes_of(s@))),
        forall|i: int| 0 <= i < r.0@.len() ==> !is_control(#[trigger] r.0@[i]),
{
    let bytes = s.as_bytes();
    let ghost all = bytes@;
    let ghost mut done: Seq<u8> = Seq::empty();
    let mut out: Vec<u8> = Vec::new();
    let mut suspicious: u32 = 0;
    let mut i: usize = 0;
    assert(all.skip(0) =~= all);
    assert(done + percent_decoded(all) =~= percent_decoded(all));
    assert(out@ =~= done.map_values(|x: u8| plain(x)));
    while i < bytes.len()
        invariant
            i <= bytes@.len(),
            all == bytes@,
            percent_decoded(all) == done + percent_decoded(all.skip(i as int)),
            out@ == done.map_values(|x: u8| plain(x)),
            suspicious == capped(danger_count(done)),
        decreases bytes@.len() - i,
    {
        let ghost rest = all.skip(i as int);
        let mut raw: u8 = bytes[i];
        let mut width: usize = 1;
        if raw == 43 {
            raw = 32;
        } else if raw == 37 && bytes.len() - i > 2 {
            if let (Some(hi), Some(lo)) = (hex_val(bytes[i + 1]), hex_val(bytes[i + 2])) {
                assert(hi <= 15 && lo <= 15);
                raw = hi * 16 + lo;
                width = 3;
            }
        }
        proof {
            assert(rest[0] == all[i as int]);
            if rest.len() > 2 {
                assert(rest[1] == all[i + 1]);
                assert(rest[2] == all[i + 2]);
            }
            assert(first_decoded(rest) == (raw, width as nat));
            assert(rest.skip(width as int) =~= all.skip(i + width));
            let next = percent_decoded(all.skip(i + width));
            assert(percent_decoded(all) =~= done.push(raw) + next);
            assert(done.push(raw).drop_last() =~= done);
        }
        match class_control(raw) {
            ControlClass::Ordinary => out.push(raw),
            ControlClass::Dangerous => {
                out.push(32);
                suspicious = suspicious.saturating_add(1);
            },
            ControlClass::Benign => out.push(32),
        }
        proof {
            done = done.push(raw);
            assert(out@ =~= done.map_values(|x: u8| plain(x)));
        }
        i += width;
    }
    assert(done + percent_decoded(all.skip(all.len() as int)) =~= done);
    let decoded = text::lossy_text(out.as_slice());
    proof {
        assert forall|i: int| 0 <= i < decoded@.len() implies !is_control(
            #[trigger] decoded@[i],
        ) by {
            if is_control(decoded@[i]) {
                let b = decoded@[i] as u32 as u8;
                assert(out@.contains(b));
                let k = choose|k: int| 0 <= k < out@.len() && out@[k] == b;
                law_no_control_bytes(all, k);
            }
        }
    }
    (decoded, suspicious)
}

/// No control byte is left in a normalised text.
pub proof fn law_no_control_bytes(b: Seq<u8>, i: int)
    requires
        0 <= i < normalized(b).len(),
    ensures
        class_of(normalized(b)[i]) == ControlClass::Ordinary,
{
}

/// Only one layer of encoding is taken off: what an encoded percent sign and the
/// text behind it decode to is a percent sign and what that text decodes to by
/// itself.
pub proof fn law_single_layer(rest: Seq<u8>)
    ensures
        percent_decoded(seq![37u8, 50u8, 53u8] + rest) == seq![37u8] + percent_decoded(rest),
{
    let b = seq![37u8, 50u8, 53u8] + rest;
    assert(b.skip(3) =~= rest);
}

/// Decoding never makes a text longer.
pub proof fn law_decoding_shortens(b: Seq<u8>)
    ensures
        normalized(b).len() <= b.len(),
        suspicion(b) <= b.len(),
    decreases b.len(),
{
    lemma_danger_count_bound(percent_decoded(b));
    if b.len() > 0 {
        let width = first_decoded(b).1;
        law_decoding_shortens(b.skip(width as int));
    }
}

proof fn lemma_danger_count_bound(b: Seq<u8>)
    ensures
        danger_count(b) <= b.len(),
    decreases b.len(),
{
    if b.len() > 0 {
        lemma_danger_count_bound(b.drop_last());
    }
}

/// A text without `%`, `+` and control bytes is left as it is, and nothing in it is
/// suspicious.
pub proof fn law_plain_text_unchanged(b: Seq<u8>)
    requires
        forall|i: int| #![trigger b[i]]
            0 <= i < b.len() ==> b[i] != 37 && b[i] != 43 && class_of(b[i]) == ControlClass::Ordinary,
    ensures
        normalized(b) == b,
        suspicion(b) == 0,
    decreases b.len(),
{
    lemma_plain_decodes_to_itself(b);
    assert(normalized(b) =~= b);
    lemma_no_danger(b);
}

proof fn lemma_plain_decodes_to_itself(b: Seq<u8>)
    requires
        forall|i: int| #![trigger b[i]] 0 <= i < b.len() ==> b[i] != 37 && b[i] != 43,
    ensures
        percent_decoded(b) == b,
    decreases b.len(),
{
    if b.len() > 0 {
        lemma_plain_decodes_to_itself(b.skip(1));
        assert(seq![b[0]] + b.skip(1) =~= b);
    }
}

proof fn lemma_no_danger(b: Seq<u8>)
    requires
        forall|i: int| #![trigger b[i]]
            0 <= i < b.len() ==> class_of(b[i]) != ControlClass::Dangerous,
    ensures
        danger_count(b) == 0,
    decreases b.len(),
{
    if b.len() > 0 {
        lemma_no_danger(b.drop_last());
    }
}

/// A text without `%`, `+` and control characters is seen as it is.
pub proof fn law_plain_text_is_seen_as_it_is(s: Seq<char>)
    requires
        forall|i: int|
            #![trigger text::bytes_of(s)[i]]
            0 <= i < text::bytes_of(s).len() ==> text::bytes_of(s)[i] != 37 && text::bytes_of(s)[i]
                != 43 && class_of(text::bytes_of(s)[i]) == ControlClass::Ordinary,
    ensures
        text::lossy(normalized(text::bytes_of(s))) == s,
{
    law_plain_text_unchanged(text::bytes_of(s));
    text::lemma_lossy_of_text(s);
}

/// A byte that is encoded is seen as if it were not, so that encoding hides nothing.
pub proof fn law_encoded_byte_is_seen_as_plain(hi: u8, lo: u8, b: u8, rest: Seq<u8>)
    requires
        hex_of(hi) is Some,
        hex_of(lo) is Some,
        b == hex_of(hi).unwrap() * 16 + hex_of(lo).unwrap(),
        b != 37,
        b != 43,
    ensures
        percent_decoded(seq![37u8, hi, lo] + rest) == percent_decoded(seq![b] + rest),
{
    let coded = seq![37u8, hi, lo] + rest;
    let bare = seq![b] + rest;
    assert(coded.skip(3) =~= rest);
    assert(bare.skip(1) =~= rest);
}

/// Text without a percent sign is decoded apart from what follows it, and the
/// dangerous bytes of the two parts add up.
pub proof fn law_decoded_apart(a: Seq<u8>, b: Seq<u8>)
    requires
        forall|i: int| #![trigger a[i]] 0 <= i < a.len() ==> a[i] != 37,
    ensures
        percent_decoded(a + b) == percent_decoded(a) + percent_decoded(b),
        normalized(a + b) == normalized(a) + normalized(b),
        suspicion(a + b) == suspicion(a) + suspicion(b),
{
    lemma_decoded_apart(a, b);
    lemma_danger_count_concat(percent_decoded(a), percent_decoded(b));
    assert(normalized(a + b) =~= normalized(a) + normalized(b));
}

/// What the decoding leaves of a character that is no percent sign.
pub open spec fn plain_char(c: char) -> char {
    if c == '+' || is_control(c) {
        ' '
    } else {
        c
    }
}

/// A text without a percent sign is seen character by character: `+` and control
/// characters as spaces, every other character as it is.
pub proof fn law_unencoded_text(s: Seq<char>)
    requires
        !s.contains('%'),
    ensures
        normalized(text::bytes_of(s)) == text::bytes_of(s.map_values(|c: char| plain_char(c))),
        text::lossy(normalized(text::bytes_of(s))) == s.map_values(|c: char| plain_char(c)),
        forall|i: int| #![trigger text::bytes_of(s)[i]]
            0 <= i < text::bytes_of(s).len() ==> text::bytes_of(s)[i] != 37,
    decreases s.len(),
{
    let seen = s.map_values(|c: char| plain_char(c));
    text::lemma_lossy_of_text(seen);
    if s.len() == 0 {
        assert(normalized(text::bytes_of(s)) =~= text::bytes_of(seen));
    } else {
        let rest = s.drop_first();
        assert forall|i: int| 0 <= i < rest.len() implies rest[i] != '%' by {
            assert(s[i + 1] == rest[i]);
            assert(s.contains(s[i + 1]));
        }
        law_unencoded_text(rest);
        assert(s.contains(s[0]));
        assert(seen.drop_first() =~= rest.map_values(|c: char| plain_char(c)));
        text::lemma_scalar_bytes(s[0]);
        text::lemma_scalar_bytes(' ');
        let first = vstd::utf8::encode_scalar(s[0] as u32);
        assert(forall|i: int| #![trigger first[i]] 0 <= i < first.len() ==> first[i] != 37);
        law_decoded_apart(first, text::bytes_of(rest));
        lemma_scalar_seen(s[0]);
    }
}

proof fn lemma_scalar_seen(c: char)
    requires
        c != '%',
    ensures
        normalized(vstd::utf8::encode_scalar(c as u32)) == vstd::utf8::encode_scalar(
            plain_char(c) as u32,
        ),
{
    let first = vstd::utf8::encode_scalar(c as u32);
    text::lemma_scalar_bytes(c);
    text::lemma_scalar_bytes(' ');
    if c as u32 > 127 {
        law_plain_text_unchanged(first);
    } else {
        assert(first.skip(1) =~= Seq::<u8>::empty());
        assert(percent_decoded(first.skip(1)) =~= Seq::<u8>::empty());
        assert(normalized(first) =~= vstd::utf8::encode_scalar(plain_char(c) as u32));
    }
}

/// A text without a percent sign is seen apart from the text that follows it, whatever
/// that text is, and the dangerous bytes of the two add up.
pub proof fn law_text_is_seen_apart(a: Seq<char>, b: Seq<char>)
    requires
        !a.contains('%'),
    ensures
        text::lossy(normalized(text::bytes_of(a + b))) == text::lossy(
            normalized(text::bytes_of(a)),
        ) + text::lossy(normalized(text::bytes_of(b))),
        suspicion(text::bytes_of(a + b)) == suspicion(text::bytes_of(a)) + suspicion(
            text::bytes_of(b),
        ),
        text::bytes_of(a).len() + text::bytes_of(b).len() <= u32::MAX ==> capped(
            suspicion(text::bytes_of(a + b)),
        ) == capped(suspicion(text::bytes_of(a))) + capped(suspicion(text::bytes_of(b))),
{
    law_decoding_shortens(text::bytes_of(a));
    law_decoding_shortens(text::bytes_of(b));
    let seen = a.map_values(|c: char| plain_char(c));
    law_unencoded_text(a);
    text::lemma_bytes_of_concat(a, b);
    law_decoded_apart(text::bytes_of(a), text::bytes_of(b));
    vstd::utf8::encode_utf8_valid_utf8(seen);
    vstd::utf8::encode_utf8_decode_utf8(seen);
    text::lemma_lossy_behind_valid(text::bytes_of(seen), normalized(text::bytes_of(b)));
}

proof fn lemma_decoded_apart(a: Seq<u8>, b: Seq<u8>)
    requires
        forall|i: int| #![trigger a[i]] 0 <= i < a.len() ==> a[i] != 37,
    ensures
        percent_decoded(a + b) == percent_decoded(a) + percent_decoded(b),
    decreases a.len(),
{
    if a.len() == 0 {
        assert(a + b =~= b);
        assert(percent_decoded(a) + percent_decoded(b) =~= percent_decoded(b));
    } else {
        assert((a + b)[0] == a[0]);
        assert((a + b).skip(1) =~= a.skip(1) + b);
        lemma_decoded_apart(a.skip(1), b);
        let first = seq![first_decoded(a).0];
        assert(first + (percent_decoded(a.skip(1)) + percent_decoded(b)) =~= (first
            + percent_decoded(a.skip(1))) + percent_decoded(b));
    }
}

/// A NUL cannot split a word unseen: it is seen as a space, and counts as dangerous.
pub proof fn law_nul_is_seen_as_a_space(a: Seq<u8>, b: Seq<u8>)
    requires
        forall|i: int| #![trigger a[i]] 0 <= i < a.len() ==> a[i] != 37,
    ensures
        normalized(a + (seq![37u8, 48u8, 48u8] + b)) == normalized(a) + seq![32u8] + normalized(b),
        suspicion(a + (seq![37u8, 48u8, 48u8] + b)) == suspicion(a) + 1 + suspicion(b),
{
    let tail = seq![37u8, 48u8, 48u8] + b;
    lemma_decoded_apart(a, tail);
    assert(tail.skip(3) =~= b);
    let (da, db) = (percent_decoded(a), percent_decoded(b));
    assert(percent_decoded(tail) =~= seq![0u8] + db);
    assert(normalized(a + tail) =~= normalized(a) + seq![32u8] + normalized(b));
    lemma_danger_count_concat(da, seq![0u8] + db);
    lemma_danger_count_concat(seq![0u8], db);
    let one = seq![0u8];
    assert(one.drop_last() =~= Seq::<u8>::empty());
    assert(danger_count(one.drop_last()) == 0);
    assert(one.last() == 0u8);
    assert(danger_count(one) == 1);
}

/// The byte that writes the hexadecimal digit of value `d`, with a capital or a small
/// letter from ten on.
pub open spec fn hex_digit(d: int, capital: bool) -> u8 {
    if d < 10 {
        (48 + d) as u8
    } else if capital {
        (55 + d) as u8
    } else {
        (87 + d) as u8
    }
}

/// `b` with every byte written as a percent sign and its two hexadecimal digits, in
/// whatever case.
pub open spec fn percent_encoded(b: Seq<u8>, capitals: spec_fn(int) -> bool) -> Seq<u8>
    decreases b.len(),
{
    if b.len() == 0 {
        b
    } else {
        let n = b.len() as int;
        percent_encoded(b.drop_last(), capitals) + seq![
            37u8,
            hex_digit(b.last() as int / 16, capitals(2 * n)),
            hex_digit(b.last() as int % 16, capitals(2 * n + 1)),
        ]
    }
}

/// The hexadecimal digits are 0 to 9, a to f and A to F, with their usual values.
pub proof fn law_hexadecimal_digits(b: u8)
    ensures
        hex_of(b) is Some <==> 48 <= b <= 57 || 65 <= b <= 70 || 97 <= b <= 102,
        48 <= b <= 57 ==> hex_of(b) == Some((b - 48) as u8),
        65 <= b <= 70 ==> hex_of(b) == Some((b - 55) as u8) && hex_of(b) == hex_of(
            (b + 32) as u8,
        ),
        97 <= b <= 102 ==> hex_of(b) == Some((b - 87) as u8),
{
}

/// A percent sign and the two hexadecimal digits of any byte, each in either case, stand
/// for that byte, whatever follows.
pub proof fn law_encoded_byte_is_decoded(b: u8, high: bool, low: bool, rest: Seq<u8>)
    ensures
        percent_decoded(
            seq![37u8, hex_digit(b as int / 16, high), hex_digit(b as int % 16, low)] + rest,
        ) == seq![b] + percent_decoded(rest),
{
    let coded = seq![37u8, hex_digit(b as int / 16, high), hex_digit(b as int % 16, low)] + rest;
    assert(coded.skip(3) =~= rest);
    assert(b == b / 16 * 16 + b % 16);
}

/// Decoding undoes encoding: a text of which every byte is encoded, in whatever case, is
/// decoded to that text, apart from what follows it.
pub proof fn law_decoding_undoes_encoding(
    b: Seq<u8>,
    capitals: spec_fn(int) -> bool,
    rest: Seq<u8>,
)
    ensures
        percent_decoded(percent_encoded(b, capitals) + rest) == b + percent_decoded(rest),
    decreases b.len(),
{
    if b.len() == 0 {
        assert(percent_encoded(b, capitals) + rest =~= rest);
        assert(b + percent_decoded(rest) =~= percent_decoded(rest));
    } else {
        let n = b.len() as int;
        let front = percent_encoded(b.drop_last(), capitals);
        let last = seq![
            37u8,
            hex_digit(b.last() as int / 16, capitals(2 * n)),
            hex_digit(b.last() as int % 16, capitals(2 * n + 1)),
        ];
        assert((front + last) + rest =~= front + (last + rest));
        law_decoding_undoes_encoding(b.drop_last(), capitals, last + rest);
        law_encoded_byte_is_decoded(b.last(), capitals(2 * n), capitals(2 * n + 1), rest);
        assert(b.drop_last() + (seq![b.last()] + percent_decoded(rest)) =~= b + percent_decoded(
            rest,
        ));
    }
}

/// Every byte that starts no encoded one stands for itself, but a plus sign for a space.
pub proof fn law_other_bytes_stand_for_themselves(b: u8, rest: Seq<u8>)
    requires
        b == 37 ==> rest.len() < 2 || !is_hex_digit(rest[0]) || !is_hex_digit(rest[1]),
    ensures
        percent_decoded(seq![b] + rest) == seq![if b == 43 { 32u8 } else { b }] + percent_decoded(
            rest,
        ),
        percent_decoded(Seq::empty()) == Seq::<u8>::empty(),
{
    let all = seq![b] + rest;
    assert(all.skip(1) =~= rest);
    assert(all[0] == b);
    if rest.len() >= 2 {
        assert(all[1] == rest[0] && all[2] == rest[1]);
    }
}

/// Whether a byte is one of the 22 hexadecimal digits.
pub open spec fn is_hex_digit(b: u8) -> bool {
    48 <= b <= 57 || 65 <= b <= 70 || 97 <= b <= 102
}

/// What the rules see of a decoded byte: a space for each of the 33 control bytes, and
/// every other byte as it is.
pub proof fn law_control_bytes_are_seen_as_spaces(b: Seq<u8>)
    ensures
        normalized(b).len() == percent_decoded(b).len(),
        forall|i: int|
            0 <= i < percent_decoded(b).len() ==> #[trigger] normalized(b)[i] == {
                let x = percent_decoded(b)[i];
                if x <= 31 || x == 127 {
                    32u8
                } else {
                    x
                }
            },
{
}

/// The dangerous bytes are the control bytes without tab, line feed and carriage return,
/// and each of them that the decoded text holds counts.
pub proof fn law_dangerous_bytes_are_counted(b: Seq<u8>)
    ensures
        suspicion(b) == percent_decoded(b).filter(
            |x: u8| (x <= 31 && x != 9 && x != 10 && x != 13) || x == 127,
        ).len(),
{
    lemma_danger_is_filtered(percent_decoded(b));
}

proof fn lemma_danger_is_filtered(b: Seq<u8>)
    ensures
        danger_count(b) == b.filter(
            |x: u8| (x <= 31 && x != 9 && x != 10 && x != 13) || x == 127,
        ).len(),
    decreases b.len(),
{
    reveal(Seq::filter);
    if b.len() > 0 {
        lemma_danger_is_filtered(b.drop_last());
    }
}

/// A count is told up to the largest number of 32 bits.
pub proof fn law_counts_are_told_up_to_32_bits(n: nat)
    ensures
        capped(n) == if n < 0x1_0000_0000 {
            n
        } else {
            0xffff_ffff
        },
{
}

} // verus!
