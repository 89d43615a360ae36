//! Text helpers: the parts of string handling that the rest of the crate needs,
//! each stated over the characters of the string.

use vstd::prelude::*;

verus! {

/// `String::push` appends one character to the end of the string.
pub assume_specification[ String::push ](s: &mut String, c: char)
    ensures
        final(s)@ == old(s)@.push(c),
;

/// The UTF-8 encoding of a text.
pub open spec fn bytes_of(s: Seq<char>) -> Seq<u8> {
    vstd::utf8::encode_utf8(s)
}

/// The text that `String::from_utf8_lossy` makes of a byte string.
pub uninterp spec fn utf8_lossy(bytes: Seq<u8>) -> Seq<char>;

/// Calls `String::from_utf8_lossy`. The result is a function of the bytes. The
/// characters that the bytes encode up to the first invalid place stand in it as they
/// are, and what follows them is the text of the remaining bytes. Replacing adds no
/// ASCII character: each one in the result is a byte of the argument.
#[verifier::external_body]
pub(crate) fn lossy_text(bytes: &[u8]) -> (text: String)
    ensures
        text@ == utf8_lossy(bytes@),
        text@ == lossy(bytes@),
        forall|i: int|
            0 <= i < text@.len() && (#[trigger] text@[i]) as u32 <= 127 ==> bytes@.contains(
                text@[i] as u32 as u8,
            ),
{
    String::from_utf8_lossy(bytes).into_owned()
}

/// The text of a byte string: the characters that it encodes as far as it is valid
/// UTF-8, and from the first invalid place on what is left of it once everything
/// invalid is replaced.
pub open spec fn lossy(bytes: Seq<u8>) -> Seq<char>
    decreases bytes.len(),
{
    if bytes.len() == 0 {
        Seq::empty()
    } else if vstd::utf8::valid_first_scalar(bytes) {
        seq![vstd::utf8::decode_first_scalar(bytes) as char] + lossy(
            vstd::utf8::pop_first_scalar(bytes),
        )
    } else {
        utf8_lossy(bytes)
    }
}

/// Valid bytes in front of others stand for the text that they encode.
pub proof fn lemma_lossy_behind_valid(a: Seq<u8>, b: Seq<u8>)
    requires
        vstd::utf8::valid_utf8(a),
    ensures
        lossy(a + b) == vstd::utf8::decode_utf8(a) + lossy(b),
    decreases a.len(),
{
    if a.len() == 0 {
        assert(a + b =~= b);
        assert(vstd::utf8::decode_utf8(a) + lossy(b) =~= lossy(b));
    } else {
        let rest = vstd::utf8::pop_first_scalar(a);
        lemma_lossy_behind_valid(rest, b);
        assert(vstd::utf8::pop_first_scalar(a + b) =~= rest + b);
        let first = seq![vstd::utf8::decode_first_scalar(a) as char];
        assert(lossy(a + b) =~= first + (vstd::utf8::decode_utf8(rest) + lossy(b)));
        assert(first + (vstd::utf8::decode_utf8(rest) + lossy(b)) =~= (first
            + vstd::utf8::decode_utf8(rest)) + lossy(b));
    }
}

/// The bytes of a text stand for that text.
pub proof fn lemma_lossy_of_text(s: Seq<char>)
    ensures
        lossy(bytes_of(s)) == s,
{
    vstd::utf8::encode_utf8_valid_utf8(s);
    vstd::utf8::encode_utf8_decode_utf8(s);
    lemma_lossy_behind_valid(bytes_of(s), Seq::empty());
    assert(bytes_of(s) + Seq::<u8>::empty() =~= bytes_of(s));
    assert(s + Seq::<char>::empty() =~= s);
}

/// The encoding of two texts one after the other.
pub proof fn lemma_bytes_of_concat(a: Seq<char>, b: Seq<char>)
    ensures
        bytes_of(a + b) == bytes_of(a) + bytes_of(b),
    decreases a.len(),
{
    if a.len() == 0 {
        assert(a + b =~= b);
        assert(bytes_of(a) + bytes_of(b) =~= bytes_of(b));
    } else {
        assert((a + b).drop_first() =~= a.drop_first() + b);
        lemma_bytes_of_concat(a.drop_first(), b);
        let first = vstd::utf8::encode_scalar(a[0] as u32);
        assert(first + (bytes_of(a.drop_first()) + bytes_of(b)) =~= (first + bytes_of(
            a.drop_first(),
        )) + bytes_of(b));
    }
}

/// An ASCII character is encoded by one byte of its value, any other character by
/// bytes beyond ASCII.
pub proof fn lemma_scalar_bytes(c: char)
    ensures
        c as u32 <= 127 ==> vstd::utf8::encode_scalar(c as u32) == seq![c as u32 as u8],
        c as u32 > 127 ==> forall|i: int|
            0 <= i < vstd::utf8::encode_scalar(c as u32).len() ==> (
            #[trigger] vstd::utf8::encode_scalar(c as u32)[i]) >= 128,
{
    let v: u32 = c as u32;
    assert(v <= 127 ==> (v & 0x7F) as u8 == v as u8) by (bit_vector);
    assert(forall|x: u8| #[trigger] (0x80u8 | x) >= 128u8) by (bit_vector);
    assert(forall|x: u8| #[trigger] (0xC0u8 | x) >= 128u8) by (bit_vector);
    assert(forall|x: u8| #[trigger] (0xE0u8 | x) >= 128u8) by (bit_vector);
    assert(forall|x: u8| #[trigger] (0xF0u8 | x) >= 128u8) by (bit_vector);
}

/// The characters of `s`, one per element.
pub fn chars_of(s: &str) -> (out: Vec<char>)
    ensures
        out@ == s@,
{
    let mut out: Vec<char> = Vec::new();
    for c in it: s.chars()
        invariant
            out@ == it.seq().take(it.index() as int),
            it.seq() == s@,
    {
        out.push(c);
        assert(out@ =~= it.seq().take(it.index() as int + 1));
    }
    assert(out@ =~= s@);
    out
}

/// The string made of the characters `cs[from..to]`.
pub fn string_from(cs: &Vec<char>, from: usize, to: usize) -> (out: String)
    requires
        from <= to <= cs@.len(),
    ensures
        out@ == cs@.subrange(from as int, to as int),
{
    let mut out = String::new();
    let mut i: usize = from;
    assert(out@ =~= cs@.subrange(from as int, from as int));
    while i < to
        invariant
            from <= i <= to <= cs@.len(),
            out@ == cs@.subrange(from as int, i as int),
        decreases to - i,
    {
        out.push(cs[i]);
        i += 1;
        assert(out@ =~= cs@.subrange(from as int, i as int));
    }
    out
}

/// `c` with an ASCII capital turned into the small letter.
pub open spec fn lower_char(c: char) -> char {
    if 'A' <= c && c <= 'Z' {
        ((c as u8) + 32) as u8 as char
    } else {
        c
    }
}

/// `s` with every ASCII capital turned into the small letter.
pub open spec fn lower(s: Seq<char>) -> Seq<char> {
    s.map_values(|c: char| lower_char(c))
}

fn to_lower_char(c: char) -> (r: char)
    ensures
        r == lower_char(c),
{
    if 'A' <= c && c <= 'Z' {
        ((c as u8) + 32) as char
    } else {
        c
    }
}

/// ASCII lower case.
pub fn to_lower(s: &str) -> (out: String)
    ensures
        out@ == lower(s@),
{
    let mut out = String::new();
    for c in it: s.chars()
        invariant
            out@ == lower(it.seq().take(it.index() as int)),
            it.seq() == s@,
    {
        out.push(to_lower_char(c));
        assert(out@ =~= lower(it.seq().take(it.index() as int + 1)));
    }
    assert(s@.take(s@.len() as int) =~= s@);
    out
}

/// Whether the two strings hold the same characters.
pub fn same_text(a: &str, b: &str) -> (r: bool)
    ensures
        r == (a@ == b@),
{
    let x = a.as_bytes();
    let y = b.as_bytes();
    proof {
        broadcast use vstd::utf8::encode_utf8_decode_utf8;
        assert(vstd::utf8::decode_utf8(x@) == a@);
        assert(vstd::utf8::decode_utf8(y@) == b@);
    }
    if x.len() != y.len() {
        return false;
    }
    let mut i: usize = 0;
    while i < x.len()
        invariant
            i <= x@.len(),
            x@.len() == y@.len(),
            forall|k: int| 0 <= k < i ==> x@[k] == y@[k],
            x@ == vstd::utf8::encode_utf8(a@),
            y@ == vstd::utf8::encode_utf8(b@),
        decreases x@.len() - i,
    {
        if x[i] != y[i] {
            return false;
        }
        i += 1;
    }
    assert(x@ =~= y@);
    true
}

/// Appends the text `cs` to `out`.
pub fn push_chars(out: &mut String, cs: &str)
    ensures
        final(out)@ == old(out)@ + cs@,
{
    let ghost before = out@;
    for c in it: cs.chars()
        invariant
            out@ == before + it.seq().take(it.index() as int),
            it.seq() == cs@,
    {
        out.push(c);
        assert(out@ =~= before + it.seq().take(it.index() as int + 1));
    }
    assert(cs@.take(cs@.len() as int) =~= cs@);
}

/// The two texts one after the other.
pub fn joined(a: &str, b: &str) -> (out: String)
    ensures
        out@ == a@ + b@,
{
    let mut out = a.to_owned();
    push_chars(&mut out, b);
    out
}

/// What stands in `s` behind `prefix`, if `s` starts with it.
pub fn strip_prefix(s: &str, prefix: &str) -> (r: Option<String>)
    ensures
        match r {
            Some(rest) => prefix@.is_prefix_of(s@) && rest@ == s@.skip(prefix@.len() as int),
            None => !prefix@.is_prefix_of(s@),
        },
{
    let cs = chars_of(s);
    let ps = chars_of(prefix);
    if ps.len() > cs.len() {
        return None;
    }
    let mut i: usize = 0;
    while i < ps.len()
        invariant
            i <= ps@.len() <= cs@.len(),
            ps@ == prefix@,
            cs@ == s@,
            forall|k: int| 0 <= k < i ==> ps@[k] == cs@[k],
        decreases ps@.len() - i,
    {
        if cs[i] != ps[i] {
            return None;
        }
        i += 1;
    }
    let rest = string_from(&cs, ps.len(), cs.len());
    assert(rest@ =~= s@.skip(prefix@.len() as int));
    Some(rest)
}

/// The characters with the Unicode property `White_Space`.
pub open spec fn is_white_space(c: char) -> bool {
    ||| '\u{9}' <= c <= '\u{d}'
    ||| c == '\u{20}'
    ||| c == '\u{85}'
    ||| c == '\u{a0}'
    ||| c == '\u{1680}'
    ||| '\u{2000}' <= c <= '\u{200a}'
    ||| c == '\u{2028}'
    ||| c == '\u{2029}'
    ||| c == '\u{202f}'
    ||| c == '\u{205f}'
    ||| c == '\u{3000}'
}

fn white_space(c: char) -> (r: bool)
    ensures
        r == is_white_space(c),
{
    ('\u{9}' <= c && c <= '\u{d}') || c == '\u{20}' || c == '\u{85}' || c == '\u{a0}' || c
        == '\u{1680}' || ('\u{2000}' <= c && c <= '\u{200a}') || c == '\u{2028}' || c == '\u{2029}'
        || c == '\u{202f}' || c == '\u{205f}' || c == '\u{3000}'
}

/// `s` without the white space at its start.
pub open spec fn trim_start(s: Seq<char>) -> Seq<char>
    decreases s.len(),
{
    if s.len() > 0 && is_white_space(s[0]) {
        trim_start(s.drop_first())
    } else {
        s
    }
}

/// `s` without the white space at its end.
pub open spec fn trim_end(s: Seq<char>) -> Seq<char>
    decreases s.len(),
{
    if s.len() > 0 && is_white_space(s.last()) {
        trim_end(s.drop_last())
    } else {
        s
    }
}

/// `s` without the white space at either end.
pub open spec fn trimmed(s: Seq<char>) -> Seq<char> {
    trim_end(trim_start(s))
}

/// `s` without leading and trailing white space.
pub fn trim(s: &str) -> (out: String)
    ensures
        out@ == trimmed(s@),
{
    let cs = chars_of(s);
    let mut i: usize = 0;
    assert(cs@.subrange(0, cs@.len() as int) =~= cs@);
    while i < cs.len() && white_space(cs[i])
        invariant
            i <= cs@.len(),
            trim_start(cs@) == trim_start(cs@.subrange(i as int, cs@.len() as int)),
        decreases cs@.len() - i,
    {
        assert(cs@.subrange(i as int, cs@.len() as int).drop_first() =~= cs@.subrange(
            i as int + 1,
            cs@.len() as int,
        ));
        i += 1;
    }
    let mut j: usize = cs.len();
    let ghost start = cs@.subrange(i as int, cs@.len() as int);
    assert(trim_start(cs@) == start);
    while j > i && white_space(cs[j - 1])
        invariant
            i <= j <= cs@.len(),
            trim_end(start) == trim_end(cs@.subrange(i as int, j as int)),
        decreases j,
    {
        assert(cs@.subrange(i as int, j as int).drop_last() =~= cs@.subrange(
            i as int,
            j as int - 1,
        ));
        j -= 1;
    }
    string_from(&cs, i, j)
}

/// The pieces of `s` between the occurrences of `sep`. There is always at least one
/// piece.
pub open spec fn split_at_char(s: Seq<char>, sep: char) -> Seq<Seq<char>>
    decreases s.len(),
{
    if s.len() == 0 {
        seq![Seq::<char>::empty()]
    } else {
        let before = split_at_char(s.drop_last(), sep);
        if s.last() == sep {
            before.push(Seq::<char>::empty())
        } else {
            before.drop_last().push(before.last().push(s.last()))
        }
    }
}

/// The views of a list of strings.
pub open spec fn views(v: Seq<String>) -> Seq<Seq<char>> {
    v.map_values(|s: String| s@)
}

pub proof fn lemma_split_nonempty(s: Seq<char>, sep: char)
    ensures
        split_at_char(s, sep).len() >= 1,
    decreases s.len(),
{
    if s.len() > 0 {
        lemma_split_nonempty(s.drop_last(), sep);
    }
}

/// The pieces of `s` between the occurrences of `sep`.
pub fn split(s: &str, sep: char) -> (out: Vec<String>)
    ensures
        views(out@) == split_at_char(s@, sep),
        out@.len() >= 1,
{
    let mut out: Vec<String> = Vec::new();
    let mut piece = String::new();
    assert(views(out@).push(piece@) =~= split_at_char(s@.take(0), sep));
    for c in it: s.chars()
        invariant
            views(out@).push(piece@) == split_at_char(it.seq().take(it.index() as int), sep),
            it.seq() == s@,
    {
        let ghost next = it.seq().take(it.index() as int + 1);
        assert(next.drop_last() =~= it.seq().take(it.index() as int));
        let ghost before = views(out@).push(piece@);
        assert(before.drop_last() =~= views(out@));
        if c == sep {
            let ghost done = out@;
            let ghost last = piece@;
            out.push(piece);
            piece = String::new();
            assert(views(out@) =~= views(done).push(last));
            assert(views(out@).push(piece@) =~= split_at_char(next, sep));
        } else {
            piece.push(c);
            assert(views(out@).push(piece@) =~= split_at_char(next, sep));
        }
    }
    assert(s@.take(s@.len() as int) =~= s@);
    let ghost done = out@;
    let ghost last = piece@;
    out.push(piece);
    assert(views(out@) =~= views(done).push(last));
    out
}

/// The digits of `n` in base `radix`, as text.
pub open spec fn digits(n: nat, radix: nat) -> Seq<char>
    recommends
        2 <= radix <= 16,
    decreases n,
{
    if n < radix || radix < 2 {
        seq![digit_char(n)]
    } else {
        proof {
            assert(n / radix < n) by (nonlinear_arith)
                requires
                    n >= radix,
                    radix >= 2,
            ;
        }
        digits(n / radix, radix).push(digit_char(n % radix))
    }
}

/// The digit with the value `d`.
pub open spec fn digit_char(d: nat) -> char {
    if d < 10 {
        ('0' as nat + d) as char
    } else {
        ('a' as nat + (d - 10)) as char
    }
}

/// The value of the digit `c` in base `radix`, if it is one.
pub open spec fn digit_value(c: char, radix: nat) -> Option<nat> {
    let v: int = if '0' <= c && c <= '9' {
        c as int - '0' as int
    } else if 'a' <= c && c <= 'f' {
        c as int - 'a' as int + 10
    } else if 'A' <= c && c <= 'F' {
        c as int - 'A' as int + 10
    } else {
        16
    };
    if v < radix {
        Some(v as nat)
    } else {
        None
    }
}

fn to_digit_char(d: u32) -> (c: char)
    requires
        d < 16,
    ensures
        c == digit_char(d as nat),
{
    if d < 10 {
        (48 + d as u8) as char
    } else {
        (97 + (d as u8 - 10)) as char
    }
}

fn to_digit_value(c: char, radix: u32) -> (r: Option<u32>)
    requires
        radix <= 16,
    ensures
        match r {
            Some(v) => digit_value(c, radix as nat) == Some(v as nat) && v < radix,
            None => digit_value(c, radix as nat) is None,
        },
{
    let v: u32 = if '0' <= c && c <= '9' {
        c as u32 - '0' as u32
    } else if 'a' <= c && c <= 'f' {
        c as u32 - 'a' as u32 + 10
    } else if 'A' <= c && c <= 'F' {
        c as u32 - 'A' as u32 + 10
    } else {
        16
    };
    if v < radix {
        Some(v)
    } else {
        None
    }
}

/// Appends the digits of `n` in base `radix`.
pub fn push_digits(out: &mut String, n: u64, radix: u32)
    requires
        2 <= radix <= 16,
    ensures
        final(out)@ == old(out)@ + digits(n as nat, radix as nat),
    decreases n,
{
    if n < radix as u64 {
        out.push(to_digit_char(n as u32));
        assert(out@ =~= old(out)@ + digits(n as nat, radix as nat));
    } else {
        assert(n / (radix as u64) < n) by (nonlinear_arith)
            requires
                n >= radix,
                radix >= 2,
        ;
        push_digits(out, n / radix as u64, radix);
        out.push(to_digit_char((n % radix as u64) as u32));
        assert(out@ =~= old(out)@ + digits(n as nat, radix as nat));
    }
}

/// The value of a digit string read from the left, if every character is a digit.
/// The empty string has the value nought.
pub open spec fn digits_value(s: Seq<char>, radix: nat) -> Option<nat>
    decreases s.len(),
{
    if s.len() == 0 {
        Some(0)
    } else {
        match (digits_value(s.drop_last(), radix), digit_value(s.last(), radix)) {
            (Some(v), Some(d)) => Some(v * radix + d),
            _ => None,
        }
    }
}

/// The value of the digits `cs[from..to]`, up to `max`.
pub fn read_digits(cs: &Vec<char>, from: usize, to: usize, radix: u32, max: u64) -> (r: Option<u64>)
    requires
        from <= to <= cs@.len(),
        2 <= radix <= 16,
        max < 0x1000_0000_0000_0000,
    ensures
        match r {
            Some(v) => v <= max && digits_value(
                cs@.subrange(from as int, to as int),
                radix as nat,
            ) == Some(v as nat),
            None => match digits_value(cs@.subrange(from as int, to as int), radix as nat) {
                Some(v) => v > max,
                None => true,
            },
        },
{
    let ghost all = cs@.subrange(from as int, to as int);
    let mut v: u64 = 0;
    let mut i: usize = from;
    assert(all.take(0) =~= Seq::<char>::empty());
    while i < to
        invariant
            from <= i <= to <= cs@.len(),
            2 <= radix <= 16,
            max < 0x1000_0000_0000_0000,
            v <= max,
            all == cs@.subrange(from as int, to as int),
            digits_value(all.take(i - from), radix as nat) == Some(v as nat),
        decreases to - i,
    {
        let ghost next = all.take(i - from + 1);
        assert(next.drop_last() =~= all.take(i - from));
        assert(next.last() == cs@[i as int]);
        match to_digit_value(cs[i], radix) {
            None => {
                proof {
                    lemma_digits_value_prefix(all, i - from + 1, radix as nat);
                }
                return None;
            },
            Some(d) => {
                assert(v * radix + d < 0x1000_0000_0000_0000 * 16) by (nonlinear_arith)
                    requires
                        v <= max,
                        max < 0x1000_0000_0000_0000,
                        radix <= 16,
                        d < radix,
                ;
                assert(v * radix <= u64::MAX) by (nonlinear_arith)
                    requires
                        v <= max,
                        max < 0x1000_0000_0000_0000,
                        radix <= 16,
                ;
                let w: u64 = v * radix as u64 + d as u64;
                assert(digits_value(next, radix as nat) == Some(w as nat));
                if w > max {
                    proof {
                        lemma_digits_value_prefix(all, i - from + 1, radix as nat);
                    }
                    return None;
                }
                v = w;
            },
        }
        i += 1;
    }
    assert(all.take(to - from) =~= all);
    Some(v)
}

/// A digit string is worth at least what each of its prefixes is worth.
proof fn lemma_digits_value_prefix(s: Seq<char>, n: int, radix: nat)
    requires
        0 <= n <= s.len(),
        radix >= 1,
    ensures
        digits_value(s, radix) matches Some(v) ==> digits_value(s.take(n), radix) matches Some(w)
            && w <= v,
    decreases s.len() - n,
{
    if n < s.len() {
        lemma_digits_value_prefix(s, n + 1, radix);
        assert(s.take(n + 1).drop_last() =~= s.take(n));
        if let Some(v) = digits_value(s.take(n + 1), radix) {
            let w = digits_value(s.take(n), radix).unwrap();
            assert(w <= w * radix) by (nonlinear_arith)
                requires
                    radix >= 1,
            ;
        }
    } else {
        assert(s.take(n) =~= s);
    }
}

/// Text without the separator is one piece, and adds to the last piece of what stands
/// before it.
pub proof fn lemma_split_extend(a: Seq<char>, b: Seq<char>, sep: char)
    requires
        !b.contains(sep),
    ensures
        split_at_char(a + b, sep) == split_at_char(a, sep).drop_last().push(
            split_at_char(a, sep).last() + b,
        ),
    decreases b.len(),
{
    lemma_split_nonempty(a, sep);
    let pieces = split_at_char(a, sep);
    if b.len() == 0 {
        assert(a + b =~= a);
        assert(pieces.last() + b =~= pieces.last());
        assert(pieces.drop_last().push(pieces.last()) =~= pieces);
    } else {
        let front = b.drop_last();
        assert forall|i: int| 0 <= i < front.len() implies front[i] != sep by {
            assert(b.contains(b[i]));
        }
        lemma_split_extend(a, front, sep);
        assert((a + b).drop_last() =~= a + front);
        assert((a + b).last() == b.last());
        assert(b.contains(b.last()));
        let before = split_at_char(a + front, sep);
        assert(before.drop_last() =~= pieces.drop_last());
        assert((pieces.last() + front).push(b.last()) =~= pieces.last() + b);
    }
}

/// Text without the separator is one piece.
pub proof fn lemma_split_one(s: Seq<char>, sep: char)
    requires
        !s.contains(sep),
    ensures
        split_at_char(s, sep) == seq![s],
{
    let none = Seq::<char>::empty();
    lemma_split_extend(none, s, sep);
    assert(none + s =~= s);
    assert(split_at_char(none, sep) =~= seq![none]);
    assert(split_at_char(s, sep) =~= seq![s]);
}

/// A separator and text without one add a piece.
pub proof fn lemma_split_more(a: Seq<char>, b: Seq<char>, sep: char)
    requires
        !b.contains(sep),
    ensures
        split_at_char(a.push(sep) + b, sep) == split_at_char(a, sep).push(b),
{
    let pieces = split_at_char(a, sep);
    let none = Seq::<char>::empty();
    assert(a.push(sep).drop_last() =~= a);
    assert(split_at_char(a.push(sep), sep) == pieces.push(none));
    lemma_split_extend(a.push(sep), b, sep);
    assert(none + b =~= b);
    assert(pieces.push(none).drop_last() =~= pieces);
}

/// The digits of a number have its value, and are digits.
pub proof fn lemma_digits(n: nat, radix: nat)
    requires
        2 <= radix <= 16,
    ensures
        digits_value(digits(n, radix), radix) == Some(n),
        digits(n, radix).len() >= 1,
        forall|i: int|
            0 <= i < digits(n, radix).len() ==> digit_value(#[trigger] digits(n, radix)[i], radix)
                is Some,
        n > 0 ==> digits(n, radix)[0] != '0',
    decreases n,
{
    let d = digits(n, radix);
    if n < radix {
        assert(d.drop_last() =~= Seq::<char>::empty());
        assert(digits_value(d.drop_last(), radix) == Some(0nat));
        assert(digit_value(digit_char(n), radix) == Some(n));
        assert(0 * radix == 0) by (nonlinear_arith);
    } else {
        let q = n / radix;
        let r = n % radix;
        assert(q < n && q >= 1 && r < radix && n == q * radix + r) by (nonlinear_arith)
            requires
                n >= radix,
                radix >= 2,
                q == n / radix,
                r == n % radix,
        ;
        lemma_digits(q, radix);
        assert(d.drop_last() =~= digits(q, radix));
        assert(digit_value(digit_char(r), radix) == Some(r));
        assert forall|i: int| 0 <= i < d.len() implies digit_value(#[trigger] d[i], radix)
            is Some by {
            if i < d.len() - 1 {
                assert(d[i] == digits(q, radix)[i]);
            }
        }
        assert(d[0] == digits(q, radix)[0]);
    }
}

/// The digits of a number below `radix` to the power of `count` are at most `count`.
pub proof fn lemma_digits_count(n: nat, radix: nat, count: nat)
    requires
        2 <= radix <= 16,
        count >= 1,
        n < vstd::arithmetic::power::pow(radix as int, count),
    ensures
        digits(n, radix).len() <= count,
    decreases count,
{
    reveal(vstd::arithmetic::power::pow);
    if n >= radix {
        let q = n / radix;
        if count == 1 {
            assert(vstd::arithmetic::power::pow(radix as int, 0) == 1);
            assert(n < radix * 1);
        } else {
            let p = vstd::arithmetic::power::pow(radix as int, (count - 1) as nat);
            assert(q < p) by (nonlinear_arith)
                requires
                    n < radix * p,
                    radix >= 2,
                    q == n / radix,
            ;
            lemma_digits_count(q, radix, (count - 1) as nat);
        }
    }
}

/// The first position from `i` on at which `c` stands, or the end.
pub open spec fn first_at(s: Seq<char>, c: char, i: int) -> int
    decreases s.len() - i,
{
    if i >= s.len() {
        s.len() as int
    } else if s[i] == c {
        i
    } else {
        first_at(s, c, i + 1)
    }
}

/// What stands before and behind the first `c`.
pub open spec fn parted(s: Seq<char>, c: char) -> Option<(Seq<char>, Seq<char>)> {
    let i = first_at(s, c, 0);
    if i < s.len() {
        Some((s.take(i), s.skip(i + 1)))
    } else {
        None
    }
}

/// What stands before and behind the first `c`.
pub fn split_once(s: &str, c: char) -> (r: Option<(String, String)>)
    ensures
        match r {
            Some(p) => parted(s@, c) == Some((p.0@, p.1@)),
            None => parted(s@, c) is None,
        },
{
    let cs = chars_of(s);
    let mut i: usize = 0;
    while i < cs.len()
        invariant
            i <= cs@.len(),
            cs@ == s@,
            first_at(s@, c, 0) == first_at(s@, c, i as int),
        decreases cs@.len() - i,
    {
        if cs[i] == c {
            let before = string_from(&cs, 0, i);
            let behind = string_from(&cs, i + 1, cs.len());
            assert(before@ =~= s@.take(i as int));
            assert(behind@ =~= s@.skip(i + 1));
            return Some((before, behind));
        }
        i += 1;
    }
    None
}

/// Lower case moves the 26 capitals of ASCII to the small letters, 32 places on, and
/// leaves every other character and the length alone.
pub proof fn law_lower_case(s: Seq<char>, i: int)
    requires
        0 <= i < s.len(),
    ensures
        lower(s).len() == s.len(),
        65 <= s[i] as u32 <= 90 ==> lower(s)[i] as u32 == s[i] as u32 + 32,
        !(65 <= s[i] as u32 <= 90) ==> lower(s)[i] == s[i],
{
}

/// The white space of Unicode, by code point.
pub proof fn law_white_space(c: char)
    ensures
        is_white_space(c) <==> {
            let n = c as u32;
            n == 9 || n == 10 || n == 11 || n == 12 || n == 13 || n == 32 || n == 133 || n == 160
                || n == 5760 || 8192 <= n <= 8202 || n == 8232 || n == 8233 || n == 8239 || n
                == 8287 || n == 12288
        },
{
}

/// Trimming takes away white space at both ends, all of it, and nothing else.
pub proof fn law_trimming(s: Seq<char>)
    ensures
        exists|i: int, j: int|
            #![trigger s.subrange(i, j)]
            {
                &&& 0 <= i <= j <= s.len()
                &&& trimmed(s) == s.subrange(i, j)
                &&& forall|k: int| 0 <= k < i ==> is_white_space(#[trigger] s[k])
                &&& forall|k: int| j <= k < s.len() ==> is_white_space(#[trigger] s[k])
                &&& i < j ==> !is_white_space(s[i]) && !is_white_space(s[j - 1])
            },
{
    let i = lemma_trim_start(s);
    let t = trim_start(s);
    let n = lemma_trim_end(t);
    let j = i + n;
    assert(trimmed(s) =~= s.subrange(i, j));
    assert forall|k: int| j <= k < s.len() implies is_white_space(#[trigger] s[k]) by {
        assert(t[k - i] == s[k]);
    }
    if i < j {
        assert(t[0] == s[i]);
        assert(t[n - 1] == s[j - 1]);
    }
}

proof fn lemma_trim_start(s: Seq<char>) -> (i: int)
    ensures
        0 <= i <= s.len(),
        trim_start(s) == s.skip(i),
        forall|k: int| 0 <= k < i ==> is_white_space(#[trigger] s[k]),
        i < s.len() ==> !is_white_space(s[i]),
    decreases s.len(),
{
    if s.len() > 0 && is_white_space(s[0]) {
        let rest = s.drop_first();
        let i = lemma_trim_start(rest);
        assert(rest.skip(i) =~= s.skip(i + 1));
        assert forall|k: int| 0 <= k < i + 1 implies is_white_space(#[trigger] s[k]) by {
            if k > 0 {
                assert(rest[k - 1] == s[k]);
            }
        }
        if i < rest.len() {
            assert(rest[i] == s[i + 1]);
        }
        i + 1
    } else {
        assert(s.skip(0) =~= s);
        0
    }
}

proof fn lemma_trim_end(s: Seq<char>) -> (n: int)
    ensures
        0 <= n <= s.len(),
        trim_end(s) == s.take(n),
        forall|k: int| n <= k < s.len() ==> is_white_space(#[trigger] s[k]),
        n > 0 ==> !is_white_space(s[n - 1]),
    decreases s.len(),
{
    if s.len() > 0 && is_white_space(s.last()) {
        let rest = s.drop_last();
        let n = lemma_trim_end(rest);
        assert(rest.take(n) =~= s.take(n));
        assert forall|k: int| n <= k < s.len() implies is_white_space(#[trigger] s[k]) by {
            if k < rest.len() {
                assert(rest[k] == s[k]);
            }
        }
        if n > 0 {
            assert(rest[n - 1] == s[n - 1]);
        }
        n
    } else {
        assert(s.take(s.len() as int) =~= s);
        s.len() as int
    }
}

/// Pieces put together again, with `sep` between them.
pub open spec fn rejoined(pieces: Seq<Seq<char>>, sep: char) -> Seq<char>
    decreases pieces.len(),
{
    if pieces.len() == 0 {
        Seq::empty()
    } else if pieces.len() == 1 {
        pieces[0]
    } else {
        rejoined(pieces.drop_last(), sep).push(sep) + pieces.last()
    }
}

/// The pieces between the occurrences of a character are what gives the text back when
/// they are put together with that character, and none of them holds it.
pub proof fn law_splitting(s: Seq<char>, sep: char)
    ensures
        split_at_char(s, sep).len() > 0,
        rejoined(split_at_char(s, sep), sep) == s,
        forall|i: int|
            0 <= i < split_at_char(s, sep).len() ==> !(#[trigger] split_at_char(
                s,
                sep,
            )[i]).contains(sep),
    decreases s.len(),
{
    let p = split_at_char(s, sep);
    if s.len() == 0 {
        assert(p[0].len() == 0);
        assert(rejoined(p, sep) =~= s);
    } else {
        let front = s.drop_last();
        let before = split_at_char(front, sep);
        law_splitting(front, sep);
        assert(s =~= front.push(s.last()));
        assert(p.drop_last() =~= if s.last() == sep {
            before
        } else {
            before.drop_last()
        });
        assert(rejoined(p, sep) =~= s);
        assert forall|i: int| 0 <= i < p.len() implies !(#[trigger] p[i]).contains(sep) by {
            if i < before.len() {
                assert(!before[i].contains(sep));
            }
            if i == p.len() - 1 && s.last() != sep {
                let last = before.last();
                assert(p[i] == last.push(s.last()));
                if p[i].contains(sep) {
                    let k = p[i].index_of(sep);
                    assert(last[k] == sep);
                    assert(last.contains(sep));
                }
            }
        }
    }
}

/// A text is parted at a character exactly where it holds it: what stands before the
/// first one and what stands behind it.
pub proof fn law_parting(s: Seq<char>, c: char)
    ensures
        parted(s, c) is Some <==> s.contains(c),
        parted(s, c) matches Some((a, b)) ==> s == a.push(c) + b && !a.contains(c),
{
    lemma_first_at(s, c, 0);
    let i = first_at(s, c, 0);
    if i < s.len() {
        assert(s =~= s.take(i).push(c) + s.skip(i + 1));
        assert(s.contains(s[i]));
        if s.take(i).contains(c) {
            let k = s.take(i).index_of(c);
            assert(s[k] == c);
        }
    } else if s.contains(c) {
        let k = s.index_of(c);
        assert(s[k] == c);
    }
}

proof fn lemma_first_at(s: Seq<char>, c: char, i: int)
    requires
        0 <= i <= s.len(),
    ensures
        i <= first_at(s, c, i) <= s.len(),
        first_at(s, c, i) < s.len() ==> s[first_at(s, c, i)] == c,
        forall|k: int| i <= k < first_at(s, c, i) ==> #[trigger] s[k] != c,
    decreases s.len() - i,
{
    if i < s.len() && s[i] != c {
        lemma_first_at(s, c, i + 1);
    }
}

/// The digits are the characters 0 to 9, and beyond them a to f in either case.
pub proof fn law_digit_values(c: char, radix: nat)
    requires
        radix == 10 || radix == 16,
    ensures
        digit_value(c, radix) == if 48 <= c as u32 <= 57 {
            Some((c as u32 - 48) as nat)
        } else if radix == 16 && 97 <= c as u32 <= 102 {
            Some((c as u32 - 87) as nat)
        } else if radix == 16 && 65 <= c as u32 <= 70 {
            Some((c as u32 - 55) as nat)
        } else {
            None
        },
{
}

/// Digits count by their places: those of `a` behind which `b` stands are worth their
/// value times the base for every digit of `b`, and more only the value of `b`.
pub proof fn law_digits_count_by_place(a: Seq<char>, b: Seq<char>, radix: nat)
    requires
        2 <= radix <= 16,
    ensures
        digits_value(a + b, radix) == match (digits_value(a, radix), digits_value(b, radix)) {
            (Some(x), Some(y)) => Some(
                (x * vstd::arithmetic::power::pow(radix as int, b.len()) + y) as nat,
            ),
            _ => None,
        },
        a.len() == 1 ==> digits_value(a, radix) == digit_value(a[0], radix),
        a.len() == 0 ==> digits_value(a, radix) == Some(0nat),
    decreases b.len(),
{
    if a.len() == 1 {
        assert(a.drop_last() =~= Seq::<char>::empty());
        assert(digits_value(a.drop_last(), radix) == Some(0nat));
        assert(0 * radix == 0) by (nonlinear_arith);
    }
    vstd::arithmetic::power::lemma_pow0(radix as int);
    if b.len() == 0 {
        assert(a + b =~= a);
    } else {
        let front = b.drop_last();
        assert((a + b).drop_last() =~= a + front);
        law_digits_count_by_place(a, front, radix);
        match (digits_value(a, radix), digits_value(front, radix), digit_value(b.last(), radix)) {
            (Some(x), Some(y), Some(d)) => {
                let p = vstd::arithmetic::power::pow(radix as int, front.len());
                vstd::arithmetic::power::lemma_pow_positive(radix as int, front.len());
                let q = vstd::arithmetic::power::pow(radix as int, b.len());
                assert(q == radix * p) by {
                    reveal(vstd::arithmetic::power::pow);
                }
                assert((x * p + y) * radix + d == x * q + (y * radix + d)) by (nonlinear_arith)
                    requires
                        q == radix * p,
                ;
            },
            _ => {},
        }
    }
}

/// A number is written with digits that are worth it, without a nought in front.
pub proof fn law_digits_are_worth_the_number(n: nat, radix: nat)
    requires
        2 <= radix <= 16,
    ensures
        digits_value(digits(n, radix), radix) == Some(n),
        digits(n, radix).len() > 0,
        n > 0 ==> digits(n, radix)[0] != '0',
        n == 0 ==> digits(n, radix) == seq!['0'],
        forall|i: int|
            0 <= i < digits(n, radix).len() ==> {
                let c = (#[trigger] digits(n, radix)[i]) as u32;
                48 <= c <= 57 || 97 <= c <= 102
            },
    decreases n,
{
    lemma_digits(n, radix);
    if n >= radix {
        assert(n / radix < n && n / radix > 0) by (nonlinear_arith)
            requires
                n >= radix,
                radix >= 2,
        ;
        law_digits_are_worth_the_number(n / radix, radix);
    }
}

} // verus!
