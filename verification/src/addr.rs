//! Internet addresses: their text, their canonical form and their networks.

use crate::text;
use vstd::prelude::*;

verus! {

/// An address, as a number.
#[derive(Clone, Copy, Debug, PartialEq, Eq, Structural)]
pub enum IpAddr {
    V4(u32),
    V6(u128),
}

/// The number that a part of a dotted address stands for: up to three decimal digits,
/// no more than 255, without a leading nought.
pub open spec fn octet(s: Seq<char>) -> Option<nat> {
    if 1 <= s.len() <= 3 && (s.len() > 1 ==> s[0] != '0') {
        match text::digits_value(s, 10) {
            Some(v) if v <= 255 => Some(v),
            _ => None,
        }
    } else {
        None
    }
}

/// The dotted address that a text stands for.
pub open spec fn dotted(s: Seq<char>) -> Option<u32> {
    let p = text::split_at_char(s, '.');
    if p.len() == 4 {
        match (octet(p[0]), octet(p[1]), octet(p[2]), octet(p[3])) {
            (Some(a), Some(b), Some(c), Some(d)) => Some(
                (a * 0x100_0000 + b * 0x1_0000 + c * 0x100 + d) as u32,
            ),
            _ => None,
        }
    } else {
        None
    }
}

/// The number that a group of a long address stands for: up to four hexadecimal
/// digits.
pub open spec fn group(s: Seq<char>) -> Option<nat> {
    if 1 <= s.len() <= 4 {
        text::digits_value(s, 16)
    } else {
        None
    }
}

/// The numbers of some groups.
pub open spec fn groups(p: Seq<Seq<char>>) -> Option<Seq<nat>>
    decreases p.len(),
{
    if p.len() == 0 {
        Some(Seq::empty())
    } else {
        match (groups(p.drop_last()), group(p.last())) {
            (Some(front), Some(g)) => Some(front.push(g)),
            _ => None,
        }
    }
}

/// The numbers of some groups, the last two of which may be written as a dotted
/// address.
pub open spec fn groups_or_dotted(p: Seq<Seq<char>>) -> Option<Seq<nat>> {
    match dotted(p.last()) {
        Some(v4) => match groups(p.drop_last()) {
            Some(front) => Some(front.push(v4 as nat / 0x1_0000).push(v4 as nat % 0x1_0000)),
            None => None,
        },
        None => groups(p),
    }
}

/// The first position from `i` on at which two colons stand, or the end.
pub open spec fn gap(s: Seq<char>, i: int) -> int
    decreases s.len() - i,
{
    if i + 1 >= s.len() {
        s.len() as int
    } else if s[i] == ':' && s[i + 1] == ':' {
        i
    } else {
        gap(s, i + 1)
    }
}

/// So many noughts.
pub open spec fn noughts(n: nat) -> Seq<nat> {
    Seq::new(n, |i: int| 0)
}

/// The groups before a gap.
pub open spec fn head_groups(s: Seq<char>) -> Option<Seq<nat>> {
    if s.len() == 0 {
        Some(Seq::empty())
    } else {
        groups(text::split_at_char(s, ':'))
    }
}

/// The groups behind a gap.
pub open spec fn tail_groups(s: Seq<char>) -> Option<Seq<nat>> {
    if s.len() == 0 {
        Some(Seq::empty())
    } else {
        groups_or_dotted(text::split_at_char(s, ':'))
    }
}

/// The eight groups of a long address. A gap stands for one or more groups that are
/// nought.
pub open spec fn eight_groups(s: Seq<char>) -> Option<Seq<nat>> {
    let g = gap(s, 0);
    if g < s.len() {
        match (head_groups(s.take(g)), tail_groups(s.skip(g + 2))) {
            (Some(head), Some(tail)) => if head.len() + tail.len() <= 7 {
                Some(head + noughts((8 - head.len() - tail.len()) as nat) + tail)
            } else {
                None
            },
            _ => None,
        }
    } else {
        match groups_or_dotted(text::split_at_char(s, ':')) {
            Some(all) => if all.len() == 8 {
                Some(all)
            } else {
                None
            },
            None => None,
        }
    }
}

/// The number made of some groups.
pub open spec fn number(g: Seq<nat>) -> nat
    decreases g.len(),
{
    if g.len() == 0 {
        0
    } else {
        number(g.drop_last()) * 0x1_0000 + g.last()
    }
}

/// The address that a text stands for.
pub open spec fn ip_of(s: Seq<char>) -> Option<IpAddr> {
    match dotted(s) {
        Some(a) => Some(IpAddr::V4(a)),
        None => match eight_groups(s) {
            Some(g) => Some(IpAddr::V6(number(g) as u128)),
            None => None,
        },
    }
}

/// All groups fit into sixteen bits.
pub open spec fn small(g: Seq<nat>) -> bool {
    forall|i: int| 0 <= i < g.len() ==> #[trigger] g[i] < 0x1_0000
}

proof fn lemma_group_small(s: Seq<char>)
    ensures
        group(s) matches Some(v) ==> v < 0x1_0000,
{
    if group(s) is Some {
        lemma_value_below(s, 16);
        reveal(vstd::arithmetic::power::pow);
        reveal_with_fuel(vstd::arithmetic::power::pow, 5);
        let n = s.len();
        assert(n == 1 || n == 2 || n == 3 || n == 4);
    }
}

/// The value of `n` digits is below `radix` to the power of `n`.
proof fn lemma_value_below(s: Seq<char>, radix: nat)
    requires
        radix >= 1,
    ensures
        text::digits_value(s, radix) matches Some(v) ==> v < vstd::arithmetic::power::pow(
            radix as int,
            s.len(),
        ),
    decreases s.len(),
{
    reveal(vstd::arithmetic::power::pow);
    if s.len() > 0 {
        lemma_value_below(s.drop_last(), radix);
        if let Some(v) = text::digits_value(s, radix) {
            let w = text::digits_value(s.drop_last(), radix).unwrap();
            let d = text::digit_value(s.last(), radix).unwrap();
            let p = vstd::arithmetic::power::pow(radix as int, (s.len() - 1) as nat);
            assert(w * radix + d < radix * p) by (nonlinear_arith)
                requires
                    w < p,
                    d < radix,
                    radix >= 1,
            ;
        }
    }
}

proof fn lemma_groups_small(p: Seq<Seq<char>>)
    ensures
        groups(p) matches Some(g) ==> small(g) && g.len() == p.len(),
    decreases p.len(),
{
    if p.len() > 0 {
        lemma_groups_small(p.drop_last());
        lemma_group_small(p.last());
    }
}

proof fn lemma_number_below(g: Seq<nat>)
    requires
        small(g),
    ensures
        number(g) < vstd::arithmetic::power::pow(0x1_0000, g.len()),
    decreases g.len(),
{
    reveal(vstd::arithmetic::power::pow);
    if g.len() > 0 {
        let front = g.drop_last();
        assert forall|i: int| 0 <= i < front.len() implies #[trigger] front[i] < 0x1_0000 by {
            assert(front[i] == g[i]);
        }
        lemma_number_below(front);
        assert(g[g.len() - 1] < 0x1_0000);
    }
}

fn read_octet(s: &str) -> (r: Option<u32>)
    ensures
        match r {
            Some(v) => octet(s@) == Some(v as nat) && v <= 255,
            None => octet(s@) is None,
        },
{
    let cs = text::chars_of(s);
    if cs.len() < 1 || cs.len() > 3 || (cs.len() > 1 && cs[0] == '0') {
        return None;
    }
    assert(cs@.subrange(0, cs@.len() as int) =~= cs@);
    match text::read_digits(&cs, 0, cs.len(), 10, 255) {
        Some(v) => Some(v as u32),
        None => None,
    }
}

/// Reads a dotted address.
pub fn read_dotted(s: &str) -> (r: Option<u32>)
    ensures
        r == dotted(s@),
{
    let p = text::split(s, '.');
    let ghost pieces = text::split_at_char(s@, '.');
    assert(text::views(p@).len() == p@.len());
    if p.len() != 4 {
        return None;
    }
    assert(pieces[0] == p@[0]@ && pieces[1] == p@[1]@ && pieces[2] == p@[2]@ && pieces[3]
        == p@[3]@);
    match (
        read_octet(p[0].as_str()),
        read_octet(p[1].as_str()),
        read_octet(p[2].as_str()),
        read_octet(p[3].as_str()),
    ) {
        (Some(a), Some(b), Some(c), Some(d)) => Some(
            a * 0x100_0000 + b * 0x1_0000 + c * 0x100 + d,
        ),
        _ => None,
    }
}

fn read_group(s: &str) -> (r: Option<u32>)
    ensures
        match r {
            Some(v) => group(s@) == Some(v as nat) && v < 0x1_0000,
            None => group(s@) is None,
        },
{
    let cs = text::chars_of(s);
    if cs.len() < 1 || cs.len() > 4 {
        return None;
    }
    proof {
        lemma_group_small(s@);
    }
    assert(cs@.subrange(0, cs@.len() as int) =~= cs@);
    match text::read_digits(&cs, 0, cs.len(), 16, 0xffff) {
        Some(v) => Some(v as u32),
        None => None,
    }
}

/// The numbers of a list.
pub open spec fn nats(v: Seq<u32>) -> Seq<nat> {
    v.map_values(|x: u32| x as nat)
}

/// Reads the first `n` pieces as groups.
fn read_groups(p: &Vec<String>, n: usize) -> (r: Option<Vec<u32>>)
    requires
        n <= p@.len(),
    ensures
        match r {
            Some(g) => groups(text::views(p@).take(n as int)) == Some(nats(g@)) && g@.len() == n
                && small(nats(g@)),
            None => groups(text::views(p@).take(n as int)) is None,
        },
{
    let ghost pieces = text::views(p@);
    let mut out: Vec<u32> = Vec::new();
    let mut i: usize = 0;
    assert(nats(out@) =~= Seq::<nat>::empty());
    assert(pieces.take(0) =~= Seq::<Seq<char>>::empty());
    while i < n
        invariant
            i <= n <= p@.len(),
            pieces == text::views(p@),
            out@.len() == i,
            groups(pieces.take(i as int)) == Some(nats(out@)),
        decreases n - i,
    {
        let ghost next = pieces.take(i as int + 1);
        assert(next.drop_last() =~= pieces.take(i as int));
        assert(next.last() == p@[i as int]@);
        match read_group(p[i].as_str()) {
            Some(v) => {
                let ghost before = out@;
                out.push(v);
                assert(nats(out@) =~= nats(before).push(v as nat));
            },
            None => {
                proof {
                    lemma_groups_prefix(pieces.take(n as int), i as int + 1);
                    assert(pieces.take(n as int).take(i as int + 1) =~= next);
                }
                return None;
            },
        }
        i += 1;
    }
    proof {
        lemma_groups_small(pieces.take(n as int));
    }
    Some(out)
}

/// Where a prefix is no list of groups the whole is none.
proof fn lemma_groups_prefix(p: Seq<Seq<char>>, n: int)
    requires
        0 <= n <= p.len(),
    ensures
        groups(p) is Some ==> groups(p.take(n)) is Some,
    decreases p.len() - n,
{
    if n < p.len() {
        lemma_groups_prefix(p, n + 1);
        assert(p.take(n + 1).drop_last() =~= p.take(n));
    } else {
        assert(p.take(n) =~= p);
    }
}

/// Reads groups, the last two of which may be written as a dotted address.
fn read_groups_or_dotted(s: &str) -> (r: Option<Vec<u32>>)
    ensures
        match r {
            Some(g) => groups_or_dotted(text::split_at_char(s@, ':')) == Some(nats(g@)) && small(
                nats(g@),
            ),
            None => groups_or_dotted(text::split_at_char(s@, ':')) is None,
        },
{
    let p = text::split(s, ':');
    let ghost pieces = text::split_at_char(s@, ':');
    assert(text::views(p@) == pieces);
    assert(pieces.len() == p@.len());
    let last = p.len() - 1;
    assert(pieces.last() == p@[last as int]@);
    assert(pieces.take(last as int) =~= pieces.drop_last());
    assert(pieces.take(p@.len() as int) =~= pieces);
    match read_dotted(p[last].as_str()) {
        Some(v4) => match read_groups(&p, last) {
            Some(g) => {
                let mut g = g;
                let ghost before = g@;
                g.push(v4 / 0x1_0000);
                g.push(v4 % 0x1_0000);
                assert(nats(g@) =~= nats(before).push(v4 as nat / 0x1_0000).push(
                    v4 as nat % 0x1_0000,
                ));
                assert forall|i: int| 0 <= i < nats(g@).len() implies #[trigger] nats(g@)[i]
                    < 0x1_0000 by {
                    if i < before.len() {
                        assert(nats(before)[i] < 0x1_0000);
                    }
                }
                Some(g)
            },
            None => None,
        },
        None => read_groups(&p, p.len()),
    }
}

fn find_gap(cs: &Vec<char>) -> (g: usize)
    ensures
        g == gap(cs@, 0),
        g <= cs@.len(),
        g < cs@.len() ==> g + 2 <= cs@.len(),
{
    let mut i: usize = 0;
    while i < cs.len() && i + 1 < cs.len()
        invariant
            i <= cs@.len(),
            gap(cs@, 0) == gap(cs@, i as int),
        decreases cs@.len() - i,
    {
        if cs[i] == ':' && cs[i + 1] == ':' {
            return i;
        }
        i += 1;
    }
    cs.len()
}

/// Reads the eight groups of a long address.
fn read_eight_groups(s: &str) -> (r: Option<Vec<u32>>)
    ensures
        match r {
            Some(g) => eight_groups(s@) == Some(nats(g@)) && g@.len() == 8 && small(nats(g@)),
            None => eight_groups(s@) is None,
        },
{
    let cs = text::chars_of(s);
    let g = find_gap(&cs);
    if g == cs.len() {
        return match read_groups_or_dotted(s) {
            Some(all) => {
                assert(nats(all@).len() == all@.len());
                if all.len() == 8 {
                    Some(all)
                } else {
                    None
                }
            },
            None => None,
        };
    }
    let before = text::string_from(&cs, 0, g);
    let behind = text::string_from(&cs, g + 2, cs.len());
    assert(before@ =~= s@.take(g as int));
    assert(behind@ =~= s@.skip(g + 2));
    let none: Vec<u32> = Vec::new();
    assert(nats(none@) =~= Seq::<nat>::empty());
    let head: Option<Vec<u32>> = if g == 0 {
        Some(none)
    } else {
        let p = text::split(before.as_str(), ':');
        assert(text::views(p@).take(p@.len() as int) =~= text::views(p@));
        read_groups(&p, p.len())
    };
    let no_more: Vec<u32> = Vec::new();
    assert(nats(no_more@) =~= Seq::<nat>::empty());
    let tail: Option<Vec<u32>> = if g + 2 == cs.len() {
        Some(no_more)
    } else {
        read_groups_or_dotted(behind.as_str())
    };
    match (head, tail) {
        (Some(head), Some(tail)) => {
            assert(nats(head@).len() == head@.len() && nats(tail@).len() == tail@.len());
            if head.len() > 7 || tail.len() > 7 || head.len() + tail.len() > 7 {
                return None;
            }
            let ghost h = head@;
            let mut all = head;
            while all.len() + tail.len() < 8
                invariant
                    h.len() <= all@.len(),
                    all@.len() + tail@.len() <= 8,
                    nats(all@) == nats(h) + noughts((all@.len() - h.len()) as nat),
                decreases 8 - all@.len(),
            {
                let ghost so_far = all@;
                all.push(0);
                assert(nats(all@) =~= nats(h) + noughts((all@.len() - h.len()) as nat)) by {
                    assert(nats(all@) =~= nats(so_far).push(0));
                }
            }
            let ghost filled = all@;
            let mut i: usize = 0;
            assert(tail@.take(0) =~= Seq::<u32>::empty());
            assert(all@ =~= filled + tail@.take(0));
            while i < tail.len()
                invariant
                    i <= tail@.len(),
                    all@ == filled + tail@.take(i as int),
                decreases tail@.len() - i,
            {
                let ghost so_far = all@;
                all.push(tail[i]);
                assert(all@ =~= filled + tail@.take(i as int + 1));
                i += 1;
            }
            assert(tail@.take(tail@.len() as int) =~= tail@);
            assert(nats(all@) =~= nats(filled) + nats(tail@));
            assert forall|i: int| 0 <= i < nats(all@).len() implies #[trigger] nats(all@)[i]
                < 0x1_0000 by {
                if i < h.len() {
                    assert(nats(all@)[i] == nats(h)[i]);
                } else if i >= filled.len() {
                    assert(nats(all@)[i] == nats(tail@)[i - filled.len()]);
                } else {
                    assert(nats(all@)[i] == nats(filled)[i]);
                }
            }
            Some(all)
        },
        _ => None,
    }
}

/// The number made of eight groups.
fn number_of(g: &Vec<u32>) -> (n: u128)
    requires
        g@.len() == 8,
        small(nats(g@)),
    ensures
        n == number(nats(g@)),
{
    let ghost all = nats(g@);
    let mut n: u128 = 0;
    let mut i: usize = 0;
    assert(all.take(0) =~= Seq::<nat>::empty());
    while i < 8
        invariant
            i <= 8,
            g@.len() == 8,
            all == nats(g@),
            small(all),
            n == number(all.take(i as int)),
        decreases 8 - i,
    {
        proof {
            let so_far = all.take(i as int);
            assert forall|k: int| 0 <= k < so_far.len() implies #[trigger] so_far[k] < 0x1_0000 by {
                assert(so_far[k] == all[k]);
            }
            lemma_number_below(so_far);
            vstd::arithmetic::power::lemma_pow_increases(0x1_0000, i as nat, 7);
            assert(vstd::arithmetic::power::pow(0x1_0000, 7) == 0x1_0000_0000_0000_0000_0000_0000_0000)
                by {
                reveal(vstd::arithmetic::power::pow);
                reveal_with_fuel(vstd::arithmetic::power::pow, 8);
            }
            assert(all.take(i as int + 1).drop_last() =~= so_far);
            assert(all[i as int] < 0x1_0000);
        }
        n = n * 0x1_0000 + g[i] as u128;
        i += 1;
    }
    assert(all.take(8) =~= all);
    n
}

/// Reads an address.
pub fn parse_ip(s: &str) -> (r: Option<IpAddr>)
    ensures
        r == ip_of(s@),
{
    match read_dotted(s) {
        Some(a) => Some(IpAddr::V4(a)),
        None => match read_eight_groups(s) {
            Some(g) => Some(IpAddr::V6(number_of(&g))),
            None => None,
        },
    }
}

/// The text of a dotted address.
pub open spec fn show_dotted(a: u32) -> Seq<char> {
    let n = a as nat;
    (((text::digits(n / 0x100_0000, 10).push('.') + text::digits(n / 0x1_0000 % 0x100, 10)).push(
        '.',
    ) + text::digits(n / 0x100 % 0x100, 10)).push('.') + text::digits(n % 0x100, 10))
}

/// The last `n` groups of sixteen bits of a number.
pub open spec fn segments(a: nat, n: nat) -> Seq<nat>
    decreases n,
{
    if n == 0 {
        Seq::empty()
    } else {
        segments(a / 0x1_0000, (n - 1) as nat).push(a % 0x1_0000)
    }
}

/// The text of some groups.
pub open spec fn show_groups(g: Seq<nat>) -> Seq<char>
    decreases g.len(),
{
    if g.len() == 0 {
        Seq::empty()
    } else if g.len() == 1 {
        text::digits(g[0], 16)
    } else {
        show_groups(g.drop_last()).push(':') + text::digits(g.last(), 16)
    }
}

/// How many groups from `i` on are nought, without a break.
pub open spec fn run_at(g: Seq<nat>, i: int) -> nat
    decreases g.len() - i,
{
    if i < g.len() && g[i] == 0 {
        1 + run_at(g, i + 1)
    } else {
        0
    }
}

/// The first of the longest runs of noughts among those that start before `n`: where
/// it starts, and its length.
pub open spec fn longest_run(g: Seq<nat>, n: nat) -> (int, nat)
    decreases n,
{
    if n == 0 {
        (0, 0)
    } else {
        let best = longest_run(g, (n - 1) as nat);
        let here = run_at(g, n - 1);
        if here > best.1 {
            (n - 1, here)
        } else {
            best
        }
    }
}

/// Whether a long address stands for a dotted one.
pub open spec fn is_mapped(a: u128) -> bool {
    a as nat / 0x1_0000_0000 == 0xffff
}

/// The text of a long address. The first of the longest runs of noughts is left out,
/// if it is longer than one group.
pub open spec fn show_long(a: u128) -> Seq<char> {
    if is_mapped(a) {
        "::ffff:"@ + show_dotted((a as nat % 0x1_0000_0000) as u32)
    } else {
        let g = segments(a as nat, 8);
        let (start, len) = longest_run(g, 8);
        if len > 1 {
            show_groups(g.take(start)) + seq![':', ':'] + show_groups(g.skip(start + len))
        } else {
            show_groups(g)
        }
    }
}

/// The text of an address.
pub open spec fn show_ip(a: IpAddr) -> Seq<char> {
    match a {
        IpAddr::V4(n) => show_dotted(n),
        IpAddr::V6(n) => show_long(n),
    }
}

/// Appends the text of a dotted address.
fn push_dotted(out: &mut String, a: u32)
    ensures
        final(out)@ == old(out)@ + show_dotted(a),
{
    let ghost before = out@;
    text::push_digits(out, (a / 0x100_0000) as u64, 10);
    out.push('.');
    text::push_digits(out, (a / 0x1_0000 % 0x100) as u64, 10);
    out.push('.');
    text::push_digits(out, (a / 0x100 % 0x100) as u64, 10);
    out.push('.');
    text::push_digits(out, (a % 0x100) as u64, 10);
    assert(out@ =~= before + show_dotted(a));
}

/// Appends the text of the groups from `from` up to `to`.
fn push_groups(out: &mut String, g: &Vec<u32>, from: usize, to: usize)
    requires
        from <= to <= g@.len(),
    ensures
        final(out)@ == old(out)@ + show_groups(nats(g@).subrange(from as int, to as int)),
{
    let ghost before = out@;
    let ghost all = nats(g@);
    let mut i: usize = from;
    assert(all.subrange(from as int, from as int) =~= Seq::<nat>::empty());
    assert(out@ =~= before + show_groups(all.subrange(from as int, i as int)));
    while i < to
        invariant
            from <= i <= to <= g@.len(),
            all == nats(g@),
            out@ == before + show_groups(all.subrange(from as int, i as int)),
        decreases to - i,
    {
        let ghost next = all.subrange(from as int, i as int + 1);
        assert(next.drop_last() =~= all.subrange(from as int, i as int));
        if i > from {
            out.push(':');
        }
        text::push_digits(out, g[i] as u64, 16);
        assert(out@ =~= before + show_groups(next));
        i += 1;
    }
}

/// The eight groups of a number.
fn segments_of(a: u128) -> (g: Vec<u32>)
    ensures
        nats(g@) == segments(a as nat, 8),
        g@.len() == 8,
{
    let mut back: Vec<u32> = Vec::new();
    let mut rest: u128 = a;
    let ghost all = segments(a as nat, 8);
    proof {
        lemma_segments(a as nat, 8);
        assert(all.take(8) =~= all);
    }
    while back.len() < 8
        invariant
            back@.len() <= 8,
            all.len() == 8,
            all.take(8 - back@.len()) == segments(rest as nat, (8 - back@.len()) as nat),
            forall|k: int| 0 <= k < back@.len() ==> #[trigger] back@[k] == all[7 - k],
        decreases 8 - back@.len(),
    {
        let ghost n = 8 - back@.len();
        let ghost so_far = back@;
        assert(all.take(n).last() == all[n - 1]);
        assert(all.take(n).drop_last() =~= all.take(n - 1));
        back.push((rest % 0x1_0000) as u32);
        assert(segments(rest as nat, n as nat).drop_last() =~= segments(
            rest as nat / 0x1_0000,
            (n - 1) as nat,
        ));
        rest = rest / 0x1_0000;
        assert forall|k: int| 0 <= k < back@.len() implies #[trigger] back@[k] == all[7 - k] by {
            if k < so_far.len() {
                assert(back@[k] == so_far[k]);
            }
        }
    }
    let mut g: Vec<u32> = Vec::new();
    while g.len() < 8
        invariant
            g@.len() <= 8,
            back@.len() == 8,
            all.len() == 8,
            forall|k: int| 0 <= k < 8 ==> #[trigger] back@[k] == all[7 - k],
            forall|k: int| 0 <= k < g@.len() ==> #[trigger] g@[k] == all[k],
        decreases 8 - g@.len(),
    {
        assert(back@[7 - g@.len()] == all[7 - (7 - g@.len())]);
        g.push(back[7 - g.len()]);
    }
    assert(nats(g@) =~= all);
    g
}

proof fn lemma_segments(a: nat, n: nat)
    ensures
        segments(a, n).len() == n,
        small(segments(a, n)),
        a < vstd::arithmetic::power::pow(0x1_0000, n) ==> number(segments(a, n)) == a,
    decreases n,
{
    reveal(vstd::arithmetic::power::pow);
    if n > 0 {
        lemma_segments(a / 0x1_0000, (n - 1) as nat);
        let s = segments(a, n);
        assert(s.drop_last() =~= segments(a / 0x1_0000, (n - 1) as nat));
        assert forall|i: int| 0 <= i < s.len() implies #[trigger] s[i] < 0x1_0000 by {
            if i < n - 1 {
                assert(s[i] == s.drop_last()[i]);
            }
        }
    }
}

fn run_length(g: &Vec<u32>, i: usize) -> (n: usize)
    requires
        i <= g@.len() == 8,
    ensures
        n == run_at(nats(g@), i as int),
        i + n <= g@.len(),
{
    let ghost all = nats(g@);
    let mut n: usize = 0;
    while i + n < g.len() && g[i + n] == 0
        invariant
            i + n <= g@.len() == 8,
            all == nats(g@),
            run_at(all, i as int) == n + run_at(all, i + n),
        decreases g@.len() - i - n,
    {
        assert(all[i + n] == 0);
        n += 1;
    }
    n
}

fn find_longest_run(g: &Vec<u32>) -> (r: (usize, usize))
    requires
        g@.len() == 8,
    ensures
        longest_run(nats(g@), 8) == (r.0 as int, r.1 as nat),
        r.0 + r.1 <= 8,
{
    let ghost all = nats(g@);
    let mut start: usize = 0;
    let mut len: usize = 0;
    let mut i: usize = 0;
    while i < 8
        invariant
            i <= 8,
            g@.len() == 8,
            all == nats(g@),
            longest_run(all, i as nat) == (start as int, len as nat),
            start + len <= 8,
        decreases 8 - i,
    {
        let here = run_length(g, i);
        if here > len {
            start = i;
            len = here;
        }
        i += 1;
    }
    (start, len)
}

/// The text of an address.
pub fn ip_text(a: IpAddr) -> (out: String)
    ensures
        out@ == show_ip(a),
{
    let mut out = String::new();
    match a {
        IpAddr::V4(n) => {
            push_dotted(&mut out, n);
            assert(out@ =~= show_dotted(n));
        },
        IpAddr::V6(n) => {
            if n / 0x1_0000_0000 == 0xffff {
                text::push_chars(&mut out, "::ffff:");
                push_dotted(&mut out, (n % 0x1_0000_0000) as u32);
                assert(out@ =~= show_long(n));
            } else {
                let g = segments_of(n);
                let ghost all = nats(g@);
                let (start, len) = find_longest_run(&g);
                if len > 1 {
                    push_groups(&mut out, &g, 0, start);
                    out.push(':');
                    out.push(':');
                    push_groups(&mut out, &g, start + len, 8);
                    assert(all.subrange(0, start as int) =~= all.take(start as int));
                    assert(all.subrange(start + len, 8) =~= all.skip(start + len));
                    assert(out@ =~= show_long(n));
                } else {
                    push_groups(&mut out, &g, 0, 8);
                    assert(all.subrange(0, 8) =~= all);
                    assert(out@ =~= show_long(n));
                }
            }
        },
    }
    out
}

/// Digits hold neither a dot nor a colon.
proof fn lemma_digits_plain(n: nat, radix: nat)
    requires
        2 <= radix <= 16,
    ensures
        !text::digits(n, radix).contains('.'),
        !text::digits(n, radix).contains(':'),
{
    text::lemma_digits(n, radix);
    let d = text::digits(n, radix);
    if d.contains('.') {
        let i = d.index_of('.');
        assert(text::digit_value(d[i], radix) is Some);
    }
    if d.contains(':') {
        let i = d.index_of(':');
        assert(text::digit_value(d[i], radix) is Some);
    }
}

proof fn lemma_octet_of_digits(n: nat)
    requires
        n <= 255,
    ensures
        octet(text::digits(n, 10)) == Some(n),
{
    text::lemma_digits(n, 10);
    reveal(vstd::arithmetic::power::pow);
    reveal_with_fuel(vstd::arithmetic::power::pow, 4);
    text::lemma_digits_count(n, 10, 3);
    if n == 0 {
        assert(text::digits(0, 10).len() == 1);
    }
}

proof fn lemma_group_of_digits(n: nat)
    requires
        n < 0x1_0000,
    ensures
        group(text::digits(n, 16)) == Some(n),
{
    text::lemma_digits(n, 16);
    reveal(vstd::arithmetic::power::pow);
    reveal_with_fuel(vstd::arithmetic::power::pow, 5);
    text::lemma_digits_count(n, 16, 4);
}

/// The text of a dotted address holds no colon.
proof fn lemma_dotted_no_colon(a: u32)
    ensures
        !show_dotted(a).contains(':'),
{
    let n = a as nat;
    let dx = text::digits(n / 0x100_0000, 10);
    let dy = text::digits(n / 0x1_0000 % 0x100, 10);
    let dz = text::digits(n / 0x100 % 0x100, 10);
    let dw = text::digits(n % 0x100, 10);
    lemma_digits_plain(n / 0x100_0000, 10);
    lemma_digits_plain(n / 0x1_0000 % 0x100, 10);
    lemma_digits_plain(n / 0x100 % 0x100, 10);
    lemma_digits_plain(n % 0x100, 10);
    let s2 = dx.push('.') + dy;
    let s3 = s2.push('.') + dz;
    let s = s3.push('.') + dw;
    assert(s == show_dotted(a));
    lemma_no_colon_more(dx, dy);
    lemma_no_colon_more(s2, dz);
    lemma_no_colon_more(s3, dw);
}

proof fn lemma_no_colon_more(a: Seq<char>, b: Seq<char>)
    requires
        !a.contains(':'),
        !b.contains(':'),
    ensures
        !(a.push('.') + b).contains(':'),
{
    let s = a.push('.') + b;
    assert forall|i: int| 0 <= i < s.len() implies s[i] != ':' by {
        if i < a.len() {
            assert(s[i] == a[i]);
            assert(a.contains(a[i]));
        } else if i > a.len() {
            assert(s[i] == b[i - a.len() - 1]);
            assert(b.contains(b[i - a.len() - 1]));
        }
    }
}

/// The pieces of the text of a dotted address.
proof fn lemma_dotted_pieces(a: u32)
    ensures
        text::split_at_char(show_dotted(a), '.') == seq![
            text::digits(a as nat / 0x100_0000, 10),
            text::digits(a as nat / 0x1_0000 % 0x100, 10),
            text::digits(a as nat / 0x100 % 0x100, 10),
            text::digits(a as nat % 0x100, 10),
        ],
{
    let n = a as nat;
    let dx = text::digits(n / 0x100_0000, 10);
    let dy = text::digits(n / 0x1_0000 % 0x100, 10);
    let dz = text::digits(n / 0x100 % 0x100, 10);
    let dw = text::digits(n % 0x100, 10);
    lemma_digits_plain(n / 0x100_0000, 10);
    lemma_digits_plain(n / 0x1_0000 % 0x100, 10);
    lemma_digits_plain(n / 0x100 % 0x100, 10);
    lemma_digits_plain(n % 0x100, 10);
    let s2 = dx.push('.') + dy;
    let s3 = s2.push('.') + dz;
    text::lemma_split_one(dx, '.');
    text::lemma_split_more(dx, dy, '.');
    text::lemma_split_more(s2, dz, '.');
    text::lemma_split_more(s3, dw, '.');
    assert(s3.push('.') + dw == show_dotted(a));
    assert(text::split_at_char(show_dotted(a), '.') =~= seq![dx, dy, dz, dw]);
}

/// A dotted address is read back from its text.
proof fn lemma_dotted_round_trip(a: u32)
    ensures
        dotted(show_dotted(a)) == Some(a),
        !show_dotted(a).contains(':'),
{
    let n = a as nat;
    let x = n / 0x100_0000;
    let y = n / 0x1_0000 % 0x100;
    let z = n / 0x100 % 0x100;
    let w = n % 0x100;
    assert(x * 0x100_0000 + y * 0x1_0000 + z * 0x100 + w == n);
    lemma_octet_of_digits(x);
    lemma_octet_of_digits(y);
    lemma_octet_of_digits(z);
    lemma_octet_of_digits(w);
    lemma_dotted_pieces(a);
    lemma_dotted_no_colon(a);
}

/// The texts of some groups.
spec fn group_texts(g: Seq<nat>) -> Seq<Seq<char>> {
    g.map_values(|n: nat| text::digits(n, 16))
}

/// Groups are read back from their texts.
proof fn lemma_groups_round_trip(g: Seq<nat>)
    requires
        small(g),
    ensures
        groups(group_texts(g)) == Some(g),
    decreases g.len(),
{
    if g.len() == 0 {
        assert(g =~= Seq::<nat>::empty());
    } else {
        let front = g.drop_last();
        assert forall|i: int| 0 <= i < front.len() implies #[trigger] front[i] < 0x1_0000 by {
            assert(front[i] == g[i]);
        }
        lemma_groups_round_trip(front);
        assert(group_texts(g).drop_last() =~= group_texts(front));
        assert(g[g.len() - 1] < 0x1_0000);
        lemma_group_of_digits(g.last());
        assert(front.push(g.last()) =~= g);
    }
}

/// What the text of some groups looks like: its pieces, and where its colons may stand.
proof fn lemma_show_groups(g: Seq<nat>)
    requires
        g.len() >= 1,
    ensures
        text::split_at_char(show_groups(g), ':') == group_texts(g),
        show_groups(g).len() >= 1,
        show_groups(g)[0] != ':',
        show_groups(g).last() != ':',
        !show_groups(g).contains('.'),
        forall|i: int|
            #![trigger show_groups(g)[i]]
            0 <= i < show_groups(g).len() - 1 ==> show_groups(g)[i] != ':' || show_groups(g)[i + 1]
                != ':',
    decreases g.len(),
{
    let s = show_groups(g);
    let d = text::digits(g.last(), 16);
    lemma_digits_plain(g.last(), 16);
    text::lemma_digits(g.last(), 16);
    assert forall|i: int| 0 <= i < d.len() implies d[i] != ':' && d[i] != '.' by {
        assert(d.contains(d[i]));
    }
    if g.len() == 1 {
        assert(s == d);
        text::lemma_split_one(s, ':');
        assert(group_texts(g) =~= seq![s]);
    } else {
        let front = show_groups(g.drop_last());
        lemma_show_groups(g.drop_last());
        text::lemma_split_more(front, d, ':');
        assert(group_texts(g) =~= group_texts(g.drop_last()).push(d));
        assert(s[0] == front[0]);
        assert(s.last() == d.last());
        assert forall|i: int| 0 <= i < s.len() implies s[i] != '.' by {
            if i < front.len() {
                assert(s[i] == front[i]);
                assert(front.contains(front[i]));
            } else if i > front.len() {
                assert(s[i] == d[i - front.len() - 1]);
            }
        }
        assert forall|i: int|
            #![trigger s[i]]
            0 <= i < s.len() - 1 implies s[i] != ':' || s[i + 1] != ':' by {
            if i < front.len() - 1 {
                assert(s[i] == front[i] && s[i + 1] == front[i + 1]);
            } else if i == front.len() - 1 {
                assert(s[i] == front.last());
            } else {
                assert(s[i + 1] == d[i - front.len()]);
            }
        }
    }
}

/// A text without a dot is no dotted address.
proof fn lemma_no_dot(s: Seq<char>)
    requires
        !s.contains('.'),
    ensures
        dotted(s) is None,
{
    text::lemma_split_one(s, '.');
}

/// Groups that are all written in hexadecimal are read back behind a gap too.
proof fn lemma_tail_round_trip(g: Seq<nat>)
    requires
        small(g),
    ensures
        tail_groups(show_groups(g)) == Some(g),
        head_groups(show_groups(g)) == Some(g),
        g.len() > 0 ==> groups_or_dotted(text::split_at_char(show_groups(g), ':')) == Some(g),
{
    if g.len() == 0 {
        assert(g =~= Seq::<nat>::empty());
    } else {
        lemma_show_groups(g);
        lemma_groups_round_trip(g);
        let p = group_texts(g);
        lemma_digits_plain(g.last(), 16);
        assert(p.last() == text::digits(g.last(), 16));
        lemma_no_dot(p.last());
    }
}

/// Where no two colons stand from `i` up to `j`, and two stand at `j`, the gap is at
/// `j`.
proof fn lemma_gap_at(s: Seq<char>, i: int, j: int)
    requires
        0 <= i <= j <= s.len(),
        j < s.len() ==> j + 1 < s.len() && s[j] == ':' && s[j + 1] == ':',
        forall|k: int|
            #![trigger s[k]]
            i <= k < j && k + 1 < s.len() ==> s[k] != ':' || s[k + 1] != ':',
    ensures
        gap(s, i) == j,
    decreases j - i,
{
    if i < j && i + 1 < s.len() {
        assert(s[i] != ':' || s[i + 1] != ':');
        lemma_gap_at(s, i + 1, j);
    }
}

proof fn lemma_run_is_nought(g: Seq<nat>, i: int)
    requires
        0 <= i <= g.len(),
    ensures
        i + run_at(g, i) <= g.len(),
        forall|k: int| i <= k < i + run_at(g, i) ==> #[trigger] g[k] == 0,
    decreases g.len() - i,
{
    if i < g.len() && g[i] == 0 {
        lemma_run_is_nought(g, i + 1);
    }
}

proof fn lemma_longest_run_is_nought(g: Seq<nat>, n: nat)
    requires
        n <= g.len(),
    ensures
        ({
            let (start, len) = longest_run(g, n);
            &&& 0 <= start
            &&& start + len <= g.len()
            &&& forall|k: int| start <= k < start + len ==> #[trigger] g[k] == 0
        }),
    decreases n,
{
    if n > 0 {
        lemma_longest_run_is_nought(g, (n - 1) as nat);
        lemma_run_is_nought(g, n - 1);
    }
}

proof fn lemma_group_of_ffff()
    ensures
        groups(seq!["ffff"@]) == Some(Seq::<nat>::empty().push(0xffff)),
{
    let f = "ffff"@;
    reveal_strlit("ffff");
    let f3 = f.drop_last();
    let f2 = f3.drop_last();
    let f1 = f2.drop_last();
    assert(f1.drop_last() =~= Seq::<char>::empty());
    assert(text::digit_value('f', 16) == Some(15nat));
    assert(text::digits_value(f1.drop_last(), 16) == Some(0nat));
    assert(text::digits_value(f1, 16) == Some(15nat));
    assert(text::digits_value(f2, 16) == Some(255nat));
    assert(text::digits_value(f3, 16) == Some(4095nat));
    assert(text::digits_value(f, 16) == Some(65535nat));
    assert(seq![f].drop_last() =~= Seq::<Seq<char>>::empty());
    assert(groups(Seq::<Seq<char>>::empty()) == Some(Seq::<nat>::empty()));
}

/// A long address that stands for a dotted one is read back from its text.
proof fn lemma_mapped_round_trip(a: u128)
    requires
        is_mapped(a),
    ensures
        eight_groups(show_long(a)) matches Some(g) && number(g) == a,
        show_long(a).contains(':'),
{
    let v = (a as nat % 0x1_0000_0000) as u32;
    let s = show_long(a);
    let d = show_dotted(v);
    reveal_strlit("::ffff:");
    lemma_dotted_round_trip(v);
    assert(s[0] == ':' && s[1] == ':');
    assert(gap(s, 0) == 0);
    assert(s.take(0) =~= Seq::<char>::empty());
    let f = "ffff"@;
    reveal_strlit("ffff");
    let t = s.skip(2);
    assert(t =~= f.push(':') + d);
    assert(!f.contains(':'));
    text::lemma_split_one(f, ':');
    text::lemma_split_more(f, d, ':');
    let p = text::split_at_char(t, ':');
    assert(p =~= seq![f, d]);
    assert(p.last() == d);
    assert(p.drop_last() =~= seq![f]);
    lemma_group_of_ffff();
    let (hi, lo) = (v as nat / 0x1_0000, v as nat % 0x1_0000);
    let tail = Seq::<nat>::empty().push(0xffff).push(hi).push(lo);
    assert(tail_groups(t) == Some(tail));
    let g = Seq::<nat>::empty() + noughts(5) + tail;
    assert(eight_groups(s) == Some(g));
    assert(g =~= seq![0nat, 0, 0, 0, 0, 0xffff, hi, lo]);
    lemma_number_of_eight(g);
    assert(s.contains(s[0]));
}

/// The number made of eight groups, written out.
proof fn lemma_number_of_eight(g: Seq<nat>)
    requires
        g.len() == 8,
        forall|i: int| 0 <= i < 5 ==> #[trigger] g[i] == 0,
    ensures
        number(g) == g[5] * 0x1_0000_0000 + g[6] * 0x1_0000 + g[7],
{
    let g7 = g.drop_last();
    let g6 = g7.drop_last();
    let g5 = g6.drop_last();
    assert(number(g5) == 0) by {
        assert forall|i: int| 0 <= i < g5.len() implies #[trigger] g5[i] == 0 by {
            assert(g5[i] == g[i]);
        }
        lemma_number_of_noughts(g5);
    }
    assert(number(g6) == g[5]);
    assert(number(g7) == g[5] * 0x1_0000 + g[6]);
}

proof fn lemma_number_of_noughts(g: Seq<nat>)
    requires
        forall|i: int| 0 <= i < g.len() ==> #[trigger] g[i] == 0,
    ensures
        number(g) == 0,
    decreases g.len(),
{
    if g.len() > 0 {
        let front = g.drop_last();
        assert forall|i: int| 0 <= i < front.len() implies #[trigger] front[i] == 0 by {
            assert(front[i] == g[i]);
        }
        lemma_number_of_noughts(front);
    }
}

/// Groups around a gap are read back.
proof fn lemma_gap_round_trip(head: Seq<nat>, tail: Seq<nat>)
    requires
        small(head),
        small(tail),
        head.len() + tail.len() <= 7,
    ensures
        ({
            let s = show_groups(head) + seq![':', ':'] + show_groups(tail);
            &&& eight_groups(s) == Some(
                head + noughts((8 - head.len() - tail.len()) as nat) + tail,
            )
            &&& !s.contains('.')
        }),
{
    let h = show_groups(head);
    let t = show_groups(tail);
    let s = h + seq![':', ':'] + t;
    lemma_tail_round_trip(head);
    lemma_tail_round_trip(tail);
    let n = h.len() as int;
    if head.len() > 0 {
        lemma_show_groups(head);
    }
    if tail.len() > 0 {
        lemma_show_groups(tail);
    }
    assert forall|k: int|
        #![trigger s[k]]
        0 <= k < n && k + 1 < s.len() implies s[k] != ':' || s[k + 1] != ':' by {
        if k < n - 1 {
            assert(s[k] == h[k] && s[k + 1] == h[k + 1]);
        } else {
            assert(s[k] == h.last());
        }
    }
    assert(s[n] == ':' && s[n + 1] == ':');
    lemma_gap_at(s, 0, n);
    assert(s.take(n) =~= h);
    assert(s.skip(n + 2) =~= t);
    assert forall|i: int| 0 <= i < s.len() implies s[i] != '.' by {
        if i < n {
            assert(s[i] == h[i]);
            assert(h.contains(h[i]));
        } else if i >= n + 2 {
            assert(s[i] == t[i - n - 2]);
            assert(t.contains(t[i - n - 2]));
        }
    }
}

/// A number is made of its eight segments.
proof fn lemma_eight_segments(a: u128)
    ensures
        segments(a as nat, 8).len() == 8,
        small(segments(a as nat, 8)),
        number(segments(a as nat, 8)) == a,
{
    lemma_segments(a as nat, 8);
    assert(vstd::arithmetic::power::pow(0x1_0000, 8) == 0x1_0000_0000_0000_0000_0000_0000_0000_0000)
        by {
        reveal(vstd::arithmetic::power::pow);
        reveal_with_fuel(vstd::arithmetic::power::pow, 9);
    }
}

/// Groups with a run of noughts are read back from the text without the run.
proof fn lemma_run_round_trip(g: Seq<nat>, start: int, len: nat)
    requires
        g.len() == 8,
        small(g),
        0 <= start,
        1 <= len,
        start + len <= 8,
        forall|k: int| start <= k < start + len ==> #[trigger] g[k] == 0,
    ensures
        ({
            let s = show_groups(g.take(start)) + seq![':', ':'] + show_groups(g.skip(start + len));
            &&& eight_groups(s) == Some(g)
            &&& !s.contains('.')
        }),
{
    let head = g.take(start);
    let tail = g.skip(start + len);
    assert forall|i: int| 0 <= i < head.len() implies #[trigger] head[i] < 0x1_0000 by {
        assert(head[i] == g[i]);
    }
    assert forall|i: int| 0 <= i < tail.len() implies #[trigger] tail[i] < 0x1_0000 by {
        assert(tail[i] == g[i + start + len]);
    }
    lemma_gap_round_trip(head, tail);
    assert(head + noughts((8 - head.len() - tail.len()) as nat) + tail =~= g);
}

/// Eight groups are read back from their text.
proof fn lemma_eight_round_trip(g: Seq<nat>)
    requires
        g.len() == 8,
        small(g),
    ensures
        eight_groups(show_groups(g)) == Some(g),
        !show_groups(g).contains('.'),
{
    let s = show_groups(g);
    lemma_show_groups(g);
    lemma_tail_round_trip(g);
    lemma_gap_at(s, 0, s.len() as int);
}

/// A long address is read back from its text.
proof fn lemma_long_round_trip(a: u128)
    requires
        !is_mapped(a),
    ensures
        eight_groups(show_long(a)) matches Some(g) && number(g) == a,
        !show_long(a).contains('.'),
{
    let g = segments(a as nat, 8);
    lemma_eight_segments(a);
    let (start, len) = longest_run(g, 8);
    lemma_longest_run_is_nought(g, 8);
    if len > 1 {
        lemma_run_round_trip(g, start, len);
    } else {
        lemma_eight_round_trip(g);
    }
}

/// Every address is read back from its text.
pub proof fn law_address_text_round_trip(a: IpAddr)
    ensures
        ip_of(show_ip(a)) == Some(a),
{
    match a {
        IpAddr::V4(n) => {
            lemma_dotted_round_trip(n);
        },
        IpAddr::V6(n) => {
            if is_mapped(n) {
                lemma_mapped_round_trip(n);
                let s = show_long(n);
                assert(dotted(s) is None) by {
                    reveal_strlit("::ffff:");
                    lemma_dotted_has_digits_first(s);
                }
            } else {
                lemma_long_round_trip(n);
                lemma_no_dot(show_long(n));
            }
        },
    }
}

/// A text that starts with a colon is no dotted address.
proof fn lemma_dotted_has_digits_first(s: Seq<char>)
    requires
        s.len() > 0,
        s[0] == ':',
    ensures
        dotted(s) is None,
{
    lemma_first_piece(s, '.');
    let p = text::split_at_char(s, '.');
    assert(p[0].len() > 0 && p[0][0] == ':');
    lemma_first_digit(p[0]);
}

/// A text that does not start with a separator starts its first piece.
proof fn lemma_first_piece(s: Seq<char>, sep: char)
    requires
        s.len() > 0,
        s[0] != sep,
    ensures
        text::split_at_char(s, sep).len() >= 1,
        text::split_at_char(s, sep)[0].len() > 0,
        text::split_at_char(s, sep)[0][0] == s[0],
    decreases s.len(),
{
    let front = s.drop_last();
    text::lemma_split_nonempty(s, sep);
    text::lemma_split_nonempty(front, sep);
    if front.len() == 0 {
        assert(text::split_at_char(front, sep) =~= seq![Seq::<char>::empty()]);
        assert(text::split_at_char(s, sep)[0] =~= seq![s[0]]);
    } else {
        assert(front[0] == s[0]);
        lemma_first_piece(front, sep);
    }
}

/// Digits start with a digit.
proof fn lemma_first_digit(s: Seq<char>)
    requires
        s.len() > 0,
        s[0] == ':',
    ensures
        text::digits_value(s, 10) is None,
    decreases s.len(),
{
    if s.len() > 1 {
        assert(s.drop_last()[0] == ':');
        lemma_first_digit(s.drop_last());
    }
}

/// Two addresses with the same text are the same.
pub proof fn law_address_text_is_unique(a: IpAddr, b: IpAddr)
    requires
        show_ip(a) == show_ip(b),
    ensures
        a == b,
{
    law_address_text_round_trip(a);
    law_address_text_round_trip(b);
}

/// The address itself, or the dotted address that a long one stands for.
pub open spec fn canonical(a: IpAddr) -> IpAddr {
    match a {
        IpAddr::V6(n) if is_mapped(n) => IpAddr::V4((n as nat % 0x1_0000_0000) as u32),
        _ => a,
    }
}

/// The dotted address that a long address stands for, or else the address itself.
pub fn canonical_ip(ip: IpAddr) -> (r: IpAddr)
    ensures
        r == canonical(ip),
{
    match ip {
        IpAddr::V6(n) => {
            if n / 0x1_0000_0000 == 0xffff {
                IpAddr::V4((n % 0x1_0000_0000) as u32)
            } else {
                ip
            }
        },
        IpAddr::V4(_) => ip,
    }
}

/// The text of the canonical form of an address.
pub fn normalize_ip(ip: IpAddr) -> (s: String)
    ensures
        s@ == show_ip(canonical(ip)),
{
    ip_text(canonical_ip(ip))
}

/// The text under which an address is known, if the given text is one. White space
/// around it does not count.
pub open spec fn normalized(s: Seq<char>) -> Option<Seq<char>> {
    match ip_of(text::trimmed(s)) {
        Some(a) => Some(show_ip(canonical(a))),
        None => None,
    }
}

/// The message for a text that is no address.
pub open spec fn invalid_ip_message(s: Seq<char>) -> Seq<char> {
    "无效 IP: "@ + s
}

/// The text under which an address is known; a text that is no address is an error.
pub fn normalize_ip_str(ip: &str) -> (r: Result<String, String>)
    ensures
        match r {
            Ok(s) => normalized(ip@) == Some(s@),
            Err(e) => normalized(ip@) is None && e@ == invalid_ip_message(ip@),
        },
{
    let trimmed = text::trim(ip);
    match parse_ip(trimmed.as_str()) {
        Some(a) => Ok(normalize_ip(a)),
        None => Err(text::joined("无效 IP: ", ip)),
    }
}

/// The canonical form of a canonical form is the same.
pub proof fn law_canonical_is_idempotent(a: IpAddr)
    ensures
        canonical(canonical(a)) == canonical(a),
{
}

/// A dotted address and the long address that stands for it have one canonical form.
pub proof fn law_mapped_address_is_the_dotted_one(n: u32)
    ensures
        canonical(IpAddr::V6((0xffff_0000_0000 + n) as u128)) == canonical(IpAddr::V4(n)),
{
}

/// A character that occurs in the text of an address.
pub open spec fn address_char(c: char) -> bool {
    text::digit_value(c, 16) is Some || c == ':' || c == '.'
}

/// Every character of the text occurs in addresses.
pub open spec fn plain(s: Seq<char>) -> bool {
    forall|i: int| 0 <= i < s.len() ==> address_char(#[trigger] s[i])
}

proof fn lemma_digits_chars(n: nat, radix: nat)
    requires
        2 <= radix <= 16,
    ensures
        plain(text::digits(n, radix)),
        text::digits(n, radix).len() > 0,
{
    text::lemma_digits(n, radix);
    let d = text::digits(n, radix);
    assert forall|i: int| 0 <= i < d.len() implies address_char(#[trigger] d[i]) by {
        assert(text::digit_value(d[i], radix) is Some);
    }
}

proof fn lemma_groups_chars(g: Seq<nat>)
    ensures
        plain(show_groups(g)),
    decreases g.len(),
{
    if g.len() == 1 {
        lemma_digits_chars(g[0], 16);
    } else if g.len() > 1 {
        lemma_groups_chars(g.drop_last());
        lemma_digits_chars(g.last(), 16);
    }
}

proof fn lemma_dotted_chars(a: u32)
    ensures
        plain(show_dotted(a)),
{
    let n = a as nat;
    lemma_digits_chars(n / 0x100_0000, 10);
    lemma_digits_chars(n / 0x1_0000 % 0x100, 10);
    lemma_digits_chars(n / 0x100 % 0x100, 10);
    lemma_digits_chars(n % 0x100, 10);
}

pub proof fn lemma_ip_chars(a: IpAddr)
    ensures
        plain(show_ip(a)),
{
    match a {
        IpAddr::V4(n) => {
            lemma_dotted_chars(n);
        },
        IpAddr::V6(n) => {
            if is_mapped(n) {
                reveal_strlit("::ffff:");
                lemma_dotted_chars((n as nat % 0x1_0000_0000) as u32);
            } else {
                let g = segments(n as nat, 8);
                let (start, len) = longest_run(g, 8);
                lemma_groups_chars(g);
                lemma_groups_chars(g.take(start));
                lemma_groups_chars(g.skip(start + len));
            }
        },
    }
}

/// The text of an address holds no white space to trim.
pub proof fn lemma_ip_text_is_trimmed(a: IpAddr)
    ensures
        text::trimmed(show_ip(a)) == show_ip(a),
{
    lemma_ip_chars(a);
}

/// An address keeps the text under which it is known.
pub proof fn law_normalization_is_idempotent(s: Seq<char>)
    ensures
        normalized(s) matches Some(t) ==> normalized(t) == Some(t),
{
    if let Some(a) = ip_of(text::trimmed(s)) {
        let c = canonical(a);
        lemma_ip_text_is_trimmed(c);
        law_address_text_round_trip(c);
    }
}

/// Texts of one address, and of the long address that stands for it, are known under
/// one text.
pub proof fn law_texts_of_one_address_are_known_as_one(s: Seq<char>, t: Seq<char>)
    requires
        ip_of(text::trimmed(s)) matches Some(a) && ip_of(text::trimmed(t)) matches Some(b)
            && canonical(a) == canonical(b),
    ensures
        normalized(s) is Some,
        normalized(s) == normalized(t),
{
}

/// Two numbers agree in their first bits, all but the last `rest`.
pub open spec fn same_network(a: nat, b: nat, rest: nat) -> bool {
    a / vstd::arithmetic::power2::pow2(rest) == b / vstd::arithmetic::power2::pow2(rest)
}

/// The longest prefix of a network of this kind of address.
pub open spec fn longest_prefix(a: IpAddr) -> u32 {
    match a {
        IpAddr::V4(_) => 32,
        IpAddr::V6(_) => 128,
    }
}

/// Whether an address lies in a network.
pub open spec fn network_has(base: IpAddr, prefix: u32, ip: IpAddr) -> bool
    recommends
        prefix <= longest_prefix(base),
{
    match (base, ip) {
        (IpAddr::V4(b), IpAddr::V4(i)) => same_network(
            b as nat,
            i as nat,
            (32 - prefix) as nat,
        ),
        (IpAddr::V6(b), IpAddr::V6(i)) => same_network(
            b as nat,
            i as nat,
            (128 - prefix) as nat,
        ),
        _ => false,
    }
}

/// Whether an address lies in a network.
pub fn cidr_match(base: IpAddr, prefix: u32, ip: IpAddr) -> (r: bool)
    requires
        (base is V4) == (ip is V4) ==> prefix <= longest_prefix(base),
    ensures
        r == network_has(base, prefix, ip),
{
    match (base, ip) {
        (IpAddr::V4(b), IpAddr::V4(i)) => {
            if prefix == 0 {
                proof {
                    vstd::arithmetic::power2::lemma2_to64();
                }
                assert(b as nat / 0x1_0000_0000 == 0 && i as nat / 0x1_0000_0000 == 0);
                true
            } else {
                let rest: u32 = 32 - prefix;
                proof {
                    vstd::bits::lemma_u32_shr_is_div(b, rest);
                    vstd::bits::lemma_u32_shr_is_div(i, rest);
                }
                (b >> rest) == (i >> rest)
            }
        },
        (IpAddr::V6(b), IpAddr::V6(i)) => {
            if prefix == 0 {
                proof {
                    lemma_pow2_128();
                    assert(b as nat / 0x1_0000_0000_0000_0000_0000_0000_0000_0000nat == 0);
                    assert(i as nat / 0x1_0000_0000_0000_0000_0000_0000_0000_0000nat == 0);
                }
                true
            } else {
                let rest: u128 = (128 - prefix) as u128;
                proof {
                    vstd::bits::lemma_u128_shr_is_div(b, rest);
                    vstd::bits::lemma_u128_shr_is_div(i, rest);
                }
                (b >> rest) == (i >> rest)
            }
        },
        _ => false,
    }
}

proof fn lemma_pow2_128()
    ensures
        vstd::arithmetic::power2::pow2(128) == 0x1_0000_0000_0000_0000_0000_0000_0000_0000nat,
{
    vstd::arithmetic::power2::lemma2_to64();
    vstd::arithmetic::power2::lemma_pow2_adds(64, 64);
}

/// Every network has its own base, and the one without a prefix has every address of
/// its kind.
pub proof fn law_networks(base: IpAddr, prefix: u32, ip: IpAddr)
    ensures
        network_has(base, prefix, base),
        (base is V4) == (ip is V4) ==> network_has(base, 0, ip),
        (base is V4) != (ip is V4) ==> !network_has(base, prefix, ip),
{
    vstd::arithmetic::power2::lemma2_to64();
    lemma_pow2_128();
    match (base, ip) {
        (IpAddr::V4(b), IpAddr::V4(i)) => {
            assert(b as nat / 0x1_0000_0000 == 0 && i as nat / 0x1_0000_0000 == 0);
        },
        (IpAddr::V6(b), IpAddr::V6(i)) => {
            assert(b as nat / 0x1_0000_0000_0000_0000_0000_0000_0000_0000nat == 0);
            assert(i as nat / 0x1_0000_0000_0000_0000_0000_0000_0000_0000nat == 0);
        },
        _ => {},
    }
}

/// A full prefix makes a network of one address.
pub proof fn law_full_prefix_is_one_address(base: IpAddr, ip: IpAddr)
    ensures
        network_has(base, longest_prefix(base), ip) == (base == ip),
{
    vstd::arithmetic::power2::lemma2_to64();
    match (base, ip) {
        (IpAddr::V4(b), IpAddr::V4(i)) => {
            assert(b as nat / 1 == b && i as nat / 1 == i);
        },
        (IpAddr::V6(b), IpAddr::V6(i)) => {
            assert(b as nat / 1 == b && i as nat / 1 == i);
        },
        _ => {},
    }
}

/// A network of long addresses that all stand for dotted ones has those that stand for
/// the addresses of a dotted network.
pub proof fn law_mapped_network(base: u128, prefix: u32, ip: u128)
    requires
        is_mapped(base),
        is_mapped(ip),
        96 <= prefix <= 128,
    ensures
        network_has(IpAddr::V6(base), prefix, IpAddr::V6(ip)) == network_has(
            canonical(IpAddr::V6(base)),
            (prefix - 96) as u32,
            canonical(IpAddr::V6(ip)),
        ),
{
    let rest = (128 - prefix) as nat;
    let low_base = base as nat % 0x1_0000_0000;
    let low_ip = ip as nat % 0x1_0000_0000;
    lemma_mapped_quotient(base as nat, rest);
    lemma_mapped_quotient(ip as nat, rest);
    let p = vstd::arithmetic::power2::pow2(rest);
    let high = 0xffff * vstd::arithmetic::power2::pow2((32 - rest) as nat);
    let (x, y) = (base as nat / p, ip as nat / p);
    let (u, v) = (low_base / p, low_ip / p);
    assert((x == y) == (u == v)) by (nonlinear_arith)
        requires
            x == high + u,
            y == high + v,
    ;
    assert((32 - (prefix - 96) as u32) as nat == rest);
}

proof fn lemma_mapped_quotient(n: nat, rest: nat)
    requires
        n / 0x1_0000_0000 == 0xffff,
        rest <= 32,
    ensures
        n / vstd::arithmetic::power2::pow2(rest) == 0xffff * vstd::arithmetic::power2::pow2(
            (32 - rest) as nat,
        ) + (n % 0x1_0000_0000) / vstd::arithmetic::power2::pow2(rest),
{
    let p = vstd::arithmetic::power2::pow2(rest);
    let q = vstd::arithmetic::power2::pow2((32 - rest) as nat);
    let low = n % 0x1_0000_0000;
    vstd::arithmetic::power2::lemma2_to64();
    vstd::arithmetic::power2::lemma_pow2_pos(rest);
    vstd::arithmetic::power2::lemma_pow2_adds(rest, (32 - rest) as nat);
    assert(n == 0xffff * 0x1_0000_0000 + low);
    assert(n == p * (0xffff * q) + low) by (nonlinear_arith)
        requires
            n == 0xffff * 0x1_0000_0000 + low,
            p * q == 0x1_0000_0000,
    ;
    vstd::arithmetic::div_mod::lemma_hoist_over_denominator(
        low as int,
        (0xffff * q) as int,
        p,
    );
    assert(p * (0xffff * q) == (0xffff * q) * p) by (nonlinear_arith);
}

/// An address with a port. A long one may name a zone.
#[derive(Clone, Copy, Debug, PartialEq, Eq, Structural)]
pub enum SocketAddr {
    V4 { ip: u32, port: u16 },
    V6 { addr: u128, scope: u32, port: u16 },
}

/// The number that decimal digits stand for, up to `max`.
pub open spec fn decimal(s: Seq<char>, max: nat) -> Option<nat> {
    if s.len() == 0 {
        None
    } else {
        match text::digits_value(s, 10) {
            Some(v) if v <= max => Some(v),
            _ => None,
        }
    }
}

/// The long address and the zone between the brackets.
pub open spec fn zoned(s: Seq<char>) -> Option<(u128, u32)> {
    let p = text::split_at_char(s, '%');
    match eight_groups(p[0]) {
        Some(g) => if p.len() == 1 {
            Some((number(g) as u128, 0))
        } else if p.len() == 2 {
            match decimal(p[1], u32::MAX as nat) {
                Some(scope) => Some((number(g) as u128, scope as u32)),
                None => None,
            }
        } else {
            None
        },
        None => None,
    }
}

/// The address and port that a text stands for: `1.2.3.4:80`, `[::1]:80` or
/// `[fe80::1%2]:80`.
pub open spec fn socket_of(s: Seq<char>) -> Option<SocketAddr> {
    if s.len() > 0 && s[0] == '[' {
        let p = text::split_at_char(s.drop_first(), ']');
        if p.len() == 2 && p[1].len() > 0 && p[1][0] == ':' {
            match (zoned(p[0]), decimal(p[1].drop_first(), u16::MAX as nat)) {
                (Some((addr, scope)), Some(port)) => Some(
                    SocketAddr::V6 { addr, scope, port: port as u16 },
                ),
                _ => None,
            }
        } else {
            None
        }
    } else {
        let p = text::split_at_char(s, ':');
        if p.len() == 2 {
            match (dotted(p[0]), decimal(p[1], u16::MAX as nat)) {
                (Some(ip), Some(port)) => Some(SocketAddr::V4 { ip, port: port as u16 }),
                _ => None,
            }
        } else {
            None
        }
    }
}

pub(crate) fn read_decimal(s: &str, max: u32) -> (r: Option<u32>)
    ensures
        match r {
            Some(v) => decimal(s@, max as nat) == Some(v as nat) && v <= max,
            None => decimal(s@, max as nat) is None,
        },
{
    let cs = text::chars_of(s);
    if cs.len() == 0 {
        return None;
    }
    assert(cs@.subrange(0, cs@.len() as int) =~= cs@);
    match text::read_digits(&cs, 0, cs.len(), 10, max as u64) {
        Some(v) => Some(v as u32),
        None => None,
    }
}

fn read_zoned(s: &str) -> (r: Option<(u128, u32)>)
    ensures
        r == zoned(s@),
{
    let p = text::split(s, '%');
    let ghost pieces = text::split_at_char(s@, '%');
    assert(text::views(p@) == pieces && pieces.len() == p@.len());
    assert(pieces[0] == p@[0]@);
    match read_eight_groups(p[0].as_str()) {
        Some(g) => {
            let n = number_of(&g);
            if p.len() == 1 {
                Some((n, 0))
            } else if p.len() == 2 {
                assert(pieces[1] == p@[1]@);
                match read_decimal(p[1].as_str(), u32::MAX) {
                    Some(scope) => Some((n, scope)),
                    None => None,
                }
            } else {
                None
            }
        },
        None => None,
    }
}

/// `s` without its first character.
pub(crate) fn rest_of(s: &str) -> (r: String)
    requires
        s@.len() > 0,
    ensures
        r@ == s@.drop_first(),
{
    let cs = text::chars_of(s);
    let r = text::string_from(&cs, 1, cs.len());
    assert(r@ =~= s@.drop_first());
    r
}

/// Reads an address with a port.
pub fn parse_socket(s: &str) -> (r: Option<SocketAddr>)
    ensures
        r == socket_of(s@),
{
    let cs = text::chars_of(s);
    if cs.len() > 0 && cs[0] == '[' {
        let rest = rest_of(s);
        let p = text::split(rest.as_str(), ']');
        let ghost pieces = text::split_at_char(s@.drop_first(), ']');
        assert(text::views(p@) == pieces && pieces.len() == p@.len());
        if p.len() != 2 {
            return None;
        }
        assert(pieces[0] == p@[0]@ && pieces[1] == p@[1]@);
        let behind = text::chars_of(p[1].as_str());
        if behind.len() == 0 || behind[0] != ':' {
            return None;
        }
        let port = rest_of(p[1].as_str());
        match (read_zoned(p[0].as_str()), read_decimal(port.as_str(), 0xffff)) {
            (Some((addr, scope)), Some(port)) => Some(
                SocketAddr::V6 { addr, scope, port: port as u16 },
            ),
            _ => None,
        }
    } else {
        let p = text::split(s, ':');
        let ghost pieces = text::split_at_char(s@, ':');
        assert(text::views(p@) == pieces && pieces.len() == p@.len());
        if p.len() != 2 {
            return None;
        }
        assert(pieces[0] == p@[0]@ && pieces[1] == p@[1]@);
        match (read_dotted(p[0].as_str()), read_decimal(p[1].as_str(), 0xffff)) {
            (Some(ip), Some(port)) => Some(SocketAddr::V4 { ip, port: port as u16 }),
            _ => None,
        }
    }
}

/// The text of a long address with its zone.
pub open spec fn show_zoned(addr: u128, scope: u32) -> Seq<char> {
    if scope == 0 {
        show_long(addr)
    } else {
        show_long(addr).push('%') + text::digits(scope as nat, 10)
    }
}

/// The text of an address with a port.
pub open spec fn show_socket(a: SocketAddr) -> Seq<char> {
    match a {
        SocketAddr::V4 { ip, port } => show_dotted(ip).push(':') + text::digits(port as nat, 10),
        SocketAddr::V6 { addr, scope, port } => seq!['['] + show_zoned(addr, scope) + seq![
            ']',
            ':',
        ] + text::digits(port as nat, 10),
    }
}

/// The text of an address with a port.
pub fn socket_text(a: SocketAddr) -> (out: String)
    ensures
        out@ == show_socket(a),
{
    match a {
        SocketAddr::V4 { ip, port } => {
            let mut out = ip_text(IpAddr::V4(ip));
            out.push(':');
            text::push_digits(&mut out, port as u64, 10);
            assert(out@ =~= show_socket(a));
            out
        },
        SocketAddr::V6 { addr, scope, port } => {
            let mut out = String::new();
            out.push('[');
            let ip = ip_text(IpAddr::V6(addr));
            text::push_chars(&mut out, ip.as_str());
            if scope != 0 {
                out.push('%');
                text::push_digits(&mut out, scope as u64, 10);
            }
            out.push(']');
            out.push(':');
            text::push_digits(&mut out, port as u64, 10);
            assert(out@ =~= show_socket(a));
            out
        },
    }
}

proof fn lemma_plain_lacks(s: Seq<char>)
    requires
        plain(s),
    ensures
        !s.contains('%'),
        !s.contains(']'),
        !s.contains('['),
{
    assert forall|i: int| 0 <= i < s.len() implies s[i] != '%' && s[i] != ']' && s[i] != '[' by {
        assert(address_char(s[i]));
    }
}

proof fn lemma_decimal_round_trip(n: nat, max: nat)
    requires
        n <= max,
    ensures
        decimal(text::digits(n, 10), max) == Some(n),
{
    text::lemma_digits(n, 10);
}

proof fn lemma_zoned_round_trip(addr: u128, scope: u32)
    ensures
        zoned(show_zoned(addr, scope)) == Some((addr, scope)),
        !show_zoned(addr, scope).contains(']'),
{
    let long = show_long(addr);
    let d = text::digits(scope as nat, 10);
    lemma_ip_chars(IpAddr::V6(addr));
    lemma_plain_lacks(long);
    lemma_digits_chars(scope as nat, 10);
    lemma_plain_lacks(d);
    if is_mapped(addr) {
        lemma_mapped_round_trip(addr);
    } else {
        lemma_long_round_trip(addr);
    }
    text::lemma_split_one(long, '%');
    if scope == 0 {
        assert(text::split_at_char(show_zoned(addr, scope), '%')[0] == long);
    } else {
        text::lemma_split_more(long, d, '%');
        lemma_decimal_round_trip(scope as nat, u32::MAX as nat);
        let s = show_zoned(addr, scope);
        assert(text::split_at_char(s, '%') =~= seq![long, d]);
        assert forall|i: int| 0 <= i < s.len() implies s[i] != ']' by {
            if i < long.len() {
                assert(s[i] == long[i]);
                assert(long.contains(long[i]));
            } else if i > long.len() {
                assert(s[i] == d[i - long.len() - 1]);
                assert(d.contains(d[i - long.len() - 1]));
            }
        }
    }
}

proof fn lemma_short_socket_round_trip(ip: u32, port: u16)
    ensures
        socket_of(show_socket(SocketAddr::V4 { ip, port })) == Some(SocketAddr::V4 { ip, port }),
{
    let front = show_dotted(ip);
    let d = text::digits(port as nat, 10);
    let s = front.push(':') + d;
    lemma_dotted_round_trip(ip);
    lemma_digits_plain(port as nat, 10);
    lemma_decimal_round_trip(port as nat, u16::MAX as nat);
    text::lemma_split_one(front, ':');
    text::lemma_split_more(front, d, ':');
    assert(text::split_at_char(s, ':') =~= seq![front, d]);
    lemma_dotted_chars(ip);
    lemma_digits_chars(ip as nat / 0x100_0000, 10);
    assert(s[0] == front[0]);
    assert(address_char(front[0]));
}

proof fn lemma_long_socket_round_trip(addr: u128, scope: u32, port: u16)
    ensures
        socket_of(show_socket(SocketAddr::V6 { addr, scope, port })) == Some(
            SocketAddr::V6 { addr, scope, port },
        ),
{
    let s = show_socket(SocketAddr::V6 { addr, scope, port });
    let d = text::digits(port as nat, 10);
    let inner = show_zoned(addr, scope);
    lemma_zoned_round_trip(addr, scope);
    lemma_digits_chars(port as nat, 10);
    lemma_plain_lacks(d);
    lemma_decimal_round_trip(port as nat, u16::MAX as nat);
    let behind = seq![':'] + d;
    assert forall|i: int| 0 <= i < behind.len() implies behind[i] != ']' by {
        if i > 0 {
            assert(behind[i] == d[i - 1]);
            assert(d.contains(d[i - 1]));
        }
    }
    assert(s.drop_first() =~= inner.push(']') + behind);
    text::lemma_split_one(inner, ']');
    text::lemma_split_more(inner, behind, ']');
    assert(text::split_at_char(s.drop_first(), ']') =~= seq![inner, behind]);
    assert(behind.drop_first() =~= d);
}

/// Every address with a port is read back from its text.
pub proof fn law_socket_text_round_trip(a: SocketAddr)
    ensures
        socket_of(show_socket(a)) == Some(a),
{
    match a {
        SocketAddr::V4 { ip, port } => {
            lemma_short_socket_round_trip(ip, port);
        },
        SocketAddr::V6 { addr, scope, port } => {
            lemma_long_socket_round_trip(addr, scope, port);
        },
    }
}

/// Decimal digits without a nought in front are the text of their value.
proof fn lemma_decimal_text(s: Seq<char>)
    requires
        s.len() > 0,
        s.len() > 1 ==> s[0] != '0',
        text::digits_value(s, 10) is Some,
    ensures
        s == text::digits(text::digits_value(s, 10).unwrap(), 10),
        s[0] != '0' ==> text::digits_value(s, 10).unwrap() > 0,
    decreases s.len(),
{
    let front = s.drop_last();
    let v = text::digits_value(s, 10).unwrap();
    let w = text::digits_value(front, 10).unwrap();
    let d = text::digit_value(s.last(), 10).unwrap();
    assert(v == w * 10 + d);
    assert(text::digit_char(d) == s.last());
    if front.len() == 0 {
        assert(w == 0);
        assert(s =~= seq![text::digit_char(d)]);
    } else {
        assert(front[0] == s[0]);
        lemma_decimal_text(front);
        assert(v / 10 == w && v % 10 == d);
        assert(text::digits(v, 10) == text::digits(w, 10).push(text::digit_char(d)));
        assert(s =~= front.push(s.last()));
    }
}

/// A dotted address has one text: its four bytes in decimal, without noughts in front,
/// and a dot between them. Nothing else is read as one.
pub proof fn law_dotted_addresses(s: Seq<char>, a: u8, b: u8, c: u8, d: u8)
    ensures
        ({
            let n = (a * 0x100_0000 + b * 0x1_0000 + c * 0x100 + d) as u32;
            &&& show_ip(IpAddr::V4(n)) == text::rejoined(
                seq![
                    text::digits(a as nat, 10),
                    text::digits(b as nat, 10),
                    text::digits(c as nat, 10),
                    text::digits(d as nat, 10),
                ],
                '.',
            )
            &&& ip_of(s) == Some(IpAddr::V4(n)) <==> s == show_ip(IpAddr::V4(n))
        }),
{
    let n = (a * 0x100_0000 + b * 0x1_0000 + c * 0x100 + d) as u32;
    lemma_four_bytes(a as nat, b as nat, c as nat, d as nat);
    lemma_four_joined(
        text::digits(a as nat, 10),
        text::digits(b as nat, 10),
        text::digits(c as nat, 10),
        text::digits(d as nat, 10),
    );
    lemma_dotted_round_trip(n);
    if ip_of(s) == Some(IpAddr::V4(n)) {
        lemma_dotted_text(s);
    }
}

proof fn lemma_four_joined(a: Seq<char>, b: Seq<char>, c: Seq<char>, d: Seq<char>)
    ensures
        text::rejoined(seq![a, b, c, d], '.') == (((a.push('.') + b).push('.') + c).push('.') + d),
{
    let p = seq![a, b, c, d];
    assert(p.drop_last() =~= seq![a, b, c]);
    assert(p.drop_last().drop_last() =~= seq![a, b]);
    assert(p.drop_last().drop_last().drop_last() =~= seq![a]);
    assert(text::rejoined(seq![a], '.') == a);
    assert(text::rejoined(seq![a, b], '.') == a.push('.') + b);
    assert(text::rejoined(seq![a, b, c], '.') == (a.push('.') + b).push('.') + c);
}

proof fn lemma_four_bytes(a: nat, b: nat, c: nat, d: nat)
    requires
        a <= 255,
        b <= 255,
        c <= 255,
        d <= 255,
    ensures
        ({
            let n = a * 0x100_0000 + b * 0x1_0000 + c * 0x100 + d;
            &&& n <= u32::MAX
            &&& n / 0x100_0000 == a
            &&& n / 0x1_0000 % 0x100 == b
            &&& n / 0x100 % 0x100 == c
            &&& n % 0x100 == d
        }),
{
    let n = (a * 0x100_0000 + b * 0x1_0000 + c * 0x100 + d) as int;
    let m = (b * 0x1_0000 + c * 0x100 + d) as int;
    let k = (c * 0x100 + d) as int;
    let (x, y) = ((a * 0x100 + b) as int, (a * 0x1_0000 + b * 0x100 + c) as int);
    vstd::arithmetic::div_mod::lemma_fundamental_div_mod_converse(n, 0x100_0000, a as int, m);
    vstd::arithmetic::div_mod::lemma_fundamental_div_mod_converse(n, 0x1_0000, x, k);
    vstd::arithmetic::div_mod::lemma_fundamental_div_mod_converse(n, 0x100, y, d as int);
    vstd::arithmetic::div_mod::lemma_fundamental_div_mod_converse(x, 0x100, a as int, b as int);
    let z = (a * 0x100 + b) as int;
    vstd::arithmetic::div_mod::lemma_fundamental_div_mod_converse(y, 0x100, z, c as int);
}

proof fn lemma_octet_text(t: Seq<char>)
    requires
        octet(t) is Some,
    ensures
        t == text::digits(octet(t).unwrap(), 10),
        octet(t).unwrap() <= 255,
{
    lemma_decimal_text(t);
}

proof fn lemma_dotted_text(s: Seq<char>)
    requires
        dotted(s) is Some,
    ensures
        s == show_dotted(dotted(s).unwrap()),
{
    let p = text::split_at_char(s, '.');
    text::law_splitting(s, '.');
    assert(p.len() == 4);
    let a = octet(p[0]).unwrap();
    let b = octet(p[1]).unwrap();
    let c = octet(p[2]).unwrap();
    let d = octet(p[3]).unwrap();
    lemma_octet_text(p[0]);
    lemma_octet_text(p[1]);
    lemma_octet_text(p[2]);
    lemma_octet_text(p[3]);
    lemma_four_bytes(a, b, c, d);
    let n = a * 0x100_0000 + b * 0x1_0000 + c * 0x100 + d;
    assert(dotted(s) == Some(n as u32));
    assert(p =~= seq![p[0], p[1], p[2], p[3]]);
    lemma_four_joined(p[0], p[1], p[2], p[3]);
    assert(show_dotted(n as u32) == ((p[0].push('.') + p[1]).push('.') + p[2]).push('.') + p[3]);
}

/// A text is one to four hexadecimal digits, in either case.
pub open spec fn is_hex_group(t: Seq<char>) -> bool {
    1 <= t.len() <= 4 && forall|i: int|
        0 <= i < t.len() ==> '0' <= #[trigger] t[i] <= '9' || 'a' <= t[i] <= 'f' || 'A' <= t[i]
            <= 'F'
}

/// Each of the texts is one to four hexadecimal digits.
pub open spec fn are_hex_groups(p: Seq<Seq<char>>) -> bool {
    forall|i: int| 0 <= i < p.len() ==> is_hex_group(#[trigger] p[i])
}

/// The values of texts of hexadecimal digits.
pub open spec fn hex_values(p: Seq<Seq<char>>) -> Seq<nat> {
    p.map_values(|t: Seq<char>| text::digits_value(t, 16).unwrap())
}

/// The last groups of a long address: hexadecimal ones, and behind them, where there is
/// one, a dotted address that stands for two.
pub open spec fn last_texts(tail: Seq<Seq<char>>, end: Option<u32>) -> Seq<Seq<char>> {
    match end {
        Some(a) => tail.push(show_dotted(a)),
        None => tail,
    }
}

/// The values of the last groups.
pub open spec fn last_values(tail: Seq<Seq<char>>, end: Option<u32>) -> Seq<nat> {
    match end {
        Some(a) => hex_values(tail).push(a as nat / 0x1_0000).push(a as nat % 0x1_0000),
        None => hex_values(tail),
    }
}

/// A long address with groups before and behind a gap.
pub open spec fn gapped_text(
    head: Seq<Seq<char>>,
    tail: Seq<Seq<char>>,
    end: Option<u32>,
) -> Seq<char> {
    text::rejoined(head, ':') + seq![':', ':'] + text::rejoined(last_texts(tail, end), ':')
}

/// A long address is read from eight groups of one to four hexadecimal digits, in either
/// case, with colons between them; the last two may be a dotted address.
pub proof fn law_long_addresses_in_full(p: Seq<Seq<char>>, end: Option<u32>)
    requires
        are_hex_groups(p),
        p.len() + (if end is Some {
            2nat
        } else {
            0
        }) == 8,
    ensures
        ip_of(text::rejoined(last_texts(p, end), ':')) == Some(
            IpAddr::V6(number(last_values(p, end)) as u128),
        ),
{
    let texts = last_texts(p, end);
    let s = text::rejoined(texts, ':');
    lemma_last_texts(p, end);
    lemma_joined_texts(texts);
    lemma_gap_at(s, 0, s.len() as int);
    assert(s.contains(':')) by {
        let front = texts.drop_last();
        assert(s[text::rejoined(front, ':').len() as int] == ':');
    }
    lemma_colon_is_not_dotted(s);
}

/// In a long address a gap of two colons stands for one or more groups of noughts.
pub proof fn law_long_addresses_with_a_gap(
    head: Seq<Seq<char>>,
    tail: Seq<Seq<char>>,
    end: Option<u32>,
)
    requires
        are_hex_groups(head),
        are_hex_groups(tail),
        head.len() + tail.len() + (if end is Some {
            2nat
        } else {
            0
        }) <= 7,
    ensures
        ip_of(gapped_text(head, tail, end)) == Some(
            IpAddr::V6(
                number(
                    hex_values(head) + Seq::new(
                        (8 - head.len() - last_values(tail, end).len()) as nat,
                        |i: int| 0nat,
                    ) + last_values(tail, end),
                ) as u128,
            ),
        ),
{
    let texts = last_texts(tail, end);
    let (h, t) = (text::rejoined(head, ':'), text::rejoined(texts, ':'));
    let s = gapped_text(head, tail, end);
    let n = h.len() as int;
    lemma_last_texts(tail, end);
    lemma_hex_groups(head);
    if head.len() > 0 {
        assert forall|i: int| 0 <= i < head.len() implies (#[trigger] head[i]).len() > 0
            && !head[i].contains(':') by {
            assert(is_hex_group(head[i]));
            lemma_hex_group(head[i]);
        }
        lemma_joined_texts(head);
    }
    if texts.len() > 0 {
        lemma_joined_texts(texts);
    }
    assert forall|k: int|
        #![trigger s[k]]
        0 <= k < n && k + 1 < s.len() implies s[k] != ':' || s[k + 1] != ':' by {
        if k < n - 1 {
            assert(s[k] == h[k] && s[k + 1] == h[k + 1]);
        } else {
            assert(s[k] == h.last());
        }
    }
    assert(s[n] == ':' && s[n + 1] == ':');
    lemma_gap_at(s, 0, n);
    assert(s.take(n) =~= h);
    assert(s.skip(n + 2) =~= t);
    assert(head_groups(h) == Some(hex_values(head))) by {
        if head.len() == 0 {
            assert(hex_values(head) =~= Seq::<nat>::empty());
        }
    }
    assert(tail_groups(t) == Some(last_values(tail, end))) by {
        if texts.len() == 0 {
            assert(last_values(tail, end) =~= Seq::<nat>::empty());
        }
    }
    assert(noughts((8 - head.len() - last_values(tail, end).len()) as nat) =~= Seq::new(
        (8 - head.len() - last_values(tail, end).len()) as nat,
        |i: int| 0nat,
    ));
    assert(s.contains(s[n]));
    lemma_colon_is_not_dotted(s);
}

/// A text is made of these groups: with a gap of one or more, or of eight in full.
pub open spec fn is_long_form(
    s: Seq<char>,
    head: Seq<Seq<char>>,
    tail: Seq<Seq<char>>,
    end: Option<u32>,
) -> bool {
    let count = head.len() + tail.len() + (if end is Some {
        2nat
    } else {
        0
    });
    &&& are_hex_groups(head)
    &&& are_hex_groups(tail)
    &&& (count <= 7 && s == gapped_text(head, tail, end)) || (count == 8 && head.len() == 0 && s
        == text::rejoined(last_texts(tail, end), ':'))
}

/// Nothing else is read as a long address.
pub proof fn law_other_texts_are_no_long_addresses(s: Seq<char>)
    requires
        ip_of(s) is Some,
        ip_of(s).unwrap() is V6,
    ensures
        exists|head: Seq<Seq<char>>, tail: Seq<Seq<char>>, end: Option<u32>| #[trigger]
            is_long_form(s, head, tail, end),
{
    let g = gap(s, 0);
    let none = Seq::<Seq<char>>::empty();
    assert(text::rejoined(none, ':') =~= Seq::<char>::empty());
    lemma_gap_is_two_colons(s, 0);
    if g < s.len() {
        let (h, t) = (s.take(g), s.skip(g + 2));
        assert(s =~= h + seq![':', ':'] + t);
        text::law_splitting(h, ':');
        text::law_splitting(t, ':');
        let head = if h.len() == 0 {
            none
        } else {
            text::split_at_char(h, ':')
        };
        if h.len() > 0 {
            lemma_groups_are_hex(head);
        }
        let p = text::split_at_char(t, ':');
        if t.len() == 0 {
            assert(last_texts(none, None) == none);
            assert(gapped_text(head, none, None) =~= s);
            assert(is_long_form(s, head, none, None));
        } else {
            lemma_last_groups(p);
            let (tail, end) = match dotted(p.last()) {
                Some(a) => (p.drop_last(), Some(a)),
                None => (p, None::<u32>),
            };
            assert(last_texts(tail, end) =~= p);
            assert(gapped_text(head, tail, end) =~= s);
            assert(is_long_form(s, head, tail, end));
        }
    } else {
        let p = text::split_at_char(s, ':');
        text::law_splitting(s, ':');
        lemma_last_groups(p);
        let (tail, end) = match dotted(p.last()) {
            Some(a) => (p.drop_last(), Some(a)),
            None => (p, None::<u32>),
        };
        assert(last_texts(tail, end) =~= p);
        assert(is_long_form(s, none, tail, end));
    }
}

proof fn lemma_gap_is_two_colons(s: Seq<char>, i: int)
    requires
        0 <= i,
    ensures
        gap(s, i) < s.len() ==> i <= gap(s, i) && gap(s, i) + 1 < s.len() && s[gap(s, i)] == ':'
            && s[gap(s, i) + 1] == ':',
    decreases s.len() - i,
{
    if i + 1 < s.len() && !(s[i] == ':' && s[i + 1] == ':') {
        lemma_gap_is_two_colons(s, i + 1);
    }
}

proof fn lemma_groups_are_hex(p: Seq<Seq<char>>)
    requires
        groups(p) is Some,
    ensures
        are_hex_groups(p),
        groups(p).unwrap().len() == p.len(),
    decreases p.len(),
{
    if p.len() > 0 {
        lemma_groups_are_hex(p.drop_last());
        lemma_value_is_hex(p.last());
        assert forall|i: int| 0 <= i < p.len() implies is_hex_group(#[trigger] p[i]) by {
            if i < p.len() - 1 {
                assert(p.drop_last()[i] == p[i]);
            }
        }
    }
}

proof fn lemma_value_is_hex(t: Seq<char>)
    requires
        text::digits_value(t, 16) is Some,
    ensures
        forall|i: int|
            0 <= i < t.len() ==> '0' <= #[trigger] t[i] <= '9' || 'a' <= t[i] <= 'f' || 'A' <= t[i]
                <= 'F',
    decreases t.len(),
{
    if t.len() > 0 {
        let front = t.drop_last();
        lemma_value_is_hex(front);
        assert forall|i: int| 0 <= i < t.len() implies '0' <= #[trigger] t[i] <= '9' || 'a' <= t[i]
            <= 'f' || 'A' <= t[i] <= 'F' by {
            if i < front.len() {
                assert(front[i] == t[i]);
            }
        }
    }
}

proof fn lemma_last_groups(p: Seq<Seq<char>>)
    requires
        p.len() > 0,
        groups_or_dotted(p) is Some,
    ensures
        match dotted(p.last()) {
            Some(a) => are_hex_groups(p.drop_last()) && p.last() == show_dotted(a)
                && groups_or_dotted(p).unwrap().len() == p.len() + 1,
            None => are_hex_groups(p) && groups_or_dotted(p).unwrap().len() == p.len(),
        },
{
    match dotted(p.last()) {
        Some(a) => {
            lemma_groups_are_hex(p.drop_last());
            lemma_dotted_text(p.last());
        },
        None => {
            lemma_groups_are_hex(p);
        },
    }
}

proof fn lemma_colon_is_not_dotted(s: Seq<char>)
    requires
        s.contains(':'),
    ensures
        dotted(s) is None,
{
    if let Some(n) = dotted(s) {
        lemma_dotted_text(s);
        lemma_dotted_no_colon(n);
    }
}

proof fn lemma_hex_group(t: Seq<char>)
    requires
        is_hex_group(t),
    ensures
        !t.contains(':'),
        !t.contains('.'),
        group(t) is Some,
        group(t) == text::digits_value(t, 16),
{
    assert forall|i: int| 0 <= i < t.len() implies t[i] != ':' && t[i] != '.' by {}
    lemma_hex_value(t);
}

proof fn lemma_hex_value(t: Seq<char>)
    requires
        forall|i: int|
            0 <= i < t.len() ==> '0' <= #[trigger] t[i] <= '9' || 'a' <= t[i] <= 'f' || 'A' <= t[i]
                <= 'F',
    ensures
        text::digits_value(t, 16) is Some,
    decreases t.len(),
{
    if t.len() > 0 {
        let front = t.drop_last();
        assert forall|i: int| 0 <= i < front.len() implies '0' <= #[trigger] front[i] <= '9' || 'a'
            <= front[i] <= 'f' || 'A' <= front[i] <= 'F' by {
            assert(front[i] == t[i]);
        }
        lemma_hex_value(front);
        let c = t[t.len() - 1];
        assert('0' <= c <= '9' || 'a' <= c <= 'f' || 'A' <= c <= 'F');
        assert(text::digit_value(c, 16) is Some);
    }
}

proof fn lemma_hex_groups(p: Seq<Seq<char>>)
    requires
        are_hex_groups(p),
    ensures
        groups(p) == Some(hex_values(p)),
    decreases p.len(),
{
    if p.len() == 0 {
        assert(hex_values(p) =~= Seq::<nat>::empty());
    } else {
        let front = p.drop_last();
        assert forall|i: int| 0 <= i < front.len() implies is_hex_group(#[trigger] front[i]) by {
            assert(front[i] == p[i]);
        }
        lemma_hex_groups(front);
        assert(is_hex_group(p[p.len() - 1]));
        lemma_hex_group(p.last());
        assert(hex_values(p) =~= hex_values(front).push(text::digits_value(p.last(), 16).unwrap()));
    }
}

proof fn lemma_last_texts(tail: Seq<Seq<char>>, end: Option<u32>)
    requires
        are_hex_groups(tail),
    ensures
        last_texts(tail, end).len() > 0 ==> groups_or_dotted(last_texts(tail, end)) == Some(
            last_values(tail, end),
        ),
        last_values(tail, end).len() == tail.len() + (if end is Some {
            2nat
        } else {
            0
        }),
        forall|i: int|
            0 <= i < last_texts(tail, end).len() ==> (#[trigger] last_texts(tail, end)[i]).len() > 0
                && !last_texts(tail, end)[i].contains(':'),
{
    let texts = last_texts(tail, end);
    lemma_hex_groups(tail);
    assert forall|i: int| 0 <= i < texts.len() implies (#[trigger] texts[i]).len() > 0
        && !texts[i].contains(':') by {
        if i < tail.len() {
            assert(is_hex_group(tail[i]));
            lemma_hex_group(tail[i]);
        } else {
            lemma_dotted_round_trip(end.unwrap());
            lemma_dotted_chars(end.unwrap());
        }
    }
    match end {
        Some(a) => {
            lemma_dotted_round_trip(a);
            assert(texts.drop_last() =~= tail);
        },
        None => {
            if tail.len() > 0 {
                assert(is_hex_group(tail[tail.len() - 1]));
                lemma_hex_group(tail.last());
                lemma_no_dot(tail.last());
            }
        },
    }
}

proof fn lemma_joined_texts(p: Seq<Seq<char>>)
    requires
        p.len() > 0,
        forall|i: int| 0 <= i < p.len() ==> (#[trigger] p[i]).len() > 0 && !p[i].contains(':'),
    ensures
        text::split_at_char(text::rejoined(p, ':'), ':') == p,
        text::rejoined(p, ':').len() > 0,
        text::rejoined(p, ':')[0] != ':',
        text::rejoined(p, ':').last() != ':',
        forall|k: int|
            #![trigger text::rejoined(p, ':')[k]]
            0 <= k < text::rejoined(p, ':').len() - 1 ==> text::rejoined(p, ':')[k] != ':'
                || text::rejoined(p, ':')[k + 1] != ':',
    decreases p.len(),
{
    let s = text::rejoined(p, ':');
    let d = p[p.len() - 1];
    assert(d.len() > 0 && !d.contains(':'));
    assert forall|i: int| 0 <= i < d.len() implies d[i] != ':' by {
        assert(d.contains(d[i]));
    }
    if p.len() == 1 {
        text::lemma_split_one(s, ':');
        assert(p =~= seq![s]);
    } else {
        let front = p.drop_last();
        assert forall|i: int| 0 <= i < front.len() implies (#[trigger] front[i]).len() > 0
            && !front[i].contains(':') by {
            assert(front[i] == p[i]);
        }
        lemma_joined_texts(front);
        let f = text::rejoined(front, ':');
        text::lemma_split_more(f, d, ':');
        assert(p =~= front.push(d));
        assert(s[0] == f[0]);
        assert(s.last() == d.last());
        assert forall|k: int|
            #![trigger s[k]]
            0 <= k < s.len() - 1 implies s[k] != ':' || s[k + 1] != ':' by {
            if k < f.len() - 1 {
                assert(s[k] == f[k] && s[k + 1] == f[k + 1]);
            } else if k == f.len() - 1 {
                assert(s[k] == f.last());
            } else {
                assert(s[k + 1] == d[k - f.len()]);
            }
        }
    }
}

/// The number of a long address is that of its groups in sixteen bits each, the first
/// one counting most.
pub proof fn law_groups_count_by_place(a: Seq<nat>, b: Seq<nat>)
    ensures
        number(a + b) == number(a) * vstd::arithmetic::power::pow(0x1_0000, b.len()) + number(b),
        a.len() == 1 ==> number(a) == a[0],
        a.len() == 0 ==> number(a) == 0,
    decreases b.len(),
{
    if a.len() == 1 {
        assert(number(a.drop_last()) == 0);
    }
    vstd::arithmetic::power::lemma_pow0(0x1_0000);
    if b.len() == 0 {
        assert(a + b =~= a);
    } else {
        let front = b.drop_last();
        assert((a + b).drop_last() =~= a + front);
        law_groups_count_by_place(a, front);
        let p = vstd::arithmetic::power::pow(0x1_0000, front.len());
        let q = vstd::arithmetic::power::pow(0x1_0000, b.len());
        assert(q == 0x1_0000 * p) by {
            reveal(vstd::arithmetic::power::pow);
        }
        let x = number(a);
        assert(x * p * 0x1_0000 == x * q) by (nonlinear_arith)
            requires
                q == 0x1_0000 * p,
        ;
    }
}

/// Only the long addresses from ::ffff:0:0 on, as many as there are dotted ones, stand for
/// dotted ones; every other address is its own canonical form.
pub proof fn law_canonical_addresses(n: u128, m: u32)
    ensures
        canonical(IpAddr::V4(m)) == IpAddr::V4(m),
        canonical(IpAddr::V6(n)) == IpAddr::V4(m) <==> n == 0xffff_0000_0000 + m,
        n < 0xffff_0000_0000 || n > 0xffff_ffff_ffff ==> canonical(IpAddr::V6(n)) == IpAddr::V6(n),
{
}

/// A text is known by the canonical form of the address that it is, white space around it
/// aside; a text that is no address is not known.
pub proof fn law_known_texts(before: Seq<char>, a: IpAddr, behind: Seq<char>, s: Seq<char>)
    requires
        forall|i: int| 0 <= i < before.len() ==> text::is_white_space(#[trigger] before[i]),
        forall|i: int| 0 <= i < behind.len() ==> text::is_white_space(#[trigger] behind[i]),
    ensures
        normalized(before + show_ip(a) + behind) == Some(show_ip(canonical(a))),
        normalized(s) is Some <==> ip_of(text::trimmed(s)) is Some,
        ip_of(text::trimmed(s)) == Some(a) ==> normalized(s) == Some(show_ip(canonical(a))),
{
    let t = show_ip(a);
    lemma_ip_text_is_trimmed(a);
    law_address_text_round_trip(a);
    lemma_trim_start_skips(before, t + behind);
    lemma_trim_end_skips(t, behind);
    assert(before + t + behind =~= before + (t + behind));
    lemma_ip_chars(a);
    assert(address_char(t[0]));
    assert(text::trim_start(t + behind) == t + behind) by {
        assert((t + behind)[0] == t[0]);
    }
}

proof fn lemma_trim_start_skips(a: Seq<char>, b: Seq<char>)
    requires
        forall|i: int| 0 <= i < a.len() ==> text::is_white_space(#[trigger] a[i]),
    ensures
        text::trim_start(a + b) == text::trim_start(b),
    decreases a.len(),
{
    if a.len() == 0 {
        assert(a + b =~= b);
    } else {
        let rest = a.drop_first();
        assert forall|i: int| 0 <= i < rest.len() implies text::is_white_space(
            #[trigger] rest[i],
        ) by {
            assert(rest[i] == a[i + 1]);
        }
        assert((a + b)[0] == a[0]);
        assert((a + b).drop_first() =~= rest + b);
        lemma_trim_start_skips(rest, b);
    }
}

proof fn lemma_trim_end_skips(a: Seq<char>, b: Seq<char>)
    requires
        forall|i: int| 0 <= i < b.len() ==> text::is_white_space(#[trigger] b[i]),
    ensures
        text::trim_end(a + b) == text::trim_end(a),
    decreases b.len(),
{
    if b.len() == 0 {
        assert(a + b =~= a);
    } else {
        let front = b.drop_last();
        assert forall|i: int| 0 <= i < front.len() implies text::is_white_space(
            #[trigger] front[i],
        ) by {
            assert(front[i] == b[i]);
        }
        assert((a + b).last() == b[b.len() - 1]);
        assert((a + b).drop_last() =~= a + front);
        lemma_trim_end_skips(a, front);
    }
}

/// `l` groups from the position `i` on are noughts.
pub open spec fn is_run(g: Seq<nat>, i: int, l: int) -> bool {
    0 <= i && 0 <= l && i + l <= g.len() && forall|k: int| i <= k < i + l ==> #[trigger] g[k] == 0
}

/// The texts of some groups: hexadecimal digits in lower case, without noughts in front.
pub open spec fn hex_texts(g: Seq<nat>) -> Seq<Seq<char>> {
    g.map_values(|n: nat| text::digits(n, 16))
}

/// A long address is written as its eight groups in hexadecimal, with colons between
/// them; the longest run of noughts, the first where there are more, is left out for two
/// colons, unless it is a single group. One that stands for a dotted address shows it.
pub proof fn law_long_address_text(g: Seq<nat>, start: int, len: int, m: u32)
    requires
        g.len() == 8,
        small(g),
        !is_mapped(number(g) as u128),
        is_run(g, start, len),
        forall|i: int, l: int| #[trigger] is_run(g, i, l) ==> l <= len && (i < start ==> l < len),
    ensures
        number(g) <= u128::MAX,
        len >= 2 ==> show_ip(IpAddr::V6(number(g) as u128)) == text::rejoined(
            hex_texts(g.take(start)),
            ':',
        ) + seq![':', ':'] + text::rejoined(hex_texts(g.skip(start + len)), ':'),
        len < 2 ==> show_ip(IpAddr::V6(number(g) as u128)) == text::rejoined(hex_texts(g), ':'),
        show_ip(IpAddr::V6((0xffff_0000_0000 + m) as u128)) == "::ffff:"@ + show_ip(
            IpAddr::V4(m),
        ),
{
    let n = number(g);
    lemma_number_below(g);
    assert(vstd::arithmetic::power::pow(0x1_0000, 8) == 0x1_0000_0000_0000_0000_0000_0000_0000_0000)
        by {
        reveal(vstd::arithmetic::power::pow);
        reveal_with_fuel(vstd::arithmetic::power::pow, 9);
    }
    lemma_segments_of_number(g);
    let (s, l) = longest_run(g, 8);
    lemma_longest_run_is_longest(g, 8);
    lemma_longest_run_is_nought(g, 8);
    if l > 0 {
        assert(is_run(g, s, l as int));
        assert(l == len) by {
            if start < 8 {
                lemma_run_is_maximal(g, start, len);
            }
        }
        lemma_run_is_maximal(g, start, len);
        assert(s == start);
    } else if start < 8 {
        lemma_run_is_maximal(g, start, len);
    }
    lemma_joined_groups(g.take(start));
    lemma_joined_groups(g.skip(start + len));
    lemma_joined_groups(g);
    assert(is_mapped((0xffff_0000_0000 + m) as u128));
}

proof fn lemma_segments_of_number(g: Seq<nat>)
    requires
        small(g),
    ensures
        segments(number(g), g.len()) == g,
    decreases g.len(),
{
    if g.len() == 0 {
        assert(segments(0, 0) =~= g);
    } else {
        let front = g.drop_last();
        assert forall|i: int| 0 <= i < front.len() implies #[trigger] front[i] < 0x1_0000 by {
            assert(front[i] == g[i]);
        }
        lemma_segments_of_number(front);
        assert(g[g.len() - 1] < 0x1_0000);
        assert(number(g) / 0x1_0000 == number(front) && number(g) % 0x1_0000 == g.last());
        assert(front.push(g.last()) =~= g);
    }
}

proof fn lemma_joined_groups(g: Seq<nat>)
    ensures
        show_groups(g) == text::rejoined(hex_texts(g), ':'),
    decreases g.len(),
{
    let t = hex_texts(g);
    if g.len() == 0 {
        assert(show_groups(g) =~= text::rejoined(t, ':'));
    } else if g.len() > 1 {
        lemma_joined_groups(g.drop_last());
        assert(t.drop_last() =~= hex_texts(g.drop_last()));
    }
}

proof fn lemma_run_is_maximal(g: Seq<nat>, i: int, l: int)
    requires
        is_run(g, i, l),
    ensures
        l <= run_at(g, i),
    decreases l,
{
    if l > 0 {
        assert(g[i] == 0);
        assert forall|k: int| i + 1 <= k < i + l implies #[trigger] g[k] == 0 by {}
        lemma_run_is_maximal(g, i + 1, l - 1);
    }
}

proof fn lemma_longest_run_is_longest(g: Seq<nat>, n: nat)
    ensures
        forall|i: int| 0 <= i < n ==> #[trigger] run_at(g, i) <= longest_run(g, n).1,
        forall|i: int|
            0 <= i < longest_run(g, n).0 ==> #[trigger] run_at(g, i) < longest_run(g, n).1,
        longest_run(g, n).1 > 0 ==> 0 <= longest_run(g, n).0 < n && run_at(
            g,
            longest_run(g, n).0,
        ) == longest_run(g, n).1,
        longest_run(g, n).1 == 0 ==> longest_run(g, n).0 == 0,
    decreases n,
{
    if n > 0 {
        lemma_longest_run_is_longest(g, (n - 1) as nat);
    }
}

/// An address lies in a network where both are of one kind and agree in as many of their
/// first bits as the prefix says.
pub proof fn law_networks_are_by_first_bits(b: u32, i: u32, short: u32, c: u128, j: u128, long: u32)
    requires
        short <= 32,
        long <= 128,
    ensures
        network_has(IpAddr::V4(b), short, IpAddr::V4(i)) <==> b as nat
            / vstd::arithmetic::power2::pow2((32 - short) as nat) == i as nat
            / vstd::arithmetic::power2::pow2((32 - short) as nat),
        network_has(IpAddr::V6(c), long, IpAddr::V6(j)) <==> c as nat
            / vstd::arithmetic::power2::pow2((128 - long) as nat) == j as nat
            / vstd::arithmetic::power2::pow2((128 - long) as nat),
        !network_has(IpAddr::V4(b), short, IpAddr::V6(j)),
        !network_has(IpAddr::V6(c), long, IpAddr::V4(i)),
        longest_prefix(IpAddr::V4(b)) == 32,
        longest_prefix(IpAddr::V6(c)) == 128,
{
}

/// A longer prefix makes a smaller network.
pub proof fn law_longer_prefixes_make_smaller_networks(
    base: IpAddr,
    prefix: u32,
    longer: u32,
    ip: IpAddr,
)
    requires
        prefix <= longer <= longest_prefix(base),
        network_has(base, longer, ip),
    ensures
        network_has(base, prefix, ip),
{
    match (base, ip) {
        (IpAddr::V4(b), IpAddr::V4(i)) => {
            lemma_same_network_widens(
                b as nat,
                i as nat,
                (32 - longer) as nat,
                (longer - prefix) as nat,
            );
        },
        (IpAddr::V6(b), IpAddr::V6(i)) => {
            lemma_same_network_widens(
                b as nat,
                i as nat,
                (128 - longer) as nat,
                (longer - prefix) as nat,
            );
        },
        _ => {},
    }
}

proof fn lemma_same_network_widens(a: nat, b: nat, rest: nat, more: nat)
    requires
        same_network(a, b, rest),
    ensures
        same_network(a, b, rest + more),
{
    let p = vstd::arithmetic::power2::pow2(rest) as int;
    let q = vstd::arithmetic::power2::pow2(more) as int;
    vstd::arithmetic::power2::lemma_pow2_pos(rest);
    vstd::arithmetic::power2::lemma_pow2_pos(more);
    vstd::arithmetic::power2::lemma_pow2_adds(rest, more);
    vstd::arithmetic::div_mod::lemma_div_denominator(a as int, p, q);
    vstd::arithmetic::div_mod::lemma_div_denominator(b as int, p, q);
}

/// A decimal number is one or more of the digits 0 to 9, worth no more than the limit.
pub proof fn law_decimal_numbers(s: Seq<char>, max: nat)
    ensures
        decimal(s, max) is Some <==> s.len() > 0 && (forall|i: int|
            0 <= i < s.len() ==> '0' <= #[trigger] s[i] <= '9') && text::digits_value(
            s,
            10,
        ).unwrap() <= max,
        decimal(s, max) is Some ==> decimal(s, max) == text::digits_value(s, 10),
{
    lemma_decimal_digits(s);
}

proof fn lemma_decimal_digits(s: Seq<char>)
    ensures
        text::digits_value(s, 10) is Some <==> forall|i: int|
            0 <= i < s.len() ==> '0' <= #[trigger] s[i] <= '9',
    decreases s.len(),
{
    if s.len() > 0 {
        let front = s.drop_last();
        let c = s[s.len() - 1];
        lemma_decimal_digits(front);
        assert(text::digit_value(c, 10) is Some <==> '0' <= c <= '9');
        if text::digits_value(s, 10) is Some {
            assert forall|i: int| 0 <= i < s.len() implies '0' <= #[trigger] s[i] <= '9' by {
                if i < front.len() {
                    assert(front[i] == s[i]);
                }
            }
        }
        if forall|i: int| 0 <= i < s.len() ==> '0' <= #[trigger] s[i] <= '9' {
            assert forall|i: int| 0 <= i < front.len() implies '0' <= #[trigger] front[i]
                <= '9' by {
                assert(front[i] == s[i]);
            }
        }
    }
}

/// A dotted address and a port are read with a colon between them. Ports go up to 65535.
pub proof fn law_dotted_address_with_port(ip: u32, port: Seq<char>)
    requires
        decimal(port, 65535) is Some,
    ensures
        socket_of(show_ip(IpAddr::V4(ip)).push(':') + port) == Some(
            SocketAddr::V4 { ip, port: decimal(port, 65535).unwrap() as u16 },
        ),
{
    law_decimal_numbers(port, 65535);
    let front = show_dotted(ip);
    lemma_dotted_round_trip(ip);
    lemma_decimal_lacks(port);
    text::lemma_split_one(front, ':');
    text::lemma_split_more(front, port, ':');
    let s = front.push(':') + port;
    assert(text::split_at_char(s, ':') =~= seq![front, port]);
    lemma_dotted_chars(ip);
    assert(s[0] == front[0]);
    assert(address_char(front[0]));
}

/// A long address and a port are read with the address in brackets and a colon between
/// them.
pub proof fn law_long_address_with_port(long: Seq<char>, port: Seq<char>)
    requires
        decimal(port, 65535) is Some,
        ip_of(long) is Some,
        ip_of(long).unwrap() is V6,
    ensures
        socket_of(seq!['['] + long + seq![']', ':'] + port) == Some(
            SocketAddr::V6 {
                addr: ip_of(long).unwrap()->V6_0,
                scope: 0,
                port: decimal(port, 65535).unwrap() as u16,
            },
        ),
{
    law_decimal_numbers(port, 65535);
    lemma_decimal_lacks(port);
    lemma_long_text_is_plain(long);
    lemma_plain_lacks(long);
    text::lemma_split_one(long, '%');
    lemma_bracketed(long, port);
    assert(text::split_at_char(long, '%')[0] == long);
    assert(zoned(long) == Some((ip_of(long).unwrap()->V6_0, 0u32)));
}

/// A long address may name a zone behind a percent sign, up to 4294967295.
pub proof fn law_long_address_with_zone(long: Seq<char>, zone: Seq<char>, port: Seq<char>)
    requires
        decimal(port, 65535) is Some,
        decimal(zone, 0xffff_ffff) is Some,
        ip_of(long) is Some,
        ip_of(long).unwrap() is V6,
    ensures
        socket_of(seq!['['] + (long.push('%') + zone) + seq![']', ':'] + port) == Some(
            SocketAddr::V6 {
                addr: ip_of(long).unwrap()->V6_0,
                scope: decimal(zone, 0xffff_ffff).unwrap() as u32,
                port: decimal(port, 65535).unwrap() as u16,
            },
        ),
{
    law_decimal_numbers(port, 65535);
    law_decimal_numbers(zone, 0xffff_ffff);
    lemma_decimal_lacks(port);
    lemma_decimal_lacks(zone);
    lemma_long_text_is_plain(long);
    lemma_plain_lacks(long);
    text::lemma_split_one(long, '%');
    text::lemma_split_more(long, zone, '%');
    let inner = long.push('%') + zone;
    assert(text::split_at_char(inner, '%') =~= seq![long, zone]);
    assert forall|i: int| 0 <= i < inner.len() implies inner[i] != ']' by {
        if i < long.len() {
            assert(long.contains(long[i]));
        } else if i > long.len() {
            assert(inner[i] == zone[i - long.len() - 1]);
            assert(zone.contains(zone[i - long.len() - 1]));
        }
    }
    lemma_bracketed(inner, port);
    assert(zoned(inner) == Some(
        (ip_of(long).unwrap()->V6_0, decimal(zone, 0xffff_ffff).unwrap() as u32),
    ));
}

proof fn lemma_decimal_lacks(s: Seq<char>)
    requires
        forall|i: int| 0 <= i < s.len() ==> '0' <= #[trigger] s[i] <= '9',
    ensures
        !s.contains(':'),
        !s.contains(']'),
        !s.contains('%'),
{
    assert forall|i: int| 0 <= i < s.len() implies s[i] != ':' && s[i] != ']' && s[i] != '%' by {}
}

proof fn lemma_bracketed(inner: Seq<char>, port: Seq<char>)
    requires
        !inner.contains(']'),
        !port.contains(']'),
    ensures
        ({
            let s = seq!['['] + inner + seq![']', ':'] + port;
            let behind = seq![':'] + port;
            &&& s[0] == '['
            &&& text::split_at_char(s.drop_first(), ']') == seq![inner, behind]
            &&& behind.drop_first() == port
        }),
{
    let s = seq!['['] + inner + seq![']', ':'] + port;
    let behind = seq![':'] + port;
    assert forall|i: int| 0 <= i < behind.len() implies behind[i] != ']' by {
        if i > 0 {
            assert(behind[i] == port[i - 1]);
            assert(port.contains(port[i - 1]));
        }
    }
    assert(s.drop_first() =~= inner.push(']') + behind);
    text::lemma_split_one(inner, ']');
    text::lemma_split_more(inner, behind, ']');
    assert(text::split_at_char(s.drop_first(), ']') =~= seq![inner, behind]);
    assert(behind.drop_first() =~= port);
}

proof fn lemma_rejoined_is_plain(p: Seq<Seq<char>>)
    requires
        forall|i: int| 0 <= i < p.len() ==> plain(#[trigger] p[i]),
    ensures
        plain(text::rejoined(p, ':')),
    decreases p.len(),
{
    let s = text::rejoined(p, ':');
    if p.len() == 1 {
        assert(plain(p[0]));
    } else if p.len() > 1 {
        let front = p.drop_last();
        assert forall|i: int| 0 <= i < front.len() implies plain(#[trigger] front[i]) by {
            assert(front[i] == p[i]);
        }
        lemma_rejoined_is_plain(front);
        let f = text::rejoined(front, ':');
        let d = p[p.len() - 1];
        assert(plain(d));
        assert forall|i: int| 0 <= i < s.len() implies address_char(#[trigger] s[i]) by {
            if i < f.len() {
                assert(s[i] == f[i]);
            } else if i > f.len() {
                assert(s[i] == d[i - f.len() - 1]);
            }
        }
    }
}

proof fn lemma_texts_are_plain(tail: Seq<Seq<char>>, end: Option<u32>)
    requires
        are_hex_groups(tail),
    ensures
        plain(text::rejoined(last_texts(tail, end), ':')),
{
    let texts = last_texts(tail, end);
    assert forall|i: int| 0 <= i < texts.len() implies plain(#[trigger] texts[i]) by {
        if i < tail.len() {
            let t = tail[i];
            assert(is_hex_group(t));
            assert forall|k: int| 0 <= k < t.len() implies address_char(#[trigger] t[k]) by {
                assert('0' <= t[k] <= '9' || 'a' <= t[k] <= 'f' || 'A' <= t[k] <= 'F');
            }
        } else {
            lemma_dotted_chars(end.unwrap());
        }
    }
    lemma_rejoined_is_plain(texts);
}

proof fn lemma_long_text_is_plain(s: Seq<char>)
    requires
        ip_of(s) is Some,
        ip_of(s).unwrap() is V6,
    ensures
        plain(s),
{
    law_other_texts_are_no_long_addresses(s);
    let (head, tail, end) = choose|head: Seq<Seq<char>>, tail: Seq<Seq<char>>, end: Option<u32>|
        #[trigger]
        is_long_form(s, head, tail, end);
    lemma_texts_are_plain(head, None);
    lemma_texts_are_plain(tail, end);
    let (h, t) = (text::rejoined(head, ':'), text::rejoined(last_texts(tail, end), ':'));
    let whole = gapped_text(head, tail, end);
    assert forall|i: int| 0 <= i < whole.len() implies address_char(#[trigger] whole[i]) by {
        if i < h.len() {
            assert(whole[i] == h[i]);
        } else if i >= h.len() + 2 {
            assert(whole[i] == t[i - h.len() - 2]);
        }
    }
}

/// What is read as a dotted address is its text.
pub(crate) proof fn lemma_dotted_is_its_text(s: Seq<char>)
    requires
        ip_of(s) is Some,
        ip_of(s).unwrap() is V4,
    ensures
        s == show_ip(ip_of(s).unwrap()),
        s.len() > 0,
{
    lemma_dotted_text(s);
    lemma_dotted_chars(ip_of(s).unwrap()->V4_0);
}

/// What is read as a long address is not empty.
pub(crate) proof fn lemma_long_text_is_not_empty(s: Seq<char>)
    requires
        ip_of(s) is Some,
        ip_of(s).unwrap() is V6,
    ensures
        s.len() > 0,
{
    if s.len() == 0 {
        text::lemma_split_one(s, ':');
        let p = text::split_at_char(s, ':');
        assert(p.last() == s);
        assert(group(p.last()) is None);
    }
}

/// An address with a port is written with a colon before the port; a long one stands in
/// brackets, with its zone behind a percent sign where that is not nought.
pub proof fn law_socket_texts(ip: u32, addr: u128, scope: u32, port: u16)
    ensures
        show_socket(SocketAddr::V4 { ip, port }) == show_ip(IpAddr::V4(ip)) + seq![':']
            + text::digits(port as nat, 10),
        show_socket(SocketAddr::V6 { addr, scope: 0, port }) == seq!['['] + show_ip(
            IpAddr::V6(addr),
        ) + seq![']', ':'] + text::digits(port as nat, 10),
        scope > 0 ==> show_socket(SocketAddr::V6 { addr, scope, port }) == seq!['['] + (show_ip(
            IpAddr::V6(addr),
        ).push('%') + text::digits(scope as nat, 10)) + seq![']', ':'] + text::digits(
            port as nat,
            10,
        ),
{
    assert(show_dotted(ip).push(':') + text::digits(port as nat, 10) =~= show_dotted(ip) + seq![':']
        + text::digits(port as nat, 10));
}

/// A text in brackets, and a port behind it.
pub open spec fn bracketed(t: Seq<char>, port: Seq<char>) -> Seq<char> {
    seq!['['] + t + seq![']', ':'] + port
}

proof fn lemma_two_pieces(s: Seq<char>, sep: char)
    requires
        text::split_at_char(s, sep).len() == 2,
    ensures
        s == text::split_at_char(s, sep)[0].push(sep) + text::split_at_char(s, sep)[1],
{
    let q = text::split_at_char(s, sep);
    text::law_splitting(s, sep);
    let first = q.drop_last();
    assert(first.len() == 1);
    assert(text::rejoined(first, sep) == q[0]);
    assert(text::rejoined(q, sep) == text::rejoined(first, sep).push(sep) + q.last());
}

/// Nothing is read as a dotted address with a port but its text, a colon and a decimal
/// port up to 65535.
pub proof fn law_other_texts_are_no_dotted_sockets(s: Seq<char>, ip: u32, port: u16)
    requires
        socket_of(s) == Some(SocketAddr::V4 { ip, port }),
    ensures
        exists|p: Seq<char>|
            s == #[trigger] (show_ip(IpAddr::V4(ip)).push(':') + p) && decimal(p, 65535) == Some(
                port as nat,
            ),
{
    let q = text::split_at_char(s, ':');
    lemma_two_pieces(s, ':');
    lemma_dotted_text(q[0]);
    assert(dotted(q[0]) == Some(ip));
    assert(s == show_ip(IpAddr::V4(ip)).push(':') + q[1]);
}

/// Nothing is read as a long address with a port but the address in brackets, a colon and
/// a decimal port up to 65535.
pub proof fn law_other_texts_are_no_long_sockets(s: Seq<char>, addr: u128, scope: u32, port: u16)
    requires
        socket_of(s) == Some(SocketAddr::V6 { addr, scope, port }),
    ensures
        exists|t: Seq<char>, p: Seq<char>|
            s == #[trigger] bracketed(t, p) && decimal(p, 65535) == Some(port as nat) && zoned(t)
                == Some((addr, scope)),
{
    let rest = s.drop_first();
    let q = text::split_at_char(rest, ']');
    lemma_two_pieces(rest, ']');
    let p = q[1].drop_first();
    assert(s[0] == '[' && q[1].len() > 0 && q[1][0] == ':');
    assert(s =~= seq!['['] + rest);
    assert(q[1] =~= seq![':'] + p);
    assert(bracketed(q[0], p) =~= seq!['['] + (q[0].push(']') + (seq![':'] + p)));
    assert(zoned(q[0]) == Some((addr, scope)));
}

/// A long address is read with its zone: without a percent sign it has none, with one it is
/// the decimal number behind it.
pub proof fn law_zones(s: Seq<char>)
    requires
        zoned(s) is Some,
    ensures
        !s.contains('%') ==> zoned(s).unwrap().1 == 0 && eight_groups(s) is Some,
        s.contains('%') ==> exists|t: Seq<char>, z: Seq<char>|
            s == #[trigger] (t.push('%') + z) && eight_groups(t) is Some && decimal(z, 0xffff_ffff)
                == Some(zoned(s).unwrap().1 as nat),
{
    let q = text::split_at_char(s, '%');
    text::law_splitting(s, '%');
    if !s.contains('%') {
        text::lemma_split_one(s, '%');
    } else if q.len() == 1 {
        assert(q[0] == s);
        assert(!q[0].contains('%'));
    } else {
        assert(q =~= seq![q[0], q[1]]);
        assert(q.drop_last() =~= seq![q[0]]);
        assert(text::rejoined(seq![q[0]], '%') == q[0]);
        assert(s == q[0].push('%') + q[1]);
    }
}

} // verus!
