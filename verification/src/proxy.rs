//! Trusted proxies, and the address that a request really comes from.

use crate::addr::{self, IpAddr};
use crate::headers;
use crate::text;
use hyper::header::HeaderValue;
use hyper::HeaderMap;
use vstd::prelude::*;

verus! {

/// The proxies whose word on the origin of a request is taken: single addresses and
/// networks.
#[derive(Debug)]
pub struct TrustedProxies {
    exact: Vec<IpAddr>,
    cidrs: Vec<(IpAddr, u32)>,
}

/// The contents of a list of proxies.
#[verifier::ext_equal]
pub ghost struct TrustedView {
    pub exact: Seq<IpAddr>,
    pub cidrs: Seq<(IpAddr, u32)>,
}

impl View for TrustedProxies {
    type V = TrustedView;

    closed spec fn view(&self) -> TrustedView {
        TrustedView { exact: self.exact@, cidrs: self.cidrs@ }
    }
}

/// Every prefix fits the kind of its network.
pub open spec fn sound(t: TrustedView) -> bool {
    forall|i: int|
        0 <= i < t.cidrs.len() ==> (#[trigger] t.cidrs[i]).1 <= addr::longest_prefix(t.cidrs[i].0)
}

/// One entry of a list of proxies.
#[derive(Clone, Copy, Debug, PartialEq, Eq, Structural)]
pub enum TrustedItem {
    Address(IpAddr),
    Network(IpAddr, u32),
}

/// The number that a text stands for: decimal digits, with a plus sign or without.
pub open spec fn number_of(s: Seq<char>) -> Option<nat> {
    if s.len() > 0 && s[0] == '+' {
        addr::decimal(s.drop_first(), u32::MAX as nat)
    } else {
        addr::decimal(s, u32::MAX as nat)
    }
}

/// The network of an address and a prefix. Where the address is a long one that stands for
/// a dotted one, the network is one of dotted addresses: a prefix that reaches into the
/// dotted address counts from its start, and one that a dotted address can have is taken
/// as its own. Only a prefix between the two makes a network of long addresses.
pub open spec fn network_at(a: IpAddr, prefix: u32) -> (IpAddr, u32) {
    if a is V6 && addr::canonical(a) is V4 && prefix >= 96 {
        (addr::canonical(a), (prefix - 96) as u32)
    } else if a is V6 && addr::canonical(a) is V4 && prefix <= 32 {
        (addr::canonical(a), prefix)
    } else {
        (a, prefix)
    }
}

/// The network `base`/`prefix`, if that is one.
pub open spec fn network_of(base: Seq<char>, prefix: Seq<char>) -> Option<(IpAddr, u32)> {
    match (addr::ip_of(base), number_of(prefix)) {
        (Some(a), Some(n)) => if n <= addr::longest_prefix(a) {
            Some(network_at(a, n as u32))
        } else {
            None
        },
        _ => None,
    }
}

/// The entry that an item stands for: an address or a network. `None` where it is
/// neither.
pub open spec fn item_of(item: Seq<char>) -> Option<TrustedItem> {
    match text::parted(item, '/') {
        Some((base, prefix)) => match network_of(base, prefix) {
            Some((a, n)) => Some(TrustedItem::Network(a, n)),
            None => None,
        },
        None => match addr::ip_of(item) {
            Some(a) => Some(TrustedItem::Address(addr::canonical(a))),
            None => None,
        },
    }
}

/// The list with the entry of one more item. An item that is neither an address nor a
/// network is left out.
pub open spec fn with_item(t: TrustedView, item: Seq<char>) -> TrustedView {
    match item_of(item) {
        Some(TrustedItem::Address(a)) => TrustedView { exact: t.exact.push(a), ..t },
        Some(TrustedItem::Network(a, n)) => TrustedView { cidrs: t.cidrs.push((a, n)), ..t },
        None => t,
    }
}

/// The list of the items between the commas. White space around an item does not
/// count, and empty items are left out.
pub open spec fn with_items(items: Seq<Seq<char>>) -> TrustedView
    decreases items.len(),
{
    if items.len() == 0 {
        TrustedView { exact: Seq::empty(), cidrs: Seq::empty() }
    } else {
        let before = with_items(items.drop_last());
        let item = text::trimmed(items.last());
        if item.len() == 0 {
            before
        } else {
            with_item(before, item)
        }
    }
}

/// The items between the commas that are neither empty nor an entry.
pub open spec fn ignored(items: Seq<Seq<char>>) -> Seq<Seq<char>>
    decreases items.len(),
{
    if items.len() == 0 {
        Seq::empty()
    } else {
        let before = ignored(items.drop_last());
        let item = text::trimmed(items.last());
        if item.len() > 0 && item_of(item) is None {
            before.push(item)
        } else {
            before
        }
    }
}

/// Whether one of the networks has the address.
pub open spec fn networks_have(cidrs: Seq<(IpAddr, u32)>, ip: IpAddr) -> bool {
    exists|i: int|
        0 <= i < cidrs.len() && addr::network_has((#[trigger] cidrs[i]).0, cidrs[i].1, ip)
}

/// Whether an address is trusted.
pub open spec fn trusts(t: TrustedView, ip: IpAddr) -> bool {
    let c = addr::canonical(ip);
    t.exact.contains(c) || networks_have(t.cidrs, c)
}

fn read_number(s: &str) -> (r: Option<u32>)
    ensures
        match r {
            Some(v) => number_of(s@) == Some(v as nat),
            None => number_of(s@) is None,
        },
{
    let cs = text::chars_of(s);
    if cs.len() > 0 && cs[0] == '+' {
        let rest = addr::rest_of(s);
        addr::read_decimal(rest.as_str(), u32::MAX)
    } else {
        addr::read_decimal(s, u32::MAX)
    }
}

/// The network `base`/`prefix`, if that is one.
pub fn parse_trusted_cidr(base: &str, prefix: &str) -> (r: Option<(IpAddr, u32)>)
    ensures
        r == network_of(base@, prefix@),
        r matches Some(n) ==> n.1 <= addr::longest_prefix(n.0),
{
    let a = match addr::parse_ip(base) {
        Some(a) => a,
        None => {
            return None;
        },
    };
    let n: u32 = match read_number(prefix) {
        Some(n) => n,
        None => {
            return None;
        },
    };
    match a {
        IpAddr::V4(_) => {
            if n > 32 {
                return None;
            }
        },
        IpAddr::V6(_) => {
            if n > 128 {
                return None;
            }
            let c = addr::canonical_ip(a);
            match c {
                IpAddr::V4(_) => {
                    if n >= 96 {
                        return Some((c, n - 96));
                    }
                    if n <= 32 {
                        return Some((c, n));
                    }
                },
                IpAddr::V6(_) => {},
            }
        },
    }
    Some((a, n))
}

/// The entry that an item stands for, if it is an address or a network.
pub fn parse_trusted_item(item: &str) -> (r: Option<TrustedItem>)
    ensures
        r == item_of(item@),
        r matches Some(TrustedItem::Network(a, n)) ==> n <= addr::longest_prefix(a),
{
    match text::split_once(item, '/') {
        Some((base, prefix)) => match parse_trusted_cidr(base.as_str(), prefix.as_str()) {
            Some((a, n)) => Some(TrustedItem::Network(a, n)),
            None => None,
        },
        None => match addr::parse_ip(item) {
            Some(a) => Some(TrustedItem::Address(addr::canonical_ip(a))),
            None => None,
        },
    }
}

/// The items of a list of addresses and networks that are neither, without white space
/// around them. Reading the list leaves them out.
pub fn ignored_items(raw: &str) -> (out: Vec<String>)
    ensures
        text::views(out@) == ignored(text::split_at_char(raw@, ',')),
{
    let items = text::split(raw, ',');
    let ghost pieces = text::split_at_char(raw@, ',');
    let mut out: Vec<String> = Vec::new();
    let mut i: usize = 0;
    assert(pieces.take(0) =~= Seq::<Seq<char>>::empty());
    assert(text::views(out@) =~= Seq::<Seq<char>>::empty());
    while i < items.len()
        invariant
            i <= items@.len(),
            pieces == text::views(items@),
            text::views(out@) == ignored(pieces.take(i as int)),
        decreases items@.len() - i,
    {
        assert(pieces.take(i as int + 1).drop_last() =~= pieces.take(i as int));
        assert(pieces.take(i as int + 1).last() == items@[i as int]@);
        let item = text::trim(items[i].as_str());
        if !item.as_str().is_empty() {
            if parse_trusted_item(item.as_str()).is_none() {
                let ghost before = out@;
                let ghost added = item@;
                out.push(item);
                assert(text::views(out@) =~= text::views(before).push(added));
            }
        }
        i += 1;
    }
    assert(pieces.take(pieces.len() as int) =~= pieces);
    out
}

impl TrustedProxies {
    /// Every prefix fits the kind of its network.
    #[verifier::type_invariant]
    closed spec fn inv(self) -> bool {
        sound(self@)
    }

    /// An empty list.
    pub fn none() -> (t: Self)
        ensures
            t@.exact.len() == 0,
            t@.cidrs.len() == 0,
    {
        TrustedProxies { exact: Vec::new(), cidrs: Vec::new() }
    }

    /// Reads a list of addresses and networks with commas between them.
    pub fn parse(raw: &str) -> (t: Self)
        ensures
            t@ == with_items(text::split_at_char(raw@, ',')),
            sound(t@),
    {
        let items = text::split(raw, ',');
        let ghost pieces = text::split_at_char(raw@, ',');
        let mut exact: Vec<IpAddr> = Vec::new();
        let mut cidrs: Vec<(IpAddr, u32)> = Vec::new();
        let mut i: usize = 0;
        assert(pieces.take(0) =~= Seq::<Seq<char>>::empty());
        while i < items.len()
            invariant
                i <= items@.len(),
                pieces == text::views(items@),
                (TrustedView { exact: exact@, cidrs: cidrs@ }) == with_items(
                    pieces.take(i as int),
                ),
                forall|k: int|
                    0 <= k < cidrs@.len() ==> (#[trigger] cidrs@[k]).1 <= addr::longest_prefix(
                        cidrs@[k].0,
                    ),
            decreases items@.len() - i,
        {
            assert(pieces.take(i as int + 1).drop_last() =~= pieces.take(i as int));
            assert(pieces.take(i as int + 1).last() == items@[i as int]@);
            let item = text::trim(items[i].as_str());
            if !item.as_str().is_empty() {
                match parse_trusted_item(item.as_str()) {
                    Some(TrustedItem::Address(a)) => {
                        exact.push(a);
                    },
                    Some(TrustedItem::Network(a, n)) => {
                        cidrs.push((a, n));
                    },
                    None => {},
                }
            }
            i += 1;
        }
        assert(pieces.take(pieces.len() as int) =~= pieces);
        TrustedProxies { exact, cidrs }
    }

    /// Whether an address is trusted.
    pub fn contains(&self, ip: IpAddr) -> (r: bool)
        ensures
            r == trusts(self@, ip),
    {
        proof {
            use_type_invariant(self);
        }
        let c = addr::canonical_ip(ip);
        let mut i: usize = 0;
        while i < self.exact.len()
            invariant
                i <= self.exact@.len(),
                c == addr::canonical(ip),
                forall|k: int| 0 <= k < i ==> #[trigger] self.exact@[k] != c,
            decreases self.exact@.len() - i,
        {
            if self.exact[i] == c {
                return true;
            }
            i += 1;
        }
        assert(!self.exact@.contains(c));
        let mut j: usize = 0;
        while j < self.cidrs.len()
            invariant
                j <= self.cidrs@.len(),
                c == addr::canonical(ip),
                !self.exact@.contains(c),
                sound(self@),
                forall|k: int|
                    0 <= k < j ==> !addr::network_has(
                        (#[trigger] self.cidrs@[k]).0,
                        self.cidrs@[k].1,
                        c,
                    ),
            decreases self.cidrs@.len() - j,
        {
            let (base, prefix) = self.cidrs[j];
            assert(self@.cidrs[j as int] == (base, prefix));
            if addr::cidr_match(base, prefix, c) {
                return true;
            }
            j += 1;
        }
        false
    }
}

impl Clone for TrustedProxies {
    /// A copy of the list.
    fn clone(&self) -> (t: Self)
        ensures
            t@ == self@,
    {
        proof {
            use_type_invariant(self);
        }
        let mut exact: Vec<IpAddr> = Vec::new();
        let mut i: usize = 0;
        while i < self.exact.len()
            invariant
                i <= self.exact@.len(),
                exact@ == self.exact@.take(i as int),
            decreases self.exact@.len() - i,
        {
            exact.push(self.exact[i]);
            i += 1;
            assert(exact@ =~= self.exact@.take(i as int));
        }
        let mut cidrs: Vec<(IpAddr, u32)> = Vec::new();
        let mut j: usize = 0;
        while j < self.cidrs.len()
            invariant
                j <= self.cidrs@.len(),
                cidrs@ == self.cidrs@.take(j as int),
            decreases self.cidrs@.len() - j,
        {
            cidrs.push(self.cidrs[j]);
            j += 1;
            assert(cidrs@ =~= self.cidrs@.take(j as int));
        }
        assert(exact@ =~= self.exact@);
        assert(cidrs@ =~= self.cidrs@);
        TrustedProxies { exact, cidrs }
    }
}

impl Default for TrustedProxies {
    /// An empty list.
    fn default() -> (t: Self)
        ensures
            t@.exact.len() == 0,
            t@.cidrs.len() == 0,
    {
        TrustedProxies::none()
    }
}

/// The addresses among some items; items that are no address are left out.
pub open spec fn addresses(items: Seq<Seq<char>>) -> Seq<IpAddr>
    decreases items.len(),
{
    if items.len() == 0 {
        Seq::empty()
    } else {
        let before = addresses(items.drop_last());
        match addr::ip_of(text::trimmed(items.last())) {
            Some(a) => before.push(a),
            None => before,
        }
    }
}

/// The last address before `n` that is not trusted, or the first of all where every
/// one is trusted.
pub open spec fn origin(ips: Seq<IpAddr>, t: TrustedView, n: int) -> IpAddr
    decreases n,
{
    if n <= 0 {
        addr::canonical(ips[0])
    } else {
        let c = addr::canonical(ips[n - 1]);
        if trusts(t, c) {
            origin(ips, t, n - 1)
        } else {
            c
        }
    }
}

/// The address that a request comes from: the peer, unless that is trusted and a
/// forwarding header names addresses.
pub open spec fn client_of(peer: IpAddr, forwarded: Option<Seq<char>>, t: TrustedView) -> IpAddr {
    let p = addr::canonical(peer);
    match forwarded {
        Some(s) if trusts(t, p) => {
            let ips = addresses(text::split_at_char(s, ','));
            if ips.len() == 0 {
                p
            } else {
                origin(ips, t, ips.len() as int)
            }
        },
        _ => p,
    }
}

/// The text of the forwarding header: its first value, where that is text.
pub open spec fn forwarded_text(fields: Seq<(Seq<char>, Seq<u8>)>) -> Option<Seq<char>> {
    let values = headers::values_of(fields, "x-forwarded-for"@);
    if values.len() == 0 {
        None
    } else {
        headers::header_text_of(values[0])
    }
}

fn read_addresses(s: &str) -> (out: Vec<IpAddr>)
    ensures
        out@ == addresses(text::split_at_char(s@, ',')),
{
    let items = text::split(s, ',');
    let ghost pieces = text::split_at_char(s@, ',');
    let mut out: Vec<IpAddr> = Vec::new();
    let mut i: usize = 0;
    assert(pieces.take(0) =~= Seq::<Seq<char>>::empty());
    while i < items.len()
        invariant
            i <= items@.len(),
            pieces == text::views(items@),
            out@ == addresses(pieces.take(i as int)),
        decreases items@.len() - i,
    {
        assert(pieces.take(i as int + 1).drop_last() =~= pieces.take(i as int));
        assert(pieces.take(i as int + 1).last() == items@[i as int]@);
        let item = text::trim(items[i].as_str());
        match addr::parse_ip(item.as_str()) {
            Some(a) => {
                out.push(a);
            },
            None => {},
        }
        i += 1;
    }
    assert(pieces.take(pieces.len() as int) =~= pieces);
    out
}

/// The address that a request comes from, by the text of its forwarding header.
pub fn client_by(peer: IpAddr, forwarded: Option<&str>, trusted: &TrustedProxies) -> (c: IpAddr)
    ensures
        c == client_of(peer, crate::engine::opt_view(forwarded), trusted@),
{
    let p = addr::canonical_ip(peer);
    if !trusted.contains(p) {
        return p;
    }
    let s: &str = match forwarded {
        Some(s) => s,
        None => {
            return p;
        },
    };
    let ips = read_addresses(s);
    if ips.len() == 0 {
        return p;
    }
    let mut n: usize = ips.len();
    while n > 0
        invariant
            n <= ips@.len(),
            origin(ips@, trusted@, ips@.len() as int) == origin(ips@, trusted@, n as int),
            client_of(peer, crate::engine::opt_view(forwarded), trusted@) == origin(
                ips@,
                trusted@,
                ips@.len() as int,
            ),
        decreases n,
    {
        let c = addr::canonical_ip(ips[n - 1]);
        if !trusted.contains(c) {
            return c;
        }
        n -= 1;
    }
    addr::canonical_ip(ips[0])
}

/// The text of the address that a request comes from.
pub fn client_ip(peer: IpAddr, headers: &HeaderMap<HeaderValue>, trusted: &TrustedProxies) -> (r:
    String)
    ensures
        r@ == addr::show_ip(
            client_of(peer, forwarded_text(headers::header_fields(*headers)), trusted@),
        ),
{
    proof {
        reveal_strlit("x-forwarded-for");
        assert(text::lower("x-forwarded-for"@) =~= "x-forwarded-for"@);
    }
    let values = headers::all_values(headers, "x-forwarded-for");
    let ghost all = headers::values_of(headers::header_fields(*headers), "x-forwarded-for"@);
    assert(all.len() == values@.len());
    let forwarded: Option<String> = if values.len() == 0 {
        None
    } else {
        assert(all[0] == values@[0]@);
        headers::header_text(&values[0])
    };
    let forwarded: Option<&str> = match &forwarded {
        Some(s) => Some(s.as_str()),
        None => None,
    };
    addr::ip_text(client_by(peer, forwarded, trusted))
}

/// The word of a peer that is not trusted is not taken: whatever forwarding header it
/// sends, the request comes from the peer.
pub proof fn law_untrusted_peer_is_the_client(
    peer: IpAddr,
    forwarded: Option<Seq<char>>,
    t: TrustedView,
)
    requires
        !trusts(t, addr::canonical(peer)),
    ensures
        client_of(peer, forwarded, t) == addr::canonical(peer),
{
}

/// Nothing that stands left of the last address that is not trusted can change the
/// client: it is that address.
pub proof fn law_last_untrusted_address_is_the_client(
    left: Seq<IpAddr>,
    client: IpAddr,
    right: Seq<IpAddr>,
    t: TrustedView,
)
    requires
        !trusts(t, addr::canonical(client)),
        forall|i: int|
            0 <= i < right.len() ==> trusts(t, addr::canonical(#[trigger] right[i])),
    ensures
        origin(left.push(client) + right, t, (left.push(client) + right).len() as int)
            == addr::canonical(client),
{
    lemma_walk_left(left, client, right, t, right.len() as int);
}

proof fn lemma_walk_left(
    left: Seq<IpAddr>,
    client: IpAddr,
    right: Seq<IpAddr>,
    t: TrustedView,
    n: int,
)
    requires
        0 <= n <= right.len(),
        !trusts(t, addr::canonical(client)),
        forall|i: int|
            0 <= i < right.len() ==> trusts(t, addr::canonical(#[trigger] right[i])),
    ensures
        origin(left.push(client) + right, t, left.len() + 1 + n) == addr::canonical(client),
    decreases n,
{
    let all = left.push(client) + right;
    if n > 0 {
        assert(all[left.len() + n] == right[n - 1]);
        lemma_walk_left(left, client, right, t, n - 1);
    } else {
        assert(all[left.len() as int] == client);
    }
}

/// Where every address is trusted the first one is the client.
pub proof fn law_all_trusted_takes_the_first(ips: Seq<IpAddr>, t: TrustedView, n: int)
    requires
        0 <= n <= ips.len(),
        forall|i: int|
            0 <= i < n ==> trusts(t, addr::canonical(#[trigger] ips[i])),
    ensures
        origin(ips, t, n) == addr::canonical(ips[0]),
    decreases n,
{
    if n > 0 {
        law_all_trusted_takes_the_first(ips, t, n - 1);
    }
}

/// An address and the long address that stands for it are trusted alike.
pub proof fn law_mapped_addresses_are_trusted_alike(t: TrustedView, a: IpAddr, b: IpAddr)
    requires
        addr::canonical(a) == addr::canonical(b),
    ensures
        trusts(t, a) == trusts(t, b),
{
}

/// The number of items that are not empty.
pub open spec fn item_count(items: Seq<Seq<char>>) -> nat
    decreases items.len(),
{
    if items.len() == 0 {
        0
    } else {
        item_count(items.drop_last()) + if text::trimmed(items.last()).len() > 0 {
            1nat
        } else {
            0
        }
    }
}

/// Every item of a list is either an entry or among those that were left out.
pub proof fn law_every_item_is_taken_or_told(items: Seq<Seq<char>>)
    ensures
        with_items(items).exact.len() + with_items(items).cidrs.len() + ignored(items).len()
            == item_count(items),
    decreases items.len(),
{
    if items.len() > 0 {
        law_every_item_is_taken_or_told(items.drop_last());
    }
}

/// The addresses of a forwarding header are those of all its items that read as one, in
/// the order of the header.
pub proof fn law_every_address_of_the_header_counts(items: Seq<Seq<char>>)
    ensures
        addresses(items) == items.filter_map(|t: Seq<char>| addr::ip_of(text::trimmed(t))),
        forall|i: int, a: IpAddr|
            #![trigger items[i], addresses(items).contains(a)]
            0 <= i < items.len() && addr::ip_of(text::trimmed(items[i])) == Some(a) ==> addresses(
                items,
            ).contains(a),
    decreases items.len(),
{
    let f = |t: Seq<char>| addr::ip_of(text::trimmed(t));
    if items.len() == 0 {
        assert(addresses(items) =~= items.filter_map(f));
    } else {
        let front = items.drop_last();
        law_every_address_of_the_header_counts(front);
        assert(addresses(items) =~= items.filter_map(f));
        assert forall|i: int, a: IpAddr|
            #![trigger items[i], addresses(items).contains(a)]
            0 <= i < items.len() && addr::ip_of(text::trimmed(items[i])) == Some(
                a,
            ) implies addresses(items).contains(a) by {
            if i < front.len() {
                assert(front[i] == items[i]);
                assert(addresses(front).contains(a));
                let k = addresses(front).index_of(a);
                assert(addresses(items)[k] == a);
            } else {
                assert(addresses(items).last() == a);
            }
        }
    }
}

/// Behind a trusted peer the client is the last address of the header that is not
/// trusted, or the first of all where every one is; without such a header, or without an
/// address in it, and behind any other peer it is the peer.
pub proof fn law_client_is_the_last_untrusted_address(
    peer: IpAddr,
    header: Seq<char>,
    t: TrustedView,
)
    ensures
        client_of(peer, None, t) == addr::canonical(peer),
        ({
            let ips = text::split_at_char(header, ',').filter_map(
                |s: Seq<char>| addr::ip_of(text::trimmed(s)),
            );
            let client = client_of(peer, Some(header), t);
            if !trusts(t, peer) || ips.len() == 0 {
                client == addr::canonical(peer)
            } else {
                exists|k: int|
                    0 <= k < ips.len() && client == addr::canonical(#[trigger] ips[k]) && (k == 0
                        || !trusts(t, ips[k])) && forall|j: int|
                        k < j < ips.len() ==> trusts(t, #[trigger] ips[j])
            }
        }),
{
    let items = text::split_at_char(header, ',');
    law_every_address_of_the_header_counts(items);
    addr::law_canonical_is_idempotent(peer);
    let ips = addresses(items);
    if trusts(t, peer) && ips.len() > 0 {
        lemma_origin_is_last_untrusted(ips, t, ips.len() as int);
    }
}

proof fn lemma_origin_is_last_untrusted(ips: Seq<IpAddr>, t: TrustedView, n: int)
    requires
        0 <= n <= ips.len(),
        ips.len() > 0,
        forall|j: int| n <= j < ips.len() ==> trusts(t, #[trigger] ips[j]),
    ensures
        exists|k: int|
            0 <= k < ips.len() && origin(ips, t, n) == addr::canonical(#[trigger] ips[k]) && (k == 0
                || !trusts(t, ips[k])) && forall|j: int|
                k < j < ips.len() ==> trusts(t, #[trigger] ips[j]),
    decreases n,
{
    if n == 0 {
        assert(origin(ips, t, n) == addr::canonical(ips[0]));
    } else {
        addr::law_canonical_is_idempotent(ips[n - 1]);
        if trusts(t, ips[n - 1]) {
            lemma_origin_is_last_untrusted(ips, t, n - 1);
        } else {
            assert(origin(ips, t, n) == addr::canonical(ips[n - 1]));
        }
    }
}

/// Behind a trusted peer a header with one address, white space around it aside, names
/// the client, whatever kind of address that is.
pub proof fn law_single_address_is_the_client(
    peer: IpAddr,
    header: Seq<char>,
    a: IpAddr,
    t: TrustedView,
)
    requires
        trusts(t, peer),
        !header.contains(','),
        addr::ip_of(text::trimmed(header)) == Some(a),
    ensures
        client_of(peer, Some(header), t) == addr::canonical(a),
{
    addr::law_canonical_is_idempotent(peer);
    text::lemma_split_one(header, ',');
    let items = text::split_at_char(header, ',');
    assert(items.drop_last() =~= Seq::<Seq<char>>::empty());
    assert(addresses(items.drop_last()) =~= Seq::<IpAddr>::empty());
    assert(addresses(items) =~= seq![a]);
    assert(origin(seq![a], t, 0) == addr::canonical(a));
}

/// The forwarding header of a request is its first one, where that is text.
pub proof fn law_first_forwarding_header_counts(fields: Seq<(Seq<char>, Seq<u8>)>, i: int)
    ensures
        0 <= i < fields.len() && fields[i].0 == "x-forwarded-for"@ && (forall|j: int|
            0 <= j < i ==> (#[trigger] fields[j]).0 != "x-forwarded-for"@) ==> forwarded_text(
            fields,
        ) == headers::header_text_of(fields[i].1),
        (forall|j: int| 0 <= j < fields.len() ==> (#[trigger] fields[j]).0 != "x-forwarded-for"@)
            ==> forwarded_text(fields) is None,
{
    headers::law_first_value(fields, "x-forwarded-for"@, i);
}

/// An entry of a list trusts an address: it is that address, or a network that has it.
pub open spec fn item_trusts(item: Option<TrustedItem>, ip: IpAddr) -> bool {
    match item {
        Some(TrustedItem::Address(a)) => a == addr::canonical(ip),
        Some(TrustedItem::Network(base, prefix)) => addr::network_has(
            base,
            prefix,
            addr::canonical(ip),
        ),
        None => false,
    }
}

/// An address is trusted where any item of the list, white space around it aside, trusts
/// it, and only there.
pub proof fn law_any_item_trusts(items: Seq<Seq<char>>, ip: IpAddr)
    ensures
        trusts(with_items(items), ip) <==> exists|i: int|
            0 <= i < items.len() && item_trusts(item_of(text::trimmed(#[trigger] items[i])), ip),
    decreases items.len(),
{
    let all = with_items(items);
    let c = addr::canonical(ip);
    if items.len() == 0 {
        assert(!all.exact.contains(c));
        assert(!networks_have(all.cidrs, c));
    } else {
        let front = items.drop_last();
        let before = with_items(front);
        let item = text::trimmed(items.last());
        law_any_item_trusts(front, ip);
        lemma_empty_is_no_item(item);
        assert(items[items.len() - 1] == items.last());
        assert(forall|i: int| 0 <= i < front.len() ==> #[trigger] front[i] == items[i]);
        if before.exact.contains(c) {
            let k = before.exact.index_of(c);
            assert(all.exact[k] == c);
        }
        if networks_have(before.cidrs, c) {
            let k = choose|k: int|
                0 <= k < before.cidrs.len() && addr::network_has(
                    (#[trigger] before.cidrs[k]).0,
                    before.cidrs[k].1,
                    c,
                );
            assert(all.cidrs[k] == before.cidrs[k]);
        }
        if trusts(before, ip) {
            let i = choose|i: int|
                0 <= i < front.len() && item_trusts(
                    item_of(text::trimmed(#[trigger] front[i])),
                    ip,
                );
            assert(items[i] == front[i]);
        }
        if item_trusts(item_of(item), ip) {
            match item_of(item) {
                Some(TrustedItem::Address(a)) => {
                    assert(all.exact.last() == c);
                },
                _ => {
                    assert(all.cidrs[all.cidrs.len() - 1] == all.cidrs.last());
                },
            }
        }
        if trusts(all, ip) && !trusts(before, ip) {
            if all.exact.contains(c) {
                let k = all.exact.index_of(c);
                assert(k == before.exact.len()) by {
                    if k < before.exact.len() {
                        assert(before.exact[k] == c);
                    }
                }
            } else {
                let k = choose|k: int|
                    0 <= k < all.cidrs.len() && addr::network_has(
                        (#[trigger] all.cidrs[k]).0,
                        all.cidrs[k].1,
                        c,
                    );
                if k < before.cidrs.len() {
                    assert(before.cidrs[k] == all.cidrs[k]);
                }
            }
            assert(item_trusts(item_of(item), ip));
        }
        if exists|i: int|
            0 <= i < items.len() && item_trusts(item_of(text::trimmed(#[trigger] items[i])), ip) {
            let i = choose|i: int|
                0 <= i < items.len() && item_trusts(
                    item_of(text::trimmed(#[trigger] items[i])),
                    ip,
                );
            if i < front.len() {
                assert(item_trusts(item_of(text::trimmed(front[i])), ip));
            }
        }
    }
}

proof fn lemma_empty_is_no_item(item: Seq<char>)
    ensures
        item.len() == 0 ==> item_of(item) is None,
{
    if item.len() == 0 {
        text::law_parting(item, '/');
        if let Some(a) = addr::ip_of(item) {
            match a {
                IpAddr::V4(n) => {
                    addr::lemma_ip_chars(a);
                    addr::lemma_dotted_is_its_text(item);
                },
                IpAddr::V6(_) => {
                    addr::lemma_long_text_is_not_empty(item);
                },
            }
        }
    }
}

/// An item without a slash is an address, by its canonical form; one with a slash is the
/// network of the address before it and the prefix behind it, where that fits the kind of
/// the address. A prefix may carry a plus sign.
pub proof fn law_items(base: Seq<char>, prefix: Seq<char>, a: IpAddr, n: nat)
    requires
        !base.contains('/'),
    ensures
        addr::ip_of(base) is None ==> item_of(base) is None && item_of(base.push('/') + prefix) is None,
        addr::ip_of(base) == Some(a) ==> item_of(base) == Some(
            TrustedItem::Address(addr::canonical(a)),
        ),
        number_of(prefix) is None ==> item_of(base.push('/') + prefix) is None,
        addr::ip_of(base) == Some(a) && number_of(prefix) == Some(n) && n > addr::longest_prefix(a)
            ==> item_of(base.push('/') + prefix) is None,
        addr::ip_of(base) == Some(a) && number_of(prefix) == Some(n) && n <= addr::longest_prefix(a)
            && addr::canonical(a) == a ==> item_of(base.push('/') + prefix) == Some(
            TrustedItem::Network(a, n as u32),
        ),
        addr::ip_of(base) == Some(a) && number_of(prefix) == Some(n) && addr::canonical(a) != a
            && 96 <= n <= 128 ==> item_of(base.push('/') + prefix) == Some(
            TrustedItem::Network(addr::canonical(a), (n - 96) as u32),
        ),
        addr::ip_of(base) == Some(a) && number_of(prefix) == Some(n) && addr::canonical(a) != a
            && n <= 32 ==> item_of(base.push('/') + prefix) == Some(
            TrustedItem::Network(addr::canonical(a), n as u32),
        ),
        addr::ip_of(base) == Some(a) && number_of(prefix) == Some(n) && addr::canonical(a) != a
            && 32 < n < 96 ==> item_of(base.push('/') + prefix) == Some(
            TrustedItem::Network(a, n as u32),
        ),
{
    let s = base.push('/') + prefix;
    text::law_parting(base, '/');
    text::law_parting(s, '/');
    assert(s[base.len() as int] == '/');
    assert(s.contains(s[base.len() as int]));
    let (x, y) = text::parted(s, '/').unwrap();
    assert(x == base && y == prefix) by {
        let (i, j) = (x.len() as int, base.len() as int);
        if i < j {
            assert((x.push('/') + y)[i] == (base.push('/') + prefix)[i]);
            assert(base[i] == '/');
            assert(base.contains('/'));
        } else if i > j {
            assert((x.push('/') + y)[j] == (base.push('/') + prefix)[j]);
            assert(x[j] == '/');
            assert(x.contains('/'));
        }
        assert(x.len() == base.len());
        assert forall|k: int| 0 <= k < base.len() implies x[k] == base[k] by {
            assert((x.push('/') + y)[k] == (base.push('/') + prefix)[k]);
        }
        assert(x =~= base);
        assert forall|k: int| 0 <= k < prefix.len() implies y[k] == prefix[k] by {
            let m = base.len() + 1 + k;
            assert((x.push('/') + y)[m] == (base.push('/') + prefix)[m]);
        }
        assert(y.len() == prefix.len());
        assert(y =~= prefix);
    }
}

/// A prefix is a decimal number of 32 bits, with a plus sign or without.
pub proof fn law_prefixes(s: Seq<char>)
    ensures
        number_of(seq!['+'] + s) == addr::decimal(s, 0xffff_ffff),
        s.len() == 0 || s[0] != '+' ==> number_of(s) == addr::decimal(s, 0xffff_ffff),
{
    assert((seq!['+'] + s).drop_first() =~= s);
}

/// The items that are told as left out are those that are neither empty nor an entry, in
/// their order.
pub proof fn law_items_left_out(items: Seq<Seq<char>>)
    ensures
        ignored(items) == items.filter_map(
            |t: Seq<char>|
                if text::trimmed(t).len() > 0 && item_of(text::trimmed(t)) is None {
                    Some(text::trimmed(t))
                } else {
                    None
                },
        ),
    decreases items.len(),
{
    let f = |t: Seq<char>|
        if text::trimmed(t).len() > 0 && item_of(text::trimmed(t)) is None {
            Some(text::trimmed(t))
        } else {
            None
        };
    if items.len() > 0 {
        law_items_left_out(items.drop_last());
    }
    assert(ignored(items) =~= items.filter_map(f));
}

} // verus!
