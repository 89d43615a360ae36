//! Header maps: what they hold, which headers frame a request, and which are passed
//! on.

use crate::text;
use hyper::header::HeaderValue;
use hyper::HeaderMap;
use vstd::prelude::*;

verus! {

/// `http::HeaderMap`, which `hyper` hands on.
#[verifier::external_type_specification]
#[verifier::external_body]
#[verifier::reject_recursive_types(T)]
pub struct ExHeaderMap<T>(hyper::HeaderMap<T>);

/// `http::HeaderValue`, which `hyper` hands on.
#[verifier::external_type_specification]
#[verifier::external_body]
pub struct ExHeaderValue(hyper::header::HeaderValue);

/// The fields of a header map, name and value, in the order in which the map is
/// walked. All values of one name lie together.
pub uninterp spec fn header_fields(h: HeaderMap<HeaderValue>) -> Seq<(Seq<char>, Seq<u8>)>;

/// The values among `fields` under exactly the name `name`, in order.
pub open spec fn values_of(fields: Seq<(Seq<char>, Seq<u8>)>, name: Seq<char>) -> Seq<Seq<u8>>
    decreases fields.len(),
{
    if fields.len() == 0 {
        Seq::empty()
    } else {
        let before = values_of(fields.drop_last(), name);
        if fields.last().0 == name {
            before.push(fields.last().1)
        } else {
            before
        }
    }
}

/// The contents of a list of fields.
pub open spec fn field_views(v: Seq<(String, Vec<u8>)>) -> Seq<(Seq<char>, Seq<u8>)> {
    v.map_values(|f: (String, Vec<u8>)| (f.0@, f.1@))
}

/// The contents of a list of byte strings.
pub open spec fn byte_views(v: Seq<Vec<u8>>) -> Seq<Seq<u8>> {
    v.map_values(|b: Vec<u8>| b@)
}

/// Calls `HeaderMap::iter` and copies each name and value out, in the order of the map.
#[verifier::external_body]
pub(crate) fn fields_of(h: &HeaderMap<HeaderValue>) -> (out: Vec<(String, Vec<u8>)>)
    ensures
        field_views(out@) == header_fields(*h),
{
    h.iter().map(|(k, v)| (k.as_str().to_string(), v.as_bytes().to_vec())).collect()
}

/// Calls `HeaderMap::get_all` and copies each value out. The name is looked up without
/// regard to ASCII case, and the values come in the order of the map.
#[verifier::external_body]
pub(crate) fn all_values(h: &HeaderMap<HeaderValue>, name: &str) -> (out: Vec<Vec<u8>>)
    ensures
        byte_views(out@) == values_of(header_fields(*h), text::lower(name@)),
{
    h.get_all(name).iter().map(|v| v.as_bytes().to_vec()).collect()
}

/// Calls `HeaderMap::remove`, which removes every value under `name`, looked up
/// without regard to ASCII case. The other names keep their values, each in its order;
/// the order of the names may change.
#[verifier::external_body]
pub(crate) fn remove_name(h: &mut HeaderMap<HeaderValue>, name: &str)
    ensures
        forall|n: Seq<char>| #[trigger]
            values_of(header_fields(*final(h)), n) == if n == text::lower(name@) {
                Seq::empty()
            } else {
                values_of(header_fields(*old(h)), n)
            },
{
    let _ = h.remove(name);
}

/// A byte that a header value shows as text.
pub open spec fn is_visible(b: u8) -> bool {
    32 <= b < 127 || b == 9
}

/// A header value as text; `None` where it holds other bytes than visible ASCII.
pub open spec fn header_text_of(v: Seq<u8>) -> Option<Seq<char>> {
    if forall|i: int| 0 <= i < v.len() ==> is_visible(#[trigger] v[i]) {
        Some(v.map_values(|b: u8| b as char))
    } else {
        None
    }
}

/// A header value as text.
pub fn header_text(v: &Vec<u8>) -> (r: Option<String>)
    ensures
        match r {
            Some(s) => header_text_of(v@) == Some(s@),
            None => header_text_of(v@) is None,
        },
{
    let mut out = String::new();
    let mut i: usize = 0;
    while i < v.len()
        invariant
            i <= v@.len(),
            out@.len() == i,
            forall|k: int| 0 <= k < i ==> is_visible(#[trigger] v@[k]) && out@[k] == v@[k] as char,
        decreases v@.len() - i,
    {
        let b = v[i];
        if !((32 <= b && b < 127) || b == 9) {
            assert(!is_visible(v@[i as int]));
            return None;
        }
        let ghost before = out@;
        out.push(b as char);
        assert forall|k: int| 0 <= k < i + 1 implies is_visible(#[trigger] v@[k]) && out@[k]
            == v@[k] as char by {
            if k < i {
                assert(out@[k] == before[k]);
            }
        }
        i += 1;
    }
    assert(out@ =~= v@.map_values(|b: u8| b as char));
    Some(out)
}

/// The text of a `Content-Length` value: without white space around it, and empty
/// where the value is no text.
pub open spec fn length_text(v: Seq<u8>) -> Seq<char> {
    match header_text_of(v) {
        Some(s) => text::trimmed(s),
        None => Seq::empty(),
    }
}

/// The text is a decimal number.
pub open spec fn is_number(s: Seq<char>) -> bool {
    s.len() > 0 && forall|i: int| 0 <= i < s.len() ==> '0' <= #[trigger] s[i] && s[i] <= '9'
}

/// All `Content-Length` values are decimal numbers, and the same one.
pub open spec fn lengths_agree(values: Seq<Seq<u8>>) -> bool {
    forall|i: int|
        #![trigger values[i]]
        0 <= i < values.len() ==> is_number(length_text(values[i])) && length_text(values[i])
            == length_text(values[0])
}

/// A `Transfer-Encoding` value is text, and names `chunked` alone.
pub open spec fn is_chunked(v: Seq<u8>) -> bool {
    match header_text_of(v) {
        Some(s) => text::lower(text::trimmed(s)) == "chunked"@,
        None => false,
    }
}

/// The `Content-Length` and `Transfer-Encoding` values leave no doubt about the end of a
/// request: the lengths agree, and where there is a transfer encoding, text or not,
/// that is `chunked` alone and there is no length.
pub open spec fn values_frame(lengths: Seq<Seq<u8>>, encoded: Seq<Seq<u8>>) -> bool {
    &&& lengths_agree(lengths)
    &&& encoded.len() > 0 ==> lengths.len() == 0 && encoded.len() == 1 && is_chunked(encoded[0])
}

/// The end of a request is not in doubt.
pub open spec fn framed(fields: Seq<(Seq<char>, Seq<u8>)>) -> bool {
    values_frame(values_of(fields, "content-length"@), values_of(fields, "transfer-encoding"@))
}

fn all_digits(s: &str) -> (r: bool)
    ensures
        r == is_number(s@),
{
    let cs = text::chars_of(s);
    let mut i: usize = 0;
    while i < cs.len()
        invariant
            i <= cs@.len(),
            cs@ == s@,
            forall|k: int| 0 <= k < i ==> '0' <= #[trigger] s@[k] && s@[k] <= '9',
        decreases cs@.len() - i,
    {
        if !('0' <= cs[i] && cs[i] <= '9') {
            assert(!('0' <= s@[i as int] && s@[i as int] <= '9'));
            return false;
        }
        i += 1;
    }
    cs.len() > 0
}

fn read_length(v: &Vec<u8>) -> (s: String)
    ensures
        s@ == length_text(v@),
{
    match header_text(v) {
        Some(s) => text::trim(s.as_str()),
        None => {
            let s = String::new();
            assert(s@ =~= Seq::<char>::empty());
            s
        },
    }
}

fn check_lengths(values: &Vec<Vec<u8>>) -> (r: bool)
    ensures
        r == lengths_agree(byte_views(values@)),
{
    let ghost all = byte_views(values@);
    if values.len() == 0 {
        return true;
    }
    let first = read_length(&values[0]);
    assert(all[0] == values@[0]@);
    let mut i: usize = 0;
    while i < values.len()
        invariant
            i <= values@.len(),
            all == byte_views(values@),
            all.len() > 0,
            first@ == length_text(all[0]),
            forall|k: int|
                #![trigger all[k]]
                0 <= k < i ==> is_number(length_text(all[k])) && length_text(all[k])
                    == length_text(all[0]),
        decreases values@.len() - i,
    {
        let s = read_length(&values[i]);
        assert(s@ == length_text(all[i as int]));
        if !all_digits(s.as_str()) || !text::same_text(s.as_str(), first.as_str()) {
            return false;
        }
        i += 1;
    }
    true
}

fn names_chunked(v: &Vec<u8>) -> (r: bool)
    ensures
        r == is_chunked(v@),
{
    match header_text(v) {
        Some(s) => {
            let t = text::trim(s.as_str());
            let e = text::to_lower(t.as_str());
            text::same_text(e.as_str(), "chunked")
        },
        None => false,
    }
}

/// Whether the end of a request is not in doubt.
pub fn valid_request_boundaries(headers: &HeaderMap<HeaderValue>) -> (r: bool)
    ensures
        r == framed(header_fields(*headers)),
{
    proof {
        reveal_strlit("content-length");
        reveal_strlit("transfer-encoding");
        assert(text::lower("content-length"@) =~= "content-length"@);
        assert(text::lower("transfer-encoding"@) =~= "transfer-encoding"@);
    }
    let lengths = all_values(headers, "content-length");
    let encoded = all_values(headers, "transfer-encoding");
    framed_by(&lengths, &encoded)
}

/// Whether the end of a request with these `Content-Length` and `Transfer-Encoding`
/// values is not in doubt.
pub fn framed_by(lengths: &Vec<Vec<u8>>, encoded: &Vec<Vec<u8>>) -> (r: bool)
    ensures
        r == values_frame(byte_views(lengths@), byte_views(encoded@)),
{
    if !check_lengths(lengths) {
        return false;
    }
    if encoded.len() == 0 {
        return true;
    }
    assert(byte_views(encoded@)[0] == encoded@[0]@);
    lengths.len() == 0 && encoded.len() == 1 && names_chunked(&encoded[0])
}

/// A request with both a length and a transfer encoding is refused, whatever they say.
pub proof fn law_length_and_encoding_exclude_each_other(fields: Seq<(Seq<char>, Seq<u8>)>)
    requires
        values_of(fields, "content-length"@).len() > 0,
        values_of(fields, "transfer-encoding"@).len() > 0,
    ensures
        !framed(fields),
{
}

/// Two lengths that differ are refused.
pub proof fn law_lengths_must_agree(fields: Seq<(Seq<char>, Seq<u8>)>, i: int, j: int)
    requires
        0 <= i < values_of(fields, "content-length"@).len(),
        0 <= j < values_of(fields, "content-length"@).len(),
        length_text(values_of(fields, "content-length"@)[i]) != length_text(
            values_of(fields, "content-length"@)[j],
        ),
    ensures
        !framed(fields),
{
}

/// Of the transfer encodings only `chunked` alone is let through.
pub proof fn law_only_chunked_is_let_through(fields: Seq<(Seq<char>, Seq<u8>)>)
    requires
        framed(fields),
        values_of(fields, "transfer-encoding"@).len() > 0,
    ensures
        values_of(fields, "transfer-encoding"@).len() == 1,
        is_chunked(values_of(fields, "transfer-encoding"@)[0]),
{
}

/// The names listed in one `Connection` value, in lower case; empty ones are left out.
pub open spec fn listed(pieces: Seq<Seq<char>>) -> Seq<Seq<char>>
    decreases pieces.len(),
{
    if pieces.len() == 0 {
        Seq::empty()
    } else {
        let before = listed(pieces.drop_last());
        let name = text::lower(text::trimmed(pieces.last()));
        if name.len() == 0 {
            before
        } else {
            before.push(name)
        }
    }
}

/// The names listed in some `Connection` values. A value that is no text lists none.
pub open spec fn hop_tokens(values: Seq<Seq<u8>>) -> Seq<Seq<char>>
    decreases values.len(),
{
    if values.len() == 0 {
        Seq::empty()
    } else {
        let before = hop_tokens(values.drop_last());
        match header_text_of(values.last()) {
            Some(s) => before + listed(text::split_at_char(s, ',')),
            None => before,
        }
    }
}

/// Adds the names listed in one `Connection` value.
fn push_listed(out: &mut Vec<String>, s: &str)
    ensures
        text::views(final(out)@) == text::views(old(out)@) + listed(
            text::split_at_char(s@, ','),
        ),
{
    let ghost start = text::views(out@);
    let p = text::split(s, ',');
    let ghost pieces = text::split_at_char(s@, ',');
    let mut i: usize = 0;
    assert(pieces.take(0) =~= Seq::<Seq<char>>::empty());
    assert(text::views(out@) =~= start + listed(pieces.take(0)));
    while i < p.len()
        invariant
            i <= p@.len(),
            pieces == text::views(p@),
            text::views(out@) == start + listed(pieces.take(i as int)),
        decreases p@.len() - i,
    {
        let ghost before = out@;
        assert(pieces.take(i as int + 1).drop_last() =~= pieces.take(i as int));
        assert(pieces.take(i as int + 1).last() == p@[i as int]@);
        let t = text::trim(p[i].as_str());
        let name = text::to_lower(t.as_str());
        let ghost added = name@;
        if !name.as_str().is_empty() {
            out.push(name);
            assert(text::views(out@) =~= text::views(before).push(added));
            assert(text::views(out@) =~= start + listed(pieces.take(i as int + 1)));
        } else {
            assert(added.len() == 0);
        }
        i += 1;
    }
    assert(pieces.take(pieces.len() as int) =~= pieces);
}

/// The names listed in some `Connection` values.
pub fn tokens_in(values: &Vec<Vec<u8>>) -> (out: Vec<String>)
    ensures
        text::views(out@) == hop_tokens(byte_views(values@)),
{
    let ghost all = byte_views(values@);
    let mut out: Vec<String> = Vec::new();
    let mut i: usize = 0;
    assert(all.take(0) =~= Seq::<Seq<u8>>::empty());
    assert(text::views(out@) =~= Seq::<Seq<char>>::empty());
    while i < values.len()
        invariant
            i <= values@.len(),
            all == byte_views(values@),
            text::views(out@) == hop_tokens(all.take(i as int)),
        decreases values@.len() - i,
    {
        assert(all.take(i as int + 1).drop_last() =~= all.take(i as int));
        assert(all.take(i as int + 1).last() == values@[i as int]@);
        match header_text(&values[i]) {
            Some(s) => {
                push_listed(&mut out, s.as_str());
            },
            None => {},
        }
        i += 1;
    }
    assert(all.take(all.len() as int) =~= all);
    out
}

/// The names that the `Connection` headers of a message list, in lower case.
pub fn connection_hop_tokens(headers: &HeaderMap<HeaderValue>) -> (out: Vec<String>)
    ensures
        text::views(out@) == hop_tokens(values_of(header_fields(*headers), "connection"@)),
{
    proof {
        reveal_strlit("connection");
        assert(text::lower("connection"@) =~= "connection"@);
    }
    let values = all_values(headers, "connection");
    tokens_in(&values)
}

/// A header that speaks of one connection only.
pub open spec fn hop_by_hop(name: Seq<char>) -> bool {
    ||| name == "connection"@
    ||| name == "keep-alive"@
    ||| name == "proxy-connection"@
    ||| name == "proxy-authenticate"@
    ||| name == "proxy-authorization"@
    ||| name == "te"@
    ||| name == "trailer"@
    ||| name == "transfer-encoding"@
    ||| name == "upgrade"@
}

/// A request header that is passed on to the backend.
pub open spec fn forwardable(name: Seq<char>, tokens: Seq<Seq<char>>) -> bool {
    &&& name != "host"@
    &&& !hop_by_hop(name)
    &&& !tokens.contains(name)
    &&& name != "x-forwarded-for"@
    &&& name != "x-real-ip"@
}

fn is_hop_by_hop(name: &str) -> (r: bool)
    ensures
        r == hop_by_hop(name@),
{
    text::same_text(name, "connection") || text::same_text(name, "keep-alive") || text::same_text(
        name,
        "proxy-connection",
    ) || text::same_text(name, "proxy-authenticate") || text::same_text(
        name,
        "proxy-authorization",
    ) || text::same_text(name, "te") || text::same_text(name, "trailer") || text::same_text(
        name,
        "transfer-encoding",
    ) || text::same_text(name, "upgrade")
}

fn is_listed(name: &str, tokens: &Vec<String>) -> (r: bool)
    ensures
        r == text::views(tokens@).contains(name@),
{
    let ghost all = text::views(tokens@);
    let mut i: usize = 0;
    while i < tokens.len()
        invariant
            i <= tokens@.len(),
            all == text::views(tokens@),
            forall|k: int| 0 <= k < i ==> #[trigger] all[k] != name@,
        decreases tokens@.len() - i,
    {
        assert(all[i as int] == tokens@[i as int]@);
        if text::same_text(tokens[i].as_str(), name) {
            return true;
        }
        i += 1;
    }
    false
}

/// Whether a request header, by its name in lower case, is passed on to the backend.
pub fn is_forwardable_header(name: &str, hop_tokens: &Vec<String>) -> (r: bool)
    ensures
        r == forwardable(name@, text::views(hop_tokens@)),
{
    if text::same_text(name, "host") {
        return false;
    }
    if is_hop_by_hop(name) {
        return false;
    }
    if is_listed(name, hop_tokens) {
        return false;
    }
    !(text::same_text(name, "x-forwarded-for") || text::same_text(name, "x-real-ip"))
}

/// Every listed name is in lower case.
proof fn lemma_listed_lower(pieces: Seq<Seq<char>>)
    ensures
        forall|i: int|
            0 <= i < listed(pieces).len() ==> text::lower(#[trigger] listed(pieces)[i]) == listed(
                pieces,
            )[i],
    decreases pieces.len(),
{
    if pieces.len() > 0 {
        let before = listed(pieces.drop_last());
        lemma_listed_lower(pieces.drop_last());
        let t = text::trimmed(pieces.last());
        assert(text::lower(text::lower(t)) =~= text::lower(t));
        assert forall|i: int| 0 <= i < listed(pieces).len() implies text::lower(
            #[trigger] listed(pieces)[i],
        ) == listed(pieces)[i] by {
            if i < before.len() {
                assert(listed(pieces)[i] == before[i]);
            }
        }
    }
}

proof fn lemma_tokens_lower(values: Seq<Seq<u8>>)
    ensures
        forall|i: int|
            0 <= i < hop_tokens(values).len() ==> text::lower(#[trigger] hop_tokens(values)[i])
                == hop_tokens(values)[i],
    decreases values.len(),
{
    if values.len() > 0 {
        let before = hop_tokens(values.drop_last());
        lemma_tokens_lower(values.drop_last());
        if let Some(s) = header_text_of(values.last()) {
            let more = listed(text::split_at_char(s, ','));
            lemma_listed_lower(text::split_at_char(s, ','));
            assert forall|i: int| 0 <= i < hop_tokens(values).len() implies text::lower(
                #[trigger] hop_tokens(values)[i],
            ) == hop_tokens(values)[i] by {
                if i < before.len() {
                    assert(hop_tokens(values)[i] == before[i]);
                } else {
                    assert(hop_tokens(values)[i] == more[i - before.len()]);
                }
            }
        }
    }
}

/// The values under every name but those of headers that speak of one connection only.
pub open spec fn stripped_values(
    fields: Seq<(Seq<char>, Seq<u8>)>,
    name: Seq<char>,
) -> Seq<Seq<u8>> {
    if hop_by_hop(name) || hop_tokens(values_of(fields, "connection"@)).contains(name) {
        Seq::empty()
    } else {
        values_of(fields, name)
    }
}

/// Removes the nine headers that speak of one connection only.
fn remove_hop_by_hop(headers: &mut HeaderMap<HeaderValue>)
    ensures
        forall|n: Seq<char>| #[trigger]
            values_of(header_fields(*final(headers)), n) == if hop_by_hop(n) {
                Seq::empty()
            } else {
                values_of(header_fields(*old(headers)), n)
            },
{
    proof {
        lemma_hop_names_lower();
    }
    remove_name(headers, "connection");
    remove_name(headers, "keep-alive");
    remove_name(headers, "proxy-connection");
    remove_name(headers, "proxy-authenticate");
    remove_name(headers, "proxy-authorization");
    remove_name(headers, "te");
    remove_name(headers, "trailer");
    remove_name(headers, "transfer-encoding");
    remove_name(headers, "upgrade");
}

proof fn lemma_hop_names_lower()
    ensures
        forall|n: Seq<char>| #[trigger] hop_by_hop(n) ==> text::lower(n) == n,
        text::lower("connection"@) == "connection"@,
        text::lower("keep-alive"@) == "keep-alive"@,
        text::lower("proxy-connection"@) == "proxy-connection"@,
        text::lower("proxy-authenticate"@) == "proxy-authenticate"@,
        text::lower("proxy-authorization"@) == "proxy-authorization"@,
        text::lower("te"@) == "te"@,
        text::lower("trailer"@) == "trailer"@,
        text::lower("transfer-encoding"@) == "transfer-encoding"@,
        text::lower("upgrade"@) == "upgrade"@,
{
    reveal_strlit("connection");
    reveal_strlit("keep-alive");
    reveal_strlit("proxy-connection");
    reveal_strlit("proxy-authenticate");
    reveal_strlit("proxy-authorization");
    reveal_strlit("te");
    reveal_strlit("trailer");
    reveal_strlit("transfer-encoding");
    reveal_strlit("upgrade");
    assert(text::lower("connection"@) =~= "connection"@);
    assert(text::lower("keep-alive"@) =~= "keep-alive"@);
    assert(text::lower("proxy-connection"@) =~= "proxy-connection"@);
    assert(text::lower("proxy-authenticate"@) =~= "proxy-authenticate"@);
    assert(text::lower("proxy-authorization"@) =~= "proxy-authorization"@);
    assert(text::lower("te"@) =~= "te"@);
    assert(text::lower("trailer"@) =~= "trailer"@);
    assert(text::lower("transfer-encoding"@) =~= "transfer-encoding"@);
    assert(text::lower("upgrade"@) =~= "upgrade"@);
}

/// Removes from a response the headers that speak of one connection only, those that
/// its `Connection` headers list among them. All other headers keep their values.
pub fn strip_response_hop_by_hop(headers: &mut HeaderMap<HeaderValue>)
    ensures
        forall|n: Seq<char>| #[trigger]
            values_of(header_fields(*final(headers)), n) == stripped_values(
                header_fields(*old(headers)),
                n,
            ),
{
    let ghost fields = header_fields(*headers);
    let tokens = connection_hop_tokens(headers);
    let ghost names = hop_tokens(values_of(fields, "connection"@));
    proof {
        lemma_tokens_lower(values_of(fields, "connection"@));
    }
    remove_hop_by_hop(headers);
    let mut i: usize = 0;
    assert(names.take(0) =~= Seq::<Seq<char>>::empty());
    while i < tokens.len()
        invariant
            i <= tokens@.len(),
            names == text::views(tokens@),
            forall|k: int| 0 <= k < names.len() ==> text::lower(#[trigger] names[k]) == names[k],
            forall|n: Seq<char>| #[trigger]
                values_of(header_fields(*headers), n) == if hop_by_hop(n) || names.take(
                    i as int,
                ).contains(n) {
                    Seq::empty()
                } else {
                    values_of(fields, n)
                },
        decreases tokens@.len() - i,
    {
        let ghost done = names.take(i as int);
        let ghost next = names.take(i as int + 1);
        assert(names[i as int] == tokens@[i as int]@);
        assert(next =~= done.push(names[i as int]));
        assert forall|n: Seq<char>| next.contains(n) <==> done.contains(n) || n
            == names[i as int] by {
            if done.contains(n) {
                let k = done.index_of(n);
                assert(next[k] == n);
            }
            assert(next[i as int] == names[i as int]);
            if next.contains(n) {
                let k = next.index_of(n);
                if k < i {
                    assert(done[k] == n);
                }
            }
        }
        remove_name(headers, tokens[i].as_str());
        i += 1;
    }
    assert(names.take(names.len() as int) =~= names);
}

/// The values under a name are those of the fields with that name, in their order.
pub proof fn law_values_of_a_name(fields: Seq<(Seq<char>, Seq<u8>)>, name: Seq<char>)
    ensures
        values_of(fields, name) == fields.filter(
            |f: (Seq<char>, Seq<u8>)| f.0 == name,
        ).map_values(|f: (Seq<char>, Seq<u8>)| f.1),
    decreases fields.len(),
{
    reveal(Seq::filter);
    let all = fields.filter(|f: (Seq<char>, Seq<u8>)| f.0 == name).map_values(
        |f: (Seq<char>, Seq<u8>)| f.1,
    );
    if fields.len() > 0 {
        law_values_of_a_name(fields.drop_last(), name);
        let before = fields.drop_last().filter(
            |f: (Seq<char>, Seq<u8>)| f.0 == name,
        ).map_values(|f: (Seq<char>, Seq<u8>)| f.1);
        if fields.last().0 == name {
            assert(all =~= before.push(fields.last().1));
        } else {
            assert(all =~= before);
        }
    } else {
        assert(values_of(fields, name) =~= all);
    }
}

/// A header value is text where each of its bytes is a tab or printable ASCII, and then
/// its characters are its bytes.
pub proof fn law_header_text(v: Seq<u8>)
    ensures
        header_text_of(v) is Some <==> forall|i: int|
            0 <= i < v.len() ==> (#[trigger] v[i]) == 9 || 32 <= v[i] <= 126,
        header_text_of(v) matches Some(s) ==> s.len() == v.len() && forall|i: int|
            0 <= i < v.len() ==> (#[trigger] s[i]) as u32 == v[i] as u32,
{
    if forall|i: int| 0 <= i < v.len() ==> (#[trigger] v[i]) == 9 || 32 <= v[i] <= 126 {
        assert forall|i: int| 0 <= i < v.len() implies is_visible(#[trigger] v[i]) by {
            assert(v[i] == 9 || 32 <= v[i] <= 126);
        }
    }
    if header_text_of(v) is Some {
        assert forall|i: int| 0 <= i < v.len() implies (#[trigger] v[i]) == 9 || 32 <= v[i]
            <= 126 by {
            assert(is_visible(v[i]));
        }
    }
}

/// The end of a request is not in doubt in two cases: there is no transfer encoding and
/// every length is the same decimal number, or there is no length and one transfer
/// encoding, which is `chunked` in whatever case. White space around a value does not
/// count.
pub proof fn law_framing(fields: Seq<(Seq<char>, Seq<u8>)>)
    ensures
        ({
            let lengths = values_of(fields, "content-length"@);
            let encoded = values_of(fields, "transfer-encoding"@);
            framed(fields) <==> {
                ||| encoded.len() == 0 && forall|i: int|
                    0 <= i < lengths.len() ==> is_length(#[trigger] lengths[i]) && text::trimmed(
                        header_text_of(lengths[i]).unwrap(),
                    ) == text::trimmed(header_text_of(lengths[0]).unwrap())
                ||| lengths.len() == 0 && encoded.len() == 1 && header_text_of(encoded[0]) is Some
                    && text::lower(text::trimmed(header_text_of(encoded[0]).unwrap()))
                    == "chunked"@
            }
        }),
{
    let lengths = values_of(fields, "content-length"@);
    let encoded = values_of(fields, "transfer-encoding"@);
    assert forall|i: int| 0 <= i < lengths.len() implies (is_number(length_text(lengths[i]))
        <==> is_length(#[trigger] lengths[i])) by {
        lemma_is_length(lengths[i]);
    }
    if encoded.len() == 0 {
        if forall|i: int|
            0 <= i < lengths.len() ==> is_length(#[trigger] lengths[i]) && text::trimmed(
                header_text_of(lengths[i]).unwrap(),
            ) == text::trimmed(header_text_of(lengths[0]).unwrap()) {
            assert forall|i: int|
                #![trigger lengths[i]]
                0 <= i < lengths.len() implies is_number(length_text(lengths[i])) && length_text(
                lengths[i],
            ) == length_text(lengths[0]) by {
                assert(is_length(lengths[i]));
                assert(is_length(lengths[0]));
            }
        }
        if framed(fields) {
            assert forall|i: int| 0 <= i < lengths.len() implies is_length(#[trigger] lengths[i])
                && text::trimmed(header_text_of(lengths[i]).unwrap()) == text::trimmed(
                header_text_of(lengths[0]).unwrap(),
            ) by {
                assert(is_number(length_text(lengths[i])));
                assert(is_number(length_text(lengths[0])));
            }
        }
    }
}

proof fn lemma_is_length(v: Seq<u8>)
    ensures
        is_number(length_text(v)) <==> is_length(v),
{
    if let Some(s) = header_text_of(v) {
        let t = text::trimmed(s);
        if is_number(length_text(v)) {
            assert forall|i: int| 0 <= i < t.len() implies '0' <= #[trigger] t[i] <= '9' by {}
        }
        if is_length(v) {
            assert forall|i: int| 0 <= i < t.len() implies '0' <= #[trigger] t[i] && t[i]
                <= '9' by {}
        }
    }
}

/// A value is text that, without the white space around it, is one or more of the digits 0
/// to 9.
pub open spec fn is_length(v: Seq<u8>) -> bool {
    match header_text_of(v) {
        Some(s) => text::trimmed(s).len() > 0 && forall|i: int|
            0 <= i < text::trimmed(s).len() ==> '0' <= #[trigger] text::trimmed(s)[i] <= '9',
        None => false,
    }
}

/// A name is listed where a piece, without the white space around it and in lower case,
/// is that name; nothing lists the empty name.
pub proof fn law_listed_names(pieces: Seq<Seq<char>>, name: Seq<char>)
    ensures
        listed(pieces).contains(name) <==> name.len() > 0 && exists|i: int|
            0 <= i < pieces.len() && text::lower(text::trimmed(#[trigger] pieces[i])) == name,
    decreases pieces.len(),
{
    if pieces.len() == 0 {
        assert(!listed(pieces).contains(name));
    } else {
        let front = pieces.drop_last();
        let before = listed(front);
        let last = text::lower(text::trimmed(pieces.last()));
        law_listed_names(front, name);
        assert(pieces[pieces.len() - 1] == pieces.last());
        if before.contains(name) {
            let k = before.index_of(name);
            assert(listed(pieces)[k] == name);
            let i = choose|i: int|
                0 <= i < front.len() && text::lower(text::trimmed(#[trigger] front[i])) == name;
            assert(pieces[i] == front[i]);
        }
        if last == name && name.len() > 0 {
            assert(listed(pieces).last() == name);
        }
        if listed(pieces).contains(name) && !before.contains(name) {
            let k = listed(pieces).index_of(name);
            assert(k == before.len());
        }
        if exists|i: int|
            0 <= i < pieces.len() && text::lower(text::trimmed(#[trigger] pieces[i])) == name {
            let i = choose|i: int|
                0 <= i < pieces.len() && text::lower(text::trimmed(#[trigger] pieces[i])) == name;
            if i < front.len() {
                assert(front[i] == pieces[i]);
            }
        }
    }
}

/// The value lists the name: it is text, and the name is one of the pieces between its
/// commas, white space and case aside.
pub open spec fn lists(value: Seq<u8>, name: Seq<char>) -> bool {
    match header_text_of(value) {
        Some(s) => name.len() > 0 && exists|i: int|
            0 <= i < text::split_at_char(s, ',').len() && text::lower(
                text::trimmed(#[trigger] text::split_at_char(s, ',')[i]),
            ) == name,
        None => false,
    }
}

/// `Connection` names a header where any of its values lists it.
pub proof fn law_connection_names(values: Seq<Seq<u8>>, name: Seq<char>)
    ensures
        hop_tokens(values).contains(name) <==> exists|i: int|
            0 <= i < values.len() && lists(#[trigger] values[i], name),
    decreases values.len(),
{
    if values.len() == 0 {
        assert(!hop_tokens(values).contains(name));
    } else {
        let front = values.drop_last();
        let before = hop_tokens(front);
        law_connection_names(front, name);
        assert(values[values.len() - 1] == values.last());
        let added = match header_text_of(values.last()) {
            Some(s) => listed(text::split_at_char(s, ',')),
            None => Seq::empty(),
        };
        if let Some(s) = header_text_of(values.last()) {
            law_listed_names(text::split_at_char(s, ','), name);
        }
        assert(hop_tokens(values) =~= before + added);
        if before.contains(name) {
            let k = before.index_of(name);
            assert(hop_tokens(values)[k] == name);
            let i = choose|i: int| 0 <= i < front.len() && lists(#[trigger] front[i], name);
            assert(values[i] == front[i]);
        }
        if added.contains(name) {
            let k = added.index_of(name);
            assert(hop_tokens(values)[before.len() + k] == name);
        }
        if hop_tokens(values).contains(name) {
            let k = hop_tokens(values).index_of(name);
            if k < before.len() {
                assert(before[k] == name);
            } else {
                assert(added[k - before.len()] == name);
            }
        }
        if exists|i: int| 0 <= i < values.len() && lists(#[trigger] values[i], name) {
            let i = choose|i: int| 0 <= i < values.len() && lists(#[trigger] values[i], name);
            if i < front.len() {
                assert(front[i] == values[i]);
            }
        }
    }
}

/// The nine headers that speak of one connection only.
pub open spec fn connection_headers() -> Seq<Seq<char>> {
    seq![
        "connection"@,
        "keep-alive"@,
        "proxy-connection"@,
        "proxy-authenticate"@,
        "proxy-authorization"@,
        "te"@,
        "trailer"@,
        "transfer-encoding"@,
        "upgrade"@,
    ]
}

/// A name is dropped on the way to the backend: it is `host`, an address that the client
/// claims, one of the nine headers of one connection, or named by a `Connection` value of
/// the request.
pub open spec fn is_dropped(fields: Seq<(Seq<char>, Seq<u8>)>, name: Seq<char>) -> bool {
    ||| name == "host"@
    ||| name == "x-forwarded-for"@
    ||| name == "x-real-ip"@
    ||| of_one_connection(fields, name)
}

/// A name is one of the nine headers of one connection, or a `Connection` value among the
/// fields lists it.
pub open spec fn of_one_connection(fields: Seq<(Seq<char>, Seq<u8>)>, name: Seq<char>) -> bool {
    ||| connection_headers().contains(name)
    ||| exists|i: int|
        0 <= i < values_of(fields, "connection"@).len() && lists(
            #[trigger] values_of(fields, "connection"@)[i],
            name,
        )
}

/// The headers that are passed on are all but those that are dropped.
pub proof fn law_headers_that_are_passed_on(fields: Seq<(Seq<char>, Seq<u8>)>, name: Seq<char>)
    ensures
        forwardable(name, hop_tokens(values_of(fields, "connection"@))) <==> !is_dropped(
            fields,
            name,
        ),
{
    law_connection_names(values_of(fields, "connection"@), name);
    lemma_connection_headers(name);
}

proof fn lemma_connection_headers(name: Seq<char>)
    ensures
        hop_by_hop(name) <==> connection_headers().contains(name),
{
    let all = connection_headers();
    assert(all[0] == "connection"@ && all[1] == "keep-alive"@ && all[2] == "proxy-connection"@);
    assert(all[3] == "proxy-authenticate"@ && all[4] == "proxy-authorization"@);
    assert(all[5] == "te"@ && all[6] == "trailer"@ && all[7] == "transfer-encoding"@);
    assert(all[8] == "upgrade"@);
    if hop_by_hop(name) {
        let i = if name == "connection"@ {
            0int
        } else if name == "keep-alive"@ {
            1
        } else if name == "proxy-connection"@ {
            2
        } else if name == "proxy-authenticate"@ {
            3
        } else if name == "proxy-authorization"@ {
            4
        } else if name == "te"@ {
            5
        } else if name == "trailer"@ {
            6
        } else if name == "transfer-encoding"@ {
            7
        } else {
            8
        };
        assert(all[i] == name);
    }
}

/// An answer keeps all its headers with all their values, but those of one connection,
/// of which none is left.
pub proof fn law_answers_keep_their_headers(fields: Seq<(Seq<char>, Seq<u8>)>, name: Seq<char>)
    ensures
        stripped_values(fields, name) == if of_one_connection(fields, name) {
            Seq::empty()
        } else {
            values_of(fields, name)
        },
{
    law_connection_names(values_of(fields, "connection"@), name);
    lemma_connection_headers(name);
}

/// The first value under a name is that of the first field with that name; there is none
/// where no field has it.
pub proof fn law_first_value(fields: Seq<(Seq<char>, Seq<u8>)>, name: Seq<char>, i: int)
    ensures
        0 <= i < fields.len() && fields[i].0 == name && (forall|j: int|
            0 <= j < i ==> (#[trigger] fields[j]).0 != name) ==> values_of(fields, name).len() > 0
            && values_of(fields, name)[0] == fields[i].1,
        values_of(fields, name).len() == 0 <==> forall|j: int|
            0 <= j < fields.len() ==> (#[trigger] fields[j]).0 != name,
    decreases fields.len(),
{
    if fields.len() > 0 {
        let front = fields.drop_last();
        let before = values_of(front, name);
        law_first_value(front, name, i);
        assert(fields[fields.len() - 1] == fields.last());
        assert(forall|j: int| 0 <= j < front.len() ==> #[trigger] front[j] == fields[j]);
        if before.len() == 0 {
            if forall|j: int| 0 <= j < front.len() ==> (#[trigger] front[j]).0 != name {
                assert forall|j: int| 0 <= j < front.len() implies (#[trigger] fields[j]).0
                    != name by {
                    assert(front[j].0 != name);
                }
            }
        } else {
            let j = choose|j: int| 0 <= j < front.len() && (#[trigger] front[j]).0 == name;
            assert(fields[j].0 == name);
        }
        if 0 <= i < front.len() && fields[i].0 == name && (forall|j: int|
            0 <= j < i ==> (#[trigger] fields[j]).0 != name) {
            assert forall|j: int| 0 <= j < i implies (#[trigger] front[j]).0 != name by {
                assert(fields[j].0 != name);
            }
        }
        if i == front.len() && fields[i].0 == name && (forall|j: int|
            0 <= j < i ==> (#[trigger] fields[j]).0 != name) {
            assert forall|j: int| 0 <= j < front.len() implies (#[trigger] front[j]).0 != name by {
                assert(fields[j].0 != name);
            }
        }
    }
}

} // verus!
