//! What is sent to the backend for a request that passes.

use crate::headers;
use crate::text;
use vstd::prelude::*;

verus! {

/// A request as it goes to the backend: where to, and with which headers.
pub struct ForwardPlan {
    pub target: String,
    pub fields: Vec<(String, Vec<u8>)>,
}

/// A byte that a header value may hold.
pub open spec fn allowed_in_value(b: u8) -> bool {
    b >= 32 && b != 127 || b == 9
}

/// The text can be a header value.
pub open spec fn is_header_value(s: Seq<char>) -> bool {
    forall|i: int|
        0 <= i < text::bytes_of(s).len() ==> allowed_in_value(#[trigger] text::bytes_of(s)[i])
}

/// The fields that are passed on.
pub open spec fn passed_on(
    fields: Seq<(Seq<char>, Seq<u8>)>,
    tokens: Seq<Seq<char>>,
) -> Seq<(Seq<char>, Seq<u8>)>
    decreases fields.len(),
{
    if fields.len() == 0 {
        Seq::empty()
    } else {
        let before = passed_on(fields.drop_last(), tokens);
        if headers::forwardable(fields.last().0, tokens) {
            before.push(fields.last())
        } else {
            before
        }
    }
}

/// The fields that go to the backend: those passed on, and the address of the client.
pub open spec fn forwarded_fields(
    fields: Seq<(Seq<char>, Seq<u8>)>,
    client_ip: Seq<char>,
) -> Seq<(Seq<char>, Seq<u8>)> {
    let tokens = headers::hop_tokens(headers::values_of(fields, "connection"@));
    let kept = passed_on(fields, tokens);
    if is_header_value(client_ip) {
        kept.push(("x-forwarded-for"@, text::bytes_of(client_ip)))
    } else {
        kept
    }
}

/// Where a request goes: the path and query behind the address of the backend.
pub open spec fn target_of(backend: Seq<char>, path_and_query: Option<Seq<char>>) -> Seq<char> {
    match path_and_query {
        Some(p) => backend + p,
        None => backend + "/"@,
    }
}

fn can_be_value(s: &str) -> (r: bool)
    ensures
        r == is_header_value(s@),
{
    let bytes = s.as_bytes();
    let mut i: usize = 0;
    while i < bytes.len()
        invariant
            i <= bytes@.len(),
            bytes@ == text::bytes_of(s@),
            forall|k: int| 0 <= k < i ==> allowed_in_value(#[trigger] text::bytes_of(s@)[k]),
        decreases bytes@.len() - i,
    {
        let b = bytes[i];
        if !((b >= 32 && b != 127) || b == 9) {
            assert(!allowed_in_value(text::bytes_of(s@)[i as int]));
            return false;
        }
        i += 1;
    }
    true
}

/// The bytes of a text.
fn to_bytes(s: &str) -> (out: Vec<u8>)
    ensures
        out@ == text::bytes_of(s@),
{
    copy_bytes(s.as_bytes())
}

fn copy_bytes(v: &[u8]) -> (out: Vec<u8>)
    ensures
        out@ == v@,
{
    let mut out: Vec<u8> = Vec::new();
    let mut i: usize = 0;
    while i < v.len()
        invariant
            i <= v@.len(),
            out@ == v@.take(i as int),
        decreases v@.len() - i,
    {
        out.push(v[i]);
        assert(out@ =~= v@.take(i as int + 1));
        i += 1;
    }
    assert(v@.take(v@.len() as int) =~= v@);
    out
}

/// The request that goes to the backend for a request with these fields.
pub fn plan_fields(
    backend: &str,
    path_and_query: Option<&str>,
    fields: &Vec<(String, Vec<u8>)>,
    hop_tokens: &Vec<String>,
    client_ip: &str,
) -> (plan: ForwardPlan)
    ensures
        plan.target@ == target_of(backend@, crate::engine::opt_view(path_and_query)),
        headers::field_views(plan.fields@) == ({
            let kept = passed_on(headers::field_views(fields@), text::views(hop_tokens@));
            if is_header_value(client_ip@) {
                kept.push(("x-forwarded-for"@, text::bytes_of(client_ip@)))
            } else {
                kept
            }
        }),
{
    let target = match path_and_query {
        Some(p) => text::joined(backend, p),
        None => text::joined(backend, "/"),
    };
    let ghost all = headers::field_views(fields@);
    let ghost tokens = text::views(hop_tokens@);
    let mut out: Vec<(String, Vec<u8>)> = Vec::new();
    let mut i: usize = 0;
    assert(all.take(0) =~= Seq::<(Seq<char>, Seq<u8>)>::empty());
    assert(headers::field_views(out@) =~= Seq::<(Seq<char>, Seq<u8>)>::empty());
    while i < fields.len()
        invariant
            i <= fields@.len(),
            all == headers::field_views(fields@),
            tokens == text::views(hop_tokens@),
            headers::field_views(out@) == passed_on(all.take(i as int), tokens),
        decreases fields@.len() - i,
    {
        let ghost before = out@;
        assert(all.take(i as int + 1).drop_last() =~= all.take(i as int));
        assert(all.take(i as int + 1).last() == all[i as int]);
        let f = &fields[i];
        if headers::is_forwardable_header(f.0.as_str(), hop_tokens) {
            out.push((f.0.clone(), copy_bytes(&f.1)));
            assert(headers::field_views(out@) =~= headers::field_views(before).push(
                all[i as int],
            ));
        }
        i += 1;
    }
    assert(all.take(all.len() as int) =~= all);
    if can_be_value(client_ip) {
        let ghost before = out@;
        out.push(("x-forwarded-for".to_owned(), to_bytes(client_ip)));
        assert(headers::field_views(out@) =~= headers::field_views(before).push(
            ("x-forwarded-for"@, text::bytes_of(client_ip@)),
        ));
    }
    ForwardPlan { target, fields: out }
}

/// The request that goes to the backend.
pub fn forward_plan(
    backend: &str,
    path_and_query: Option<&str>,
    headers: &hyper::HeaderMap<hyper::header::HeaderValue>,
    client_ip: &str,
) -> (plan: ForwardPlan)
    ensures
        plan.target@ == target_of(backend@, crate::engine::opt_view(path_and_query)),
        headers::field_views(plan.fields@) == forwarded_fields(
            headers::header_fields(*headers),
            client_ip@,
        ),
{
    let tokens = headers::connection_hop_tokens(headers);
    let fields = headers::fields_of(headers);
    plan_fields(backend, path_and_query, &fields, &tokens, client_ip)
}

proof fn lemma_passed_on_values(
    fields: Seq<(Seq<char>, Seq<u8>)>,
    tokens: Seq<Seq<char>>,
    name: Seq<char>,
)
    ensures
        headers::values_of(passed_on(fields, tokens), name) == if headers::forwardable(
            name,
            tokens,
        ) {
            headers::values_of(fields, name)
        } else {
            Seq::empty()
        },
    decreases fields.len(),
{
    if fields.len() > 0 {
        lemma_passed_on_values(fields.drop_last(), tokens, name);
        let before = passed_on(fields.drop_last(), tokens);
        assert(before.push(fields.last()).drop_last() =~= before);
    }
}

/// Every header that is forwardable reaches the backend with all its values, in order.
pub proof fn law_end_to_end_headers_are_kept(
    fields: Seq<(Seq<char>, Seq<u8>)>,
    client_ip: Seq<char>,
    name: Seq<char>,
)
    requires
        headers::forwardable(
            name,
            headers::hop_tokens(headers::values_of(fields, "connection"@)),
        ),
    ensures
        headers::values_of(forwarded_fields(fields, client_ip), name) == headers::values_of(
            fields,
            name,
        ),
{
    let tokens = headers::hop_tokens(headers::values_of(fields, "connection"@));
    lemma_passed_on_values(fields, tokens, name);
    let kept = passed_on(fields, tokens);
    let added = ("x-forwarded-for"@, text::bytes_of(client_ip));
    assert(kept.push(added).drop_last() =~= kept);
}

/// No header that speaks of one connection only reaches the backend, nor the host, nor
/// an address that the client claims for itself: the only forwarding address is the
/// given one.
pub proof fn law_other_headers_are_dropped(
    fields: Seq<(Seq<char>, Seq<u8>)>,
    client_ip: Seq<char>,
    name: Seq<char>,
)
    requires
        !headers::forwardable(
            name,
            headers::hop_tokens(headers::values_of(fields, "connection"@)),
        ),
    ensures
        headers::values_of(forwarded_fields(fields, client_ip), name) == if name
            == "x-forwarded-for"@ && is_header_value(client_ip) {
            seq![text::bytes_of(client_ip)]
        } else {
            Seq::empty()
        },
{
    let tokens = headers::hop_tokens(headers::values_of(fields, "connection"@));
    lemma_passed_on_values(fields, tokens, name);
    let kept = passed_on(fields, tokens);
    let added = ("x-forwarded-for"@, text::bytes_of(client_ip));
    assert(kept.push(added).drop_last() =~= kept);
    assert(Seq::<Seq<u8>>::empty().push(added.1) =~= seq![text::bytes_of(client_ip)]);
}

/// The text of an address can be a header value, so the backend is always told the
/// address of the client, and is told no other.
pub proof fn law_client_address_is_always_told(
    fields: Seq<(Seq<char>, Seq<u8>)>,
    client: crate::addr::IpAddr,
)
    ensures
        headers::values_of(
            forwarded_fields(fields, crate::addr::show_ip(client)),
            "x-forwarded-for"@,
        ) == seq![text::bytes_of(crate::addr::show_ip(client))],
{
    let s = crate::addr::show_ip(client);
    crate::addr::lemma_ip_chars(client);
    assert(vstd::utf8::is_ascii_chars(s)) by {
        assert forall|i: int| 0 <= i < s.len() implies '\0' <= #[trigger] s[i] <= '\u{7f}' by {
            assert(crate::addr::address_char(s[i]));
        }
    }
    vstd::utf8::is_ascii_chars_encode_utf8(s);
    let b = text::bytes_of(s);
    assert forall|i: int| 0 <= i < b.len() implies allowed_in_value(#[trigger] b[i]) by {
        assert(crate::addr::address_char(s[i]));
        assert(b[i] == s[i] as u8);
    }
    law_other_headers_are_dropped(fields, s, "x-forwarded-for"@);
}

/// A header that is not among the dropped ones reaches the backend with the values that
/// the request has under that name, all of them and in their order; of those that are
/// dropped nothing reaches it, but for the address of the client.
pub proof fn law_headers_reach_the_backend(
    fields: Seq<(Seq<char>, Seq<u8>)>,
    client: crate::addr::IpAddr,
    name: Seq<char>,
)
    ensures
        headers::values_of(forwarded_fields(fields, crate::addr::show_ip(client)), name) == if name
            == "x-forwarded-for"@ {
            seq![text::bytes_of(crate::addr::show_ip(client))]
        } else if headers::is_dropped(fields, name) {
            Seq::empty()
        } else {
            fields.filter(|f: (Seq<char>, Seq<u8>)| f.0 == name).map_values(
                |f: (Seq<char>, Seq<u8>)| f.1,
            )
        },
{
    headers::law_headers_that_are_passed_on(fields, name);
    headers::law_values_of_a_name(fields, name);
    if name == "x-forwarded-for"@ {
        law_client_address_is_always_told(fields, client);
    } else if headers::is_dropped(fields, name) {
        law_other_headers_are_dropped(fields, crate::addr::show_ip(client), name);
    } else {
        law_end_to_end_headers_are_kept(fields, crate::addr::show_ip(client), name);
    }
}

/// The fields that reach the backend stand in the order in which the request has them,
/// and the address of the client stands behind them.
pub proof fn law_fields_keep_their_order(
    fields: Seq<(Seq<char>, Seq<u8>)>,
    client: crate::addr::IpAddr,
)
    ensures
        forwarded_fields(fields, crate::addr::show_ip(client)) == fields.filter(
            |f: (Seq<char>, Seq<u8>)| !headers::is_dropped(fields, f.0),
        ).push(("x-forwarded-for"@, text::bytes_of(crate::addr::show_ip(client)))),
{
    let s = crate::addr::show_ip(client);
    let tokens = headers::hop_tokens(headers::values_of(fields, "connection"@));
    lemma_passed_on_is_filtered(fields, fields, tokens);
    law_client_address_is_always_told(fields, client);
    if !is_header_value(s) {
        law_other_headers_are_dropped(fields, s, "x-forwarded-for"@);
        assert(seq![text::bytes_of(s)].len() == 1);
    }
}

proof fn lemma_passed_on_is_filtered(
    fields: Seq<(Seq<char>, Seq<u8>)>,
    all: Seq<(Seq<char>, Seq<u8>)>,
    tokens: Seq<Seq<char>>,
)
    requires
        tokens == headers::hop_tokens(headers::values_of(all, "connection"@)),
    ensures
        passed_on(fields, tokens) == fields.filter(
            |f: (Seq<char>, Seq<u8>)| !headers::is_dropped(all, f.0),
        ),
    decreases fields.len(),
{
    reveal(Seq::filter);
    if fields.len() > 0 {
        lemma_passed_on_is_filtered(fields.drop_last(), all, tokens);
        headers::law_headers_that_are_passed_on(all, fields.last().0);
    } else {
        assert(passed_on(fields, tokens) =~= fields.filter(
            |f: (Seq<char>, Seq<u8>)| !headers::is_dropped(all, f.0),
        ));
    }
}

/// A request goes to the address of the backend with its own path and query behind it,
/// or with `/` where it has none.
pub proof fn law_path_is_kept(backend: Seq<char>, path_and_query: Seq<char>)
    ensures
        target_of(backend, Some(path_and_query)) == backend + path_and_query,
        target_of(backend, None) == backend.push('/'),
{
    reveal_strlit("/");
    assert(backend + "/"@ =~= backend.push('/'));
}

/// A text can be a header value where its bytes are no control bytes but tabs.
pub proof fn law_header_values(s: Seq<char>)
    ensures
        is_header_value(s) <==> forall|i: int|
            0 <= i < text::bytes_of(s).len() ==> {
                let b = #[trigger] text::bytes_of(s)[i];
                b == 9 || (b > 31 && b != 127)
            },
{
    let all = text::bytes_of(s);
    if is_header_value(s) {
        assert forall|i: int| 0 <= i < all.len() implies {
            let b = #[trigger] all[i];
            b == 9 || (b > 31 && b != 127)
        } by {
            assert(allowed_in_value(all[i]));
        }
    }
    if forall|i: int|
        0 <= i < all.len() ==> {
            let b = #[trigger] all[i];
            b == 9 || (b > 31 && b != 127)
        } {
        assert forall|i: int| 0 <= i < all.len() implies allowed_in_value(#[trigger] all[i]) by {}
    }
}

} // verus!
