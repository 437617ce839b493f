//! Which headers cross the proxy, and which it adds.

use vstd::prelude::*;
use vstd::string::*;

use crate::affinity::opt_chars;
use crate::config::opt_view;
use crate::text;
use crate::VERSION;

verus! {

/// A header's name and value.
pub type HeaderView = (Seq<char>, Seq<char>);

pub open spec fn header_views(headers: Seq<(String, String)>) -> Seq<HeaderView> {
    headers.map_values(|h: (String, String)| (h.0@, h.1@))
}

/// Appends one header.
pub(crate) fn push_header(headers: &mut Vec<(String, String)>, name: &str, value: &str)
    ensures
        header_views(final(headers)@) == header_views(old(headers)@).push((name@, value@)),
{
    headers.push((name.to_owned(), value.to_owned()));
    assert(header_views(headers@) =~= header_views(old(headers)@).push((name@, value@)));
}

// ---------------------------------------------------------------------------
// Towards the upstream
// ---------------------------------------------------------------------------

/// A client header that does not go upstream: hop-by-hop, framing, compression
/// and credentials, whatever the case of its name.
pub open spec fn withheld(name: Seq<char>) -> bool {
    let n = text::lowered(name);
    ||| n == "connection"@
    ||| n == "keep-alive"@
    ||| n == "proxy-connection"@
    ||| n == "te"@
    ||| n == "trailer"@
    ||| n == "transfer-encoding"@
    ||| n == "upgrade"@
    ||| n == "expect"@
    ||| n == "host"@
    ||| n == "content-length"@
    ||| n == "authorization"@
    ||| n == "cookie"@
    ||| n == "accept-encoding"@
    ||| "proxy-"@.is_prefix_of(n)
}

/// The headers of `headers` that go upstream, in order.
pub open spec fn forwarded(headers: Seq<HeaderView>) -> Seq<HeaderView>
    decreases headers.len(),
{
    if headers.len() == 0 {
        seq![]
    } else {
        let rest = forwarded(headers.drop_last());
        if withheld(headers.last().0) {
            rest
        } else {
            rest.push(headers.last())
        }
    }
}

/// The headers of a request to the upstream: the client's, the credential of
/// the key that serves it, and a demand for an unencoded response.
pub open spec fn outgoing(headers: Seq<HeaderView>, secret: Option<Seq<char>>) -> Seq<HeaderView> {
    let own = match secret {
        Some(s) => forwarded(headers).push(("Authorization"@, "Bearer "@ + s)),
        None => forwarded(headers),
    };
    own.push(("Accept-Encoding"@, "identity"@))
}

/// Whether a client header called `name` stays here.
fn withholds(name: &str) -> (r: bool)
    ensures
        r == withheld(name@),
{
    let lower = text::lowercase(name);
    let n = lower.as_str();
    text::same(n, "connection") || text::same(n, "keep-alive") || text::same(n, "proxy-connection")
        || text::same(n, "te") || text::same(n, "trailer") || text::same(n, "transfer-encoding")
        || text::same(n, "upgrade") || text::same(n, "expect") || text::same(n, "host")
        || text::same(n, "content-length") || text::same(n, "authorization") || text::same(
        n,
        "cookie",
    ) || text::same(n, "accept-encoding") || text::starts_with(n, "proxy-")
}

/// The client headers that go upstream, in order.
pub fn curated_request_headers(headers: &Vec<(String, String)>) -> (r: Vec<(String, String)>)
    ensures
        header_views(r@) == forwarded(header_views(headers@)),
{
    let ghost all = header_views(headers@);
    let mut r: Vec<(String, String)> = Vec::new();
    assert(header_views(r@) =~= seq![]);
    assert(all.take(0) =~= seq![]);
    let mut i: usize = 0;
    while i < headers.len()
        invariant
            all == header_views(headers@),
            i <= headers@.len(),
            header_views(r@) == forwarded(all.take(i as int)),
        decreases headers@.len() - i,
    {
        proof {
            assert(all.take(i + 1).drop_last() =~= all.take(i as int));
            assert(all.take(i + 1).last() == (headers@[i as int].0@, headers@[i as int].1@));
        }
        if !withholds(headers[i].0.as_str()) {
            push_header(&mut r, headers[i].0.as_str(), headers[i].1.as_str());
        }
        i = i + 1;
    }
    assert(all.take(i as int) =~= all);
    r
}

/// The value of the header that carries a key.
pub fn bearer(secret: &str) -> (r: String)
    ensures
        r@ == "Bearer "@ + secret@,
{
    let mut s = "Bearer ".to_owned();
    s.append(secret);
    s
}

/// The headers of a request to the upstream, with the credential `secret` if
/// there is one.
pub fn request_headers(headers: &Vec<(String, String)>, secret: Option<&str>) -> (r: Vec<
    (String, String),
>)
    ensures
        header_views(r@) == outgoing(header_views(headers@), opt_view(secret)),
{
    let mut r = curated_request_headers(headers);
    if let Some(s) = secret {
        push_header(&mut r, "Authorization", bearer(s).as_str());
    }
    push_header(&mut r, "Accept-Encoding", "identity");
    r
}

/// The headers of a request for a key's usage.
pub fn usage_headers(secret: &str) -> (r: Vec<(String, String)>)
    ensures
        header_views(r@) == seq![
            ("Authorization"@, "Bearer "@ + secret@),
            ("Accept"@, "application/json"@),
        ],
{
    let mut r: Vec<(String, String)> = Vec::new();
    push_header(&mut r, "Authorization", bearer(secret).as_str());
    push_header(&mut r, "Accept", "application/json");
    assert(header_views(r@) =~= seq![
        ("Authorization"@, "Bearer "@ + secret@),
        ("Accept"@, "application/json"@),
    ]);
    r
}

// ---------------------------------------------------------------------------
// Towards the client
// ---------------------------------------------------------------------------

/// An upstream header that is not relayed: hop-by-hop, framing and cookies.
/// Names of upstream headers are in lower case.
pub open spec fn held_back(name: Seq<char>) -> bool {
    ||| name == "connection"@
    ||| name == "keep-alive"@
    ||| name == "transfer-encoding"@
    ||| name == "te"@
    ||| name == "trailer"@
    ||| name == "upgrade"@
    ||| name == "set-cookie"@
    ||| name == "alt-svc"@
    ||| name == "content-length"@
}

/// A header name and all its values.
pub type EntryView = (Seq<char>, Seq<Seq<char>>);

pub open spec fn entry_views(entries: Seq<(String, Vec<String>)>) -> Seq<EntryView> {
    entries.map_values(|e: (String, Vec<String>)| (e.0@, text::views(e.1@)))
}

/// `name` with each of `values`.
pub open spec fn with_values(name: Seq<char>, values: Seq<Seq<char>>) -> Seq<HeaderView> {
    values.map_values(|v: Seq<char>| (name, v))
}

/// The headers that are relayed of an upstream response: each entry with all
/// its values, in order. A name that is listed again sends its values again.
pub open spec fn relayed(entries: Seq<EntryView>) -> Seq<HeaderView>
    decreases entries.len(),
{
    if entries.len() == 0 {
        seq![]
    } else {
        let before = entries.drop_last();
        let (name, values) = entries.last();
        if held_back(name) {
            relayed(before)
        } else {
            relayed(before) + with_values(name, values)
        }
    }
}

/// Whether an upstream header called `name` is not relayed.
fn holds_back(name: &str) -> (r: bool)
    ensures
        r == held_back(name@),
{
    text::same(name, "connection") || text::same(name, "keep-alive") || text::same(
        name,
        "transfer-encoding",
    ) || text::same(name, "te") || text::same(name, "trailer") || text::same(name, "upgrade")
        || text::same(name, "set-cookie") || text::same(name, "alt-svc") || text::same(
        name,
        "content-length",
    )
}

/// The headers that are relayed of an upstream response, given each header
/// name that it lists (in lower case) with all the values of that name.
pub fn curated_response_headers(entries: &Vec<(String, Vec<String>)>) -> (r: Vec<(String, String)>)
    ensures
        header_views(r@) == relayed(entry_views(entries@)),
{
    let ghost all = entry_views(entries@);
    let mut r: Vec<(String, String)> = Vec::new();
    assert(header_views(r@) =~= seq![]);
    assert(all.take(0) =~= seq![]);
    let mut i: usize = 0;
    while i < entries.len()
        invariant
            all == entry_views(entries@),
            i <= entries@.len(),
            header_views(r@) == relayed(all.take(i as int)),
        decreases entries@.len() - i,
    {
        let name = entries[i].0.as_str();
        let values = &entries[i].1;
        proof {
            assert(all.take(i + 1).drop_last() =~= all.take(i as int));
            assert(all.take(i + 1).last() == (name@, text::views(values@)));
        }
        if !holds_back(name) {
            let ghost before = header_views(r@);
            let ghost added = with_values(name@, text::views(values@));
            let mut j: usize = 0;
            assert(before + added.take(0) =~= before);
            while j < values.len()
                invariant
                    j <= values@.len(),
                    added == with_values(name@, text::views(values@)),
                    header_views(r@) == before + added.take(j as int),
                decreases values@.len() - j,
            {
                push_header(&mut r, name, values[j].as_str());
                proof {
                    assert(added[j as int] == (name@, values@[j as int]@));
                    assert(before + added.take(j + 1) =~= (before + added.take(j as int)).push(
                        added[j as int],
                    ));
                }
                j = j + 1;
            }
            assert(added.take(j as int) =~= added);
        }
        i = i + 1;
    }
    assert(all.take(i as int) =~= all);
    r
}

/// How a request fared with its pin.
#[derive(Debug, Clone, Copy, PartialEq, Eq, Structural)]
pub enum Affinity {
    /// The pinned key served it.
    Hit,
    /// There was no pin, or none that could serve.
    Miss,
    /// Affinity is off, or the request has no identity.
    Off,
}

pub open spec fn affinity_text(a: Affinity) -> Seq<char> {
    match a {
        Affinity::Hit => "hit"@,
        Affinity::Miss => "miss"@,
        Affinity::Off => "off"@,
    }
}

impl Affinity {
    /// The value of the header that reports it.
    pub fn text(self) -> (r: &'static str)
        ensures
            r@ == affinity_text(self),
    {
        match self {
            Affinity::Hit => "hit",
            Affinity::Miss => "miss",
            Affinity::Off => "off",
        }
    }
}

/// Which key served a request, and how.
#[derive(Debug)]
pub struct Served {
    /// The last characters of the key; absent if no key was needed.
    pub suffix: Option<String>,
    pub retries: usize,
    pub affinity: Affinity,
}

#[verifier::ext_equal]
pub struct ServedView {
    pub suffix: Option<Seq<char>>,
    pub retries: int,
    pub affinity: Affinity,
}

impl View for Served {
    type V = ServedView;

    open spec fn view(&self) -> ServedView {
        ServedView {
            suffix: opt_chars(self.suffix),
            retries: self.retries as int,
            affinity: self.affinity,
        }
    }
}

/// What the proxy calls itself, in every response.
pub open spec fn identity_value() -> Seq<char> {
    "ollamux/"@ + VERSION@
}

/// What the proxy calls itself, in every response.
pub fn identity_header() -> (r: (String, String))
    ensures
        (r.0@, r.1@) == ("X-Ollamux"@, identity_value()),
{
    let mut s = "ollamux/".to_owned();
    s.append(VERSION);
    ("X-Ollamux".to_owned(), s)
}

/// The headers that say which key served a request and how: without a key,
/// only how often it was tried.
pub open spec fn attribution(served: ServedView) -> Seq<HeaderView> {
    let retries = ("X-Ollamux-Retries"@, text::decimal(served.retries as nat));
    match served.suffix {
        Some(suffix) => seq![
            ("X-Ollamux-Key"@, suffix),
            retries,
            ("X-Ollamux-Affinity"@, affinity_text(served.affinity)),
        ],
        None => seq![retries],
    }
}

/// The headers of a relayed response.
pub open spec fn incoming(headers: Seq<HeaderView>, served: ServedView) -> Seq<HeaderView> {
    (headers + attribution(served)).push(("X-Ollamux"@, identity_value()))
}

/// The headers that say which key served a request and how.
pub(crate) fn attribution_headers(served: &Served) -> (r: Vec<(String, String)>)
    ensures
        header_views(r@) == attribution(served@),
{
    let mut r: Vec<(String, String)> = Vec::new();
    if let Some(suffix) = &served.suffix {
        push_header(&mut r, "X-Ollamux-Key", suffix.as_str());
    }
    push_header(&mut r, "X-Ollamux-Retries", text::to_decimal(served.retries as u64).as_str());
    if served.suffix.is_some() {
        push_header(&mut r, "X-Ollamux-Affinity", served.affinity.text());
    }
    assert(header_views(r@) =~= attribution(served@));
    r
}

/// The headers of a relayed response, given those relayed of the upstream's.
pub fn response_headers(headers: &Vec<(String, String)>, served: &Served) -> (r: Vec<
    (String, String),
>)
    ensures
        header_views(r@) == incoming(header_views(headers@), served@),
{
    let own = attribution_headers(served);
    let mut r: Vec<(String, String)> = Vec::new();
    append_headers(&mut r, headers);
    append_headers(&mut r, &own);
    let (name, value) = identity_header();
    push_header(&mut r, name.as_str(), value.as_str());
    assert(header_views(r@) =~= incoming(header_views(headers@), served@));
    r
}

/// Appends `more` to `headers`.
fn append_headers(headers: &mut Vec<(String, String)>, more: &Vec<(String, String)>)
    ensures
        header_views(final(headers)@) == header_views(old(headers)@) + header_views(more@),
{
    let ghost before = header_views(headers@);
    let ghost added = header_views(more@);
    let mut i: usize = 0;
    assert(before + added.take(0) =~= before);
    while i < more.len()
        invariant
            i <= more@.len(),
            added == header_views(more@),
            before == header_views(old(headers)@),
            header_views(headers@) == before + added.take(i as int),
        decreases more@.len() - i,
    {
        push_header(headers, more[i].0.as_str(), more[i].1.as_str());
        proof {
            assert(added[i as int] == (more@[i as int].0@, more@[i as int].1@));
            assert(before + added.take(i + 1) =~= (before + added.take(i as int)).push(
                added[i as int],
            ));
        }
        i = i + 1;
    }
    assert(added.take(i as int) =~= added);
}

/// The headers of a response that the proxy makes up.
pub open spec fn own_headers(retry_after: Option<int>) -> Seq<HeaderView> {
    let base = seq![
        ("Content-Type"@, "application/json"@),
        ("X-Ollamux"@, identity_value()),
    ];
    match retry_after {
        Some(secs) => base.push(("Retry-After"@, text::decimal(secs as nat))),
        None => base,
    }
}

/// The headers of a response that the proxy makes up.
pub fn reply_headers(retry_after_s: Option<u64>) -> (r: Vec<(String, String)>)
    ensures
        header_views(r@) == own_headers(
            match retry_after_s {
                Some(s) => Some(s as int),
                None => None,
            },
        ),
{
    let mut r: Vec<(String, String)> = Vec::new();
    push_header(&mut r, "Content-Type", "application/json");
    let (name, value) = identity_header();
    push_header(&mut r, name.as_str(), value.as_str());
    assert(header_views(r@) =~= own_headers(None));
    if let Some(secs) = retry_after_s {
        push_header(&mut r, "Retry-After", text::to_decimal(secs).as_str());
    }
    r
}

// ---------------------------------------------------------------------------
// Laws
// ---------------------------------------------------------------------------

/// What goes upstream of the client's headers is in its order, and holds none
/// that is withheld.
pub proof fn law_forwarded_headers(headers: Seq<HeaderView>, i: int)
    requires
        0 <= i < forwarded(headers).len(),
    ensures
        headers.contains(forwarded(headers)[i]),
        !withheld(forwarded(headers)[i].0),
    decreases headers.len(),
{
    let last = headers.last();
    if withheld(last.0) || i < forwarded(headers.drop_last()).len() {
        law_forwarded_headers(headers.drop_last(), i);
        let h = forwarded(headers)[i];
        let j = choose|j: int|
            0 <= j < headers.drop_last().len() && headers.drop_last()[j] == h;
        assert(headers[j] == h);
    } else {
        assert(headers[headers.len() - 1] == last);
    }
}

/// A header that is not withheld goes upstream.
pub proof fn law_other_headers_are_forwarded(headers: Seq<HeaderView>, i: int)
    requires
        0 <= i < headers.len(),
        !withheld(headers[i].0),
    ensures
        forwarded(headers).contains(headers[i]),
    decreases headers.len(),
{
    let rest = forwarded(headers.drop_last());
    if i == headers.len() - 1 {
        assert(forwarded(headers)[rest.len() as int] == headers[i]);
    } else {
        law_other_headers_are_forwarded(headers.drop_last(), i);
        let j = choose|j: int| 0 <= j < rest.len() && rest[j] == headers[i];
        assert(forwarded(headers)[j] == headers[i]);
    }
}

/// The upstream sees no credential of the client: with a key, the one
/// authorization header is that key's, and without one there is none.
pub proof fn law_credentials_are_the_pools(
    headers: Seq<HeaderView>,
    secret: Option<Seq<char>>,
    i: int,
)
    requires
        0 <= i < outgoing(headers, secret).len(),
        text::lowered(outgoing(headers, secret)[i].0) == "authorization"@,
    ensures
        secret is Some,
        outgoing(headers, secret)[i] == ("Authorization"@, "Bearer "@ + secret->0),
{
    let kept = forwarded(headers);
    if i < kept.len() {
        law_forwarded_headers(headers, i);
    } else if outgoing(headers, secret)[i] == ("Accept-Encoding"@, "identity"@) {
        reveal_strlit("Accept-Encoding");
        reveal_strlit("authorization");
        assert(text::lowered("Accept-Encoding"@).len() == 15);
        assert("authorization"@.len() == 13);
    }
}

/// What is relayed of the upstream's headers holds none that is held back, and
/// nothing that the upstream did not send.
pub proof fn law_relayed_headers(entries: Seq<EntryView>, i: int)
    requires
        0 <= i < relayed(entries).len(),
    ensures
        !held_back(relayed(entries)[i].0),
        exists|j: int|
            0 <= j < entries.len() && (#[trigger] entries[j]).0 == relayed(entries)[i].0
                && entries[j].1.contains(relayed(entries)[i].1),
    decreases entries.len(),
{
    let before = entries.drop_last();
    let (name, values) = entries.last();
    if i < relayed(before).len() {
        law_relayed_headers(before, i);
        let j = choose|j: int|
            0 <= j < before.len() && (#[trigger] before[j]).0 == relayed(before)[i].0
                && before[j].1.contains(relayed(before)[i].1);
        assert(entries[j] == before[j]);
    } else {
        let k = i - relayed(before).len();
        assert(values[k] == relayed(entries)[i].1);
        assert(entries[entries.len() - 1].0 == name);
    }
}

/// Every response says that it came through the proxy.
pub proof fn law_every_response_is_attributable(
    headers: Seq<HeaderView>,
    served: ServedView,
    retry_after: Option<int>,
)
    ensures
        incoming(headers, served).contains(("X-Ollamux"@, identity_value())),
        own_headers(retry_after).contains(("X-Ollamux"@, identity_value())),
{
    assert(incoming(headers, served).last() == ("X-Ollamux"@, identity_value()));
    assert(own_headers(retry_after)[1] == ("X-Ollamux"@, identity_value()));
}

/// A response names a key, and says how affinity fared, only if a key served
/// it.
pub proof fn law_no_key_no_claim(served: ServedView, i: int)
    requires
        served.suffix is None,
        0 <= i < attribution(served).len(),
    ensures
        attribution(served)[i].0 == "X-Ollamux-Retries"@,
{
}

/// What stays here of a client's headers is named by this list, whatever the
/// case of the letters, or starts with `proxy-`: hop-by-hop headers, framing,
/// compression and credentials. Every other header goes upstream as it is, as
/// often as it came and in the same order.
pub proof fn law_forwarding_goes_by_name(
    a: Seq<HeaderView>,
    b: Seq<HeaderView>,
    h: HeaderView,
)
    ensures
        forwarded(a + b) == forwarded(a) + forwarded(b),
        forwarded(seq![]) == Seq::<HeaderView>::empty(),
        ({
            let n = text::lowered(h.0);
            let stays = n == "connection"@ || n == "keep-alive"@ || n == "proxy-connection"@ || n
                == "te"@ || n == "trailer"@ || n == "transfer-encoding"@ || n == "upgrade"@ || n
                == "expect"@ || n == "host"@ || n == "content-length"@ || n == "authorization"@
                || n == "cookie"@ || n == "accept-encoding"@ || "proxy-"@.is_prefix_of(n);
            &&& stays ==> forwarded(seq![h]) == Seq::<HeaderView>::empty()
            &&& !stays ==> forwarded(seq![h]) == seq![h]
        }),
    decreases b.len(),
{
    assert(seq![h].drop_last() =~= seq![]);
    assert(forwarded(seq![h].drop_last()) =~= seq![]);
    if b.len() > 0 {
        law_forwarding_goes_by_name(a, b.drop_last(), h);
        assert((a + b).drop_last() =~= a + b.drop_last());
        assert(forwarded(a + b) =~= forwarded(a) + forwarded(b));
    } else {
        assert(a + b =~= a);
        assert(forwarded(a) + forwarded(b) =~= forwarded(a));
    }
}

/// A request goes upstream with the client's headers first, then the key as a
/// bearer token if it needs one, and then the demand for an unencoded response.
pub proof fn law_requests_carry_the_key(headers: Seq<HeaderView>, secret: Seq<char>)
    ensures
        outgoing(headers, Some(secret)) == forwarded(headers) + seq![
            ("Authorization"@, "Bearer "@ + secret),
            ("Accept-Encoding"@, "identity"@),
        ],
        outgoing(headers, None) == forwarded(headers) + seq![("Accept-Encoding"@, "identity"@)],
{
}

/// What is held back of an upstream's headers is named by this list: hop-by-hop
/// headers, framing, cookies and alternative services. Every other header is
/// relayed with all its values, in order, each time that it is listed.
pub proof fn law_relaying_goes_by_name(a: Seq<EntryView>, b: Seq<EntryView>, e: EntryView)
    ensures
        relayed(a + b) == relayed(a) + relayed(b),
        relayed(seq![]) == Seq::<HeaderView>::empty(),
        ({
            let n = e.0;
            let stays = n == "connection"@ || n == "keep-alive"@ || n == "transfer-encoding"@ || n
                == "te"@ || n == "trailer"@ || n == "upgrade"@ || n == "set-cookie"@ || n
                == "alt-svc"@ || n == "content-length"@;
            &&& stays ==> relayed(seq![e]) == Seq::<HeaderView>::empty()
            &&& !stays ==> relayed(seq![e]).len() == e.1.len()
            &&& !stays ==> forall|i: int|
                0 <= i < e.1.len() ==> #[trigger] relayed(seq![e])[i] == (n, e.1[i])
        }),
    decreases b.len(),
{
    assert(seq![e].drop_last() =~= seq![]);
    assert(relayed(seq![e].drop_last()) =~= seq![]);
    if b.len() > 0 {
        law_relaying_goes_by_name(a, b.drop_last(), e);
        assert((a + b).drop_last() =~= a + b.drop_last());
        assert(relayed(a + b) =~= relayed(a) + relayed(b));
    } else {
        assert(a + b =~= a);
        assert(relayed(a) + relayed(b) =~= relayed(a));
    }
}

/// A response that a key served names its end, the attempts before, and how the
/// request fared with its pin; one that needed no key tells the attempts only.
pub proof fn law_responses_say_who_served_them(headers: Seq<HeaderView>, served: ServedView)
    requires
        served.retries >= 0,
    ensures
        headers.is_prefix_of(incoming(headers, served)),
        incoming(headers, served).contains(
            ("X-Ollamux-Retries"@, text::decimal(served.retries as nat)),
        ),
        served.suffix matches Some(suffix) ==> {
            &&& incoming(headers, served).contains(("X-Ollamux-Key"@, suffix))
            &&& incoming(headers, served).len() == headers.len() + 4
            &&& served.affinity == Affinity::Hit ==> incoming(headers, served).contains(
                ("X-Ollamux-Affinity"@, "hit"@),
            )
            &&& served.affinity == Affinity::Miss ==> incoming(headers, served).contains(
                ("X-Ollamux-Affinity"@, "miss"@),
            )
            &&& served.affinity == Affinity::Off ==> incoming(headers, served).contains(
                ("X-Ollamux-Affinity"@, "off"@),
            )
        },
        served.suffix is None ==> incoming(headers, served).len() == headers.len() + 2,
        identity_value() == "ollamux/"@ + VERSION@,
{
    let all = incoming(headers, served);
    let n = headers.len() as int;
    assert(headers =~= all.take(n));
    match served.suffix {
        Some(suffix) => {
            assert(all[n] == ("X-Ollamux-Key"@, suffix));
            assert(all[n + 1] == ("X-Ollamux-Retries"@, text::decimal(served.retries as nat)));
            assert(all[n + 2] == ("X-Ollamux-Affinity"@, affinity_text(served.affinity)));
        },
        None => {
            assert(all[n] == ("X-Ollamux-Retries"@, text::decimal(served.retries as nat)));
        },
    }
}

/// What the proxy answers itself is JSON, and tells when to come back exactly
/// where there is a time to tell.
pub proof fn law_own_responses(retry_after: Option<int>)
    requires
        retry_after matches Some(s) ==> s >= 0,
    ensures
        own_headers(retry_after)[0] == ("Content-Type"@, "application/json"@),
        retry_after matches Some(s) ==> own_headers(retry_after).len() == 3 && own_headers(
            retry_after,
        )[2] == ("Retry-After"@, text::decimal(s as nat)),
        retry_after is None ==> own_headers(retry_after).len() == 2,
{
}

} // verus!
