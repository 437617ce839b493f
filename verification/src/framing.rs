//! Framing of a streamed response: its head, and the chunks of its body.

use vstd::prelude::*;
use vstd::string::*;

use crate::exchange::Delivery;
use crate::headers::{self, header_views, identity_header, HeaderView, Served, ServedView};
use crate::proxy::{phrase, reason_phrase};
use crate::text;

verus! {

/// Bytes that are read of the upstream at a time.
pub const CHUNK: usize = 16384;

// ---------------------------------------------------------------------------
// Head
// ---------------------------------------------------------------------------

/// One header as a line.
pub open spec fn header_line(h: HeaderView) -> Seq<char> {
    h.0 + ": "@ + h.1 + "\r\n"@
}

/// Headers as lines.
pub open spec fn header_lines(hs: Seq<HeaderView>) -> Seq<char>
    decreases hs.len(),
{
    if hs.len() == 0 {
        seq![]
    } else {
        header_lines(hs.drop_last()) + header_line(hs.last())
    }
}

/// `hs` without the length of the body, which framing replaces.
pub open spec fn unframed_headers(hs: Seq<HeaderView>) -> Seq<HeaderView>
    decreases hs.len(),
{
    if hs.len() == 0 {
        seq![]
    } else {
        let rest = unframed_headers(hs.drop_last());
        if text::lowered(hs.last().0) == "content-length"@ {
            rest
        } else {
            rest.push(hs.last())
        }
    }
}

/// The head of a streamed response. A client that speaks HTTP/1.0 gets no
/// chunks: the end of the connection is the end of the body.
pub open spec fn head(
    status: int,
    http10: bool,
    headers: Seq<HeaderView>,
    served: ServedView,
) -> Seq<char> {
    "HTTP/1.1 "@ + text::decimal(status as nat) + " "@ + phrase(status) + "\r\n"@ + header_lines(
        seq![("X-Ollamux"@, headers::identity_value())] + headers::attribution(served)
            + unframed_headers(headers),
    ) + if http10 {
        "Connection: close\r\n\r\n"@
    } else {
        "Transfer-Encoding: chunked\r\n\r\n"@
    }
}

/// Appends one header to `s`, as a line.
fn append_line(s: &mut String, name: &str, value: &str)
    ensures
        final(s)@ == old(s)@ + header_line((name@, value@)),
{
    s.append(name);
    s.append(": ");
    s.append(value);
    s.append("\r\n");
    assert(s@ =~= old(s)@ + header_line((name@, value@)));
}

proof fn lemma_lines_split(a: Seq<HeaderView>, b: Seq<HeaderView>)
    ensures
        header_lines(a + b) == header_lines(a) + header_lines(b),
    decreases b.len(),
{
    if b.len() == 0 {
        assert(a + b =~= a);
    } else {
        lemma_lines_split(a, b.drop_last());
        assert((a + b).drop_last() =~= a + b.drop_last());
        assert((a + b).last() == b.last());
    }
}

/// Appends `headers` to `s`, as lines.
fn append_lines(s: &mut String, headers: &Vec<(String, String)>)
    ensures
        final(s)@ == old(s)@ + header_lines(header_views(headers@)),
{
    let ghost before = s@;
    let ghost all = header_views(headers@);
    let mut i: usize = 0;
    assert(all.take(0) =~= seq![]);
    assert(before + header_lines(all.take(0)) =~= before);
    while i < headers.len()
        invariant
            i <= headers@.len(),
            all == header_views(headers@),
            s@ == before + header_lines(all.take(i as int)),
            before == old(s)@,
        decreases headers@.len() - i,
    {
        append_line(s, headers[i].0.as_str(), headers[i].1.as_str());
        proof {
            assert(all.take(i + 1).drop_last() =~= all.take(i as int));
            assert(all.take(i + 1).last() == (headers@[i as int].0@, headers@[i as int].1@));
            assert(s@ =~= before + header_lines(all.take(i + 1)));
        }
        i = i + 1;
    }
    assert(all.take(i as int) =~= all);
}

/// `headers` without the length of the body.
fn without_length(headers: &Vec<(String, String)>) -> (r: Vec<(String, String)>)
    ensures
        header_views(r@) == unframed_headers(header_views(headers@)),
{
    let ghost all = header_views(headers@);
    let mut r: Vec<(String, String)> = Vec::new();
    assert(header_views(r@) =~= seq![]);
    assert(all.take(0) =~= seq![]);
    let mut i: usize = 0;
    while i < headers.len()
        invariant
            all == header_views(headers@),
            i <= headers@.len(),
            header_views(r@) == unframed_headers(all.take(i as int)),
        decreases headers@.len() - i,
    {
        proof {
            assert(all.take(i + 1).drop_last() =~= all.take(i as int));
            assert(all.take(i + 1).last() == (headers@[i as int].0@, headers@[i as int].1@));
        }
        let lower = text::lowercase(headers[i].0.as_str());
        if !text::same(lower.as_str(), "content-length") {
            headers::push_header(&mut r, headers[i].0.as_str(), headers[i].1.as_str());
        }
        i = i + 1;
    }
    assert(all.take(i as int) =~= all);
    r
}

/// The head of a streamed response, given the headers relayed of the
/// upstream's.
pub fn stream_head(
    status: u16,
    http10: bool,
    headers: &Vec<(String, String)>,
    served: &Served,
) -> (r: String)
    ensures
        r@ == head(status as int, http10, header_views(headers@), served@),
{
    let own = headers::attribution_headers(served);
    let rest = without_length(headers);
    let (name, value) = identity_header();
    let mut s = "HTTP/1.1 ".to_owned();
    s.append(text::to_decimal(status as u64).as_str());
    s.append(" ");
    s.append(reason_phrase(status));
    s.append("\r\n");
    let ghost first = s@;
    append_line(&mut s, name.as_str(), value.as_str());
    append_lines(&mut s, &own);
    append_lines(&mut s, &rest);
    proof {
        let ident = seq![("X-Ollamux"@, headers::identity_value())];
        let mid = header_views(own@);
        let end = header_views(rest@);
        lemma_lines_split(ident, mid);
        lemma_lines_split(ident + mid, end);
        assert(ident.drop_last() =~= seq![]);
        assert(header_lines(seq![]) =~= seq![]);
        assert(header_lines(ident) =~= header_lines(ident.drop_last()) + header_line(ident.last()));
        assert(s@ =~= first + header_lines(ident + mid + end));
    }
    if http10 {
        s.append("Connection: close\r\n\r\n");
    } else {
        s.append("Transfer-Encoding: chunked\r\n\r\n");
    }
    s
}

// ---------------------------------------------------------------------------
// Chunks
// ---------------------------------------------------------------------------

/// The hexadecimal digit for `d`, in ASCII.
pub open spec fn hex_digit(d: int) -> u8 {
    if d < 10 {
        (48 + d) as u8
    } else {
        (87 + d) as u8
    }
}

/// `n` in hexadecimal, in ASCII.
pub open spec fn hex(n: nat) -> Seq<u8>
    decreases n,
{
    if n < 16 {
        seq![hex_digit(n as int)]
    } else {
        hex(n / 16).push(hex_digit((n % 16) as int))
    }
}

/// The end of a line.
pub open spec fn crlf() -> Seq<u8> {
    seq![13u8, 10u8]
}

/// `data` as one chunk: its length in hexadecimal, and itself.
pub open spec fn chunk(data: Seq<u8>) -> Seq<u8> {
    hex(data.len()) + crlf() + data + crlf()
}

/// What ends a chunked body.
pub open spec fn end_of_chunks() -> Seq<u8> {
    seq![48u8] + crlf() + crlf()
}

/// One part of a body, as it goes to the client.
pub open spec fn framed(http10: bool, data: Seq<u8>) -> Seq<u8> {
    if http10 {
        data
    } else {
        chunk(data)
    }
}

/// What goes to the client behind the last part.
pub open spec fn closing(http10: bool) -> Seq<u8> {
    if http10 {
        seq![]
    } else {
        end_of_chunks()
    }
}

/// All that goes to the client of a body that came in `parts`.
pub open spec fn stream_of(http10: bool, parts: Seq<Seq<u8>>) -> Seq<u8>
    decreases parts.len(),
{
    if parts.len() == 0 {
        closing(http10)
    } else {
        framed(http10, parts[0]) + stream_of(http10, parts.skip(1))
    }
}

/// `n` in hexadecimal, in ASCII.
fn to_hex(n: usize) -> (r: Vec<u8>)
    ensures
        r@ == hex(n as nat),
    decreases n,
{
    if n < 16 {
        let d: u8 = n as u8;
        let mut r: Vec<u8> = Vec::new();
        r.push(
            if d < 10 {
                48 + d
            } else {
                87 + d
            },
        );
        assert(r@ =~= hex(n as nat));
        r
    } else {
        let d: u8 = (n % 16) as u8;
        let mut r = to_hex(n / 16);
        r.push(
            if d < 10 {
                48 + d
            } else {
                87 + d
            },
        );
        r
    }
}

/// `data` as one chunk of a chunked body.
fn frame_chunk(data: &[u8]) -> (r: Vec<u8>)
    ensures
        r@ == chunk(data@),
{
    let mut r = to_hex(data.len());
    let ghost size = r@;
    r.push(13);
    r.push(10);
    let ghost first = r@;
    let mut i: usize = 0;
    assert(first =~= size + crlf());
    assert(first + data@.take(0) =~= first);
    while i < data.len()
        invariant
            i <= data@.len(),
            r@ == first + data@.take(i as int),
        decreases data@.len() - i,
    {
        r.push(data[i]);
        assert(first + data@.take(i + 1) =~= (first + data@.take(i as int)).push(data@[i as int]));
        i = i + 1;
    }
    assert(data@.take(i as int) =~= data@);
    r.push(13);
    r.push(10);
    assert(r@ =~= chunk(data@));
    r
}

/// What ends a chunked body.
fn last_chunk() -> (r: Vec<u8>)
    ensures
        r@ == end_of_chunks(),
{
    let mut r: Vec<u8> = Vec::new();
    r.push(48);
    r.push(13);
    r.push(10);
    r.push(13);
    r.push(10);
    assert(r@ =~= end_of_chunks());
    r
}

/// What to do after a read of the upstream in the middle of a stream.
#[derive(Debug)]
pub struct StreamStep {
    /// What goes to the client.
    pub bytes: Vec<u8>,
    /// How the stream has ended, if it has.
    pub end: Option<Delivery>,
}

/// What goes to the client after a read of the upstream, and how the stream has
/// ended, if it has.
pub open spec fn stepped(http10: bool, read: Option<Seq<u8>>) -> (Seq<u8>, Option<Delivery>) {
    match read {
        Some(data) => if data.len() > 0 {
            (framed(http10, data), None)
        } else {
            (closing(http10), Some(Delivery::Complete))
        },
        None => (closing(http10), Some(Delivery::Broken)),
    }
}

/// What to do after a read of the upstream: `read` holds what came (nothing at
/// the end of the body), or is absent if the upstream broke off. The stream is
/// then closed all the same, so that the client sees a complete if truncated
/// response: no other key can take over once bytes have been sent.
pub fn stream_step(http10: bool, read: Option<&[u8]>) -> (r: StreamStep)
    ensures
        match read {
            Some(data) => if data@.len() > 0 {
                r.bytes@ == framed(http10, data@) && r.end is None
            } else {
                r.bytes@ == closing(http10) && r.end == Some(Delivery::Complete)
            },
            None => r.bytes@ == closing(http10) && r.end == Some(Delivery::Broken),
        },
        (r.bytes@, r.end) == stepped(
            http10,
            match read {
                Some(data) => Some(data@),
                None => None,
            },
        ),
{
    if let Some(data) = read {
        if data.len() > 0 {
            let bytes = if http10 {
                vstd::slice::slice_to_vec(data)
            } else {
                frame_chunk(data)
            };
            return StreamStep { bytes, end: None };
        }
    }
    let bytes = if http10 {
        Vec::new()
    } else {
        last_chunk()
    };
    assert(bytes@ =~= closing(http10));
    StreamStep {
        bytes,
        end: if read.is_some() {
            Some(Delivery::Complete)
        } else {
            Some(Delivery::Broken)
        },
    }
}

// ---------------------------------------------------------------------------
// Laws
// ---------------------------------------------------------------------------

/// The value of the hexadecimal digit `b`, if it is one.
pub open spec fn hex_digit_value(b: u8) -> Option<nat> {
    if 48 <= b <= 57 {
        Some((b - 48) as nat)
    } else if 97 <= b <= 102 {
        Some((b - 87) as nat)
    } else {
        None
    }
}

/// The number that `s` is in hexadecimal, if it is one.
pub open spec fn hex_value(s: Seq<u8>) -> Option<nat>
    decreases s.len(),
{
    if s.len() == 0 {
        None
    } else {
        match hex_digit_value(s.last()) {
            Some(d) => if s.len() == 1 {
                Some(d)
            } else {
                match hex_value(s.drop_last()) {
                    Some(n) => Some(n * 16 + d),
                    None => None,
                }
            },
            None => None,
        }
    }
}

/// The position of the first carriage return in `s` (the length of `s` if
/// there is none).
pub open spec fn line_end(s: Seq<u8>) -> int
    decreases s.len(),
{
    if s.len() == 0 || s[0] == 13 {
        0
    } else {
        1 + line_end(s.skip(1))
    }
}

/// The body that a client reads out of the chunked body `s`; `None` if `s` is
/// not one.
pub open spec fn dechunked(s: Seq<u8>) -> Option<Seq<u8>>
    decreases s.len(),
{
    let at = line_end(s);
    if !(0 <= at && at + 1 < s.len() && s[at + 1] == 10) {
        None
    } else {
        match hex_value(s.take(at)) {
            None => None,
            Some(n) => {
                let rest = s.skip(at + 2);
                if n == 0 {
                    if rest == crlf() {
                        Some(seq![])
                    } else {
                        None
                    }
                } else if rest.len() < n + 2 || rest.subrange(n as int, n + 2int) != crlf() {
                    None
                } else {
                    match dechunked(rest.skip(n + 2int)) {
                        Some(more) => Some(rest.take(n as int) + more),
                        None => None,
                    }
                }
            },
        }
    }
}

/// The parts one after the other.
pub open spec fn concatenated(parts: Seq<Seq<u8>>) -> Seq<u8>
    decreases parts.len(),
{
    if parts.len() == 0 {
        seq![]
    } else {
        parts[0] + concatenated(parts.skip(1))
    }
}

proof fn lemma_hex(n: nat)
    ensures
        hex(n).len() >= 1,
        hex_value(hex(n)) == Some(n),
        forall|i: int| 0 <= i < hex(n).len() ==> #[trigger] hex(n)[i] != 13,
    decreases n,
{
    if n >= 16 {
        lemma_hex(n / 16);
        assert(hex(n).drop_last() =~= hex(n / 16));
    }
}

proof fn lemma_line_end(s: Seq<u8>, at: int)
    requires
        0 <= at < s.len(),
        s[at] == 13,
        forall|i: int| 0 <= i < at ==> s[i] != 13,
    ensures
        line_end(s) == at,
    decreases s.len(),
{
    if at > 0 {
        assert(s.skip(1)[at - 1] == 13);
        assert forall|i: int| 0 <= i < at - 1 implies s.skip(1)[i] != 13 by {
            assert(s.skip(1)[i] == s[i + 1]);
        }
        lemma_line_end(s.skip(1), at - 1);
    }
}

/// What a client reads out of `s`: all of it over HTTP/1.0, else what the
/// chunks hold.
pub open spec fn client_reads(http10: bool, s: Seq<u8>) -> Option<Seq<u8>> {
    if http10 {
        Some(s)
    } else {
        dechunked(s)
    }
}

/// A client reads out of a stream what the upstream put into it, however the
/// body was cut into parts, as long as none is empty.
pub proof fn law_streams_carry_the_body(http10: bool, parts: Seq<Seq<u8>>)
    requires
        forall|i: int| 0 <= i < parts.len() ==> (#[trigger] parts[i]).len() > 0,
    ensures
        client_reads(http10, stream_of(http10, parts)) == Some(concatenated(parts)),
    decreases parts.len(),
{
    if parts.len() == 0 {
        if !http10 {
            let s = end_of_chunks();
            lemma_line_end(s, 1);
            assert(s.take(1) =~= seq![48u8]);
            assert(s.skip(3) =~= crlf());
            assert(hex_value(seq![48u8]) == Some(0nat));
        }
    } else {
        let rest = parts.skip(1);
        assert forall|i: int| 0 <= i < rest.len() implies (#[trigger] rest[i]).len() > 0 by {
            assert(rest[i] == parts[i + 1]);
        }
        law_streams_carry_the_body(http10, rest);
        if !http10 {
            lemma_dechunk_first(parts[0], stream_of(false, rest));
        }
    }
}

proof fn lemma_dechunk_first(data: Seq<u8>, tail: Seq<u8>)
    requires
        data.len() > 0,
        dechunked(tail) is Some,
    ensures
        dechunked(chunk(data) + tail) == Some(data + dechunked(tail)->0),
{
    let size = hex(data.len());
    let s = chunk(data) + tail;
    lemma_hex(data.len());
    assert forall|i: int| 0 <= i < size.len() implies s[i] != 13 by {
        assert(s[i] == size[i]);
    }
    lemma_line_end(s, size.len() as int);
    let rest = s.skip(size.len() + 2int);
    assert(s.take(size.len() as int) =~= size);
    assert(rest =~= data + crlf() + tail);
    assert(rest.subrange(data.len() as int, data.len() + 2int) =~= crlf());
    assert(rest.take(data.len() as int) =~= data);
    assert(rest.skip(data.len() + 2int) =~= tail);
}

/// The head of a streamed response begins with the status and says that it
/// came through the proxy.
pub proof fn law_streams_are_attributable(
    status: int,
    http10: bool,
    headers: Seq<HeaderView>,
    served: ServedView,
)
    ensures
        ("HTTP/1.1 "@ + text::decimal(status as nat) + " "@ + phrase(status) + "\r\n"@
            + header_line(("X-Ollamux"@, headers::identity_value()))).is_prefix_of(
            head(status, http10, headers, served),
        ),
{
    let ident = seq![("X-Ollamux"@, headers::identity_value())];
    let own = headers::attribution(served);
    let rest = unframed_headers(headers);
    lemma_lines_split(ident, own + rest);
    assert(ident + own + rest =~= ident + (own + rest));
    assert(ident.drop_last() =~= seq![]);
    assert(header_lines(seq![]) =~= seq![]);
    assert(header_lines(ident) =~= header_lines(ident.drop_last()) + header_line(ident.last()));
    let first = "HTTP/1.1 "@ + text::decimal(status as nat) + " "@ + phrase(status) + "\r\n"@;
    let all = head(status, http10, headers, served);
    let last = if http10 {
        "Connection: close\r\n\r\n"@
    } else {
        "Transfer-Encoding: chunked\r\n\r\n"@
    };
    assert(all =~= first + header_line(ident.last()) + (header_lines(own + rest) + last));
    assert((first + header_line(ident.last())).is_prefix_of(all));
}

/// The head of a streamed response never gives a length for its body.
pub proof fn law_stream_has_no_length(headers: Seq<HeaderView>, i: int)
    requires
        0 <= i < unframed_headers(headers).len(),
    ensures
        text::lowered(unframed_headers(headers)[i].0) != "content-length"@,
    decreases headers.len(),
{
    if i < unframed_headers(headers.drop_last()).len() {
        law_stream_has_no_length(headers.drop_last(), i);
    }
}

/// The length of a body is left out of the head of its stream, whatever the
/// case of its name; every other header stays, in order and as often as it
/// came.
pub proof fn law_only_the_length_is_left_out(
    a: Seq<HeaderView>,
    b: Seq<HeaderView>,
    h: HeaderView,
)
    ensures
        unframed_headers(a + b) == unframed_headers(a) + unframed_headers(b),
        unframed_headers(seq![]) == Seq::<HeaderView>::empty(),
        text::lowered(h.0) == "content-length"@ ==> unframed_headers(seq![h]) == Seq::<
            HeaderView,
        >::empty(),
        text::lowered(h.0) != "content-length"@ ==> unframed_headers(seq![h]) == seq![h],
    decreases b.len(),
{
    assert(seq![h].drop_last() =~= seq![]);
    assert(unframed_headers(seq![h].drop_last()) =~= seq![]);
    if b.len() > 0 {
        law_only_the_length_is_left_out(a, b.drop_last(), h);
        assert((a + b).drop_last() =~= a + b.drop_last());
        assert(unframed_headers(a + b) =~= unframed_headers(a) + unframed_headers(b));
    } else {
        assert(a + b =~= a);
        assert(unframed_headers(a) + unframed_headers(b) =~= unframed_headers(a));
    }
}

/// The head of a stream ends with an empty line, behind the header that says
/// how the body ends: by chunks, or for HTTP/1.0 with the connection. Before it
/// stand the status line and, line by line, what the proxy says of itself and
/// then the upstream's headers.
pub proof fn law_heads_say_how_the_body_ends(
    status: int,
    headers: Seq<HeaderView>,
    served: ServedView,
)
    ensures
        "Transfer-Encoding: chunked\r\n\r\n"@.is_suffix_of(head(status, false, headers, served)),
        "Connection: close\r\n\r\n"@.is_suffix_of(head(status, true, headers, served)),
        head(status, false, headers, served) == ("HTTP/1.1 "@ + text::decimal(status as nat) + " "@
            + phrase(status) + "\r\n"@) + (header_lines(
            seq![("X-Ollamux"@, headers::identity_value())] + headers::attribution(served),
        ) + header_lines(unframed_headers(headers)))
            + "Transfer-Encoding: chunked\r\n\r\n"@,
{
    let first = "HTTP/1.1 "@ + text::decimal(status as nat) + " "@ + phrase(status) + "\r\n"@;
    let own = seq![("X-Ollamux"@, headers::identity_value())] + headers::attribution(served);
    let rest = unframed_headers(headers);
    lemma_lines_split(own, rest);
    let front = first + header_lines(own + rest);
    let chunked = "Transfer-Encoding: chunked\r\n\r\n"@;
    let close = "Connection: close\r\n\r\n"@;
    let a = head(status, false, headers, served);
    let b = head(status, true, headers, served);
    assert(a =~= front + chunked);
    assert(b =~= front + close);
    assert(a.skip(a.len() - chunked.len()) =~= chunked);
    assert(b.skip(b.len() - close.len()) =~= close);
}

/// Headers are written one to a line, as name, colon, space and value.
pub proof fn law_headers_are_lines(a: Seq<HeaderView>, b: Seq<HeaderView>, h: HeaderView)
    ensures
        header_lines(a + b) == header_lines(a) + header_lines(b),
        header_lines(seq![h]) == h.0 + ": "@ + h.1 + "\r\n"@,
{
    lemma_lines_split(a, b);
    assert(seq![h].drop_last() =~= seq![]);
    assert(header_lines(seq![h].drop_last()) =~= seq![]);
    assert(header_lines(seq![h]) =~= h.0 + ": "@ + h.1 + "\r\n"@);
}

/// What goes out read by read is what a client reads back, whether the upstream
/// came to its end or broke off: the first read decides what comes first, and
/// only an end, of either kind, ends the stream.
pub proof fn law_steps_make_a_stream(http10: bool, data: Seq<u8>, rest: Seq<Seq<u8>>)
    requires
        data.len() > 0,
        forall|i: int| 0 <= i < rest.len() ==> (#[trigger] rest[i]).len() > 0,
    ensures
        stepped(http10, Some(data)).1 is None,
        stepped(http10, Some(seq![])).1 == Some(Delivery::Complete),
        stepped(http10, None).1 == Some(Delivery::Broken),
        client_reads(http10, stepped(http10, Some(seq![])).0) == Some(Seq::<u8>::empty()),
        stepped(http10, None).0 == stepped(http10, Some(seq![])).0,
        client_reads(http10, stepped(http10, Some(data)).0 + stream_of(http10, rest)) == Some(
            data + concatenated(rest),
        ),
{
    law_streams_carry_the_body(http10, seq![]);
    let all = seq![data] + rest;
    assert(all.skip(1) =~= rest);
    assert(all[0] == data);
    assert forall|i: int| 0 <= i < all.len() implies (#[trigger] all[i]).len() > 0 by {
        if i > 0 {
            assert(all[i] == rest[i - 1]);
        }
    }
    law_streams_carry_the_body(http10, all);
}

} // verus!
