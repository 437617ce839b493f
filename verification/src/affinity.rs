//! Prompt-cache affinity: the identity of a conversation, and the map that
//! pins identities to keys.
//!
//! Ollama Cloud caches prompt prefixes per account, that is per API key.
//! Requests of one conversation share a prefix, so they are worth sending to
//! the key that has already warmed the cache. For a chat the identity is the
//! model, every leading system message and the first message that is not one;
//! for a plain prompt it is the model and the first 8 KiB of the prompt.
//! Identities only route traffic: a collision shares a warm key and nothing
//! else.

use std::collections::{HashMap, VecDeque};
use vstd::prelude::*;
use vstd::std_specs::hash::*;
use vstd::string::*;

use crate::json;
use crate::text;

verus! {

broadcast use group_hash_axioms;

/// Bytes of each chat message that go into an identity.
pub const MAX_PREFIX_BYTES: usize = 65536;

/// Bytes of a prompt that go into an identity.
pub const MAX_PROMPT_BYTES: usize = 8192;

pub const FNV_OFFSET: u64 = 0xcbf29ce484222325;

pub const FNV_PRIME: u64 = 0x100000001b3;

// ---------------------------------------------------------------------------
// FNV-1a, 64 bits
// ---------------------------------------------------------------------------

/// One FNV-1a round.
pub open spec fn mix(h: u64, x: u64) -> u64 {
    vstd::wrapping::u64_specs::wrapping_mul(h ^ x, FNV_PRIME)
}

/// `h` after `bytes` have been mixed in, in order.
pub open spec fn absorb(h: u64, bytes: Seq<u8>) -> u64
    decreases bytes.len(),
{
    if bytes.len() == 0 {
        h
    } else {
        mix(absorb(h, bytes.drop_last()), bytes.last() as u64)
    }
}

/// `h` after `parts` have been mixed in, each behind its length.
pub open spec fn absorb_parts(h: u64, parts: Seq<Seq<u8>>) -> u64
    decreases parts.len(),
{
    if parts.len() == 0 {
        h
    } else {
        let before = absorb_parts(h, parts.drop_last());
        absorb(mix(before, parts.last().len() as u64), parts.last())
    }
}

/// The high half of `h` folded into the low half.
pub open spec fn folded(h: u64) -> u64 {
    h ^ (h >> 32)
}

/// FNV-1a of `bytes`, folded.
pub open spec fn fnv(bytes: Seq<u8>) -> u64 {
    folded(absorb(FNV_OFFSET, bytes))
}

/// FNV-1a of length-prefixed `parts`, folded.
pub open spec fn fnv_parts(parts: Seq<Seq<u8>>) -> u64 {
    folded(absorb_parts(FNV_OFFSET, parts))
}

/// Mixes `bytes` into `h`.
fn absorbed(h: u64, bytes: &[u8]) -> (r: u64)
    ensures
        r == absorb(h, bytes@),
{
    let mut r: u64 = h;
    let mut i: usize = 0;
    while i < bytes.len()
        invariant
            i <= bytes@.len(),
            r == absorb(h, bytes@.take(i as int)),
        decreases bytes@.len() - i,
    {
        assert(bytes@.take(i + 1).drop_last() =~= bytes@.take(i as int));
        r = (r ^ (bytes[i] as u64)).wrapping_mul(FNV_PRIME);
        i = i + 1;
    }
    assert(bytes@.take(bytes@.len() as int) =~= bytes@);
    r
}

/// FNV-1a, 64 bits, of `bytes`, with the high half folded into the low half.
/// Deterministic across runs and versions.
pub fn fnv1a64(bytes: &[u8]) -> (r: u64)
    ensures
        r == fnv(bytes@),
{
    let h: u64 = absorbed(FNV_OFFSET, bytes);
    h ^ (h >> 32)
}

/// FNV-1a of `parts`, each mixed in behind its length so that the boundaries
/// between parts count.
pub fn hash_parts(parts: &Vec<&[u8]>) -> (r: u64)
    ensures
        r == fnv_parts(parts@.map_values(|p: &[u8]| p@)),
{
    let ghost views = parts@.map_values(|p: &[u8]| p@);
    let mut h: u64 = FNV_OFFSET;
    let mut i: usize = 0;
    while i < parts.len()
        invariant
            views == parts@.map_values(|p: &[u8]| p@),
            i <= parts@.len(),
            h == absorb_parts(FNV_OFFSET, views.take(i as int)),
        decreases parts@.len() - i,
    {
        assert(views.take(i + 1).drop_last() =~= views.take(i as int));
        let part = parts[i];
        h = (h ^ (part.len() as u64)).wrapping_mul(FNV_PRIME);
        h = absorbed(h, part);
        i = i + 1;
    }
    assert(views.take(views.len() as int) =~= views);
    h ^ (h >> 32)
}

// ---------------------------------------------------------------------------
// Requests
// ---------------------------------------------------------------------------

/// One element of a request's `messages`.
pub struct Message {
    /// Its `role`, where that is a string.
    pub role: Option<String>,
    /// The whole element, serialised.
    pub text: Vec<u8>,
}

/// What a request says about streaming.
#[derive(Debug, Clone, Copy, PartialEq, Eq, Structural)]
pub enum Stream {
    /// There is no `stream` member.
    Absent,
    /// `"stream": true` or `"stream": false`.
    Flag(bool),
    /// `stream` is something else.
    Other,
}

/// The members of a JSON request body that routing reads.
pub struct RequestBody {
    /// `model`, where that is a string.
    pub model: Option<String>,
    /// `messages`, where that is an array.
    pub messages: Option<Vec<Message>>,
    /// `prompt`: its characters in UTF-8 where that is a string, else serialised.
    pub prompt: Option<Vec<u8>>,
    pub stream: Stream,
}

/// A message, as a mathematical value.
#[verifier::ext_equal]
pub struct MessageView {
    pub role: Option<Seq<char>>,
    pub text: Seq<u8>,
}

/// A request body, as a mathematical value.
#[verifier::ext_equal]
pub struct BodyView {
    pub model: Option<Seq<char>>,
    pub messages: Option<Seq<MessageView>>,
    pub prompt: Option<Seq<u8>>,
    pub stream: Stream,
}

/// The view of an optional string.
pub open spec fn opt_chars(s: Option<String>) -> Option<Seq<char>> {
    match s {
        Some(s) => Some(s@),
        None => None,
    }
}

/// The view of an optional byte string.
pub open spec fn opt_bytes(b: Option<Vec<u8>>) -> Option<Seq<u8>> {
    match b {
        Some(b) => Some(b@),
        None => None,
    }
}

impl View for Message {
    type V = MessageView;

    open spec fn view(&self) -> MessageView {
        MessageView { role: opt_chars(self.role), text: self.text@ }
    }
}

impl View for RequestBody {
    type V = BodyView;

    open spec fn view(&self) -> BodyView {
        BodyView {
            model: opt_chars(self.model),
            messages: match self.messages {
                Some(ms) => Some(ms@.map_values(|m: Message| m@)),
                None => None,
            },
            prompt: opt_bytes(self.prompt),
            stream: self.stream,
        }
    }
}

/// The string that member `name` of `text` is, if it is one.
pub open spec fn member_string(text: Seq<u8>, name: Seq<char>) -> Option<Seq<char>> {
    match json::member(text, name) {
        Some(t) => json::string_value(t),
        None => None,
    }
}

/// What serialised value `t` of a `stream` member means.
pub open spec fn stream_of(t: Option<Seq<u8>>) -> Stream {
    match t {
        None => Stream::Absent,
        Some(t) => if t == vstd::utf8::encode_utf8("true"@) {
            Stream::Flag(true)
        } else if t == vstd::utf8::encode_utf8("false"@) {
            Stream::Flag(false)
        } else {
            Stream::Other
        },
    }
}

/// The bytes of a prompt whose serialised value is `t`: a string is decoded.
pub open spec fn prompt_bytes(t: Option<Seq<u8>>) -> Option<Seq<u8>> {
    match t {
        Some(t) => match json::string_value(t) {
            Some(s) => Some(vstd::utf8::encode_utf8(s)),
            None => Some(t),
        },
        None => None,
    }
}

/// What routing reads from body `text`; `None` if it is not JSON.
pub open spec fn body_of(text: Seq<u8>) -> Option<BodyView> {
    if json::is_json(text) {
        Some(
            BodyView {
                model: member_string(text, "model"@),
                messages: match json::member_items(text, "messages"@) {
                    Some(items) => Some(
                        items.map_values(
                            |t: Seq<u8>|
                                MessageView { role: member_string(t, "role"@), text: t },
                        ),
                    ),
                    None => None,
                },
                prompt: prompt_bytes(json::member(text, "prompt"@)),
                stream: stream_of(json::member(text, "stream"@)),
            },
        )
    } else {
        None
    }
}

/// Whether `a` and `b` hold the same bytes.
fn same_bytes(a: &[u8], b: &[u8]) -> (r: bool)
    ensures
        r == (a@ == b@),
{
    if a.len() != b.len() {
        return false;
    }
    let mut i: usize = 0;
    while i < a.len()
        invariant
            a@.len() == b@.len(),
            i <= a@.len(),
            forall|j: int| 0 <= j < i ==> a@[j] == b@[j],
        decreases a@.len() - i,
    {
        if a[i] != b[i] {
            return false;
        }
        i = i + 1;
    }
    assert(a@ =~= b@);
    true
}

/// The string that member `name` of `text` is, if it is one.
fn get_string(text: &[u8], name: &str) -> (r: Option<String>)
    ensures
        opt_chars(r) == member_string(text@, name@),
{
    match json::get(text, name) {
        Some(t) => json::as_string(t.as_slice()),
        None => None,
    }
}

/// The `prompt` member of `text`.
fn get_prompt(text: &[u8]) -> (r: Option<Vec<u8>>)
    ensures
        opt_bytes(r) == prompt_bytes(json::member(text@, "prompt"@)),
{
    match json::get(text, "prompt") {
        Some(t) => match json::as_string(t.as_slice()) {
            Some(s) => Some(clone_bytes(s.as_str().as_bytes())),
            None => Some(t),
        },
        None => None,
    }
}

/// The `stream` member of `text`.
fn get_stream(text: &[u8]) -> (r: Stream)
    ensures
        r == stream_of(json::member(text@, "stream"@)),
{
    match json::get(text, "stream") {
        None => Stream::Absent,
        Some(t) => if same_bytes(t.as_slice(), "true".as_bytes()) {
            Stream::Flag(true)
        } else if same_bytes(t.as_slice(), "false".as_bytes()) {
            Stream::Flag(false)
        } else {
            Stream::Other
        },
    }
}

impl RequestBody {
    /// Reads the members that routing needs from a request body; `None` if it
    /// is not JSON.
    pub fn parse(text: &[u8]) -> (r: Option<RequestBody>)
        ensures
            match r {
                Some(body) => body_of(text@) == Some(body@),
                None => body_of(text@) is None,
            },
    {
        if !json::valid(text) {
            return None;
        }
        let messages = match json::get_items(text, "messages") {
            None => None,
            Some(items) => {
                let ghost texts = json::byte_views(items@);
                let mut ms: Vec<Message> = Vec::new();
                let mut i: usize = 0;
                while i < items.len()
                    invariant
                        texts == json::byte_views(items@),
                        i <= items@.len(),
                        ms@.len() == i,
                        forall|j: int|
                            0 <= j < i ==> (#[trigger] ms@[j])@ == (MessageView {
                                role: member_string(texts[j], "role"@),
                                text: texts[j],
                            }),
                    decreases items@.len() - i,
                {
                    let t = clone_bytes(items[i].as_slice());
                    ms.push(Message { role: get_string(t.as_slice(), "role"), text: t });
                    i = i + 1;
                }
                assert(ms@.map_values(|m: Message| m@) =~= texts.map_values(
                    |t: Seq<u8>| MessageView { role: member_string(t, "role"@), text: t },
                ));
                Some(ms)
            },
        };
        Some(
            RequestBody {
                model: get_string(text, "model"),
                messages,
                prompt: get_prompt(text),
                stream: get_stream(text),
            },
        )
    }
}

/// A copy of `b`.
pub(crate) fn clone_bytes(b: &[u8]) -> (r: Vec<u8>)
    ensures
        r@ == b@,
{
    vstd::slice::slice_to_vec(b)
}

// ---------------------------------------------------------------------------
// Identity
// ---------------------------------------------------------------------------

/// Paths (without the leading slash) whose requests have an identity.
pub open spec fn affine_path(path: Seq<char>) -> bool {
    ||| path == "api/chat"@
    ||| path == "api/generate"@
    ||| path == "v1/chat/completions"@
    ||| path == "v1/completions"@
}

/// Paths whose requests carry `messages` rather than a `prompt`.
pub open spec fn chat_path(path: Seq<char>) -> bool {
    path == "api/chat"@ || path == "v1/chat/completions"@
}

/// The surface that an affine path belongs to.
pub open spec fn family(path: Seq<char>) -> Seq<char> {
    if path == "v1/chat/completions"@ || path == "v1/completions"@ {
        "v1"@
    } else {
        "api"@
    }
}

/// The first `n` bytes of `b`.
pub open spec fn capped(b: Seq<u8>, n: nat) -> Seq<u8> {
    if b.len() <= n {
        b
    } else {
        b.take(n as int)
    }
}

pub open spec fn is_system(m: MessageView) -> bool {
    m.role == Some("system"@)
}

/// How many messages there are before the first that is not a system message.
pub open spec fn leading_system(ms: Seq<MessageView>) -> nat
    decreases ms.len(),
{
    if ms.len() > 0 && is_system(ms[0]) {
        1 + leading_system(ms.skip(1))
    } else {
        0
    }
}

/// `seed` after the messages `ms` have been mixed in, in order.
pub open spec fn absorb_messages(seed: u64, ms: Seq<MessageView>) -> u64
    decreases ms.len(),
{
    if ms.len() == 0 {
        seed
    } else {
        mix(
            absorb_messages(seed, ms.drop_last()),
            fnv(capped(ms.last().text, MAX_PREFIX_BYTES as nat)),
        )
    }
}

/// The identity of a chat: surface, model, leading system messages, and the
/// first message after them. Without the latter there is none.
pub open spec fn chat_identity(
    surface: Seq<char>,
    model: Seq<char>,
    ms: Seq<MessageView>,
) -> Option<u64> {
    let cut = leading_system(ms);
    if cut < ms.len() {
        let seed = fnv_parts(
            seq![vstd::utf8::encode_utf8(surface), vstd::utf8::encode_utf8(model)],
        );
        Some(absorb_messages(seed, ms.take(cut + 1int)))
    } else {
        None
    }
}

/// The identity of a prompt: surface, model, and the start of the prompt.
pub open spec fn prompt_identity(surface: Seq<char>, model: Seq<char>, prompt: Seq<u8>) -> u64 {
    fnv_parts(
        seq![
            vstd::utf8::encode_utf8(surface),
            vstd::utf8::encode_utf8(model),
            capped(prompt, MAX_PROMPT_BYTES as nat),
        ],
    )
}

/// The conversation that `body`, sent to `path`, belongs to.
pub open spec fn identity(body: Option<BodyView>, path: Seq<char>) -> Option<u64> {
    match body {
        Some(b) if affine_path(path) => match b.model {
            Some(model) if model.len() > 0 => if chat_path(path) {
                match b.messages {
                    Some(ms) => chat_identity(family(path), model, ms),
                    None => None,
                }
            } else {
                match b.prompt {
                    Some(prompt) => Some(prompt_identity(family(path), model, prompt)),
                    None => None,
                }
            },
            _ => None,
        },
        _ => None,
    }
}

/// The view of an optional body.
pub open spec fn opt_body(body: Option<&RequestBody>) -> Option<BodyView> {
    match body {
        Some(b) => Some(b@),
        None => None,
    }
}

/// Whether requests to `sub_path` (no leading slash) can have an identity.
pub fn is_affine_path(sub_path: &str) -> (r: bool)
    ensures
        r == affine_path(sub_path@),
{
    text::same(sub_path, "api/chat") || text::same(sub_path, "api/generate") || text::same(
        sub_path,
        "v1/chat/completions",
    ) || text::same(sub_path, "v1/completions")
}

/// The first `n` bytes of `b`.
pub(crate) fn cap(b: &[u8], n: usize) -> (r: &[u8])
    ensures
        r@ == capped(b@, n as nat),
{
    if b.len() <= n {
        b
    } else {
        let r = vstd::slice::slice_subrange(b, 0, n);
        assert(r@ =~= b@.take(n as int));
        r
    }
}

/// Whether `m` is a system message.
fn from_system(m: &Message) -> (r: bool)
    ensures
        r == is_system(m@),
{
    match &m.role {
        Some(role) => text::same(role.as_str(), "system"),
        None => false,
    }
}

proof fn lemma_leading_system(ms: Seq<MessageView>, n: int)
    requires
        0 <= n <= ms.len(),
        forall|i: int| 0 <= i < n ==> is_system(#[trigger] ms[i]),
        n < ms.len() ==> !is_system(ms[n]),
    ensures
        leading_system(ms) == n,
    decreases n,
{
    if n > 0 {
        lemma_leading_system(ms.skip(1), n - 1);
    }
}

/// The identity of a chat with `model` and `messages` on surface `surface`.
fn identity_of_chat(surface: &str, model: &str, messages: &Vec<Message>) -> (r: Option<u64>)
    ensures
        r == chat_identity(surface@, model@, messages@.map_values(|m: Message| m@)),
{
    let ghost ms = messages@.map_values(|m: Message| m@);
    let mut cut: usize = 0;
    while cut < messages.len() && from_system(&messages[cut])
        invariant
            ms == messages@.map_values(|m: Message| m@),
            cut <= messages@.len(),
            forall|j: int| 0 <= j < cut ==> is_system(#[trigger] ms[j]),
        decreases messages@.len() - cut,
    {
        cut = cut + 1;
    }
    proof {
        lemma_leading_system(ms, cut as int);
    }
    if cut == messages.len() {
        return None;
    }
    let parts: Vec<&[u8]> = vec![surface.as_bytes(), model.as_bytes()];
    assert(parts@.map_values(|p: &[u8]| p@) =~= seq![
        vstd::utf8::encode_utf8(surface@),
        vstd::utf8::encode_utf8(model@),
    ]);
    let start: u64 = hash_parts(&parts);
    let mut seed: u64 = start;
    let end: usize = cut + 1;
    let mut i: usize = 0;
    while i < end
        invariant
            ms == messages@.map_values(|m: Message| m@),
            i <= end <= messages@.len(),
            seed == absorb_messages(start, ms.take(i as int)),
        decreases end - i,
    {
        assert(ms.take(i + 1).drop_last() =~= ms.take(i as int));
        seed = (seed ^ fnv1a64(cap(&messages[i].text, MAX_PREFIX_BYTES))).wrapping_mul(FNV_PRIME);
        i = i + 1;
    }
    Some(seed)
}

/// The conversation that a parsed body, sent to `sub_path` (no leading slash),
/// belongs to. `None` means that affinity does not apply: the path is not an
/// affine one, the body is not JSON, or it lacks a model or what the identity
/// is made of.
pub fn identity_from(parsed: Option<&RequestBody>, sub_path: &str) -> (r: Option<u64>)
    ensures
        r == identity(opt_body(parsed), sub_path@),
{
    let body = match parsed {
        Some(body) => body,
        None => {
            return None;
        },
    };
    if !is_affine_path(sub_path) {
        return None;
    }
    let model = match &body.model {
        Some(model) => model.as_str(),
        None => {
            return None;
        },
    };
    if model.is_empty() {
        return None;
    }
    let surface = if text::same(sub_path, "v1/chat/completions") || text::same(
        sub_path,
        "v1/completions",
    ) {
        "v1"
    } else {
        "api"
    };
    if text::same(sub_path, "api/chat") || text::same(sub_path, "v1/chat/completions") {
        match &body.messages {
            Some(messages) => identity_of_chat(surface, model, messages),
            None => None,
        }
    } else {
        match &body.prompt {
            Some(prompt) => {
                let parts: Vec<&[u8]> = vec![
                    surface.as_bytes(),
                    model.as_bytes(),
                    cap(prompt, MAX_PROMPT_BYTES),
                ];
                assert(parts@.map_values(|p: &[u8]| p@) =~= seq![
                    vstd::utf8::encode_utf8(surface@),
                    vstd::utf8::encode_utf8(model@),
                    capped(prompt@, MAX_PROMPT_BYTES as nat),
                ]);
                Some(hash_parts(&parts))
            },
            None => None,
        }
    }
}

/// Turns of one conversation share an identity: a chat whose messages continue
/// those of an earlier one, to the same model on the same path, has the same
/// identity, whatever else the two bodies hold.
pub proof fn law_turns_share_identity(earlier: BodyView, later: BodyView, path: Seq<char>)
    requires
        chat_path(path),
        earlier.model == later.model,
        earlier.messages is Some,
        later.messages is Some,
        earlier.messages->0.is_prefix_of(later.messages->0),
        identity(Some(earlier), path) is Some,
    ensures
        identity(Some(later), path) == identity(Some(earlier), path),
{
    let a = earlier.messages->0;
    let b = later.messages->0;
    let cut = leading_system(a);
    lemma_leading_system_shape(a);
    assert(forall|i: int| 0 <= i < a.len() ==> b[i] == a[i]) by {
        assert(forall|i: int| 0 <= i < a.len() ==> b.take(a.len() as int)[i] == b[i]);
    }
    lemma_leading_system(b, cut as int);
    assert(b.take(cut + 1int) =~= a.take(cut + 1int));
}

proof fn lemma_leading_system_shape(ms: Seq<MessageView>)
    ensures
        leading_system(ms) <= ms.len(),
        forall|i: int| 0 <= i < leading_system(ms) ==> is_system(#[trigger] ms[i]),
        leading_system(ms) < ms.len() ==> !is_system(ms[leading_system(ms) as int]),
    decreases ms.len(),
{
    if ms.len() > 0 && is_system(ms[0]) {
        let rest = ms.skip(1);
        lemma_leading_system_shape(rest);
        assert forall|i: int| 0 <= i < leading_system(ms) implies is_system(#[trigger] ms[i]) by {
            if i > 0 {
                assert(rest[i - 1] == ms[i]);
            }
        }
        if leading_system(ms) < ms.len() {
            assert(rest[leading_system(rest) as int] == ms[leading_system(ms) as int]);
        }
    }
}

/// Only the first 8 KiB of a prompt count: prompts that agree there, for the
/// same model on the same path, have the same identity.
pub proof fn law_prompt_tail_is_ignored(a: BodyView, b: BodyView, path: Seq<char>)
    requires
        affine_path(path),
        !chat_path(path),
        a.model == b.model,
        a.prompt is Some,
        b.prompt is Some,
        capped(a.prompt->0, MAX_PROMPT_BYTES as nat) == capped(
            b.prompt->0,
            MAX_PROMPT_BYTES as nat,
        ),
    ensures
        identity(Some(a), path) == identity(Some(b), path),
{
}

/// Options do not split a conversation: bodies with the same model, messages
/// and prompt have the same identity, streaming or not.
pub proof fn law_options_do_not_split_identity(a: BodyView, b: BodyView, path: Seq<char>)
    requires
        a.model == b.model,
        a.messages == b.messages,
        a.prompt == b.prompt,
    ensures
        identity(Some(a), path) == identity(Some(b), path),
{
}

/// Nothing but the affine paths has an identity, and nothing without a body
/// that is JSON.
pub proof fn law_identity_is_gated(body: Option<BodyView>, path: Seq<char>)
    requires
        !affine_path(path) || body is None,
    ensures
        identity(body, path) is None,
{
}

// ---------------------------------------------------------------------------
// Pins
// ---------------------------------------------------------------------------

/// Where `id` stands in `pins`; -1 if nowhere.
pub open spec fn position(pins: Seq<(u64, usize)>, id: u64) -> int
    decreases pins.len(),
{
    if pins.len() == 0 {
        -1
    } else if pins.last().0 == id {
        pins.len() - 1
    } else {
        position(pins.drop_last(), id)
    }
}

/// The key that `id` is pinned to.
pub open spec fn pinned(pins: Seq<(u64, usize)>, id: u64) -> Option<usize> {
    let at = position(pins, id);
    if 0 <= at {
        Some(pins[at].1)
    } else {
        None
    }
}

/// `pins` without `id`.
pub open spec fn unpinned(pins: Seq<(u64, usize)>, id: u64) -> Seq<(u64, usize)> {
    let at = position(pins, id);
    if 0 <= at {
        pins.remove(at)
    } else {
        pins
    }
}

/// `pins` after `id` has been looked up: what was found is now the most recent.
pub open spec fn touched(pins: Seq<(u64, usize)>, id: u64) -> Seq<(u64, usize)> {
    match pinned(pins, id) {
        Some(key) => unpinned(pins, id).push((id, key)),
        None => pins,
    }
}

/// `pins`, holding at most `cap`, after `id` has been pinned to `key`: it is
/// the most recent, and the least recent made room for it if need be.
pub open spec fn repinned(
    pins: Seq<(u64, usize)>,
    cap: nat,
    id: u64,
    key: usize,
) -> Seq<(u64, usize)> {
    if pinned(pins, id) is None && pins.len() >= cap {
        pins.skip(1).push((id, key))
    } else {
        unpinned(pins, id).push((id, key))
    }
}

/// `pins` after `id` has been unpinned from `key`.
pub open spec fn unpinned_from(pins: Seq<(u64, usize)>, id: u64, key: usize) -> Seq<(u64, usize)> {
    if pinned(pins, id) == Some(key) {
        unpinned(pins, id)
    } else {
        pins
    }
}

/// No identity is pinned twice.
pub open spec fn distinct_ids(pins: Seq<(u64, usize)>) -> bool {
    forall|i: int, j: int| 0 <= i < j < pins.len() ==> (#[trigger] pins[i]).0 != (#[trigger] pins[j]).0
}

/// A bounded map from identities to keys that forgets the least recently used.
/// Its view lists the pins, the least recent first.
pub struct AffinityMap {
    map: HashMap<u64, usize>,
    lru: VecDeque<u64>,
    cap: usize,
}

impl View for AffinityMap {
    type V = Seq<(u64, usize)>;

    closed spec fn view(&self) -> Seq<(u64, usize)> {
        self.lru@.map_values(|id: u64| (id, self.map@[id]))
    }
}

proof fn lemma_position(pins: Seq<(u64, usize)>, id: u64, at: int)
    requires
        distinct_ids(pins),
        0 <= at < pins.len(),
        pins[at].0 == id,
    ensures
        position(pins, id) == at,
    decreases pins.len(),
{
    if at < pins.len() - 1 {
        assert(pins[at].0 != pins[pins.len() - 1].0);
        lemma_position(pins.drop_last(), id, at);
    }
}

proof fn lemma_position_none(pins: Seq<(u64, usize)>, id: u64)
    requires
        forall|i: int| 0 <= i < pins.len() ==> (#[trigger] pins[i]).0 != id,
    ensures
        position(pins, id) == -1,
    decreases pins.len(),
{
    if pins.len() > 0 {
        lemma_position_none(pins.drop_last(), id);
    }
}

/// What `position` finds.
pub proof fn lemma_position_range(pins: Seq<(u64, usize)>, id: u64)
    ensures
        -1 <= position(pins, id) < pins.len(),
        position(pins, id) >= 0 ==> pins[position(pins, id)].0 == id,
        position(pins, id) < 0 ==> forall|i: int|
            0 <= i < pins.len() ==> (#[trigger] pins[i]).0 != id,
    decreases pins.len(),
{
    if pins.len() > 0 && pins.last().0 != id {
        let rest = pins.drop_last();
        lemma_position_range(rest, id);
        if position(rest, id) < 0 {
            assert forall|i: int| 0 <= i < pins.len() implies (#[trigger] pins[i]).0 != id by {
                if i < pins.len() - 1 {
                    assert(rest[i] == pins[i]);
                }
            }
        }
    }
}

impl AffinityMap {
    /// How many pins there is room for.
    pub closed spec fn capacity(&self) -> nat {
        self.cap as nat
    }

    /// The map and the order of use agree, and there is room for what is held.
    pub closed spec fn wf(&self) -> bool {
        &&& self.cap >= 1
        &&& self.lru@.len() <= self.cap
        &&& self.lru@.no_duplicates()
        &&& forall|id: u64| #[trigger] self.map@.contains_key(id) <==> self.lru@.contains(id)
    }

    /// The pins of a well-formed map are distinct and no more than it may hold.
    pub proof fn lemma_wf(&self)
        requires
            self.wf(),
        ensures
            distinct_ids(self@),
            self@.len() <= self.capacity(),
            1 <= self.capacity() <= usize::MAX,
    {
    }

    /// An empty map with room for `cap` pins (at least one).
    pub fn new(cap: usize) -> (r: AffinityMap)
        ensures
            r.wf(),
            r@ == Seq::<(u64, usize)>::empty(),
            r.capacity() == if cap >= 1 {
                cap as nat
            } else {
                1
            },
    {
        let r = AffinityMap {
            map: HashMap::new(),
            lru: VecDeque::with_capacity(if cap < 1024 {
                cap
            } else {
                1024
            }),
            cap: if cap >= 1 {
                cap
            } else {
                1
            },
        };
        assert(r@ =~= Seq::<(u64, usize)>::empty());
        r
    }

    /// Where `id` stands in the order of use.
    fn find(&self, id: u64) -> (r: Option<usize>)
        requires
            self.wf(),
        ensures
            match r {
                Some(at) => at == position(self@, id) && at < self.lru@.len()
                    && self.lru@[at as int] == id,
                None => position(self@, id) == -1 && !self.lru@.contains(id),
            },
    {
        let mut i: usize = 0;
        while i < self.lru.len()
            invariant
                self.wf(),
                i <= self.lru@.len(),
                forall|j: int| 0 <= j < i ==> self.lru@[j] != id,
            decreases self.lru@.len() - i,
        {
            if self.lru[i] == id {
                proof {
                    lemma_position(self@, id, i as int);
                }
                return Some(i);
            }
            i = i + 1;
        }
        proof {
            lemma_position_none(self@, id);
        }
        None
    }

    /// The key that `id` is pinned to. The pin becomes the most recent.
    pub fn get(&mut self, id: u64) -> (r: Option<usize>)
        requires
            old(self).wf(),
        ensures
            final(self).wf(),
            final(self).capacity() == old(self).capacity(),
            r == pinned(old(self)@, id),
            final(self)@ == touched(old(self)@, id),
    {
        let at = match self.find(id) {
            Some(at) => at,
            None => {
                return None;
            },
        };
        assert(self.map@.contains_key(id));
        let key: usize = match self.map.get(&id) {
            Some(key) => *key,
            None => {
                return None;
            },
        };
        self.lru.remove(at);
        self.lru.push_back(id);
        proof {
            assert(self@ =~= touched(old(self)@, id));
            lemma_moved_back(old(self).lru@, at as int);
        }
        Some(key)
    }

    /// Pins (or re-pins) `id` to `key`; a full map drops its least recent pin
    /// to make room for a new one.
    pub fn put(&mut self, id: u64, key: usize)
        requires
            old(self).wf(),
        ensures
            final(self).wf(),
            final(self).capacity() == old(self).capacity(),
            final(self)@ == repinned(old(self)@, old(self).capacity(), id, key),
    {
        match self.find(id) {
            Some(at) => {
                self.map.insert(id, key);
                self.lru.remove(at);
                self.lru.push_back(id);
                proof {
                    lemma_moved_back(old(self).lru@, at as int);
                    assert(self@ =~= repinned(old(self)@, old(self).capacity(), id, key));
                }
            },
            None => {
                if self.lru.len() >= self.cap {
                    let least = self.lru.pop_front();
                    if let Some(least) = least {
                        self.map.remove(&least);
                    }
                    proof {
                        let before = old(self).lru@;
                        assert(self.lru@ =~= before.skip(1));
                        assert forall|k: u64| #[trigger] self.lru@.contains(k) <==> (before.contains(
                            k,
                        ) && k != before[0]) by {
                            if self.lru@.contains(k) {
                                let i = choose|i: int| 0 <= i < self.lru@.len() && self.lru@[i] == k;
                                assert(before[i + 1] == k);
                            }
                            if before.contains(k) && k != before[0] {
                                let i = choose|i: int| 0 <= i < before.len() && before[i] == k;
                                assert(self.lru@[i - 1] == k);
                            }
                        }
                    }
                }
                let ghost mid = self.lru@;
                self.map.insert(id, key);
                self.lru.push_back(id);
                proof {
                    assert forall|k: u64| #[trigger] self.lru@.contains(k) <==> (mid.contains(k) || k
                        == id) by {
                        if mid.contains(k) {
                            let i = choose|i: int| 0 <= i < mid.len() && mid[i] == k;
                            assert(self.lru@[i] == k);
                        }
                        if k == id {
                            assert(self.lru@[mid.len() as int] == k);
                        }
                    }
                    assert(self@ =~= repinned(old(self)@, old(self).capacity(), id, key));
                }
            },
        }
    }

    /// Unpins `id` if it is pinned to `key`.
    pub fn remove_if(&mut self, id: u64, key: usize)
        requires
            old(self).wf(),
        ensures
            final(self).wf(),
            final(self).capacity() == old(self).capacity(),
            final(self)@ == unpinned_from(old(self)@, id, key),
    {
        let at = match self.find(id) {
            Some(at) => at,
            None => {
                return;
            },
        };
        assert(self.map@.contains_key(id));
        let current: usize = match self.map.get(&id) {
            Some(current) => *current,
            None => {
                return;
            },
        };
        if current == key {
            self.map.remove(&id);
            self.lru.remove(at);
            proof {
                lemma_removed(old(self).lru@, at as int);
                assert(self@ =~= unpinned_from(old(self)@, id, key));
            }
        }
    }

    /// How many identities are pinned.
    pub fn len(&self) -> (r: usize)
        requires
            self.wf(),
        ensures
            r == self@.len(),
    {
        self.lru.len()
    }
}

proof fn lemma_removed(s: Seq<u64>, at: int)
    requires
        0 <= at < s.len(),
        s.no_duplicates(),
    ensures
        s.remove(at).no_duplicates(),
        forall|k: u64| #[trigger] s.remove(at).contains(k) <==> (s.contains(k) && k != s[at]),
{
    let r = s.remove(at);
    assert forall|k: u64| #[trigger] r.contains(k) <==> (s.contains(k) && k != s[at]) by {
        if r.contains(k) {
            let i = choose|i: int| 0 <= i < r.len() && r[i] == k;
            if i < at {
                assert(s[i] == k);
            } else {
                assert(s[i + 1] == k);
            }
        }
        if s.contains(k) && k != s[at] {
            let i = choose|i: int| 0 <= i < s.len() && s[i] == k;
            if i < at {
                assert(r[i] == k);
            } else {
                assert(r[i - 1] == k);
            }
        }
    }
}

proof fn lemma_moved_back(s: Seq<u64>, at: int)
    requires
        0 <= at < s.len(),
        s.no_duplicates(),
    ensures
        s.remove(at).push(s[at]).no_duplicates(),
        forall|k: u64| #[trigger] s.remove(at).push(s[at]).contains(k) <==> s.contains(k),
{
    lemma_removed(s, at);
    let r = s.remove(at);
    let m = r.push(s[at]);
    assert(!r.contains(s[at]));
    assert forall|k: u64| #[trigger] m.contains(k) <==> s.contains(k) by {
        if r.contains(k) {
            let i = choose|i: int| 0 <= i < r.len() && r[i] == k;
            assert(m[i] == k);
        }
        if k == s[at] {
            assert(m[r.len() as int] == k);
        }
        if m.contains(k) && k != s[at] {
            let i = choose|i: int| 0 <= i < m.len() && m[i] == k;
            assert(r[i] == k);
        }
    }
}

/// Two lists of distinct pins that hold the same pin for `id`, or both none,
/// answer alike.
proof fn lemma_same_pin(a: Seq<(u64, usize)>, b: Seq<(u64, usize)>, id: u64)
    requires
        distinct_ids(a),
        distinct_ids(b),
        forall|i: int|
            0 <= i < a.len() && (#[trigger] a[i]).0 == id ==> exists|j: int|
                0 <= j < b.len() && #[trigger] b[j] == a[i],
        forall|i: int|
            0 <= i < b.len() && (#[trigger] b[i]).0 == id ==> exists|j: int|
                0 <= j < a.len() && #[trigger] a[j] == b[i],
    ensures
        pinned(a, id) == pinned(b, id),
{
    lemma_position_range(a, id);
    lemma_position_range(b, id);
    let i = position(a, id);
    let j = position(b, id);
    if i >= 0 {
        let k = choose|k: int| 0 <= k < b.len() && #[trigger] b[k] == a[i];
        lemma_position(b, id, k);
    } else if j >= 0 {
        let k = choose|k: int| 0 <= k < a.len() && #[trigger] a[k] == b[j];
        lemma_position(a, id, k);
    }
}

/// `pins` without `id`: the others stay, `id` is gone.
pub proof fn law_unpinning(pins: Seq<(u64, usize)>, id: u64, other: u64)
    requires
        distinct_ids(pins),
    ensures
        distinct_ids(unpinned(pins, id)),
        pinned(unpinned(pins, id), id) is None,
        other != id ==> pinned(unpinned(pins, id), other) == pinned(pins, other),
{
    lemma_position_range(pins, id);
    let at = position(pins, id);
    let rest = unpinned(pins, id);
    if at >= 0 {
        assert forall|i: int| 0 <= i < rest.len() implies (#[trigger] rest[i]).0 != id by {
            if i < at {
                assert(rest[i] == pins[i]);
            } else {
                assert(rest[i] == pins[i + 1]);
            }
        }
        lemma_position_none(rest, id);
        if other != id {
            assert forall|i: int| 0 <= i < pins.len() && (#[trigger] pins[i]).0 == other implies exists|
                j: int,
            | 0 <= j < rest.len() && #[trigger] rest[j] == pins[i] by {
                let j = if i < at {
                    i
                } else {
                    i - 1
                };
                assert(rest[j] == pins[i]);
            }
            assert forall|i: int| 0 <= i < rest.len() && (#[trigger] rest[i]).0 == other implies exists|
                j: int,
            | 0 <= j < pins.len() && #[trigger] pins[j] == rest[i] by {
                let j = if i < at {
                    i
                } else {
                    i + 1
                };
                assert(pins[j] == rest[i]);
            }
            lemma_same_pin(rest, pins, other);
        }
    }
}

/// Appending the pin of a new identity changes no other.
proof fn lemma_pushed(pins: Seq<(u64, usize)>, id: u64, key: usize, other: u64)
    requires
        distinct_ids(pins),
        pinned(pins, id) is None,
    ensures
        distinct_ids(pins.push((id, key))),
        pinned(pins.push((id, key)), id) == Some(key),
        other != id ==> pinned(pins.push((id, key)), other) == pinned(pins, other),
{
    let all = pins.push((id, key));
    lemma_position_range(pins, id);
    assert(all.drop_last() =~= pins);
    if other != id {
        lemma_position_range(pins, other);
    }
}

/// Looking an identity up changes no pin, only how recent it is.
pub proof fn law_lookup_keeps_pins(pins: Seq<(u64, usize)>, id: u64, other: u64)
    requires
        distinct_ids(pins),
    ensures
        distinct_ids(touched(pins, id)),
        touched(pins, id).len() == pins.len(),
        pinned(touched(pins, id), other) == pinned(pins, other),
{
    lemma_position_range(pins, id);
    law_unpinning(pins, id, other);
    if let Some(key) = pinned(pins, id) {
        lemma_pushed(unpinned(pins, id), id, key, other);
    }
}

/// A pin that was just set is found; the map never outgrows its capacity; and
/// no other pin changes, except that a full map loses its least recent one to
/// a new identity.
pub proof fn law_pin_is_found(
    pins: Seq<(u64, usize)>,
    cap: nat,
    id: u64,
    key: usize,
    other: u64,
)
    requires
        distinct_ids(pins),
        1 <= cap,
        pins.len() <= cap,
    ensures
        distinct_ids(repinned(pins, cap, id, key)),
        repinned(pins, cap, id, key).len() <= cap,
        pinned(repinned(pins, cap, id, key), id) == Some(key),
        other != id && (pins.len() < cap || pinned(pins, id) is Some || pins[0].0 != other)
            ==> pinned(repinned(pins, cap, id, key), other) == pinned(pins, other),
{
    lemma_position_range(pins, id);
    if pinned(pins, id) is None && pins.len() >= cap {
        let least = pins[0].0;
        lemma_position(pins, least, 0);
        assert(pins.skip(1) =~= unpinned(pins, least));
        law_unpinning(pins, least, id);
        law_unpinning(pins, least, other);
        lemma_pushed(pins.skip(1), id, key, other);
    } else {
        law_unpinning(pins, id, other);
        lemma_pushed(unpinned(pins, id), id, key, other);
    }
}

/// Unpinning from a key drops the pin only if it names that key, and leaves
/// every other identity alone.
pub proof fn law_unpin_needs_current_key(
    pins: Seq<(u64, usize)>,
    id: u64,
    key: usize,
    other: u64,
)
    requires
        distinct_ids(pins),
    ensures
        distinct_ids(unpinned_from(pins, id, key)),
        pinned(pins, id) == Some(key) ==> pinned(unpinned_from(pins, id, key), id) is None,
        pinned(pins, id) != Some(key) ==> unpinned_from(pins, id, key) == pins,
        other != id ==> pinned(unpinned_from(pins, id, key), other) == pinned(pins, other),
{
    law_unpinning(pins, id, other);
}

// ---------------------------------------------------------------------------
// What an identity tells apart
// ---------------------------------------------------------------------------

/// `a` and `b` are the same but for the byte at `at`.
pub open spec fn one_byte_apart(a: Seq<u8>, b: Seq<u8>, at: int) -> bool {
    &&& a.len() == b.len()
    &&& 0 <= at < a.len()
    &&& a[at] != b[at]
    &&& forall|i: int| 0 <= i < a.len() && i != at ==> #[trigger] a[i] == b[i]
}

proof fn lemma_prime_is_odd(x: u64, y: u64)
    requires
        vstd::wrapping::u64_specs::wrapping_mul(x, FNV_PRIME)
            == vstd::wrapping::u64_specs::wrapping_mul(y, FNV_PRIME),
    ensures
        x == y,
{
    let m: int = 0x1_0000_0000_0000_0000;
    let p: int = FNV_PRIME as int;
    let inv: int = 0xce965057aff6957b;
    let a: int = x as int;
    let b: int = y as int;
    assert((a * p) % m == (b * p) % m);
    vstd::arithmetic::div_mod::lemma_mul_mod_noop_left(a * p, inv, m);
    vstd::arithmetic::div_mod::lemma_mul_mod_noop_left(b * p, inv, m);
    assert((a * p * inv) % m == (b * p * inv) % m);
    let k: int = 887285111055;
    assert(p * inv == 1 + k * m);
    assert(a * p * inv == m * (a * k) + a) by (nonlinear_arith)
        requires
            p * inv == 1 + k * m,
    ;
    assert(b * p * inv == m * (b * k) + b) by (nonlinear_arith)
        requires
            p * inv == 1 + k * m,
    ;
    vstd::arithmetic::div_mod::lemma_mod_multiples_vanish(a * k, a, m);
    vstd::arithmetic::div_mod::lemma_mod_multiples_vanish(b * k, b, m);
    vstd::arithmetic::div_mod::lemma_small_mod(a as nat, m as nat);
    vstd::arithmetic::div_mod::lemma_small_mod(b as nat, m as nat);
}

/// A round loses nothing: what differed before it, or in what is mixed in,
/// differs after it.
pub proof fn law_rounds_lose_nothing(h: u64, g: u64, x: u64, y: u64)
    ensures
        h != g ==> mix(h, x) != mix(g, x),
        x != y ==> mix(h, x) != mix(h, y),
{
    if mix(h, x) == mix(g, x) {
        lemma_prime_is_odd(h ^ x, g ^ x);
        assert(h == g) by (bit_vector)
            requires
                h ^ x == g ^ x,
        ;
    }
    if mix(h, x) == mix(h, y) {
        lemma_prime_is_odd(h ^ x, h ^ y);
        assert(x == y) by (bit_vector)
            requires
                h ^ x == h ^ y,
        ;
    }
}

proof fn lemma_folding_loses_nothing(h: u64, g: u64)
    requires
        h != g,
    ensures
        folded(h) != folded(g),
{
    if folded(h) == folded(g) {
        assert(h == g) by (bit_vector)
            requires
                h ^ (h >> 32) == g ^ (g >> 32),
        ;
    }
}

proof fn lemma_absorbing_keeps_apart(h: u64, g: u64, bytes: Seq<u8>)
    requires
        h != g,
    ensures
        absorb(h, bytes) != absorb(g, bytes),
    decreases bytes.len(),
{
    if bytes.len() > 0 {
        lemma_absorbing_keeps_apart(h, g, bytes.drop_last());
        law_rounds_lose_nothing(
            absorb(h, bytes.drop_last()),
            absorb(g, bytes.drop_last()),
            bytes.last() as u64,
            0,
        );
    }
}

proof fn lemma_absorbing_tells_bytes_apart(h: u64, a: Seq<u8>, b: Seq<u8>, at: int)
    requires
        one_byte_apart(a, b, at),
    ensures
        absorb(h, a) != absorb(h, b),
    decreases a.len(),
{
    let x = absorb(h, a.drop_last());
    let y = absorb(h, b.drop_last());
    if at == a.len() - 1 {
        assert(a.drop_last() =~= b.drop_last());
        law_rounds_lose_nothing(x, x, a.last() as u64, b.last() as u64);
    } else {
        assert(one_byte_apart(a.drop_last(), b.drop_last(), at));
        lemma_absorbing_tells_bytes_apart(h, a.drop_last(), b.drop_last(), at);
        law_rounds_lose_nothing(x, y, a.last() as u64, 0);
    }
}

proof fn lemma_parts_keep_apart(h: u64, g: u64, parts: Seq<Seq<u8>>)
    requires
        h != g,
    ensures
        absorb_parts(h, parts) != absorb_parts(g, parts),
    decreases parts.len(),
{
    if parts.len() > 0 {
        let x = absorb_parts(h, parts.drop_last());
        let y = absorb_parts(g, parts.drop_last());
        let n = parts.last().len() as u64;
        lemma_parts_keep_apart(h, g, parts.drop_last());
        law_rounds_lose_nothing(x, y, n, 0);
        lemma_absorbing_keeps_apart(mix(x, n), mix(y, n), parts.last());
    }
}

/// Every byte of every part counts: lists of parts that are the same but for
/// one byte of one part have different hashes.
pub proof fn law_every_byte_counts(a: Seq<Seq<u8>>, b: Seq<Seq<u8>>, part: int, at: int)
    requires
        a.len() == b.len(),
        0 <= part < a.len(),
        one_byte_apart(a[part], b[part], at),
        forall|i: int| 0 <= i < a.len() && i != part ==> #[trigger] a[i] == b[i],
    ensures
        fnv_parts(a) != fnv_parts(b),
{
    lemma_parts_tell_bytes_apart(FNV_OFFSET, a, b, part, at);
    lemma_folding_loses_nothing(absorb_parts(FNV_OFFSET, a), absorb_parts(FNV_OFFSET, b));
}

proof fn lemma_parts_tell_bytes_apart(
    h: u64,
    a: Seq<Seq<u8>>,
    b: Seq<Seq<u8>>,
    part: int,
    at: int,
)
    requires
        a.len() == b.len(),
        0 <= part < a.len(),
        one_byte_apart(a[part], b[part], at),
        forall|i: int| 0 <= i < a.len() && i != part ==> #[trigger] a[i] == b[i],
    ensures
        absorb_parts(h, a) != absorb_parts(h, b),
    decreases a.len(),
{
    let x = absorb_parts(h, a.drop_last());
    let y = absorb_parts(h, b.drop_last());
    let n = a.last().len() as u64;
    if part == a.len() - 1 {
        assert(a.drop_last() =~= b.drop_last());
        lemma_absorbing_tells_bytes_apart(mix(x, n), a.last(), b.last(), at);
    } else {
        lemma_parts_tell_bytes_apart(h, a.drop_last(), b.drop_last(), part, at);
        law_rounds_lose_nothing(x, y, n, 0);
        lemma_absorbing_keeps_apart(mix(x, n), mix(y, n), a.last());
    }
}

/// Bytes that are the same but for one have different hashes.
pub proof fn law_one_byte_changes_the_hash(a: Seq<u8>, b: Seq<u8>, at: int)
    requires
        one_byte_apart(a, b, at),
    ensures
        fnv(a) != fnv(b),
{
    lemma_absorbing_tells_bytes_apart(FNV_OFFSET, a, b, at);
    lemma_folding_loses_nothing(absorb(FNV_OFFSET, a), absorb(FNV_OFFSET, b));
}

/// Hashing is FNV-1a: it starts from the offset basis, goes byte by byte in
/// order, and takes one exclusive or and one multiplication for each.
pub proof fn law_hashing_is_fnv1a(h: u64, a: Seq<u8>, b: Seq<u8>, c: u8)
    ensures
        absorb(h, a + b) == absorb(absorb(h, a), b),
        absorb(h, seq![]) == h,
        absorb(h, seq![c]) == ((h ^ (c as u64)) * 0x100000001b3) % 0x1_0000_0000_0000_0000,
        fnv(seq![]) == folded(0xcbf29ce484222325),
    decreases b.len(),
{
    assert(seq![c].drop_last() =~= seq![]);
    assert(absorb(h, seq![c].drop_last()) == h);
    if b.len() > 0 {
        law_hashing_is_fnv1a(h, a, b.drop_last(), c);
        assert((a + b).drop_last() =~= a + b.drop_last());
    } else {
        assert(a + b =~= a);
    }
}

/// A request has an identity exactly if its path is one of four, it names a
/// model, and it has a message that is not a system message (for a chat) or a
/// prompt (else).
pub proof fn law_who_has_an_identity(b: BodyView, path: Seq<char>)
    ensures
        identity(Some(b), path) is Some <==> {
            &&& b.model is Some
            &&& b.model->0.len() > 0
            &&& if path == "api/chat"@ || path == "v1/chat/completions"@ {
                b.messages is Some && exists|i: int|
                    0 <= i < b.messages->0.len() && (#[trigger] b.messages->0[i]).role != Some(
                        "system"@,
                    )
            } else if path == "api/generate"@ || path == "v1/completions"@ {
                b.prompt is Some
            } else {
                false
            }
        },
{
    if let Some(ms) = b.messages {
        lemma_leading_system_shape(ms);
        if leading_system(ms) < ms.len() {
            assert(ms[leading_system(ms) as int].role != Some("system"@));
        }
        if exists|i: int| 0 <= i < ms.len() && (#[trigger] ms[i]).role != Some("system"@) {
            let i = choose|i: int| 0 <= i < ms.len() && (#[trigger] ms[i]).role != Some("system"@);
            assert(!is_system(ms[i]));
            assert(leading_system(ms) <= i);
        }
    }
}

/// What the identity of a prompt is hashed from: the surface, the model, and
/// the first 8 KiB of the prompt. Each of the three can be told from it, so
/// that requests which differ in one of them are hashed from different input.
pub proof fn law_prompts_are_hashed_with_their_model(
    a: BodyView,
    b: BodyView,
    path: Seq<char>,
    other: Seq<char>,
)
    requires
        path == "api/generate"@ || path == "v1/completions"@,
        other == "api/generate"@ || other == "v1/completions"@,
        a.model is Some,
        a.model->0.len() > 0,
        a.prompt is Some,
        b.model is Some,
        b.model->0.len() > 0,
        b.prompt is Some,
    ensures
        ({
            let of_a = prompt_input(a.model->0, a.prompt->0, path == "v1/completions"@);
            let of_b = prompt_input(b.model->0, b.prompt->0, other == "v1/completions"@);
            &&& identity(Some(a), path) == Some(fnv_parts(of_a))
            &&& identity(Some(b), other) == Some(fnv_parts(of_b))
            &&& of_a == of_b <==> path == other && a.model->0 == b.model->0 && first_bytes(
                a.prompt->0,
                8192,
            ) == first_bytes(b.prompt->0, 8192)
        }),
{
    broadcast use vstd::utf8::encode_utf8_decode_utf8;

    lemma_paths_differ();
    lemma_surfaces_differ();
    let of_a = prompt_input(a.model->0, a.prompt->0, path == "v1/completions"@);
    let of_b = prompt_input(b.model->0, b.prompt->0, other == "v1/completions"@);
    assert(capped(a.prompt->0, 8192) =~= first_bytes(a.prompt->0, 8192));
    assert(capped(b.prompt->0, 8192) =~= first_bytes(b.prompt->0, 8192));
    assert(of_a[0] == of_b[0] <==> path == other);
    if a.model->0 != b.model->0 {
        assert(vstd::utf8::decode_utf8(of_a[1]) == a.model->0);
        assert(vstd::utf8::decode_utf8(of_b[1]) == b.model->0);
        assert(of_a[1] != of_b[1]);
    }
    assert(of_a[2] == first_bytes(a.prompt->0, 8192));
    assert(of_b[2] == first_bytes(b.prompt->0, 8192));
}

/// The bytes of `b` before position `n`.
pub open spec fn first_bytes(b: Seq<u8>, n: nat) -> Seq<u8> {
    Seq::new(
        if b.len() < n {
            b.len()
        } else {
            n
        },
        |i: int| b[i],
    )
}

/// The three parts that tell one prompt request from another.
pub open spec fn prompt_input(model: Seq<char>, prompt: Seq<u8>, v1: bool) -> Seq<Seq<u8>> {
    seq![
        vstd::utf8::encode_utf8(
            if v1 {
                "v1"@
            } else {
                "api"@
            },
        ),
        vstd::utf8::encode_utf8(model),
        first_bytes(prompt, 8192),
    ]
}

proof fn lemma_paths_differ()
    ensures
        "api/chat"@ != "api/generate"@,
        "api/chat"@ != "v1/chat/completions"@,
        "api/chat"@ != "v1/completions"@,
        "api/generate"@ != "v1/chat/completions"@,
        "api/generate"@ != "v1/completions"@,
        "v1/chat/completions"@ != "v1/completions"@,
{
    reveal_strlit("api/chat");
    reveal_strlit("api/generate");
    reveal_strlit("v1/chat/completions");
    reveal_strlit("v1/completions");
    assert("api/chat"@.len() == 8);
    assert("api/generate"@.len() == 12);
    assert("v1/chat/completions"@.len() == 19);
    assert("v1/completions"@.len() == 14);
}

proof fn lemma_surfaces_differ()
    ensures
        vstd::utf8::encode_utf8("api"@) != vstd::utf8::encode_utf8("v1"@),
{
    broadcast use vstd::utf8::encode_utf8_decode_utf8;

    reveal_strlit("api");
    reveal_strlit("v1");
    assert("api"@.len() == 3);
    assert("v1"@.len() == 2);
    assert(vstd::utf8::decode_utf8(vstd::utf8::encode_utf8("api"@)) == "api"@);
    assert(vstd::utf8::decode_utf8(vstd::utf8::encode_utf8("v1"@)) == "v1"@);
}

/// Models tell prompts apart: the same prompt for two models whose names are a
/// byte apart has two identities.
pub proof fn law_models_split_prompts(a: BodyView, b: BodyView, path: Seq<char>, at: int)
    requires
        path == "api/generate"@ || path == "v1/completions"@,
        a.model is Some,
        b.model is Some,
        one_byte_apart(
            vstd::utf8::encode_utf8(a.model->0),
            vstd::utf8::encode_utf8(b.model->0),
            at,
        ),
        a.prompt is Some,
        b.prompt == a.prompt,
    ensures
        identity(Some(a), path) is Some,
        identity(Some(b), path) is Some,
        identity(Some(a), path) != identity(Some(b), path),
{
    lemma_paths_differ();
    let v1 = path == "v1/completions"@;
    law_prompts_are_hashed_with_their_model(a, b, path, path);
    law_every_byte_counts(
        prompt_input(a.model->0, a.prompt->0, v1),
        prompt_input(b.model->0, b.prompt->0, v1),
        1,
        at,
    );
}

/// Prompts tell apart: two that are a byte apart within their first 8 KiB, for
/// the same model on the same path, have two identities.
pub proof fn law_prompts_split(a: BodyView, b: BodyView, path: Seq<char>, at: int)
    requires
        path == "api/generate"@ || path == "v1/completions"@,
        a.model is Some,
        a.model->0.len() > 0,
        b.model == a.model,
        a.prompt is Some,
        b.prompt is Some,
        one_byte_apart(a.prompt->0, b.prompt->0, at),
        at < 8192,
    ensures
        identity(Some(a), path) is Some,
        identity(Some(b), path) is Some,
        identity(Some(a), path) != identity(Some(b), path),
{
    let v1 = path == "v1/completions"@;
    law_prompts_are_hashed_with_their_model(a, b, path, path);
    let x = first_bytes(a.prompt->0, 8192);
    let y = first_bytes(b.prompt->0, 8192);
    assert forall|i: int| 0 <= i < x.len() && i != at implies #[trigger] x[i] == y[i] by {
        assert(x[i] == a.prompt->0[i]);
    }
    law_every_byte_counts(
        prompt_input(a.model->0, a.prompt->0, v1),
        prompt_input(b.model->0, b.prompt->0, v1),
        2,
        at,
    );
}

/// What a chat is told apart by: the messages of two chats are the same but for
/// a byte of message `k` at `at`.
pub open spec fn message_apart(
    a: Seq<MessageView>,
    b: Seq<MessageView>,
    k: int,
    at: int,
) -> bool {
    &&& a.len() == b.len()
    &&& 0 <= k < a.len()
    &&& one_byte_apart(a[k].text, b[k].text, at)
    &&& forall|i: int| 0 <= i < a.len() ==> (#[trigger] a[i]).role == b[i].role
    &&& forall|i: int| 0 <= i < a.len() && i != k ==> (#[trigger] a[i]).text == b[i].text
}

proof fn lemma_messages_keep_apart(h: u64, g: u64, ms: Seq<MessageView>)
    requires
        h != g,
    ensures
        absorb_messages(h, ms) != absorb_messages(g, ms),
    decreases ms.len(),
{
    if ms.len() > 0 {
        lemma_messages_keep_apart(h, g, ms.drop_last());
        law_rounds_lose_nothing(
            absorb_messages(h, ms.drop_last()),
            absorb_messages(g, ms.drop_last()),
            fnv(capped(ms.last().text, MAX_PREFIX_BYTES as nat)),
            0,
        );
    }
}

proof fn lemma_messages_tell_apart(
    h: u64,
    a: Seq<MessageView>,
    b: Seq<MessageView>,
    k: int,
    at: int,
)
    requires
        message_apart(a, b, k, at),
        at < 65536,
    ensures
        absorb_messages(h, a) != absorb_messages(h, b),
    decreases a.len(),
{
    let x = absorb_messages(h, a.drop_last());
    let y = absorb_messages(h, b.drop_last());
    let s = capped(a.last().text, MAX_PREFIX_BYTES as nat);
    let t = capped(b.last().text, MAX_PREFIX_BYTES as nat);
    if k == a.len() - 1 {
        assert forall|i: int| 0 <= i < a.len() - 1 implies a[i] == b[i] by {
            assert(a[i].role == b[i].role && a[i].text == b[i].text);
        }
        assert(a.drop_last() =~= b.drop_last());
        assert(one_byte_apart(s, t, at));
        law_one_byte_changes_the_hash(s, t, at);
        law_rounds_lose_nothing(x, x, fnv(s), fnv(t));
    } else {
        assert(message_apart(a.drop_last(), b.drop_last(), k, at));
        lemma_messages_tell_apart(h, a.drop_last(), b.drop_last(), k, at);
        assert(a[a.len() - 1].text == b[a.len() - 1].text);
        law_rounds_lose_nothing(x, y, fnv(s), 0);
    }
}

/// Chats tell apart by every leading system message and by the first message
/// behind them: two that are a byte apart there, within the first 64 KiB of the
/// message, have two identities.
pub proof fn law_leading_messages_split_chats(
    a: BodyView,
    b: BodyView,
    path: Seq<char>,
    k: int,
    at: int,
)
    requires
        path == "api/chat"@ || path == "v1/chat/completions"@,
        a.model is Some,
        a.model->0.len() > 0,
        b.model == a.model,
        a.messages is Some,
        b.messages is Some,
        message_apart(a.messages->0, b.messages->0, k, at),
        at < 65536,
        forall|i: int| 0 <= i < k ==> (#[trigger] a.messages->0[i]).role == Some("system"@),
        exists|i: int|
            0 <= i < a.messages->0.len() && (#[trigger] a.messages->0[i]).role != Some("system"@),
    ensures
        identity(Some(a), path) is Some,
        identity(Some(b), path) is Some,
        identity(Some(a), path) != identity(Some(b), path),
{
    let x = a.messages->0;
    let y = b.messages->0;
    law_who_has_an_identity(a, path);
    lemma_leading_system_shape(x);
    let cut = leading_system(x);
    assert forall|i: int| 0 <= i < cut implies is_system(#[trigger] y[i]) by {
        assert(is_system(x[i]));
        assert(x[i].role == y[i].role);
    }
    assert(cut < x.len());
    assert(x[cut as int].role == y[cut as int].role);
    lemma_leading_system(y, cut as int);
    assert(k <= cut);
    let s = x.take(cut + 1int);
    let t = y.take(cut + 1int);
    assert(message_apart(s, t, k, at)) by {
        assert(s[k] == x[k] && t[k] == y[k]);
        assert forall|i: int| 0 <= i < s.len() implies (#[trigger] s[i]).role == t[i].role by {
            assert(x[i].role == y[i].role);
        }
        assert forall|i: int| 0 <= i < s.len() && i != k implies (#[trigger] s[i]).text
            == t[i].text by {
            assert(x[i].text == y[i].text);
        }
    }
    let seed = fnv_parts(
        seq![vstd::utf8::encode_utf8(family(path)), vstd::utf8::encode_utf8(a.model->0)],
    );
    lemma_messages_tell_apart(seed, s, t, k, at);
}

/// Models tell chats apart: the same messages for two models whose names are a
/// byte apart have two identities.
pub proof fn law_models_split_chats(a: BodyView, b: BodyView, path: Seq<char>, at: int)
    requires
        path == "api/chat"@ || path == "v1/chat/completions"@,
        a.model is Some,
        b.model is Some,
        one_byte_apart(
            vstd::utf8::encode_utf8(a.model->0),
            vstd::utf8::encode_utf8(b.model->0),
            at,
        ),
        b.messages == a.messages,
        identity(Some(a), path) is Some,
    ensures
        identity(Some(b), path) is Some,
        identity(Some(a), path) != identity(Some(b), path),
{
    let ms = a.messages->0;
    let s = seq![vstd::utf8::encode_utf8(family(path)), vstd::utf8::encode_utf8(a.model->0)];
    let t = seq![vstd::utf8::encode_utf8(family(path)), vstd::utf8::encode_utf8(b.model->0)];
    law_every_byte_counts(s, t, 1, at);
    lemma_messages_keep_apart(
        fnv_parts(s),
        fnv_parts(t),
        ms.take(leading_system(ms) + 1int),
    );
}

proof fn lemma_absorb_step(h: u64, bytes: Seq<u8>, c: u8)
    ensures
        absorb(h, bytes.push(c)) == mix(absorb(h, bytes), c as u64),
        absorb(h, seq![]) == h,
{
    assert(bytes.push(c).drop_last() =~= bytes);
}

proof fn lemma_surface_states()
    ensures
        absorb_parts(FNV_OFFSET, seq![vstd::utf8::encode_utf8("api"@)]) != absorb_parts(
            FNV_OFFSET,
            seq![vstd::utf8::encode_utf8("v1"@)],
        ),
{
    lemma_surface_bytes();
    let api = seq![97u8, 112u8, 105u8];
    let v1 = seq![118u8, 49u8];
    assert(seq![api].drop_last() =~= seq![]);
    assert(seq![v1].drop_last() =~= seq![]);
    assert(absorb_parts(FNV_OFFSET, seq![]) == FNV_OFFSET);
    lemma_api_state();
    lemma_v1_state();
}

proof fn lemma_mix_value(h: u64, x: u64, y: u64, r: u64)
    requires
        h ^ x == y,
        (y * 0x100000001b3) % 0x1_0000_0000_0000_0000 == r,
    ensures
        mix(h, x) == r,
{
}

proof fn lemma_two_bytes(h: u64, a: u8, b: u8)
    ensures
        absorb(h, seq![a, b]) == mix(mix(h, a as u64), b as u64),
{
    let none = Seq::<u8>::empty();
    lemma_absorb_step(h, none, a);
    lemma_absorb_step(h, none.push(a), b);
    assert(none.push(a).push(b) =~= seq![a, b]);
}

proof fn lemma_three_bytes(h: u64, a: u8, b: u8, c: u8)
    ensures
        absorb(h, seq![a, b, c]) == mix(mix(mix(h, a as u64), b as u64), c as u64),
{
    lemma_two_bytes(h, a, b);
    lemma_absorb_step(h, seq![a, b], c);
    assert(seq![a, b].push(c) =~= seq![a, b, c]);
}

proof fn lemma_api_state()
    ensures
        absorb(mix(FNV_OFFSET, 3), seq![97u8, 112u8, 105u8]) == 0x34477489cf03a016u64,
{
    assert(0xcbf29ce484222325u64 ^ 3 == 0xcbf29ce484222326u64) by (bit_vector);
    assert(0xaf63be4c8601b992u64 ^ 97 == 0xaf63be4c8601b9f3u64) by (bit_vector);
    assert(0x08364f07b4eef7e9u64 ^ 112 == 0x08364f07b4eef799u64) by (bit_vector);
    assert(0xe33fe318720eb8fbu64 ^ 105 == 0xe33fe318720eb892u64) by (bit_vector);
    lemma_mix_value(FNV_OFFSET, 3, 0xcbf29ce484222326, 0xaf63be4c8601b992);
    lemma_mix_value(0xaf63be4c8601b992, 97, 0xaf63be4c8601b9f3, 0x08364f07b4eef7e9);
    lemma_mix_value(0x08364f07b4eef7e9, 112, 0x08364f07b4eef799, 0xe33fe318720eb8fb);
    lemma_mix_value(0xe33fe318720eb8fb, 105, 0xe33fe318720eb892, 0x34477489cf03a016);
    lemma_three_bytes(0xaf63be4c8601b992, 97, 112, 105);
}

proof fn lemma_v1_state()
    ensures
        absorb(mix(FNV_OFFSET, 2), seq![118u8, 49u8]) == 0xea62cb1875ab1748u64,
{
    assert(0xcbf29ce484222325u64 ^ 2 == 0xcbf29ce484222327u64) by (bit_vector);
    assert(0xaf63bf4c8601bb45u64 ^ 118 == 0xaf63bf4c8601bb33u64) by (bit_vector);
    assert(0x08394207b4f117a9u64 ^ 49 == 0x08394207b4f11798u64) by (bit_vector);
    lemma_mix_value(FNV_OFFSET, 2, 0xcbf29ce484222327, 0xaf63bf4c8601bb45);
    lemma_mix_value(0xaf63bf4c8601bb45, 118, 0xaf63bf4c8601bb33, 0x08394207b4f117a9);
    lemma_mix_value(0x08394207b4f117a9, 49, 0x08394207b4f11798, 0xea62cb1875ab1748);
    lemma_two_bytes(0xaf63bf4c8601bb45, 118, 49);
}

proof fn lemma_first_part(h: u64, first: Seq<u8>, rest: Seq<Seq<u8>>)
    ensures
        absorb_parts(h, seq![first] + rest) == absorb_parts(absorb_parts(h, seq![first]), rest),
    decreases rest.len(),
{
    let all = seq![first] + rest;
    if rest.len() == 0 {
        assert(all =~= seq![first]);
    } else {
        lemma_first_part(h, first, rest.drop_last());
        assert(all.drop_last() =~= seq![first] + rest.drop_last());
        assert(all.last() == rest.last());
    }
}

/// The native surface and the OpenAI-compatible one tell apart: the same
/// request by either has two identities.
pub proof fn law_surfaces_split(b: BodyView)
    ensures
        identity(Some(b), "api/generate"@) is Some ==> identity(Some(b), "api/generate"@)
            != identity(Some(b), "v1/completions"@),
        identity(Some(b), "api/chat"@) is Some ==> identity(Some(b), "api/chat"@) != identity(
            Some(b),
            "v1/chat/completions"@,
        ),
{
    lemma_paths_differ();
    lemma_surface_states();
    let api = vstd::utf8::encode_utf8("api"@);
    let v1 = vstd::utf8::encode_utf8("v1"@);
    let x = absorb_parts(FNV_OFFSET, seq![api]);
    let y = absorb_parts(FNV_OFFSET, seq![v1]);
    if let Some(model) = b.model {
        let m = vstd::utf8::encode_utf8(model);
        if let Some(prompt) = b.prompt {
            let p = capped(prompt, MAX_PROMPT_BYTES as nat);
            lemma_first_part(FNV_OFFSET, api, seq![m, p]);
            lemma_first_part(FNV_OFFSET, v1, seq![m, p]);
            assert(seq![api] + seq![m, p] =~= seq![api, m, p]);
            assert(seq![v1] + seq![m, p] =~= seq![v1, m, p]);
            lemma_parts_keep_apart(x, y, seq![m, p]);
            lemma_folding_loses_nothing(
                absorb_parts(FNV_OFFSET, seq![api, m, p]),
                absorb_parts(FNV_OFFSET, seq![v1, m, p]),
            );
        }
        if let Some(ms) = b.messages {
            lemma_first_part(FNV_OFFSET, api, seq![m]);
            lemma_first_part(FNV_OFFSET, v1, seq![m]);
            assert(seq![api] + seq![m] =~= seq![api, m]);
            assert(seq![v1] + seq![m] =~= seq![v1, m]);
            lemma_parts_keep_apart(x, y, seq![m]);
            lemma_folding_loses_nothing(
                absorb_parts(FNV_OFFSET, seq![api, m]),
                absorb_parts(FNV_OFFSET, seq![v1, m]),
            );
            lemma_messages_keep_apart(
                fnv_parts(seq![api, m]),
                fnv_parts(seq![v1, m]),
                ms.take(leading_system(ms) + 1int),
            );
        }
    }
}

proof fn lemma_surface_bytes()
    ensures
        vstd::utf8::encode_utf8("api"@) == seq![97u8, 112u8, 105u8],
        vstd::utf8::encode_utf8("v1"@) == seq![118u8, 49u8],
{
    reveal_strlit("api");
    reveal_strlit("v1");
    vstd::utf8::is_ascii_chars_encode_utf8("api"@);
    vstd::utf8::is_ascii_chars_encode_utf8("v1"@);
    assert(vstd::utf8::encode_utf8("api"@) =~= seq![97u8, 112u8, 105u8]);
    assert(vstd::utf8::encode_utf8("v1"@) =~= seq![118u8, 49u8]);
}

// ---------------------------------------------------------------------------
// Recency
// ---------------------------------------------------------------------------

/// What is looked up, or pinned, is the most recent; the others keep their
/// order.
pub proof fn law_used_is_most_recent(
    pins: Seq<(u64, usize)>,
    cap: nat,
    id: u64,
    key: usize,
    i: int,
    j: int,
)
    requires
        distinct_ids(pins),
        1 <= cap,
        pins.len() <= cap,
        0 <= i < j < pins.len(),
        pins[i].0 != id,
        pins[j].0 != id,
    ensures
        pinned(pins, id) matches Some(k) ==> touched(pins, id).last() == (id, k),
        pinned(pins, id) is None ==> touched(pins, id) == pins,
        repinned(pins, cap, id, key).last() == (id, key),
        exists|a: int, b: int|
            0 <= a < b < touched(pins, id).len() && #[trigger] touched(pins, id)[a] == pins[i]
                && #[trigger] touched(pins, id)[b] == pins[j],
        i > 0 || pins.len() < cap || pinned(pins, id) is Some ==> exists|a: int, b: int|
            0 <= a < b < repinned(pins, cap, id, key).len() && #[trigger] repinned(
                pins,
                cap,
                id,
                key,
            )[a] == pins[i] && #[trigger] repinned(pins, cap, id, key)[b] == pins[j],
{
    lemma_position_range(pins, id);
    let at = position(pins, id);
    let a = if at >= 0 && i > at {
        i - 1
    } else {
        i
    };
    let b = if at >= 0 && j > at {
        j - 1
    } else {
        j
    };
    let t = touched(pins, id);
    let r = repinned(pins, cap, id, key);
    assert(t[a] == pins[i] && t[b] == pins[j]);
    if pinned(pins, id) is None && pins.len() >= cap {
        if i > 0 {
            assert(r[i - 1] == pins[i] && r[j - 1] == pins[j]);
        }
    } else {
        assert(r[a] == pins[i] && r[b] == pins[j]);
    }
}

/// A full map makes room for a new identity by forgetting the one that was
/// longest unused, and only that; a map with room forgets none.
pub proof fn law_least_recent_is_forgotten(
    pins: Seq<(u64, usize)>,
    cap: nat,
    id: u64,
    key: usize,
    other: u64,
)
    requires
        distinct_ids(pins),
        1 <= cap,
        pins.len() <= cap,
        other != id,
    ensures
        pins.len() == cap && pinned(pins, id) is None ==> {
            &&& pinned(repinned(pins, cap, id, key), pins[0].0) is None
            &&& other != pins[0].0 ==> pinned(repinned(pins, cap, id, key), other) == pinned(
                pins,
                other,
            )
            &&& repinned(pins, cap, id, key).len() == cap
        },
        pins.len() < cap || pinned(pins, id) is Some ==> pinned(
            repinned(pins, cap, id, key),
            other,
        ) == pinned(pins, other),
        pinned(repinned(pins, cap, id, key), id) == Some(key),
{
    law_pin_is_found(pins, cap, id, key, other);
    if pins.len() == cap && pinned(pins, id) is None {
        let least = pins[0].0;
        lemma_position_range(pins, id);
        lemma_position(pins, least, 0);
        assert(pins.skip(1) =~= unpinned(pins, least));
        law_unpinning(pins, least, least);
        law_unpinning(pins, least, id);
        lemma_pushed(pins.skip(1), id, key, least);
    }
}

/// What a body says is read from the members that are named for it.
pub proof fn law_bodies_are_read(text: Seq<u8>)
    ensures
        body_of(text) is Some <==> json::is_json(text),
        json::is_json(text) ==> {
            let b = body_of(text)->0;
            &&& json::member(text, "model"@) is None ==> b.model is None
            &&& json::member(text, "model"@) matches Some(m) ==> b.model == json::string_value(m)
            &&& json::member(text, "prompt"@) is None <==> b.prompt is None
            &&& json::member(text, "prompt"@) matches Some(m) ==> b.prompt == Some(
                match json::string_value(m) {
                    Some(s) => vstd::utf8::encode_utf8(s),
                    None => m,
                },
            )
            &&& json::member(text, "stream"@) is None <==> b.stream == Stream::Absent
            &&& json::member(text, "stream"@) == Some(vstd::utf8::encode_utf8("true"@))
                ==> b.stream == Stream::Flag(true)
            &&& json::member(text, "stream"@) == Some(vstd::utf8::encode_utf8("false"@))
                ==> b.stream == Stream::Flag(false)
            &&& b.stream == Stream::Flag(true) ==> json::member(text, "stream"@) == Some(
                vstd::utf8::encode_utf8("true"@),
            )
            &&& b.stream == Stream::Flag(false) ==> json::member(text, "stream"@) == Some(
                vstd::utf8::encode_utf8("false"@),
            )
            &&& json::member_items(text, "messages"@) is None <==> b.messages is None
            &&& json::member_items(text, "messages"@) matches Some(items) ==> {
                &&& b.messages->0.len() == items.len()
                &&& forall|i: int|
                    0 <= i < items.len() ==> (#[trigger] b.messages->0[i]).text == items[i]
                &&& forall|i: int|
                    0 <= i < items.len() ==> (#[trigger] b.messages->0[i]).role
                        == match json::member(items[i], "role"@) {
                        Some(m) => json::string_value(m),
                        None => None,
                    }
            }
        },
{
    broadcast use vstd::utf8::encode_utf8_decode_utf8;

    reveal_strlit("true");
    reveal_strlit("false");
    assert("true"@.len() == 4);
    assert("false"@.len() == 5);
    assert(vstd::utf8::decode_utf8(vstd::utf8::encode_utf8("true"@)) == "true"@);
    assert(vstd::utf8::decode_utf8(vstd::utf8::encode_utf8("false"@)) == "false"@);
}

/// Only the first 64 KiB of each message count, and nothing behind the first
/// message that is not a system message: chats that agree so far have the same
/// identity.
pub proof fn law_message_tails_are_ignored(a: BodyView, b: BodyView, path: Seq<char>, n: int)
    requires
        path == "api/chat"@ || path == "v1/chat/completions"@,
        a.model == b.model,
        a.messages is Some,
        b.messages is Some,
        0 <= n < a.messages->0.len(),
        n < b.messages->0.len(),
        a.messages->0[n].role != Some("system"@),
        forall|i: int|
            0 <= i <= n ==> (#[trigger] a.messages->0[i]).role == b.messages->0[i].role
                && first_bytes(a.messages->0[i].text, 65536) == first_bytes(
                b.messages->0[i].text,
                65536,
            ),
    ensures
        identity(Some(a), path) == identity(Some(b), path),
{
    let x = a.messages->0;
    let y = b.messages->0;
    lemma_leading_system_shape(x);
    let cut = leading_system(x);
    assert(cut <= n) by {
        if cut > n {
            assert(is_system(x[n]));
        }
    }
    assert forall|i: int| 0 <= i < cut implies is_system(#[trigger] y[i]) by {
        assert(is_system(x[i]));
        assert(x[i].role == y[i].role);
    }
    assert(x[cut as int].role == y[cut as int].role);
    lemma_leading_system(y, cut as int);
    if a.model is Some {
        let seed = fnv_parts(
            seq![vstd::utf8::encode_utf8(family(path)), vstd::utf8::encode_utf8(a.model->0)],
        );
        let s = x.take(cut + 1int);
        let t = y.take(cut + 1int);
        assert forall|i: int| 0 <= i < s.len() implies first_bytes(
            (#[trigger] s[i]).text,
            65536,
        ) == first_bytes(t[i].text, 65536) by {
            assert(s[i] == x[i] && t[i] == y[i]);
        }
        lemma_same_beginnings(seed, s, t);
    }
}

proof fn lemma_same_beginnings(seed: u64, a: Seq<MessageView>, b: Seq<MessageView>)
    requires
        a.len() == b.len(),
        forall|i: int|
            0 <= i < a.len() ==> first_bytes((#[trigger] a[i]).text, 65536) == first_bytes(
                b[i].text,
                65536,
            ),
    ensures
        absorb_messages(seed, a) == absorb_messages(seed, b),
    decreases a.len(),
{
    if a.len() > 0 {
        let n = a.len() - 1;
        assert forall|i: int| 0 <= i < n implies first_bytes(
            (#[trigger] a.drop_last()[i]).text,
            65536,
        ) == first_bytes(b.drop_last()[i].text, 65536) by {
            assert(a.drop_last()[i] == a[i] && b.drop_last()[i] == b[i]);
        }
        lemma_same_beginnings(seed, a.drop_last(), b.drop_last());
        assert(capped(a[n].text, 65536) =~= first_bytes(a[n].text, 65536));
        assert(capped(b[n].text, 65536) =~= first_bytes(b[n].text, 65536));
    }
}

/// Parts are hashed one after the other, each behind its length, so that where
/// one ends and the next begins counts; and the hash is the state at the end
/// with its high half folded into the low one.
pub proof fn law_parts_are_hashed_behind_their_length(
    h: u64,
    a: Seq<Seq<u8>>,
    b: Seq<Seq<u8>>,
    part: Seq<u8>,
)
    ensures
        absorb_parts(h, a + b) == absorb_parts(absorb_parts(h, a), b),
        absorb_parts(h, seq![]) == h,
        absorb_parts(h, seq![part]) == absorb(
            (((h ^ (part.len() as u64)) * 0x100000001b3) % 0x1_0000_0000_0000_0000) as u64,
            part,
        ),
        fnv_parts(a) == absorb_parts(0xcbf29ce484222325, a) ^ (absorb_parts(0xcbf29ce484222325, a)
            >> 32),
        fnv(part) == absorb(0xcbf29ce484222325, part) ^ (absorb(0xcbf29ce484222325, part) >> 32),
    decreases b.len(),
{
    assert(seq![part].drop_last() =~= seq![]);
    assert(absorb_parts(h, seq![part].drop_last()) == h);
    if b.len() > 0 {
        law_parts_are_hashed_behind_their_length(h, a, b.drop_last(), part);
        assert((a + b).drop_last() =~= a + b.drop_last());
    } else {
        assert(a + b =~= a);
    }
}

} // verus!
