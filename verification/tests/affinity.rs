use ollamux::affinity::{
    fnv1a64, hash_parts, identity_from, is_affine_path, AffinityMap, RequestBody, Stream,
    MAX_PROMPT_BYTES,
};

fn v(body: &str) -> Option<RequestBody> {
    RequestBody::parse(body.as_bytes())
}

#[test]
fn fnv1a64_is_stable_and_order_sensitive() {
    assert_eq!(
        fnv1a64(b""),
        0xcbf29ce484222325 ^ (0xcbf29ce484222325 >> 32)
    );
    assert_eq!(
        fnv1a64(b"a"),
        0xaf63dc4c8601ec8c ^ (0xaf63dc4c8601ec8c >> 32)
    );
    assert_ne!(fnv1a64(b"abc"), fnv1a64(b"acb"));
    assert_ne!(fnv1a64(&[0u8]), fnv1a64(&[0u8, 0u8]));
}

#[test]
fn hashing_parts_keeps_their_bounds() {
    let ab_c: Vec<&[u8]> = vec![b"ab", b"c"];
    let a_bc: Vec<&[u8]> = vec![b"a", b"bc"];
    let same: Vec<&[u8]> = vec![b"ab", b"c"];
    assert_ne!(hash_parts(&ab_c), hash_parts(&a_bc));
    assert_eq!(hash_parts(&ab_c), hash_parts(&same));
}

#[test]
fn same_conversation_across_turns_stable() {
    let turn1 = v(r#"{"model":"gpt-oss:120b","messages":[
            {"role":"system","content":"You are terse."},
            {"role":"user","content":"hi"}],
            "stream":true}"#)
    .unwrap();
    let turn2 = v(r#"{"model":"gpt-oss:120b","messages":[
            {"role":"system","content":"You are terse."},
            {"role":"user","content":"hi"},
            {"role":"assistant","content":"Hello."},
            {"role":"user","content":"more"}],
            "stream":true}"#)
    .unwrap();
    assert_eq!(
        identity_from(Some(&turn1), "api/chat"),
        identity_from(Some(&turn2), "api/chat")
    );
    assert!(identity_from(Some(&turn1), "api/chat").is_some());
}

#[test]
fn multi_system_prefix_and_part_array_content() {
    let turn1 = v(r#"{"model":"m","messages":[
            {"role":"system","content":"s1"},
            {"role":"system","content":"s2"},
            {"role":"user","content":[{"type":"text","text":"q"}]}]}"#)
    .unwrap();
    let turn2 = v(r#"{"model":"m","messages":[
            {"role":"system","content":"s1"},
            {"role":"system","content":"s2"},
            {"role":"user","content":[{"type":"text","text":"q"}]},
            {"role":"assistant","content":[{"type":"text","text":"a"}]},
            {"role":"user","content":"again"}]}"#)
    .unwrap();
    assert_eq!(
        identity_from(Some(&turn1), "v1/chat/completions"),
        identity_from(Some(&turn2), "v1/chat/completions")
    );
}

#[test]
fn different_conversations_diverge() {
    let a = v(r#"{"model":"m","messages":[{"role":"user","content":"a"}]}"#).unwrap();
    let b = v(r#"{"model":"m","messages":[{"role":"user","content":"b"}]}"#).unwrap();
    let sys = v(
        r#"{"model":"m","messages":[{"role":"system","content":"s"},{"role":"user","content":"a"}]}"#,
    )
    .unwrap();
    assert_ne!(
        identity_from(Some(&a), "api/chat"),
        identity_from(Some(&b), "api/chat")
    );
    assert_ne!(
        identity_from(Some(&a), "api/chat"),
        identity_from(Some(&sys), "api/chat")
    );
    // Different model = different upstream prompt = different identity.
    let other_model = v(r#"{"model":"other","messages":[{"role":"user","content":"a"}]}"#).unwrap();
    assert_ne!(
        identity_from(Some(&a), "api/chat"),
        identity_from(Some(&other_model), "api/chat")
    );
}

#[test]
fn stream_flag_and_params_do_not_split_identity() {
    let stream_on = v(r#"{"model":"m","messages":[{"role":"user","content":"x"}],"stream":true,"temperature":0.7}"#).unwrap();
    let stream_off = v(r#"{"model":"m","messages":[{"role":"user","content":"x"}],"stream":false,"temperature":0.2}"#).unwrap();
    assert_eq!(
        identity_from(Some(&stream_on), "api/chat"),
        identity_from(Some(&stream_off), "api/chat")
    );
    // ...but a changed prefix does.
    let changed_sys = v(r#"{"model":"m","messages":[{"role":"system","content":"different"},{"role":"user","content":"x"}],"stream":true}"#).unwrap();
    assert_ne!(
        identity_from(Some(&stream_on), "api/chat"),
        identity_from(Some(&changed_sys), "api/chat")
    );
}

#[test]
fn generate_hashes_prompt_prefix() {
    let a = v(r#"{"model":"m","prompt":"hello world"}"#).unwrap();
    let same = v(r#"{"model":"m","prompt":"hello world","stream":true}"#).unwrap();
    let longer = v(r#"{"model":"m","prompt":"hello world!"}"#).unwrap();
    assert_eq!(
        identity_from(Some(&a), "api/generate"),
        identity_from(Some(&same), "api/generate")
    );
    assert_ne!(
        identity_from(Some(&a), "api/generate"),
        identity_from(Some(&longer), "api/generate")
    );
}

#[test]
fn prompt_cap_is_8kib() {
    let big = "x".repeat(20 * 1024);
    let body = format!(r#"{{"model":"m","prompt":"{big}"}}"#);
    let body = v(&body).unwrap();
    let truncated = format!(
        r#"{{"model":"m","prompt":"{}…"}}"#,
        "x".repeat(MAX_PROMPT_BYTES)
    );
    let truncated = v(&truncated).unwrap();
    assert_eq!(MAX_PROMPT_BYTES, 8 * 1024);
    // First 8 KiB identical: same identity even though the full prompts
    // differ beyond the cap.
    assert_eq!(
        identity_from(Some(&body), "v1/completions"),
        identity_from(Some(&truncated), "v1/completions")
    );
    // The cap is on what the prompt says, not on how it is written.
    let escaped = format!(
        r#"{{"model":"m","prompt":"{}tail"}}"#,
        "\\u0078".repeat(MAX_PROMPT_BYTES)
    );
    let escaped = v(&escaped).unwrap();
    assert_eq!(
        identity_from(Some(&body), "v1/completions"),
        identity_from(Some(&escaped), "v1/completions")
    );
    // Within the cap, a difference counts.
    let shorter = format!(
        r#"{{"model":"m","prompt":"{}y"}}"#,
        "x".repeat(MAX_PROMPT_BYTES / 2)
    );
    let shorter = v(&shorter).unwrap();
    assert_ne!(
        identity_from(Some(&body), "v1/completions"),
        identity_from(Some(&shorter), "v1/completions")
    );
}

#[test]
fn surfaces_and_paths_gate_affinity() {
    let body = v(r#"{"model":"m","messages":[{"role":"user","content":"x"}]}"#).unwrap();
    // Cross-surface never collapses: api vs v1 family is in the hash.
    assert_ne!(
        identity_from(Some(&body), "api/chat"),
        identity_from(Some(&body), "v1/chat/completions")
    );
    // Non-affine paths: none even with a perfect body.
    assert_eq!(identity_from(Some(&body), "api/embed"), None);
    assert_eq!(identity_from(Some(&body), "api/tags"), None);
    // Same family, different path prefix: still one family value.
    assert_eq!(
        identity_from(Some(&body), "api/chat"),
        identity_from(Some(&body), "api/chat")
    );
}

#[test]
fn affine_paths_are_the_four_text_endpoints() {
    for path in [
        "api/chat",
        "api/generate",
        "v1/chat/completions",
        "v1/completions",
    ] {
        assert!(is_affine_path(path), "{path}");
    }
    for path in ["", "/api/chat", "api/embed", "api/chat/", "v1/models"] {
        assert!(!is_affine_path(path), "{path}");
    }
}

#[test]
fn unparseable_or_missing_fields_give_none() {
    assert_eq!(identity_from(None, "api/chat"), None);
    let garbage = v("not json");
    assert!(garbage.is_none());
    assert_eq!(identity_from(garbage.as_ref(), "api/chat"), None);
    let no_model = v(r#"{"messages":[{"role":"user","content":"x"}]}"#).unwrap();
    assert_eq!(identity_from(Some(&no_model), "api/chat"), None);
    let no_msgs = v(r#"{"model":"m"}"#).unwrap();
    assert_eq!(identity_from(Some(&no_msgs), "api/chat"), None);
    let empty_msgs = v(r#"{"model":"m","messages":[]}"#).unwrap();
    assert_eq!(identity_from(Some(&empty_msgs), "api/chat"), None);
    let system_only = v(r#"{"model":"m","messages":[{"role":"system","content":"s"}]}"#).unwrap();
    assert_eq!(identity_from(Some(&system_only), "api/chat"), None);
    let no_prompt = v(r#"{"model":"m"}"#).unwrap();
    assert_eq!(identity_from(Some(&no_prompt), "api/generate"), None);
    let empty_model = v(r#"{"model":"","prompt":"x"}"#).unwrap();
    assert_eq!(identity_from(Some(&empty_model), "api/generate"), None);
}

#[test]
fn prompt_accepts_non_string_shapes() {
    let arr = v(r#"{"model":"m","prompt":["one","two"]}"#).unwrap();
    let tokens = v(r#"{"model":"m","prompt":[1,2,3]}"#).unwrap();
    assert!(identity_from(Some(&arr), "v1/completions").is_some());
    assert!(identity_from(Some(&tokens), "v1/completions").is_some());
    assert_ne!(
        identity_from(Some(&arr), "v1/completions"),
        identity_from(Some(&tokens), "v1/completions")
    );
}

#[test]
fn bodies_are_read_member_by_member() {
    let body = v(r#"{ "prompt" : [ 1, 2 ], "model" : "a\nb", "stream" : 1,
        "messages": [ {"role":"user"}, {"content": "no role"} ] }"#)
    .unwrap();
    assert_eq!(body.model.as_deref(), Some("a\nb"));
    assert_eq!(body.prompt.as_deref(), Some(&b"[1,2]"[..]));
    assert_eq!(body.stream, Stream::Other);
    let messages = body.messages.unwrap();
    assert_eq!(messages.len(), 2);
    assert_eq!(messages[0].role.as_deref(), Some("user"));
    assert_eq!(messages[1].role, None);
    assert_eq!(messages[1].text, br#"{"content":"no role"}"#.to_vec());

    // A prompt that is a string is decoded.
    let text = v(r#"{"prompt":"a\n\u00e9"}"#).unwrap();
    assert_eq!(text.prompt, Some("a\né".as_bytes().to_vec()));

    // Members of the wrong type, and values that are no object.
    let odd = v(r#"{"model":7,"messages":"x","stream":true}"#).unwrap();
    assert_eq!(odd.model, None);
    assert!(odd.messages.is_none());
    assert_eq!(odd.stream, Stream::Flag(true));
    let array = v("[]").unwrap();
    assert_eq!(array.stream, Stream::Absent);
    assert_eq!(array.prompt, None);
    assert!(v("").is_none());
    assert!(v(r#"{"a":1} trailing"#).is_none());
}

#[test]
fn map_put_get_and_lru_eviction() {
    let mut m = AffinityMap::new(2);
    m.put(1, 0);
    m.put(2, 1);
    assert_eq!(m.get(1), Some(0));
    // Touch 1 (LRU refresh), then insert 3: 2 must be evicted, 1 kept.
    m.get(1);
    m.put(3, 2);
    assert_eq!(m.get(2), None, "LRU entry evicted");
    assert_eq!(m.get(1), Some(0));
    assert_eq!(m.get(3), Some(2));
    assert_eq!(m.len(), 2);
}

#[test]
fn map_remove_if_only_drops_current_pin() {
    let mut m = AffinityMap::new(4);
    m.put(7, 0);
    // Stale key: not removed.
    m.remove_if(7, 3);
    assert_eq!(m.get(7), Some(0));
    // Current key: removed.
    m.remove_if(7, 0);
    assert_eq!(m.get(7), None);
    // Re-put after removal works and does not grow beyond cap.
    m.put(7, 1);
    assert_eq!(m.get(7), Some(1));
}

#[test]
fn map_repin_updates_value() {
    let mut m = AffinityMap::new(4);
    m.put(1, 0);
    m.put(1, 1);
    assert_eq!(m.get(1), Some(1));
    assert_eq!(m.len(), 1, "re-pin must not duplicate the entry");
}

#[test]
fn map_of_no_capacity_holds_one_pin() {
    let mut m = AffinityMap::new(0);
    m.put(1, 0);
    m.put(2, 1);
    assert_eq!(m.len(), 1);
    assert_eq!(m.get(1), None);
    assert_eq!(m.get(2), Some(1));
}
