//! The cache simulation.

use kiro_gateway::json::Json;
use kiro_gateway::kiro::cache_sim::{
    canonical_texts, fingerprint, fingerprints_from_state, fnv1a, prefix_cache_read, CacheSimStore,
    MsgFingerprint, DEFAULT_ENTRY_TTL_SECS, DEFAULT_MAX_SESSIONS,
};
use kiro_gateway::kiro::model::requests::{
    AssistantMessage, ConversationState, HistoryMessage, Tool, ToolSpecification, UserInputMessage,
    UserInputMessageContext,
};

fn fp(hash: u64, tokens: u32) -> MsgFingerprint {
    MsgFingerprint { hash, tokens }
}

fn secs(n: u64) -> u128 {
    n as u128 * 1_000_000_000
}

/// The fingerprints of a conversation, with one token for each byte of its texts.
fn fingerprints(state: &ConversationState) -> Vec<MsgFingerprint> {
    let tokens: Vec<u64> = canonical_texts(state).iter().map(|t| t.len() as u64).collect();
    fingerprints_from_state(state, &tokens)
}

#[test]
fn empty_prefix_is_zero() {
    assert_eq!(prefix_cache_read(&[], &[fp(1, 10)]), 0);
    assert_eq!(prefix_cache_read(&[fp(1, 10)], &[]), 0);
}

#[test]
fn full_common_prefix_sums_tokens() {
    let prev = vec![fp(1, 10), fp(2, 20), fp(3, 30)];
    let curr = vec![fp(1, 10), fp(2, 20), fp(3, 30), fp(4, 40)];
    assert_eq!(prefix_cache_read(&prev, &curr), 60);
}

#[test]
fn divergence_stops_prefix() {
    let prev = vec![fp(1, 10), fp(2, 20), fp(3, 30)];
    let curr = vec![fp(1, 10), fp(99, 20), fp(3, 30)];
    assert_eq!(prefix_cache_read(&prev, &curr), 10);
}

#[test]
fn first_message_divergence_zero_hit() {
    let prev = vec![fp(1, 10), fp(2, 20)];
    let curr = vec![fp(99, 10), fp(2, 20)];
    assert_eq!(prefix_cache_read(&prev, &curr), 0);
}

#[test]
fn cold_start_is_miss() {
    let mut store = CacheSimStore::new();
    let t0: u128 = 1_000_000_000_000;
    let r = store.observe_at("sess-a", "opus-4-7", vec![fp(1, 100), fp(2, 50)], t0);
    assert_eq!(r.cache_read_tokens, 0, "首轮冷启动应 0 命中");
    assert_eq!(r.total_tokens, 150);
}

#[test]
fn second_turn_hits_growing_prefix() {
    let mut store = CacheSimStore::new();
    let t0: u128 = 1_000_000_000_000;
    store.observe_at("s", "opus-4-7", vec![fp(1, 100), fp(2, 50)], t0);
    let t1 = t0 + secs(5);
    let r = store.observe_at(
        "s",
        "opus-4-7",
        vec![fp(1, 100), fp(2, 50), fp(3, 30), fp(4, 20)],
        t1,
    );
    assert_eq!(r.cache_read_tokens, 150, "应命中前两条 100+50");
    assert_eq!(r.total_tokens, 200);
}

#[test]
fn model_switch_is_full_miss() {
    let mut store = CacheSimStore::new();
    let t0: u128 = 1_000_000_000_000;
    store.observe_at("s", "opus-4-7", vec![fp(1, 100), fp(2, 50)], t0);
    let r = store.observe_at(
        "s",
        "opus-4-6",
        vec![fp(1, 100), fp(2, 50), fp(3, 30)],
        t0 + secs(5),
    );
    assert_eq!(r.cache_read_tokens, 0, "换模型应全 miss");
}

#[test]
fn ttl_expiry_is_cold_again() {
    let mut store = CacheSimStore::new();
    let t0: u128 = 1_000_000_000_000;
    store.observe_at("s", "opus-4-7", vec![fp(1, 100), fp(2, 50)], t0);
    let r = store.observe_at(
        "s",
        "opus-4-7",
        vec![fp(1, 100), fp(2, 50), fp(3, 30)],
        t0 + secs(DEFAULT_ENTRY_TTL_SECS + 1),
    );
    assert_eq!(r.cache_read_tokens, 0, "TTL 过期应冷启动 0 命中");
}

#[test]
fn within_ttl_still_hits() {
    let mut store = CacheSimStore::new();
    let t0: u128 = 1_000_000_000_000;
    store.observe_at("s", "opus-4-7", vec![fp(1, 100), fp(2, 50)], t0);
    let r = store.observe_at(
        "s",
        "opus-4-7",
        vec![fp(1, 100), fp(2, 50), fp(3, 30)],
        t0 + secs(DEFAULT_ENTRY_TTL_SECS - 1),
    );
    assert_eq!(r.cache_read_tokens, 150, "TTL 边界内应命中");
}

#[test]
fn different_sessions_isolated() {
    let mut store = CacheSimStore::new();
    let t0: u128 = 1_000_000_000_000;
    store.observe_at("s1", "opus-4-7", vec![fp(1, 100)], t0);
    let r = store.observe_at("s2", "opus-4-7", vec![fp(1, 100), fp(2, 50)], t0);
    assert_eq!(r.cache_read_tokens, 0, "不同会话应隔离");
}

#[test]
fn fingerprint_stable_and_distinct() {
    let a = fingerprint("hello world", 3);
    let b = fingerprint("hello world", 3);
    let c = fingerprint("hello worle", 3);
    assert_eq!(a.hash, b.hash, "相同文本指纹应一致");
    assert_ne!(a.hash, c.hash, "不同文本指纹应不同");
    assert!(a.tokens > 0);
}

#[test]
fn cache_read_clamped_to_total() {
    let mut store = CacheSimStore::new();
    let t0: u128 = 1_000_000_000_000;
    store.observe_at("s", "m", vec![fp(1, 100), fp(2, 100)], t0);
    let r = store.observe_at("s", "m", vec![fp(1, 100)], t0 + secs(1));
    assert!(r.cache_read_tokens <= r.total_tokens);
    assert_eq!(r.cache_read_tokens, 100);
}

#[test]
fn eviction_keeps_within_capacity() {
    let mut store = CacheSimStore::new();
    let t0: u128 = 1_000_000_000_000;
    for i in 0..(DEFAULT_MAX_SESSIONS + 100) {
        store.observe_at(
            &format!("sess-{i}"),
            "m",
            vec![fp(i as u64, 10)],
            t0 + (i as u128) * 1_000_000,
        );
    }
    let len = store.session_count();
    assert!(len <= DEFAULT_MAX_SESSIONS, "淘汰后应不超过容量, len={len}");
}

#[test]
fn fingerprints_from_state_orders_history_then_current() {
    let mut state = ConversationState::new("conv-x");
    state.history = vec![
        HistoryMessage::User(UserInputMessage::new("sys+u1", "opus-4-7")),
        HistoryMessage::Assistant(AssistantMessage::new("a1")),
    ];
    let mut cur = UserInputMessage::default();
    cur.content = "u2".to_string();
    cur.model_id = "opus-4-7".to_string();
    state.current_message = cur;

    let fps = fingerprints(&state);
    assert_eq!(fps.len(), 3);
    assert!(fps.iter().all(|f| f.tokens > 0));
    assert_ne!(fps[0].hash, fps[1].hash);
    assert_ne!(fps[1].hash, fps[2].hash);
}

#[test]
fn fingerprints_change_when_history_grows() {
    let mut s1 = ConversationState::new("c");
    s1.history = vec![HistoryMessage::User(UserInputMessage::new("u1", "m"))];
    let mut c1 = UserInputMessage::default();
    c1.content = "q1".into();
    s1.current_message = c1;
    let f1 = fingerprints(&s1);
    let mut s2 = ConversationState::new("c");
    s2.history = vec![HistoryMessage::User(UserInputMessage::new("u1", "m"))];
    let f2 = fingerprints(&s2);
    assert_eq!(f1[0].hash, f2[0].hash, "相同首条 history 指纹应稳定");
}

#[test]
fn current_message_fingerprint_stable_after_sinking_into_history() {

    let make_tool = |name: &str| Tool {
        tool_specification: ToolSpecification {
            name: name.to_string(),
            description: "x".to_string(),
            input_schema: Json::parse(r#"{"type": "object"}"#).unwrap(),
        },
    };
    let mut cur = UserInputMessage::default();
    cur.content = "解释这段代码".to_string();
    cur.model_id = "opus-4-8".to_string();
    cur.user_input_message_context = UserInputMessageContext {
        tool_results: vec![],
        tools: (0..295).map(|i| make_tool(&format!("tool_{i}"))).collect(),
    };
    let mut s_cur = ConversationState::new("c");
    s_cur.current_message = cur;
    let f_cur = fingerprints(&s_cur);
    let cur_fp = *f_cur.last().unwrap();
    let mut sunk = UserInputMessage::new("解释这段代码", "opus-4-8");
    sunk.user_input_message_context = UserInputMessageContext::default();
    let mut s_next = ConversationState::new("c");
    s_next.history = vec![HistoryMessage::User(sunk)];
    let mut cur2 = UserInputMessage::default();
    cur2.content = "下一个问题".to_string();
    s_next.current_message = cur2;
    let f_next = fingerprints(&s_next);
    let sunk_fp = f_next[0];

    assert_eq!(
        cur_fp.hash, sunk_fp.hash,
        "同一句话在 current(带295 tools) 与沉淀进 history 后指纹必须一致——这是缓存不崩的命门"
    );
    assert_eq!(cur_fp.tokens, sunk_fp.tokens, "token 数也应一致");
}

#[test]
fn tools_list_does_not_affect_fingerprint() {
    let make_tool = |name: &str| Tool {
        tool_specification: ToolSpecification {
            name: name.to_string(),
            description: "x".to_string(),
            input_schema: Json::parse(r#"{"type": "object"}"#).unwrap(),
        },
    };
    let mut a = UserInputMessage::default();
    a.content = "hi".into();
    let mut b = a.clone();
    a.user_input_message_context = UserInputMessageContext {
        tool_results: vec![],
        tools: vec![],
    };
    b.user_input_message_context = UserInputMessageContext {
        tool_results: vec![],
        tools: (0..50).map(|i| make_tool(&format!("t{i}"))).collect(),
    };
    let mut sa = ConversationState::new("c");
    sa.current_message = a;
    let mut sb = ConversationState::new("c");
    sb.current_message = b;
    assert_eq!(
        fingerprints(&sa).last().unwrap().hash,
        fingerprints(&sb).last().unwrap().hash,
        "tools 多寡不应影响指纹"
    );
}

#[test]
fn hash_of_known_texts() {
    assert_eq!(fnv1a(""), 0xcbf2_9ce4_8422_2325);
    assert_eq!(fnv1a("a"), 0xaf63_dc4c_8601_ec8c);
    assert_eq!(fnv1a("foobar"), 0x8594_4171_f739_67e8);
}

#[test]
fn token_counts_saturate() {
    assert_eq!(fingerprint("x", 7).tokens, 7);
    assert_eq!(fingerprint("x", 0x1_0000_0000).tokens, u32::MAX);
}

#[test]
fn settings_are_at_least_one() {
    let mut store = CacheSimStore::new();
    assert_eq!(store.ttl_secs(), 300);
    assert_eq!(store.max_sessions_value(), 4096);
    store.set_ttl_secs(0);
    store.set_max_sessions(0);
    assert_eq!(store.ttl_secs(), 1);
    assert_eq!(store.max_sessions_value(), 1);
}

#[test]
fn oldest_session_makes_room() {
    let mut store = CacheSimStore::new();
    store.set_max_sessions(2);
    store.observe_at("a", "m", vec![fp(1, 10)], secs(1));
    store.observe_at("b", "m", vec![fp(1, 10)], secs(2));
    store.observe_at("c", "m", vec![fp(1, 10)], secs(3));
    assert!(store.session_count() <= 2);
    let r = store.observe_at("c", "m", vec![fp(1, 10)], secs(4));
    assert_eq!(r.cache_read_tokens, 10);
}

#[test]
fn the_last_request_of_a_session_decides() {
    let mut store = CacheSimStore::new();
    let t0: u128 = 1_000_000_000_000;
    let short = || vec![fp(1, 100)];
    let long = || vec![fp(1, 100), fp(2, 50)];
    assert_eq!(store.observe_at("s", "m", short(), t0).cache_read_tokens, 0);
    store.observe_at("other", "m", long(), t0 + secs(1));
    assert_eq!(store.observe_at("s", "m", long(), t0 + secs(2)).cache_read_tokens, 100);
    store.observe_at("other", "n", short(), t0 + secs(3));
    assert_eq!(store.observe_at("s", "m", long(), t0 + secs(302)).cache_read_tokens, 150);
    assert_eq!(store.observe_at("s", "m", long(), t0 + secs(603)).cache_read_tokens, 0);
    assert_eq!(store.observe_at("s", "n", long(), t0 + secs(604)).cache_read_tokens, 0);
    let r = store.observe_at("s", "n", vec![fp(1, u32::MAX), fp(2, 9)], t0 + secs(605));
    assert_eq!((r.cache_read_tokens, r.total_tokens), (u32::MAX, u32::MAX));
}
