//! Simulation of the prompt prefix cache.
//!
//! Of each session the messages of the last request are remembered. What the next request with the
//! same model has in common with them at its front counts as read from the cache.

use vstd::prelude::*;
use vstd::string::*;

use crate::json;
use crate::kiro::model::requests::{
    AssistantMessage, ConversationState, HistoryMessage, ToolResult, ToolUseEntry, UserInputMessage,
};
use crate::text;
use crate::text_map;
use crate::text_map::TextMap;

verus! {

/// How long a session lives, in seconds, unless it is set otherwise.
pub const DEFAULT_ENTRY_TTL_SECS: u64 = 300;

/// How many sessions are kept, unless it is set otherwise.
pub const DEFAULT_MAX_SESSIONS: usize = 4096;

/// A message, as far as the simulation knows it: a hash of its content and its size.
#[derive(Debug, Clone, Copy, PartialEq, Eq, Structural)]
pub struct MsgFingerprint {
    pub hash: u64,
    pub tokens: u32,
}

/// What the simulation says of a request.
#[derive(Debug, Clone, Copy, PartialEq, Eq, Structural)]
pub struct SimResult {
    /// The tokens that were read from the cache.
    pub cache_read_tokens: u32,
    /// All tokens of the request.
    pub total_tokens: u32,
}

/// One byte of an FNV-1a hash.
pub open spec fn fnv_step(h: u64, b: u8) -> u64 {
    (h ^ (b as u64)).wrapping_mul(0x0000_0100_0000_01b3)
}

/// The 64-bit FNV-1a hash of some bytes.
pub open spec fn fnv1a_hash(bytes: Seq<u8>) -> u64
    decreases bytes.len(),
{
    if bytes.len() == 0 {
        0xcbf2_9ce4_8422_2325
    } else {
        fnv_step(fnv1a_hash(bytes.drop_last()), bytes.last())
    }
}

/// The 64-bit FNV-1a hash of a text.
pub fn fnv1a(s: &str) -> (r: u64)
    ensures
        r == fnv1a_hash(text::bytes_of(s@)),
{
    let bytes = s.as_bytes();
    let mut h: u64 = 0xcbf2_9ce4_8422_2325;
    let mut i: usize = 0;
    while i < bytes.len()
        invariant
            i <= bytes@.len(),
            h == fnv1a_hash(bytes@.take(i as int)),
        decreases bytes@.len() - i,
    {
        proof {
            assert(bytes@.take(i + 1).drop_last() =~= bytes@.take(i as int));
        }
        h = (h ^ (bytes[i] as u64)).wrapping_mul(0x0000_0100_0000_01b3);
        i = i + 1;
    }
    proof {
        assert(bytes@.take(i as int) =~= bytes@);
    }
    h
}

/// A count, cut off at the greatest `u32`.
pub open spec fn cut_off(n: int) -> int {
    if n > u32::MAX {
        u32::MAX as int
    } else {
        n
    }
}

/// The fingerprint of a text of `tokens` tokens.
pub open spec fn fingerprint_model(s: Seq<char>, tokens: int) -> MsgFingerprint {
    MsgFingerprint { hash: fnv1a_hash(text::bytes_of(s)), tokens: cut_off(tokens) as u32 }
}

/// The fingerprint of a text of `tokens` tokens.
pub fn fingerprint(s: &str, tokens: u64) -> (r: MsgFingerprint)
    ensures
        r == fingerprint_model(s@, tokens as int),
{
    MsgFingerprint {
        hash: fnv1a(s),
        tokens: if tokens > 0xffff_ffff {
            0xffff_ffff
        } else {
            tokens as u32
        },
    }
}

/// The tokens of a list of messages.
pub open spec fn token_sum(messages: Seq<MsgFingerprint>) -> nat
    decreases messages.len(),
{
    if messages.len() == 0 {
        0
    } else {
        token_sum(messages.drop_last()) + messages.last().tokens as nat
    }
}

/// The first `n` messages of both lists are the same.
pub open spec fn share_front(prev: Seq<MsgFingerprint>, curr: Seq<MsgFingerprint>, n: int) -> bool {
    &&& 0 <= n <= prev.len()
    &&& n <= curr.len()
    &&& forall|i: int| 0 <= i < n ==> (#[trigger] prev[i]).hash == curr[i].hash
}

/// The common front of both lists has `n` messages, and no more.
pub open spec fn is_common_length(
    prev: Seq<MsgFingerprint>,
    curr: Seq<MsgFingerprint>,
    n: int,
) -> bool {
    &&& share_front(prev, curr, n)
    &&& n == prev.len() || n == curr.len() || prev[n].hash != curr[n].hash
}

/// The number of messages that both lists have in common at their front.
pub open spec fn common_length(prev: Seq<MsgFingerprint>, curr: Seq<MsgFingerprint>) -> int {
    choose|n: int| is_common_length(prev, curr, n)
}

/// The tokens of the common front.
pub open spec fn prefix_hit(prev: Seq<MsgFingerprint>, curr: Seq<MsgFingerprint>) -> nat {
    token_sum(curr.take(common_length(prev, curr)))
}

pub proof fn lemma_common_length(prev: Seq<MsgFingerprint>, curr: Seq<MsgFingerprint>, n: int)
    requires
        is_common_length(prev, curr, n),
    ensures
        common_length(prev, curr) == n,
{
    let m = common_length(prev, curr);
    assert(is_common_length(prev, curr, m));
    if m < n {
        assert(prev[m].hash == curr[m].hash);
    }
    if n < m {
        assert(prev[n].hash == curr[n].hash);
    }
}

proof fn lemma_common_length_exists(prev: Seq<MsgFingerprint>, curr: Seq<MsgFingerprint>, n: int) -> (r:
    int)
    requires
        share_front(prev, curr, n),
    ensures
        is_common_length(prev, curr, r),
        n <= r,
    decreases prev.len() - n,
{
    if n == prev.len() || n == curr.len() || prev[n].hash != curr[n].hash {
        n
    } else {
        assert(share_front(prev, curr, n + 1));
        lemma_common_length_exists(prev, curr, n + 1)
    }
}

proof fn lemma_token_sum_take(messages: Seq<MsgFingerprint>, n: int)
    requires
        0 <= n <= messages.len(),
    ensures
        token_sum(messages.take(n)) <= token_sum(messages),
    decreases messages.len() - n,
{
    if n < messages.len() {
        assert(messages.take(n + 1).drop_last() =~= messages.take(n));
        lemma_token_sum_take(messages, n + 1);
    } else {
        assert(messages.take(n) =~= messages);
    }
}

/// A hit is no more than the whole request.
pub proof fn hit_is_within_request(prev: Seq<MsgFingerprint>, curr: Seq<MsgFingerprint>)
    ensures
        prefix_hit(prev, curr) <= token_sum(curr),
{
    assert(share_front(prev, curr, 0));
    let n = lemma_common_length_exists(prev, curr, 0);
    lemma_common_length(prev, curr, n);
    lemma_token_sum_take(curr, n);
}

/// A request that goes on from the last one hits all of it.
pub proof fn continued_conversation_hits(prev: Seq<MsgFingerprint>, more: Seq<MsgFingerprint>)
    ensures
        prefix_hit(prev, prev + more) == token_sum(prev),
{
    let n = prev.len() as int;
    assert(is_common_length(prev, prev + more, n));
    lemma_common_length(prev, prev + more, n);
    assert((prev + more).take(n) =~= prev);
}

/// A longer common front is no smaller hit.
pub proof fn longer_front_hits_more(
    prev: Seq<MsgFingerprint>,
    curr: Seq<MsgFingerprint>,
    n: int,
)
    requires
        share_front(prev, curr, n),
    ensures
        token_sum(curr.take(n)) <= prefix_hit(prev, curr),
{
    let m = lemma_common_length_exists(prev, curr, n);
    lemma_common_length(prev, curr, m);
    lemma_token_sum_take(curr.take(m), n);
    assert(curr.take(m).take(n) =~= curr.take(n));
}

/// The tokens that a request has in common with the last one at its front.
pub fn prefix_cache_read(prev: &[MsgFingerprint], curr: &[MsgFingerprint]) -> (r: u64)
    requires
        token_sum(curr@) <= u64::MAX,
    ensures
        r == prefix_hit(prev@, curr@),
{
    let mut hit: u64 = 0;
    let mut i: usize = 0;
    while i < prev.len() && i < curr.len()
        invariant
            share_front(prev@, curr@, i as int),
            hit == token_sum(curr@.take(i as int)),
            token_sum(curr@) <= u64::MAX,
        decreases prev@.len() - i,
    {
        if prev[i].hash != curr[i].hash {
            proof {
                lemma_common_length(prev@, curr@, i as int);
            }
            return hit;
        }
        proof {
            assert(curr@.take(i + 1).drop_last() =~= curr@.take(i as int));
            lemma_token_sum_take(curr@, i + 1);
        }
        hit = hit + curr[i].tokens as u64;
        i = i + 1;
    }
    proof {
        lemma_common_length(prev@, curr@, i as int);
    }
    hit
}

/// What is remembered of a session.
#[derive(Debug, Clone)]
pub struct SessionEntry {
    pub model: String,
    pub prev: Vec<MsgFingerprint>,
    /// When the session was last seen, in nanoseconds of the caller's clock.
    pub last_seen: u128,
}

/// The sessions of the simulation.
pub struct CacheSimStore {
    sessions: TextMap<SessionEntry>,
    ttl_secs: u64,
    max_sessions: usize,
}

/// The sessions, how long they live (in seconds) and how many are kept.
pub struct SimView {
    pub sessions: Map<Seq<char>, SessionEntry>,
    pub ttl_secs: int,
    pub max_sessions: int,
}

impl View for CacheSimStore {
    type V = SimView;

    closed spec fn view(&self) -> SimView {
        SimView {
            sessions: self.sessions@,
            ttl_secs: self.ttl_secs as int,
            max_sessions: self.max_sessions as int,
        }
    }
}

/// The session was seen less than its lifetime ago, or exactly that.
pub open spec fn is_alive(e: SessionEntry, now: int, ttl_secs: int) -> bool {
    now - e.last_seen <= ttl_secs * 1_000_000_000
}

/// The hit of a request: that of the last request of its session, where that had the same model
/// and the session is alive.
pub open spec fn session_hit(
    v: SimView,
    key: Seq<char>,
    model: Seq<char>,
    curr: Seq<MsgFingerprint>,
    now: int,
) -> nat {
    if v.sessions.dom().contains(key) && v.sessions[key].model@ == model && is_alive(
        v.sessions[key],
        now,
        v.ttl_secs,
    ) {
        prefix_hit(v.sessions[key].prev@, curr)
    } else {
        0
    }
}

/// `left` is what an eviction leaves of `all`: live sessions only, no more than `cap`, and none
/// that was seen earlier than a live one that had to go. A live session goes only where `cap` are
/// left.
pub open spec fn is_eviction(
    all: Map<Seq<char>, SessionEntry>,
    left: Map<Seq<char>, SessionEntry>,
    now: int,
    ttl_secs: int,
    cap: int,
) -> bool {
    &&& left.dom().finite()
    &&& left.dom().len() <= cap
    &&& forall|k: Seq<char>| #[trigger]
        left.dom().contains(k) ==> all.dom().contains(k) && left[k] == all[k] && is_alive(
            all[k],
            now,
            ttl_secs,
        )
    &&& forall|k: Seq<char>, j: Seq<char>|
        #![trigger all.dom().contains(k), left.dom().contains(j)]
        all.dom().contains(k) && is_alive(all[k], now, ttl_secs) && !left.dom().contains(k)
            && left.dom().contains(j) ==> all[k].last_seen <= left[j].last_seen
    &&& (exists|k: Seq<char>| #[trigger]
        all.dom().contains(k) && is_alive(all[k], now, ttl_secs) && !left.dom().contains(k))
        ==> left.dom().len() == cap
}

/// The sessions with `key` set to this request.
pub open spec fn is_recorded(
    before: Map<Seq<char>, SessionEntry>,
    after: Map<Seq<char>, SessionEntry>,
    key: Seq<char>,
    model: Seq<char>,
    curr: Seq<MsgFingerprint>,
    now: int,
) -> bool {
    &&& after.dom() == before.dom().insert(key)
    &&& forall|k: Seq<char>| #[trigger] before.dom().contains(k) && k != key ==> after[k] == before[k]
    &&& after[key].model@ == model
    &&& after[key].prev@ == curr
    &&& after[key].last_seen == now
}

/// The sessions after a request: it is recorded, and where there are too many then, some go.
pub open spec fn is_observed(
    v: SimView,
    after: Map<Seq<char>, SessionEntry>,
    key: Seq<char>,
    model: Seq<char>,
    curr: Seq<MsgFingerprint>,
    now: int,
) -> bool {
    exists|recorded: Map<Seq<char>, SessionEntry>|
        #![trigger is_recorded(v.sessions, recorded, key, model, curr, now)]
        is_recorded(v.sessions, recorded, key, model, curr, now) && (if recorded.dom().len()
            <= v.max_sessions {
            after == recorded
        } else {
            is_eviction(recorded, after, now, v.ttl_secs, v.max_sessions)
        })
}

/// Whether a session is alive.
fn alive(e: &SessionEntry, now: u128, ttl_secs: u64) -> (r: bool)
    ensures
        r == is_alive(*e, now as int, ttl_secs as int),
{
    let ttl: u128 = ttl_secs as u128 * 1_000_000_000;
    now <= e.last_seen || now - e.last_seen <= ttl
}

/// The position of a session that was seen no later than any other.
fn oldest(sessions: &TextMap<SessionEntry>) -> (r: usize)
    requires
        sessions.entries@.len() > 0,
    ensures
        r < sessions.entries@.len(),
        forall|i: int|
            0 <= i < sessions.entries@.len() ==> sessions.entries@[r as int].1.last_seen <= (
            #[trigger] sessions.entries@[i]).1.last_seen,
{
    let mut best: usize = 0;
    let mut i: usize = 1;
    while i < sessions.entries.len()
        invariant
            best < sessions.entries@.len(),
            i <= sessions.entries@.len(),
            forall|j: int|
                0 <= j < i ==> sessions.entries@[best as int].1.last_seen <= (
                #[trigger] sessions.entries@[j]).1.last_seen,
        decreases sessions.entries@.len() - i,
    {
        if sessions.entries[i].1.last_seen < sessions.entries[best].1.last_seen {
            best = i;
        }
        i = i + 1;
    }
    best
}

/// Drops the sessions that are not alive.
fn drop_expired(sessions: &mut TextMap<SessionEntry>, now: u128, ttl_secs: u64)
    requires
        text_map::unique_keys(old(sessions).entries@),
    ensures
        text_map::unique_keys(final(sessions).entries@),
        forall|k: Seq<char>| #[trigger]
            final(sessions)@.dom().contains(k) <==> old(sessions)@.dom().contains(k) && is_alive(
                old(sessions)@[k],
                now as int,
                ttl_secs as int,
            ),
        forall|k: Seq<char>| #[trigger]
            final(sessions)@.dom().contains(k) ==> final(sessions)@[k] == old(sessions)@[k],
{
    let ghost all = sessions@;
    let mut i: usize = 0;
    while i < sessions.entries.len()
        invariant
            i <= sessions.entries@.len(),
            text_map::unique_keys(sessions.entries@),
            forall|j: int|
                0 <= j < i ==> is_alive(
                    (#[trigger] sessions.entries@[j]).1,
                    now as int,
                    ttl_secs as int,
                ),
            forall|k: Seq<char>| #[trigger]
                sessions@.dom().contains(k) ==> all.dom().contains(k) && sessions@[k] == all[k],
            forall|k: Seq<char>| #[trigger]
                all.dom().contains(k) && !sessions@.dom().contains(k) ==> !is_alive(
                    all[k],
                    now as int,
                    ttl_secs as int,
                ),
        decreases sessions.entries@.len() - i,
    {
        if alive(&sessions.entries[i].1, now, ttl_secs) {
            i = i + 1;
        } else {
            let ghost before = *sessions;
            proof {
                before.lemma_entry_at(i as int);
            }
            sessions.remove_at(i);
        }
    }
    proof {
        assert forall|k: Seq<char>| #[trigger] sessions@.dom().contains(k) implies is_alive(
            all[k],
            now as int,
            ttl_secs as int,
        ) by {
            let at = sessions.lemma_key_has_entry(k);
        }
    }
}

/// Drops sessions until `cap` are left: those that are not alive, then the oldest.
fn evict(sessions: &mut TextMap<SessionEntry>, now: u128, ttl_secs: u64, cap: usize)
    requires
        text_map::unique_keys(old(sessions).entries@),
    ensures
        text_map::unique_keys(final(sessions).entries@),
        is_eviction(
            old(sessions)@,
            final(sessions)@,
            now as int,
            ttl_secs as int,
            cap as int,
        ),
{
    let ghost all = sessions@;
    drop_expired(sessions, now, ttl_secs);
    let ghost live = sessions@;
    let ghost mut gone: bool = false;
    while sessions.entries.len() > cap
        invariant
            text_map::unique_keys(sessions.entries@),
            forall|k: Seq<char>| #[trigger]
                live.dom().contains(k) <==> all.dom().contains(k) && is_alive(
                    all[k],
                    now as int,
                    ttl_secs as int,
                ),
            forall|k: Seq<char>| #[trigger] live.dom().contains(k) ==> live[k] == all[k],
            forall|k: Seq<char>| #[trigger]
                sessions@.dom().contains(k) ==> live.dom().contains(k) && sessions@[k] == live[k],
            forall|k: Seq<char>, j: Seq<char>|
                #![trigger live.dom().contains(k), sessions@.dom().contains(j)]
                live.dom().contains(k) && !sessions@.dom().contains(k) && sessions@.dom().contains(
                    j,
                ) ==> live[k].last_seen <= sessions@[j].last_seen,
            gone ==> sessions.entries@.len() >= cap,
            !gone ==> sessions@ == live,
        decreases sessions.entries@.len(),
    {
        let at: usize = oldest(sessions);
        let ghost before = *sessions;
        let ghost key = sessions.entries@[at as int].0@;
        proof {
            before.lemma_entry_at(at as int);
        }
        sessions.remove_at(at);
        proof {
            gone = true;
            assert forall|k: Seq<char>, j: Seq<char>|
                #![trigger live.dom().contains(k), sessions@.dom().contains(j)]
                live.dom().contains(k) && !sessions@.dom().contains(k) && sessions@.dom().contains(
                    j,
                ) implies live[k].last_seen <= sessions@[j].last_seen by {
                assert(before@.dom().contains(j));
                let at_j = before.lemma_key_has_entry(j);
                assert(before.entries@[at as int].1.last_seen <= before.entries@[at_j].1.last_seen);
                if k != key {
                    assert(!before@.dom().contains(k));
                }
            }
        }
    }
    proof {
        sessions.lemma_len();
        assert forall|k: Seq<char>| #[trigger] sessions@.dom().contains(k) implies all.dom().contains(
            k,
        ) && sessions@[k] == all[k] && is_alive(all[k], now as int, ttl_secs as int) by {
            assert(live.dom().contains(k));
        }
        assert forall|k: Seq<char>, j: Seq<char>|
            #![trigger all.dom().contains(k), sessions@.dom().contains(j)]
            all.dom().contains(k) && is_alive(all[k], now as int, ttl_secs as int)
                && !sessions@.dom().contains(k) && sessions@.dom().contains(j) implies all[k].last_seen
            <= sessions@[j].last_seen by {
            assert(live.dom().contains(k));
        }
        if exists|k: Seq<char>| #[trigger]
            all.dom().contains(k) && is_alive(all[k], now as int, ttl_secs as int)
                && !sessions@.dom().contains(k) {
            let k = choose|k: Seq<char>| #[trigger]
                all.dom().contains(k) && is_alive(all[k], now as int, ttl_secs as int)
                    && !sessions@.dom().contains(k);
            assert(live.dom().contains(k));
            assert(gone);
        }
    }
}

/// The tokens of a list of messages.
fn sum_tokens(messages: &Vec<MsgFingerprint>) -> (r: u64)
    requires
        token_sum(messages@) <= u64::MAX,
    ensures
        r == token_sum(messages@),
{
    let mut sum: u64 = 0;
    let mut i: usize = 0;
    while i < messages.len()
        invariant
            i <= messages@.len(),
            sum == token_sum(messages@.take(i as int)),
            token_sum(messages@) <= u64::MAX,
        decreases messages@.len() - i,
    {
        proof {
            assert(messages@.take(i + 1).drop_last() =~= messages@.take(i as int));
            lemma_token_sum_take(messages@, i + 1);
        }
        sum = sum + messages[i].tokens as u64;
        i = i + 1;
    }
    proof {
        assert(messages@.take(i as int) =~= messages@);
    }
    sum
}

fn cut(n: u64) -> (r: u32)
    ensures
        r == cut_off(n as int),
{
    if n > 0xffff_ffff {
        0xffff_ffff
    } else {
        n as u32
    }
}

impl CacheSimStore {
    /// The sessions have keys of their own; lifetime and capacity are positive.
    #[verifier::type_invariant]
    closed spec fn well_formed(&self) -> bool {
        &&& text_map::unique_keys(self.sessions.entries@)
        &&& self.ttl_secs >= 1
        &&& self.max_sessions >= 1
    }

    pub fn new() -> (r: Self)
        ensures
            r@.sessions == Map::<Seq<char>, SessionEntry>::empty(),
            r@.ttl_secs == 300,
            r@.max_sessions == 4096,
    {
        CacheSimStore {
            sessions: TextMap::new(),
            ttl_secs: DEFAULT_ENTRY_TTL_SECS,
            max_sessions: DEFAULT_MAX_SESSIONS,
        }
    }

    /// Sets how long sessions live, in seconds; at least one.
    pub fn set_ttl_secs(&mut self, secs: u64)
        ensures
            final(self)@ == (SimView {
                ttl_secs: if secs < 1 {
                    1
                } else {
                    secs as int
                },
                ..old(self)@
            }),
    {
        proof {
            use_type_invariant(&*self);
        }
        self.ttl_secs = if secs < 1 {
            1
        } else {
            secs
        };
    }

    /// Sets how many sessions are kept; at least one.
    pub fn set_max_sessions(&mut self, n: usize)
        ensures
            final(self)@ == (SimView {
                max_sessions: if n < 1 {
                    1
                } else {
                    n as int
                },
                ..old(self)@
            }),
    {
        proof {
            use_type_invariant(&*self);
        }
        self.max_sessions = if n < 1 {
            1
        } else {
            n
        };
    }

    /// How long sessions live, in seconds.
    pub fn ttl_secs(&self) -> (r: u64)
        ensures
            r == self@.ttl_secs,
    {
        self.ttl_secs
    }

    /// How many sessions are kept.
    pub fn max_sessions_value(&self) -> (r: usize)
        ensures
            r == self@.max_sessions,
    {
        self.max_sessions
    }

    /// How many sessions there are.
    pub fn session_count(&self) -> (r: usize)
        ensures
            r == self@.sessions.dom().len(),
    {
        proof {
            use_type_invariant(self);
        }
        self.sessions.len()
    }

    /// Takes a request: says how much of it the cache would have served, and remembers it for the
    /// next one of its session.
    pub fn observe_at(
        &mut self,
        session_key: &str,
        model: &str,
        curr: Vec<MsgFingerprint>,
        now: u128,
    ) -> (r: SimResult)
        requires
            token_sum(curr@) <= u64::MAX,
        ensures
            r.total_tokens == cut_off(token_sum(curr@) as int),
            r.cache_read_tokens == cut_off(
                session_hit(old(self)@, session_key@, model@, curr@, now as int) as int,
            ),
            final(self)@ == (SimView { sessions: final(self)@.sessions, ..old(self)@ }),
            is_observed(
                old(self)@,
                final(self)@.sessions,
                session_key@,
                model@,
                curr@,
                now as int,
            ),
    {
        proof {
            use_type_invariant(&*self);
        }
        let total: u64 = sum_tokens(&curr);
        let hit: u64 = match self.sessions.get(session_key) {
            Some(entry) => if text::same_text(entry.model.as_str(), model) && alive(
                entry,
                now,
                self.ttl_secs,
            ) {
                prefix_cache_read(entry.prev.as_slice(), curr.as_slice())
            } else {
                0
            },
            None => 0,
        };
        proof {
            if self@.sessions.dom().contains(session_key@) {
                hit_is_within_request(self@.sessions[session_key@].prev@, curr@);
            }
        }
        let ghost messages = curr@;
        let entry = SessionEntry { model: model.to_owned(), prev: curr, last_seen: now };
        let ghost before = self@;
        let mut sessions: TextMap<SessionEntry> = TextMap::new();
        core::mem::swap(&mut sessions, &mut self.sessions);
        sessions.insert(session_key.to_owned(), entry);
        let ghost recorded = sessions@;
        proof {
            assert(recorded.dom() =~= before.sessions.dom().insert(session_key@));
            assert(is_recorded(
                before.sessions,
                recorded,
                session_key@,
                model@,
                messages,
                now as int,
            ));
            sessions.lemma_len();
        }
        if sessions.len() > self.max_sessions {
            evict(&mut sessions, now, self.ttl_secs, self.max_sessions);
        }
        self.sessions = sessions;
        SimResult { cache_read_tokens: cut(hit), total_tokens: cut(total) }
    }
}

impl Default for CacheSimStore {
    fn default() -> (r: Self)
        ensures
            r@.sessions == Map::<Seq<char>, SessionEntry>::empty(),
            r@.ttl_secs == 300,
            r@.max_sessions == 4096,
    {
        CacheSimStore::new()
    }
}

/// A session that is not known, that had another model, or that is not alive any more has no hit.
pub proof fn cold_sessions_miss(
    v: SimView,
    key: Seq<char>,
    model: Seq<char>,
    curr: Seq<MsgFingerprint>,
    now: int,
)
    requires
        !v.sessions.dom().contains(key) || v.sessions[key].model@ != model || now
            - v.sessions[key].last_seen > v.ttl_secs * 1_000_000_000,
    ensures
        session_hit(v, key, model, curr, now) == 0,
{
}

/// The next request of a session that was recorded hits all of the last one, where it goes on
/// from it with the same model and in time.
pub proof fn next_turn_hits_the_last_one(
    v: SimView,
    recorded: Map<Seq<char>, SessionEntry>,
    key: Seq<char>,
    model: Seq<char>,
    curr: Seq<MsgFingerprint>,
    now: int,
    more: Seq<MsgFingerprint>,
    later: int,
)
    requires
        is_recorded(v.sessions, recorded, key, model, curr, now),
        later - now <= v.ttl_secs * 1_000_000_000,
    ensures
        session_hit(SimView { sessions: recorded, ..v }, key, model, curr + more, later)
            == token_sum(curr),
{
    continued_conversation_hits(curr, more);
}

/// A request of one session leaves the hit of another session as it is, or takes the session away.
pub proof fn sessions_are_apart(
    v: SimView,
    after: Map<Seq<char>, SessionEntry>,
    key: Seq<char>,
    model: Seq<char>,
    curr: Seq<MsgFingerprint>,
    now: int,
    other: Seq<char>,
    other_model: Seq<char>,
    other_curr: Seq<MsgFingerprint>,
    later: int,
)
    requires
        is_observed(v, after, key, model, curr, now),
        other != key,
    ensures
        ({
            let w = SimView { sessions: after, ..v };
            let hit = session_hit(w, other, other_model, other_curr, later);
            hit == session_hit(v, other, other_model, other_curr, later) || (hit == 0
                && !after.dom().contains(other))
        }),
{
    let recorded = choose|recorded: Map<Seq<char>, SessionEntry>|
        #![trigger is_recorded(v.sessions, recorded, key, model, curr, now)]
        is_recorded(v.sessions, recorded, key, model, curr, now) && (if recorded.dom().len()
            <= v.max_sessions {
            after == recorded
        } else {
            is_eviction(recorded, after, now, v.ttl_secs, v.max_sessions)
        });
    if after.dom().contains(other) {
        assert(recorded.dom().contains(other));
        assert(v.sessions.dom().contains(other));
    } else if v.sessions.dom().contains(other) {
        assert(recorded.dom().contains(other));
    }
}

/// After a request there are no more sessions than are kept.
pub proof fn sessions_stay_within_capacity(
    v: SimView,
    after: Map<Seq<char>, SessionEntry>,
    key: Seq<char>,
    model: Seq<char>,
    curr: Seq<MsgFingerprint>,
    now: int,
)
    requires
        is_observed(v, after, key, model, curr, now),
    ensures
        after.dom().len() <= v.max_sessions,
{
}

/// A request that the store has taken.
pub struct Observation {
    pub key: Seq<char>,
    pub model: Seq<char>,
    pub curr: Seq<MsgFingerprint>,
    pub now: int,
}

/// `after` is a store that has taken one more request than `v`.
pub open spec fn takes(v: SimView, o: Observation, after: SimView) -> bool {
    &&& after == (SimView { sessions: after.sessions, ..v })
    &&& is_observed(v, after.sessions, o.key, o.model, o.curr, o.now)
}

/// The states of a store that starts without sessions and takes these requests, one after the
/// other.
pub open spec fn is_history(states: Seq<SimView>, seen: Seq<Observation>) -> bool
    decreases seen.len(),
{
    &&& states.len() == seen.len() + 1
    &&& if seen.len() == 0 {
        states[0].sessions == Map::<Seq<char>, SessionEntry>::empty()
    } else {
        &&& is_history(states.drop_last(), seen.drop_last())
        &&& takes(states[seen.len() - 1], seen.last(), states.last())
    }
}

/// The requests of one session.
pub open spec fn of_session(seen: Seq<Observation>, key: Seq<char>) -> Seq<Observation>
    decreases seen.len(),
{
    if seen.len() == 0 {
        Seq::empty()
    } else if seen.last().key == key {
        of_session(seen.drop_last(), key).push(seen.last())
    } else {
        of_session(seen.drop_last(), key)
    }
}

/// The sessions of some requests.
pub open spec fn keys_of(seen: Seq<Observation>) -> Set<Seq<char>>
    decreases seen.len(),
{
    if seen.len() == 0 {
        Set::empty()
    } else {
        keys_of(seen.drop_last()).insert(seen.last().key)
    }
}

/// The hit of a request, out of the earlier requests of its session: the last of them counts, where
/// it had the same model and is not too long ago.
pub open spec fn hit_after(own: Seq<Observation>, o: Observation, ttl_secs: int) -> nat {
    if own.len() > 0 && own.last().model == o.model && o.now - own.last().now <= ttl_secs
        * 1_000_000_000 {
        prefix_hit(own.last().curr, o.curr)
    } else {
        0
    }
}

/// What is remembered of a session is its last request; and where there never were more sessions
/// than are kept, every session is remembered.
proof fn lemma_history(states: Seq<SimView>, seen: Seq<Observation>, key: Seq<char>)
    requires
        is_history(states, seen),
    ensures
        ({
            let v = states.last();
            let own = of_session(seen, key);
            &&& v.sessions.dom().contains(key) ==> {
                &&& own.len() > 0
                &&& v.sessions[key].model@ == own.last().model
                &&& v.sessions[key].prev@ == own.last().curr
                &&& v.sessions[key].last_seen == own.last().now
            }
            &&& keys_of(seen).finite()
            &&& keys_of(seen).contains(key) == (own.len() > 0)
            &&& keys_of(seen).len() <= v.max_sessions ==> v.sessions.dom() == keys_of(seen)
        }),
    decreases seen.len(),
{
    if seen.len() == 0 {
        assert(states.last() == states[0]);
        assert(states.last().sessions.dom() =~= Set::<Seq<char>>::empty());
    } else {
        let o = seen.last();
        let before = states[seen.len() - 1];
        let v = states.last();
        lemma_history(states.drop_last(), seen.drop_last(), key);
        assert(states.drop_last().last() == before);
        let recorded = choose|recorded: Map<Seq<char>, SessionEntry>|
            #![trigger is_recorded(before.sessions, recorded, o.key, o.model, o.curr, o.now)]
            is_recorded(before.sessions, recorded, o.key, o.model, o.curr, o.now) && (
            if recorded.dom().len() <= before.max_sessions {
                v.sessions == recorded
            } else {
                is_eviction(recorded, v.sessions, o.now, before.ttl_secs, before.max_sessions)
            });
        if v.sessions.dom().contains(key) {
            assert(recorded.dom().contains(key));
            if key != o.key {
                assert(before.sessions.dom().contains(key));
            }
        }
    }
}

/// A hit after any history is a function of the last request of the session: requests of other
/// sessions make no difference, but that the session may have had to go where there were more
/// than are kept. No hit is more than the request, and both are cut off alike.
pub proof fn the_last_request_decides(
    states: Seq<SimView>,
    seen: Seq<Observation>,
    o: Observation,
)
    requires
        is_history(states, seen),
    ensures
        ({
            let v = states.last();
            let hit = session_hit(v, o.key, o.model, o.curr, o.now);
            let expected = hit_after(of_session(seen, o.key), o, v.ttl_secs);
            &&& keys_of(seen).len() <= v.max_sessions ==> hit == expected
            &&& hit == expected || (hit == 0 && !v.sessions.dom().contains(o.key))
            &&& cut_off(hit as int) <= cut_off(token_sum(o.curr) as int)
        }),
{
    let v = states.last();
    lemma_history(states, seen, o.key);
    if v.sessions.dom().contains(o.key) {
        hit_is_within_request(v.sessions[o.key].prev@, o.curr);
    }
}

/// The text under which the results of tool calls are compared.
pub open spec fn results_text(results: Seq<ToolResult>) -> Seq<char>
    decreases results.len(),
{
    if results.len() == 0 {
        Seq::empty()
    } else {
        let r = results.last();
        results_text(results.drop_last()) + "\u{1f}tr:"@ + r.tool_use_id@ + "\u{1e}"@ + (
        match r.status {
            Some(s) => s@,
            None => Seq::empty(),
        }) + "\u{1e}"@ + json::json_text(r.content@)
    }
}

/// The text under which a count of attachments is compared, where there are any.
pub open spec fn count_text(label: Seq<char>, n: nat) -> Seq<char> {
    if n > 0 {
        label + text::decimal(n)
    } else {
        Seq::empty()
    }
}

/// The text under which a message of a user is compared: its content, the tool results with it and
/// how much is attached, but not the tools that it offers.
pub open spec fn user_text(m: UserInputMessage) -> Seq<char> {
    "U\u{1f}"@ + m.content@ + results_text(m.user_input_message_context.tool_results@) + count_text(
        "\u{1f}img:"@,
        m.images@.len(),
    ) + count_text("\u{1f}doc:"@, m.documents@.len())
}

/// The text under which tool calls are compared.
pub open spec fn uses_text(uses: Seq<ToolUseEntry>) -> Seq<char>
    decreases uses.len(),
{
    if uses.len() == 0 {
        Seq::empty()
    } else {
        let u = uses.last();
        uses_text(uses.drop_last()) + "\u{1f}tu:"@ + u.tool_use_id@ + "\u{1e}"@ + u.name@
            + "\u{1e}"@ + json::json_text(u.input@)
    }
}

/// The text under which an answer of the assistant is compared.
pub open spec fn assistant_text(m: AssistantMessage) -> Seq<char> {
    "A\u{1f}"@ + m.content@ + (match m.tool_uses {
        Some(uses) => uses_text(uses@),
        None => Seq::empty(),
    })
}

/// The text under which a message of the history is compared.
pub open spec fn message_text(m: HistoryMessage) -> Seq<char> {
    match m {
        HistoryMessage::User(u) => user_text(u),
        HistoryMessage::Assistant(a) => assistant_text(a),
    }
}

/// The texts of a conversation: its history, then its current message.
pub open spec fn state_texts(state: ConversationState) -> Seq<Seq<char>> {
    state.history@.map_values(|m: HistoryMessage| message_text(m)).push(
        user_text(state.current_message),
    )
}

/// The text under which a message of a user is compared.
pub fn canon_user(m: &UserInputMessage) -> (r: String)
    ensures
        r@ == user_text(*m),
{
    let mut s = "U\u{1f}".to_owned();
    s.append(m.content.as_str());
    let ghost head = s@;
    let results = &m.user_input_message_context.tool_results;
    let mut i: usize = 0;
    proof {
        assert(results@.take(0) =~= Seq::<ToolResult>::empty());
        assert(head + results_text(results@.take(0)) =~= head);
    }
    while i < results.len()
        invariant
            i <= results@.len(),
            s@ == head + results_text(results@.take(i as int)),
        decreases results@.len() - i,
    {
        proof {
            assert(results@.take(i + 1).drop_last() =~= results@.take(i as int));
        }
        s.append("\u{1f}tr:");
        s.append(results[i].tool_use_id.as_str());
        s.append("\u{1e}");
        let ghost before_status = s@;
        match &results[i].status {
            Some(status) => {
                s.append(status.as_str());
            },
            None => {
                proof {
                    assert(before_status + Seq::<char>::empty() =~= before_status);
                }
            },
        }
        s.append("\u{1e}");
        let content = results[i].content.to_text();
        s.append(content.as_str());
        proof {
            assert(s@ =~= head + results_text(results@.take(i + 1)));
        }
        i = i + 1;
    }
    let ghost body = s@;
    proof {
        assert(results@.take(i as int) =~= results@);
    }
    if m.images.len() > 0 {
        s.append("\u{1f}img:");
        let n = text::decimal_text(m.images.len() as u64);
        s.append(n.as_str());
    }
    proof {
        assert(s@ =~= body + count_text("\u{1f}img:"@, m.images@.len()));
    }
    let ghost with_images = s@;
    if m.documents.len() > 0 {
        s.append("\u{1f}doc:");
        let n = text::decimal_text(m.documents.len() as u64);
        s.append(n.as_str());
    }
    proof {
        assert(s@ =~= with_images + count_text("\u{1f}doc:"@, m.documents@.len()));
    }
    s
}

/// The text under which an answer of the assistant is compared.
pub fn canon_assistant(m: &AssistantMessage) -> (r: String)
    ensures
        r@ == assistant_text(*m),
{
    let mut s = "A\u{1f}".to_owned();
    s.append(m.content.as_str());
    let ghost head = s@;
    match &m.tool_uses {
        Some(uses) => {
            let mut i: usize = 0;
            proof {
                assert(uses@.take(0) =~= Seq::<ToolUseEntry>::empty());
                assert(head + uses_text(uses@.take(0)) =~= head);
            }
            while i < uses.len()
                invariant
                    i <= uses@.len(),
                    s@ == head + uses_text(uses@.take(i as int)),
                decreases uses@.len() - i,
            {
                proof {
                    assert(uses@.take(i + 1).drop_last() =~= uses@.take(i as int));
                }
                s.append("\u{1f}tu:");
                s.append(uses[i].tool_use_id.as_str());
                s.append("\u{1e}");
                s.append(uses[i].name.as_str());
                s.append("\u{1e}");
                let input = uses[i].input.to_text();
                s.append(input.as_str());
                proof {
                    assert(s@ =~= head + uses_text(uses@.take(i + 1)));
                }
                i = i + 1;
            }
            proof {
                assert(uses@.take(i as int) =~= uses@);
            }
        },
        None => {
            proof {
                assert(head + Seq::<char>::empty() =~= head);
            }
        },
    }
    s
}

/// The texts under which the messages of a conversation are compared, in the order in which they
/// are sent.
pub fn canonical_texts(state: &ConversationState) -> (r: Vec<String>)
    ensures
        text::texts(r@) == state_texts(*state),
{
    let mut out: Vec<String> = Vec::new();
    let mut i: usize = 0;
    while i < state.history.len()
        invariant
            i <= state.history@.len(),
            out@.len() == i,
            forall|j: int|
                0 <= j < i ==> (#[trigger] out@[j])@ == message_text(state.history@[j]),
        decreases state.history@.len() - i,
    {
        let s = match &state.history[i] {
            HistoryMessage::User(u) => canon_user(u),
            HistoryMessage::Assistant(a) => canon_assistant(a),
        };
        out.push(s);
        i = i + 1;
    }
    out.push(canon_user(&state.current_message));
    proof {
        assert(text::texts(out@) =~= state_texts(*state));
    }
    out
}

/// The fingerprints of a conversation whose messages have these numbers of tokens.
pub open spec fn state_fingerprints(state: ConversationState, tokens: Seq<u64>) -> Seq<
    MsgFingerprint,
> {
    Seq::new(
        state_texts(state).len(),
        |i: int| fingerprint_model(state_texts(state)[i], tokens[i] as int),
    )
}

/// The fingerprints of a conversation. `tokens` holds the number of tokens of each of its
/// canonical texts.
pub fn fingerprints_from_state(state: &ConversationState, tokens: &Vec<u64>) -> (r: Vec<
    MsgFingerprint,
>)
    requires
        tokens@.len() == state.history@.len() + 1,
    ensures
        r@ == state_fingerprints(*state, tokens@),
{
    let list = canonical_texts(state);
    let ghost all = state_texts(*state);
    let mut out: Vec<MsgFingerprint> = Vec::new();
    let mut i: usize = 0;
    while i < list.len()
        invariant
            i <= list@.len(),
            text::texts(list@) == all,
            all.len() == tokens@.len(),
            out@.len() == i,
            forall|j: int|
                0 <= j < i ==> #[trigger] out@[j] == fingerprint_model(all[j], tokens@[j] as int),
        decreases list@.len() - i,
    {
        assert(text::texts(list@)[i as int] == list@[i as int]@);
        out.push(fingerprint(list[i].as_str(), tokens[i]));
        i = i + 1;
    }
    proof {
        assert(out@ =~= state_fingerprints(*state, tokens@));
    }
    out
}

/// The messages are compared alike: content, tool results and number of attachments are the same,
/// whatever the tools that they offer.
pub open spec fn compare_alike(a: UserInputMessage, b: UserInputMessage) -> bool {
    &&& a.content@ == b.content@
    &&& a.user_input_message_context.tool_results@ == b.user_input_message_context.tool_results@
    &&& a.images@.len() == b.images@.len()
    &&& a.documents@.len() == b.documents@.len()
}

/// A message has the same hash as the current message and, later, in the history; and where it has
/// the same number of tokens there, the same fingerprint. There is one fingerprint for each message
/// of the history, in its order, and one for the current message.
pub proof fn fingerprint_survives_the_turn(
    now: ConversationState,
    later: ConversationState,
    at: int,
    tokens_now: Seq<u64>,
    tokens_later: Seq<u64>,
)
    requires
        0 <= at < later.history@.len(),
        later.history@[at] matches HistoryMessage::User(u) && compare_alike(u, now.current_message),
    ensures
        ({
            let last = now.history@.len() as int;
            let a = state_fingerprints(now, tokens_now);
            let b = state_fingerprints(later, tokens_later);
            &&& a.len() == now.history@.len() + 1
            &&& b.len() == later.history@.len() + 1
            &&& a[last].hash == b[at].hash
            &&& tokens_later[at] == tokens_now[last] ==> a[last] == b[at]
        }),
{
}

/// The numbers of tokens that a way of counting gives for the texts of a conversation.
pub open spec fn counted(state: ConversationState, count: spec_fn(Seq<char>) -> u64) -> Seq<u64> {
    state_texts(state).map_values(count)
}

/// However tokens are counted, as long as the count depends on the text alone, a message has the
/// same fingerprint as the current message and, later, in the history.
pub proof fn counted_fingerprint_survives_the_turn(
    now: ConversationState,
    later: ConversationState,
    at: int,
    count: spec_fn(Seq<char>) -> u64,
)
    requires
        0 <= at < later.history@.len(),
        later.history@[at] matches HistoryMessage::User(u) && compare_alike(u, now.current_message),
    ensures
        state_fingerprints(now, counted(now, count))[now.history@.len() as int]
            == state_fingerprints(later, counted(later, count))[at],
{
    assert(state_texts(now)[now.history@.len() as int] == state_texts(later)[at]);
    fingerprint_survives_the_turn(now, later, at, counted(now, count), counted(later, count));
}

/// Where there are too many sessions, the oldest go: one that is alive and was seen later than a
/// session that stays does stay.
pub proof fn the_oldest_sessions_go(
    v: SimView,
    after: Map<Seq<char>, SessionEntry>,
    key: Seq<char>,
    model: Seq<char>,
    curr: Seq<MsgFingerprint>,
    now: int,
    later: Seq<char>,
    earlier: Seq<char>,
)
    requires
        is_observed(v, after, key, model, curr, now),
        later != key,
        earlier != key,
        v.sessions.dom().contains(later),
        v.sessions.dom().contains(earlier),
        now - v.sessions[later].last_seen <= v.ttl_secs * 1_000_000_000,
        v.sessions[later].last_seen > v.sessions[earlier].last_seen,
        after.dom().contains(earlier),
    ensures
        after.dom().contains(later),
        after[later] == v.sessions[later],
{
    let recorded = choose|recorded: Map<Seq<char>, SessionEntry>|
        #![trigger is_recorded(v.sessions, recorded, key, model, curr, now)]
        is_recorded(v.sessions, recorded, key, model, curr, now) && (if recorded.dom().len()
            <= v.max_sessions {
            after == recorded
        } else {
            is_eviction(recorded, after, now, v.ttl_secs, v.max_sessions)
        });
    assert(recorded.dom().contains(later));
    assert(recorded.dom().contains(earlier));
}

/// The session of a request is remembered with what the request was, where no other session was
/// seen as late.
pub proof fn the_latest_session_stays(
    v: SimView,
    after: Map<Seq<char>, SessionEntry>,
    key: Seq<char>,
    model: Seq<char>,
    curr: Seq<MsgFingerprint>,
    now: int,
)
    requires
        is_observed(v, after, key, model, curr, now),
        v.max_sessions >= 1,
        v.ttl_secs >= 1,
        forall|k: Seq<char>| #[trigger]
            v.sessions.dom().contains(k) && k != key ==> v.sessions[k].last_seen < now,
    ensures
        after.dom().contains(key),
        after[key].model@ == model,
        after[key].prev@ == curr,
        after[key].last_seen == now,
{
    let recorded = choose|recorded: Map<Seq<char>, SessionEntry>|
        #![trigger is_recorded(v.sessions, recorded, key, model, curr, now)]
        is_recorded(v.sessions, recorded, key, model, curr, now) && (if recorded.dom().len()
            <= v.max_sessions {
            after == recorded
        } else {
            is_eviction(recorded, after, now, v.ttl_secs, v.max_sessions)
        });
    assert(recorded.dom().contains(key));
    if !after.dom().contains(key) {
        assert(is_alive(recorded[key], now, v.ttl_secs));
        assert(after.dom().len() == v.max_sessions);
        let j = after.dom().choose();
        assert(after.dom().contains(j));
        assert(recorded.dom().contains(j));
        assert(v.sessions.dom().contains(j));
        assert(after[j] == recorded[j]);
    }
}

/// A session that is no more alive goes where there are too many, and only dead sessions go where
/// the live ones are few enough.
pub proof fn live_sessions_go_only_where_there_are_too_many(
    all: Map<Seq<char>, SessionEntry>,
    left: Map<Seq<char>, SessionEntry>,
    now: int,
    ttl_secs: int,
    cap: int,
    k: Seq<char>,
)
    requires
        is_eviction(all, left, now, ttl_secs, cap),
        all.dom().contains(k),
    ensures
        left.dom().contains(k) ==> now - all[k].last_seen <= ttl_secs * 1_000_000_000 && left[k]
            == all[k],
        now - all[k].last_seen <= ttl_secs * 1_000_000_000 && !left.dom().contains(k)
            ==> left.dom().len() == cap,
{
}

/// Counts are cut off at the greatest `u32`, and fit below it.
pub proof fn counts_are_cut_off(n: int)
    ensures
        n <= u32::MAX ==> cut_off(n) == n,
        n > u32::MAX ==> cut_off(n) == u32::MAX,
{
}

/// The tokens of a list add up.
pub proof fn tokens_add_up(messages: Seq<MsgFingerprint>, m: MsgFingerprint)
    ensures
        token_sum(Seq::empty()) == 0,
        token_sum(messages.push(m)) == token_sum(messages) + m.tokens,
{
    assert(messages.push(m).drop_last() =~= messages);
}

/// The hash goes byte by byte: each byte is mixed in by an exclusive or, and a product follows. It
/// starts from the offset basis.
pub proof fn hashes_go_byte_by_byte(bytes: Seq<u8>, b: u8)
    ensures
        fnv1a_hash(Seq::empty()) == 14695981039346656037u64,
        fnv1a_hash(bytes.push(b)) == (fnv1a_hash(bytes) ^ (b as u64)).wrapping_mul(1099511628211u64),
{
    assert(bytes.push(b).drop_last() =~= bytes);
}

/// A request of a live session with the same model hits the tokens of the messages at its front
/// that are those of the last request: up to the first one that differs.
pub proof fn sessions_hit_their_common_front(
    v: SimView,
    key: Seq<char>,
    model: Seq<char>,
    curr: Seq<MsgFingerprint>,
    now: int,
    n: int,
)
    requires
        v.sessions.dom().contains(key),
        v.sessions[key].model@ == model,
        now - v.sessions[key].last_seen <= v.ttl_secs * 1_000_000_000,
        0 <= n <= curr.len(),
        n <= v.sessions[key].prev@.len(),
        forall|i: int| 0 <= i < n ==> v.sessions[key].prev@[i].hash == (#[trigger] curr[i]).hash,
        n == curr.len() || n == v.sessions[key].prev@.len() || v.sessions[key].prev@[n].hash
            != curr[n].hash,
    ensures
        session_hit(v, key, model, curr, now) == token_sum(curr.take(n)),
{
    let prev = v.sessions[key].prev@;
    assert(share_front(prev, curr, n));
    assert(is_common_length(prev, curr, n));
    lemma_common_length(prev, curr, n);
}

} // verus!
