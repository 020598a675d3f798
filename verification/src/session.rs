//! Client sessions and their reconnect grace period. Time is given to the
//! registry in milliseconds from a fixed origin chosen by the caller.
use vstd::prelude::*;
use std::collections::HashMap;

verus! {

/// How long after it was last seen a session can still be resumed.
pub const RECONNECT_GRACE_PERIOD_MS: u64 = 30_000;

/// Time from `last_seen` to `now`, or zero when `now` is earlier.
pub open spec fn elapsed(last_seen: u64, now: u64) -> int {
    if now >= last_seen {
        now - last_seen
    } else {
        0
    }
}

/// A session last seen at `last_seen` can still be resumed at `now`.
pub open spec fn within_grace(last_seen: u64, now: u64) -> bool {
    elapsed(last_seen, now) < RECONNECT_GRACE_PERIOD_MS
}

/// The sessions of `m` that can still be resumed at `now`.
pub open spec fn live_keys(m: Map<u128, u64>, now: u64) -> Set<u128> {
    Set::new(|k: u128| m.contains_key(k) && within_grace(m[k], now))
}

/// The sessions in play, each with the time it was last seen, and (for
/// proofs only) the calls made on the registry so far.
pub struct SessionRegistry {
    sessions: HashMap<u128, u64>,
    calls: Ghost<Seq<SessionCall>>,
}

impl View for SessionRegistry {
    type V = Map<u128, u64>;

    closed spec fn view(&self) -> Map<u128, u64> {
        self.sessions@
    }
}

/// A fresh random session id: `uuid::Uuid::new_v4` as a `u128`. Nothing
/// is claimed of the value; the registry keeps whatever comes back.
#[verifier::external_body]
fn new_session_id() -> u128 {
    uuid::Uuid::new_v4().as_u128()
}

fn within(last_seen: u64, now: u64) -> (b: bool)
    ensures
        b == within_grace(last_seen, now),
{
    let e = if now >= last_seen { now - last_seen } else { 0 };
    e < RECONNECT_GRACE_PERIOD_MS
}

impl SessionRegistry {
    /// The registry holds what its history of calls leaves.
    #[verifier::type_invariant]
    closed spec fn replays_history(&self) -> bool {
        self.sessions@ == after_calls(Map::empty(), self.calls@)
    }

    /// The calls made on this registry since it was created, with the ids
    /// that `start_session` gave back.
    pub closed spec fn history(&self) -> Seq<SessionCall> {
        self.calls@
    }

    /// A registry with no session.
    pub fn new() -> (r: SessionRegistry)
        ensures
            r@ == Map::<u128, u64>::empty(),
            r.history() == Seq::<SessionCall>::empty(),
    {
        SessionRegistry { sessions: HashMap::new(), calls: Ghost(Seq::empty()) }
    }

    /// Opens a session seen now and returns its fresh id.
    pub fn start_session(&mut self, now: u64) -> (id: u128)
        ensures
            final(self)@ == old(self)@.insert(id, now),
            final(self).history() == old(self).history().push(SessionCall::Start { id, now }),
    {
        broadcast use vstd::std_specs::hash::group_hash_axioms;
        proof {
            use_type_invariant(&*self);
        }
        let id = new_session_id();
        let mut taken = SessionRegistry::new();
        std::mem::swap(&mut taken, self);
        proof {
            use_type_invariant(&taken);
        }
        let SessionRegistry { mut sessions, calls } = taken;
        let ghost next = calls@.push(SessionCall::Start { id, now });
        sessions.insert(id, now);
        assert(next.drop_last() =~= calls@);
        *self = SessionRegistry { sessions, calls: Ghost(next) };
        id
    }

    /// Marks a known session as seen now; an unknown id changes nothing.
    pub fn touch(&mut self, id: u128, now: u64)
        ensures
            final(self)@ == if old(self)@.contains_key(id) {
                old(self)@.insert(id, now)
            } else {
                old(self)@
            },
            final(self).history() == old(self).history().push(SessionCall::Touch { id, now }),
    {
        broadcast use vstd::std_specs::hash::group_hash_axioms;
        proof {
            use_type_invariant(&*self);
        }
        let mut taken = SessionRegistry::new();
        std::mem::swap(&mut taken, self);
        proof {
            use_type_invariant(&taken);
        }
        let SessionRegistry { mut sessions, calls } = taken;
        let ghost next = calls@.push(SessionCall::Touch { id, now });
        if sessions.contains_key(&id) {
            sessions.insert(id, now);
        }
        assert(next.drop_last() =~= calls@);
        *self = SessionRegistry { sessions, calls: Ghost(next) };
    }

    /// Whether the session can still be resumed at `now`: it is known and
    /// was last seen less than the grace period ago. Over the registry's
    /// history: it was started, not evicted since, and last started or
    /// touched less than the grace period before `now`.
    pub fn is_within_grace_period(&self, id: u128, now: u64) -> (b: bool)
        ensures
            b == (self@.contains_key(id) && within_grace(self@[id], now)),
            b == match last_seen(self.history(), id) {
                Some(t) => within_grace(t, now),
                None => false,
            },
    {
        broadcast use vstd::std_specs::hash::group_hash_axioms;
        proof {
            use_type_invariant(self);
            lemma_grace_over_history(self.calls@, id, now);
        }
        match self.sessions.get(&id) {
            Some(last_seen) => within(*last_seen, now),
            None => false,
        }
    }

    /// Answers a client's resume request at `now`: when the session can
    /// still be resumed it is marked as seen now and `true` comes back;
    /// otherwise nothing changes and the answer is `false`.
    pub fn resume(&mut self, id: u128, now: u64) -> (resumed: bool)
        ensures
            resumed == (old(self)@.contains_key(id) && within_grace(old(self)@[id], now)),
            final(self)@ == if resumed {
                old(self)@.insert(id, now)
            } else {
                old(self)@
            },
            final(self).history() == if resumed {
                old(self).history().push(SessionCall::Touch { id, now })
            } else {
                old(self).history()
            },
    {
        let ok = self.is_within_grace_period(id, now);
        if ok {
            self.touch(id, now);
        }
        ok
    }

    /// Forgets the sessions that can no longer be resumed at `now`.
    pub fn evict_expired(&mut self, now: u64)
        ensures
            final(self)@ == old(self)@.restrict(live_keys(old(self)@, now)),
            final(self).history() == old(self).history().push(SessionCall::EvictExpired { now }),
    {
        broadcast use vstd::std_specs::hash::group_hash_axioms;
        proof {
            use_type_invariant(&*self);
        }
        let mut taken = SessionRegistry::new();
        std::mem::swap(&mut taken, self);
        proof {
            use_type_invariant(&taken);
        }
        let SessionRegistry { mut sessions, calls } = taken;
        let ghost next = calls@.push(SessionCall::EvictExpired { now });
        let ghost m0 = sessions@;
        let mut stale: Vec<u128> = Vec::new();
        for k in it: sessions.keys()
            invariant
                sessions@ == m0,
                it.seq().unref().to_set() == m0.dom(),
                forall|x: u128|
                    stale@.contains(x) ==> m0.contains_key(x) && !within_grace(m0[x], now),
                forall|j: int|
                    0 <= j < it.index() && m0.contains_key(*it.seq()[j]) && !within_grace(m0[*it.seq()[j]], now)
                        ==> stale@.contains(*it.seq()[j]),
        {
            assert(k == it.seq()[it.index()]);
            let ghost before = stale@;
            match sessions.get(k) {
                Some(last_seen) => {
                    if !within(*last_seen, now) {
                        stale.push(*k);
                    }
                },
                None => {},
            }
            proof {
                assert forall|x: u128| before.contains(x) implies stale@.contains(x) by {
                    let w = choose|w: int| 0 <= w < before.len() && before[w] == x;
                    assert(stale@[w] == x);
                }
                if m0.contains_key(*k) && !within_grace(m0[*k], now) {
                    assert(stale@[stale@.len() - 1] == *k);
                }
            }
        }
        let ghost dead = Set::new(|x: u128| stale@.contains(x));
        let mut i: usize = 0;
        while i < stale.len()
            invariant
                0 <= i <= stale@.len(),
                sessions@ == m0.remove_keys(Set::new(|x: u128| stale@.take(i as int).contains(x))),
            decreases stale@.len() - i,
        {
            let ghost before = sessions@;
            sessions.remove(&stale[i]);
            proof {
                assert forall|x: u128| stale@.take(i + 1).contains(x) <==> stale@.take(i as int).contains(x) || x
                    == stale@[i as int] by {
                    if stale@.take(i + 1).contains(x) {
                        let w = choose|w: int| 0 <= w < i + 1 && #[trigger] stale@.take(i + 1)[w] == x;
                        if w < i {
                            assert(stale@.take(i as int)[w] == x);
                        }
                    }
                    if stale@.take(i as int).contains(x) {
                        let w = choose|w: int| 0 <= w < i && #[trigger] stale@.take(i as int)[w] == x;
                        assert(stale@.take(i + 1)[w] == x);
                    }
                    if x == stale@[i as int] {
                        assert(stale@.take(i + 1)[i as int] == x);
                    }
                }
                assert(sessions@ =~= m0.remove_keys(Set::new(|x: u128| stale@.take(i + 1).contains(x))));
            }
            i += 1;
        }
        assert(stale@.take(stale@.len() as int) =~= stale@);
        assert(sessions@ =~= m0.restrict(live_keys(m0, now)));
        assert(next.drop_last() =~= calls@);
        *self = SessionRegistry { sessions, calls: Ghost(next) };
    }
}

/// A session just started or touched at `t` can be resumed at any time
/// before `t + RECONNECT_GRACE_PERIOD_MS` and at none after.
pub proof fn lemma_grace_window(m: Map<u128, u64>, id: u128, t: u64, now: u64)
    requires
        now >= t,
    ensures
        ({
            let m2 = m.insert(id, t);
            (m2.contains_key(id) && within_grace(m2[id], now)) <==> now < t + RECONNECT_GRACE_PERIOD_MS
        }),
{
}

/// Evicting expired sessions at `now` never changes whether a session can
/// be resumed at `now`.
pub proof fn lemma_evict_keeps_answers(m: Map<u128, u64>, now: u64, id: u128)
    ensures
        ({
            let e = m.restrict(live_keys(m, now));
            (e.contains_key(id) && within_grace(e[id], now)) == (m.contains_key(id) && within_grace(m[id], now))
        }),
{
}

/// A call on a session registry, with the id that `start_session` gave
/// back.
pub enum SessionCall {
    Start { id: u128, now: u64 },
    Touch { id: u128, now: u64 },
    EvictExpired { now: u64 },
}

/// The registry after a history of calls, as each call's contract gives it.
pub open spec fn after_calls(m: Map<u128, u64>, calls: Seq<SessionCall>) -> Map<u128, u64>
    decreases calls.len(),
{
    if calls.len() == 0 {
        m
    } else {
        let before = after_calls(m, calls.drop_last());
        match calls.last() {
            SessionCall::Start { id, now } => before.insert(id, now),
            SessionCall::Touch { id, now } => if before.contains_key(id) {
                before.insert(id, now)
            } else {
                before
            },
            SessionCall::EvictExpired { now } => before.restrict(live_keys(before, now)),
        }
    }
}

/// When session `id` was last seen after a history of calls starting from
/// an empty registry: the time of its latest start or touch, unless an
/// eviction dropped it since (a touch of a dropped or never started id
/// counts for nothing), or `None`.
pub open spec fn last_seen(calls: Seq<SessionCall>, id: u128) -> Option<u64>
    decreases calls.len(),
{
    if calls.len() == 0 {
        None
    } else {
        let before = last_seen(calls.drop_last(), id);
        match calls.last() {
            SessionCall::Start { id: i, now } => if i == id {
                Some(now)
            } else {
                before
            },
            SessionCall::Touch { id: i, now } => if i == id && before is Some {
                Some(now)
            } else {
                before
            },
            SessionCall::EvictExpired { now } => match before {
                Some(t) => if within_grace(t, now) {
                    before
                } else {
                    None
                },
                None => None,
            },
        }
    }
}

/// After any history of calls on a new registry, a session can be resumed
/// at `now` exactly when it was started, not evicted since, and last seen
/// (started or touched) less than the grace period before `now`.
pub proof fn lemma_grace_over_history(calls: Seq<SessionCall>, id: u128, now: u64)
    ensures
        after_calls(Map::empty(), calls).contains_key(id) == (last_seen(calls, id) is Some),
        last_seen(calls, id) is Some ==> after_calls(Map::empty(), calls)[id] == last_seen(calls, id)->0,
        (after_calls(Map::empty(), calls).contains_key(id) && within_grace(after_calls(Map::empty(), calls)[id], now))
            == (match last_seen(calls, id) {
            Some(t) => within_grace(t, now),
            None => false,
        }),
    decreases calls.len(),
{
    if calls.len() > 0 {
        lemma_grace_over_history(calls.drop_last(), id, now);
    }
}

} // verus!
