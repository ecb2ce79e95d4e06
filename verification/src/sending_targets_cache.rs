//! Bookkeeping for a message being sent to a list of targets in priority order: which targets
//! are being tried, which failed, and which one to try next.
use std::collections::HashMap;
use vstd::prelude::*;

verus! {

broadcast use vstd::std_specs::hash::group_hash_axioms;

/// A transport endpoint (IP address, as 128 bits, and port).
#[derive(Clone, Copy, Debug, PartialEq, Eq, Structural, PartialOrd, Ord, Hash)]
pub struct Endpoint {
    pub ip: u128,
    pub port: u16,
}

/// The state of one target of a message.
#[derive(Clone, Copy, Debug, PartialEq, Eq, Structural)]
pub enum TargetState {
    /// We don't know whether the last send attempt succeeded or failed; the stored number of
    /// attempts already failed before.
    Sending(u8),
    /// The last sending attempt (if any) failed; in total, the stored number of attempts failed.
    Failed(u8),
    /// Sending to this target succeeded.
    Sent,
}

/// The next target to send a message to, and how often sending to it failed so far.
#[derive(Clone, Copy, Debug, PartialEq, Eq, Structural)]
pub struct NextTarget {
    pub addr: Endpoint,
    pub failed_attempts: u8,
}

impl TargetState {
    /// Whether a send attempt to this target is under way.
    pub fn is_sending(&self) -> (r: bool)
        ensures
            r == (*self is Sending),
    {
        match *self {
            TargetState::Failed(_) | TargetState::Sent => false,
            TargetState::Sending(_) => true,
        }
    }
}

/// The targets of one message, in priority order.
pub type Targets = Seq<(Endpoint, TargetState)>;

/// The initial targets: the first `dg_size` are being sent to, the others wait, counted as
/// failed with no attempt made.
pub open spec fn initial_states(addrs: Seq<Endpoint>, dg_size: int) -> Targets {
    Seq::new(
        addrs.len(),
        |i: int|
            (addrs[i], if i < dg_size {
                TargetState::Sending(0)
            } else {
                TargetState::Failed(0)
            }),
    )
}

/// The first index at or after `k` of the target `a`, or the length if none.
pub open spec fn index_of_addr_from(s: Targets, a: Endpoint, k: int) -> int
    decreases s.len() - k,
{
    if k >= s.len() {
        s.len() as int
    } else if s[k].0 == a {
        k
    } else {
        index_of_addr_from(s, a, k + 1)
    }
}

/// The first index of the target `a`, or the length if none.
pub open spec fn index_of_addr(s: Targets, a: Endpoint) -> int {
    index_of_addr_from(s, a, 0)
}

/// The targets after a failure report for `a`: if its first entry is being sent to, it becomes
/// failed with one more failed attempt; otherwise nothing changes.
pub open spec fn fail_spec(s: Targets, a: Endpoint) -> Targets {
    let i = index_of_addr(s, a);
    if i < s.len() && s[i].1 is Sending {
        s.update(i, (s[i].0, TargetState::Failed((s[i].1->Sending_0 + 1) as u8)))
    } else {
        s
    }
}

/// Counting one more failure for `a` does not overflow the counter.
pub open spec fn fail_fits(s: Targets, a: Endpoint) -> bool {
    let i = index_of_addr(s, a);
    i < s.len() && s[i].1 is Sending ==> s[i].1->Sending_0 < 255
}

/// The targets after a success report for `a`: its first entry becomes sent.
pub open spec fn succeed_spec(s: Targets, a: Endpoint) -> Targets {
    let i = index_of_addr(s, a);
    if i < s.len() {
        s.update(i, (s[i].0, TargetState::Sent))
    } else {
        s
    }
}

/// Some target has failed.
pub open spec fn has_failed(s: Targets) -> bool {
    exists|j: int| 0 <= j < s.len() && (#[trigger] s[j]).1 is Failed
}

/// `i` is the failed target with the fewest failed attempts, the earliest of those if several.
pub open spec fn is_next_failed(s: Targets, i: int) -> bool {
    &&& 0 <= i < s.len()
    &&& s[i].1 is Failed
    &&& forall|j: int|
        0 <= j < s.len() && (#[trigger] s[j]).1 is Failed ==> s[i].1->Failed_0 <= s[j].1->Failed_0
    &&& forall|j: int|
        0 <= j < i && (#[trigger] s[j]).1 is Failed ==> s[i].1->Failed_0 < s[j].1->Failed_0
}

/// No target is being sent to: the message is done with.
pub open spec fn all_idle(s: Targets) -> bool {
    forall|j: int| 0 <= j < s.len() ==> !((#[trigger] s[j]).1 is Sending)
}

/// The cache after the targets of `token` became `s`: dropped once no target is being sent to.
pub open spec fn store_or_drop(m: Map<u64, Targets>, token: u64, s: Targets) -> Map<u64, Targets> {
    if all_idle(s) {
        m.remove(token)
    } else {
        m.insert(token, s)
    }
}

/// The outcome of a failure report for `target`: the target to try next and the cache after.
pub open spec fn target_failed_post(
    old: Map<u64, Targets>,
    token: u64,
    target: Endpoint,
    r: NextTarget,
    new: Map<u64, Targets>,
) -> bool {
    if !old.contains_key(token) {
        r == NextTarget { addr: target, failed_attempts: 1 } && new == old
    } else {
        let s1 = fail_spec(old[token], target);
        if has_failed(s1) {
            exists|i: int|
                is_next_failed(s1, i) && r == NextTarget {
                    addr: s1[i].0,
                    failed_attempts: s1[i].1->Failed_0,
                } && new == store_or_drop(
                    old,
                    token,
                    s1.update(i, (s1[i].0, TargetState::Sending(s1[i].1->Failed_0))),
                )
        } else {
            r == NextTarget { addr: target, failed_attempts: 1 } && new == store_or_drop(
                old,
                token,
                s1,
            )
        }
    }
}

proof fn lemma_index_of_addr_from(s: Targets, a: Endpoint, k: int)
    requires
        0 <= k <= s.len(),
    ensures
        k <= index_of_addr_from(s, a, k) <= s.len(),
        index_of_addr_from(s, a, k) < s.len() ==> s[index_of_addr_from(s, a, k)].0 == a,
        forall|m: int| k <= m < index_of_addr_from(s, a, k) ==> (#[trigger] s[m]).0 != a,
    decreases s.len() - k,
{
    if k < s.len() && s[k].0 != a {
        lemma_index_of_addr_from(s, a, k + 1);
    }
}

/// Index of the first entry for `a` in `v`, or the length if none.
fn position_of_addr(v: &Vec<(Endpoint, TargetState)>, a: Endpoint) -> (r: usize)
    ensures
        r == index_of_addr(v@, a),
{
    proof {
        lemma_index_of_addr_from(v@, a, 0);
    }
    let mut i: usize = 0;
    while i < v.len()
        invariant
            0 <= i <= v@.len(),
            forall|m: int| 0 <= m < i ==> (#[trigger] v@[m]).0 != a,
            0 <= index_of_addr(v@, a) <= v@.len(),
            index_of_addr(v@, a) < v@.len() ==> v@[index_of_addr(v@, a)].0 == a,
            forall|m: int| 0 <= m < index_of_addr(v@, a) ==> (#[trigger] v@[m]).0 != a,
        decreases v@.len() - i,
    {
        if v[i].0 == a {
            proof {
                if index_of_addr(v@, a) < i {
                    let k = index_of_addr(v@, a);
                    assert(v@[k].0 != a);
                }
            }
            return i;
        }
        i = i + 1;
    }
    proof {
        if index_of_addr(v@, a) < v@.len() {
            let k = index_of_addr(v@, a);
            assert(v@[k].0 != a);
        }
    }
    i
}

/// Whether no target in `v` is being sent to.
fn none_sending(v: &Vec<(Endpoint, TargetState)>) -> (r: bool)
    ensures
        r == all_idle(v@),
{
    let mut i: usize = 0;
    while i < v.len()
        invariant
            0 <= i <= v@.len(),
            forall|j: int| 0 <= j < i ==> !((#[trigger] v@[j]).1 is Sending),
        decreases v@.len() - i,
    {
        if v[i].1.is_sending() {
            return false;
        }
        i = i + 1;
    }
    true
}

/// The index of the failed target with the fewest failed attempts (the earliest of those), if
/// any target failed.
fn next_failed_index(v: &Vec<(Endpoint, TargetState)>) -> (r: Option<usize>)
    ensures
        match r {
            Some(i) => is_next_failed(v@, i as int),
            None => !has_failed(v@),
        },
{
    let mut best: Option<usize> = None;
    let mut best_count: u8 = 0;
    let mut i: usize = 0;
    while i < v.len()
        invariant
            0 <= i <= v@.len(),
            match best {
                Some(b) => {
                    &&& b < i
                    &&& v@[b as int].1 == TargetState::Failed(best_count)
                    &&& forall|j: int|
                        0 <= j < i && (#[trigger] v@[j]).1 is Failed ==> best_count <= v@[j].1->Failed_0
                    &&& forall|j: int|
                        0 <= j < b && (#[trigger] v@[j]).1 is Failed ==> best_count < v@[j].1->Failed_0
                },
                None => forall|j: int| 0 <= j < i ==> !((#[trigger] v@[j]).1 is Failed),
            },
        decreases v@.len() - i,
    {
        match v[i].1 {
            TargetState::Failed(x) => {
                let better = match best {
                    None => true,
                    Some(_) => x < best_count,
                };
                if better {
                    best = Some(i);
                    best_count = x;
                }
            },
            _ => {},
        }
        i = i + 1;
    }
    best
}

/// For each message (by token), its targets in priority order and their states.
pub struct SendingTargetsCache {
    cache: HashMap<u64, Vec<(Endpoint, TargetState)>>,
}

impl View for SendingTargetsCache {
    type V = Map<u64, Targets>;

    closed spec fn view(&self) -> Map<u64, Targets> {
        self.cache@.map_values(|v: Vec<(Endpoint, TargetState)>| v@)
    }
}

impl Default for SendingTargetsCache {
    fn default() -> (r: SendingTargetsCache)
        ensures
            r@ == Map::<u64, Targets>::empty(),
    {
        let r = SendingTargetsCache { cache: HashMap::new() };
        assert(r@ =~= Map::<u64, Targets>::empty());
        r
    }
}

/// A copy of a list of targets.
fn copy_targets(v: &Vec<(Endpoint, TargetState)>) -> (r: Vec<(Endpoint, TargetState)>)
    ensures
        r@ == v@,
{
    let mut r: Vec<(Endpoint, TargetState)> = Vec::new();
    let mut i: usize = 0;
    while i < v.len()
        invariant
            0 <= i <= v@.len(),
            r@ == v@.take(i as int),
        decreases v@.len() - i,
    {
        r.push((v[i].0, v[i].1));
        i = i + 1;
        assert(r@ =~= v@.take(i as int));
    }
    assert(r@ =~= v@);
    r
}

impl SendingTargetsCache {
    /// The targets of the message `token`, if it is cached.
    pub fn targets(&self, token: u64) -> (r: Option<Vec<(Endpoint, TargetState)>>)
        ensures
            match r {
                Some(v) => self@.contains_key(token) && v@ == self@[token],
                None => !self@.contains_key(token),
            },
    {
        match self.cache.get(&token) {
            Some(v) => Some(copy_targets(v)),
            None => None,
        }
    }

    /// Starts tracking a message sent to `initial_targets`: the first `dg_size` targets are being
    /// sent to, the others wait, counted as failed with no attempt made.
    pub fn insert_message(&mut self, token: u64, initial_targets: &[Endpoint], dg_size: usize)
        ensures
            final(self)@ == old(self)@.insert(
                token,
                initial_states(initial_targets@, dg_size as int),
            ),
    {
        let mut targets: Vec<(Endpoint, TargetState)> = Vec::new();
        let mut idx: usize = 0;
        while idx < initial_targets.len()
            invariant
                0 <= idx <= initial_targets@.len(),
                targets@ == initial_states(initial_targets@, dg_size as int).take(idx as int),
            decreases initial_targets@.len() - idx,
        {
            let state = if idx < dg_size {
                TargetState::Sending(0)
            } else {
                TargetState::Failed(0)
            };
            targets.push((initial_targets[idx], state));
            idx = idx + 1;
            assert(targets@ =~= initial_states(initial_targets@, dg_size as int).take(idx as int));
        }
        assert(targets@ =~= initial_states(initial_targets@, dg_size as int));
        let _ = self.cache.insert(token, targets);
        proof {
            assert(self@ =~= old(self)@.insert(
                token,
                initial_states(initial_targets@, dg_size as int),
            ));
        }
    }

    /// Marks the first entry of `target` as failed, with one more failed attempt, if it is being
    /// sent to.  A failure report for a target not being sent to changes nothing.
    fn fail_target(&mut self, token: u64, target: Endpoint)
        requires
            old(self)@.contains_key(token) ==> fail_fits(old(self)@[token], target),
        ensures
            !old(self)@.contains_key(token) ==> final(self)@ == old(self)@,
            old(self)@.contains_key(token) ==> final(self)@ == old(self)@.insert(
                token,
                fail_spec(old(self)@[token], target),
            ),
    {
        let mut targets = match self.cache.remove(&token) {
            Some(v) => v,
            None => {
                proof {
                    assert(self@ =~= old(self)@);
                }
                return;
            },
        };
        let ghost s0 = targets@;
        let i = position_of_addr(&targets, target);
        if i < targets.len() {
            match targets[i].1 {
                TargetState::Sending(x) => {
                    let addr = targets[i].0;
                    targets.set(i, (addr, TargetState::Failed(x + 1)));
                },
                _ => {},
            }
        }
        proof {
            assert(targets@ =~= fail_spec(s0, target));
        }
        let _ = self.cache.insert(token, targets);
        proof {
            assert(self@ =~= old(self)@.insert(token, fail_spec(s0, target)));
        }
    }

    /// Takes the failed target with the fewest failed attempts (the earliest of those) and marks
    /// it as being sent to.  Returns None if no target failed.
    fn take_next_target(&mut self, token: u64) -> (r: Option<NextTarget>)
        ensures
            !old(self)@.contains_key(token) ==> r is None && final(self)@ == old(self)@,
            old(self)@.contains_key(token) ==> {
                let s = old(self)@[token];
                if has_failed(s) {
                    exists|i: int|
                        is_next_failed(s, i) && r == Some(
                            NextTarget { addr: s[i].0, failed_attempts: s[i].1->Failed_0 },
                        ) && final(self)@ == old(self)@.insert(
                            token,
                            s.update(i, (s[i].0, TargetState::Sending(s[i].1->Failed_0))),
                        )
                } else {
                    r is None && final(self)@ == old(self)@
                }
            },
    {
        let mut targets = match self.cache.remove(&token) {
            Some(v) => v,
            None => {
                proof {
                    assert(self@ =~= old(self)@);
                }
                return None;
            },
        };
        let ghost s = targets@;
        match next_failed_index(&targets) {
            Some(k) => {
                let addr = targets[k].0;
                let count = match targets[k].1 {
                    TargetState::Failed(c) => c,
                    _ => 0,
                };
                targets.set(k, (addr, TargetState::Sending(count)));
                let ghost s2 = targets@;
                let _ = self.cache.insert(token, targets);
                proof {
                    assert(self@ =~= old(self)@.insert(token, s2));
                    assert(is_next_failed(s, k as int));
                }
                Some(NextTarget { addr, failed_attempts: count })
            },
            None => {
                let _ = self.cache.insert(token, targets);
                proof {
                    assert(self@ =~= old(self)@);
                }
                None
            },
        }
    }

    /// Whether the message is done with: no target of it is being sent to.
    fn should_drop(&self, token: u64) -> (r: bool)
        ensures
            r == (!self@.contains_key(token) || all_idle(self@[token])),
    {
        match self.cache.get(&token) {
            Some(v) => none_sending(v),
            None => true,
        }
    }

    /// Drops the message if it is done with.
    fn drop_if_done(&mut self, token: u64)
        ensures
            !old(self)@.contains_key(token) ==> final(self)@ == old(self)@,
            old(self)@.contains_key(token) ==> final(self)@ == store_or_drop(
                old(self)@,
                token,
                old(self)@[token],
            ),
    {
        if self.should_drop(token) {
            let _ = self.cache.remove(&token);
            proof {
                assert(self@ =~= old(self)@.remove(token));
            }
        } else {
            proof {
                assert(old(self)@.insert(token, old(self)@[token]) =~= old(self)@);
            }
        }
    }

    /// Records that sending to `target` failed and returns the target to try next: the failed
    /// target with the fewest failed attempts, the earliest of those.  If there is none, returns
    /// `target` with one failed attempt.  Drops the message once no target is being sent to.
    pub fn target_failed(&mut self, token: u64, target: Endpoint) -> (r: NextTarget)
        requires
            old(self)@.contains_key(token) ==> fail_fits(old(self)@[token], target),
        ensures
            target_failed_post(old(self)@, token, target, r, final(self)@),
    {
        self.fail_target(token, target);
        let ghost mid = self@;
        let next_target = match self.take_next_target(token) {
            Some(next_target) => next_target,
            None => NextTarget { addr: target, failed_attempts: 1 },
        };
        self.drop_if_done(token);
        proof {
            if old(self)@.contains_key(token) {
                let s1 = fail_spec(old(self)@[token], target);
                assert(mid[token] == s1);
                if has_failed(s1) {
                    let i = choose|i: int|
                        is_next_failed(s1, i) && Some(next_target) == Some(
                            NextTarget { addr: s1[i].0, failed_attempts: s1[i].1->Failed_0 },
                        ) && self@ == store_or_drop(
                            mid.insert(
                                token,
                                s1.update(i, (s1[i].0, TargetState::Sending(s1[i].1->Failed_0))),
                            ),
                            token,
                            s1.update(i, (s1[i].0, TargetState::Sending(s1[i].1->Failed_0))),
                        );
                    let s2 = s1.update(i, (s1[i].0, TargetState::Sending(s1[i].1->Failed_0)));
                    assert(mid.insert(token, s2).remove(token) =~= old(self)@.remove(token));
                    assert(mid.insert(token, s2).insert(token, s2) =~= old(self)@.insert(token, s2));
                } else {
                    assert(mid.remove(token) =~= old(self)@.remove(token));
                    assert(mid.insert(token, s1) =~= old(self)@.insert(token, s1));
                }
            }
        }
        next_target
    }

    /// Records that sending to `target` succeeded; drops the message once no target is being
    /// sent to.
    pub fn target_succeeded(&mut self, token: u64, target: Endpoint)
        ensures
            !old(self)@.contains_key(token) ==> final(self)@ == old(self)@,
            old(self)@.contains_key(token) ==> final(self)@ == store_or_drop(
                old(self)@,
                token,
                succeed_spec(old(self)@[token], target),
            ),
    {
        let mut targets = match self.cache.remove(&token) {
            Some(v) => v,
            None => {
                proof {
                    assert(self@ =~= old(self)@);
                }
                return;
            },
        };
        let ghost s0 = targets@;
        let i = position_of_addr(&targets, target);
        if i < targets.len() {
            let addr = targets[i].0;
            targets.set(i, (addr, TargetState::Sent));
        }
        proof {
            assert(targets@ =~= succeed_spec(s0, target));
        }
        let ghost s2 = targets@;
        let _ = self.cache.insert(token, targets);
        proof {
            assert(self@ =~= old(self)@.insert(token, s2));
        }
        self.drop_if_done(token);
        proof {
            assert(old(self)@.insert(token, s2).remove(token) =~= old(self)@.remove(token));
            assert(old(self)@.insert(token, s2).insert(token, s2) =~= old(self)@.insert(token, s2));
        }
    }
}

/// Law: after any report, a message stays cached only while some target is being sent to.
pub proof fn law_cached_messages_are_in_flight(m: Map<u64, Targets>, token: u64, s: Targets)
    ensures
        store_or_drop(m, token, s).contains_key(token) <==> !all_idle(s),
{
}

} // verus!
