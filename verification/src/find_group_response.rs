//! The answer of a group to a request for the members of a close group, and how the answers of
//! several group members are merged.
use crate::assoc_map::{AssocMap, KeyEq};
use crate::public_id::PublicId;
use crate::types::{GROUP_SIZE, QUORUM_SIZE};
use vstd::prelude::*;

verus! {

/// The members of a close group, as one node reports them.
#[derive(Clone, Debug, PartialEq, Eq)]
pub struct FindGroupResponse {
    pub group: Vec<PublicId>,
}

/// How often `id` occurs in `s`.
pub open spec fn occurrences(s: Seq<PublicId>, id: PublicId) -> nat
    decreases s.len(),
{
    if s.len() == 0 {
        0
    } else {
        occurrences(s.drop_last(), id) + if s.last() == id {
            1nat
        } else {
            0nat
        }
    }
}

/// All members reported, one report after the other.
pub open spec fn all_reported(groups: Seq<Seq<PublicId>>) -> Seq<PublicId>
    decreases groups.len(),
{
    if groups.len() == 0 {
        Seq::empty()
    } else {
        all_reported(groups.drop_last()) + groups.last()
    }
}

/// The groups of the responses.
pub open spec fn groups_of(responses: Seq<FindGroupResponse>) -> Seq<Seq<PublicId>> {
    responses.map_values(|r: FindGroupResponse| r.group@)
}

/// How many reports name `id`, counting every mention.
pub open spec fn votes(responses: Seq<FindGroupResponse>, id: PublicId) -> nat {
    occurrences(all_reported(groups_of(responses)), id)
}

/// A merged group: at most a group's size of members, each named by a quorum, each once, by
/// falling number of votes; a member named by a quorum is left out only when the group is full
/// and it has no more votes than the last member taken.
pub open spec fn is_merged_group(responses: Seq<FindGroupResponse>, g: Seq<PublicId>) -> bool {
    &&& 0 < g.len() <= GROUP_SIZE
    &&& g.no_duplicates()
    &&& forall|i: int| 0 <= i < g.len() ==> votes(responses, #[trigger] g[i]) >= QUORUM_SIZE
    &&& forall|i: int, j: int|
        0 <= i < j < g.len() ==> votes(responses, #[trigger] g[i]) >= votes(responses, #[trigger] g[j])
    &&& forall|id: PublicId|
        votes(responses, id) >= QUORUM_SIZE && !g.contains(id) ==> g.len() == GROUP_SIZE && votes(
            responses,
            id,
        ) <= votes(responses, g[g.len() - 1])
}

proof fn lemma_occurrences_append(a: Seq<PublicId>, b: Seq<PublicId>, id: PublicId)
    ensures
        occurrences(a + b, id) == occurrences(a, id) + occurrences(b, id),
    decreases b.len(),
{
    if b.len() == 0 {
        assert(a + b =~= a);
    } else {
        assert((a + b).drop_last() =~= a + b.drop_last());
        lemma_occurrences_append(a, b.drop_last(), id);
    }
}

proof fn lemma_occurrences_push(a: Seq<PublicId>, x: PublicId, id: PublicId)
    ensures
        occurrences(a.push(x), id) == occurrences(a, id) + if x == id {
            1nat
        } else {
            0nat
        },
{
    assert(a.push(x).drop_last() =~= a);
}

proof fn lemma_occurrences_bound(a: Seq<PublicId>, id: PublicId)
    ensures
        occurrences(a, id) <= a.len(),
        occurrences(a, id) > 0 ==> a.contains(id),
    decreases a.len(),
{
    if a.len() > 0 {
        lemma_occurrences_bound(a.drop_last(), id);
        if occurrences(a.drop_last(), id) > 0 {
            let k = choose|k: int| 0 <= k < a.drop_last().len() && a.drop_last()[k] == id;
            assert(a[k] == id);
        }
        if a.last() == id {
            assert(a[a.len() - 1] == id);
        }
    }
}

impl FindGroupResponse {
    /// Merges the responses of several nodes: the members named by at least a quorum of
    /// reports, most named first, at most a group's size of them; `None` if no member is named
    /// by a quorum.
    pub fn merge(responses: &Vec<FindGroupResponse>) -> (r: Option<FindGroupResponse>)
        requires
            all_reported(groups_of(responses@)).len() <= usize::MAX,
        ensures
            match r {
                None => forall|id: PublicId| votes(responses@, id) < QUORUM_SIZE,
                Some(m) => is_merged_group(responses@, m.group@),
            },
    {
        let ghost gs = groups_of(responses@);
        let mut counts: AssocMap<PublicId, usize> = AssocMap::new();
        let mut k: usize = 0;
        proof {
            assert(gs.take(0) =~= Seq::<Seq<PublicId>>::empty());
            assert(counts@ =~= Map::<PublicId, usize>::empty());
        }
        while k < responses.len()
            invariant
                counts.wf(),
                gs == groups_of(responses@),
                gs.len() == responses@.len(),
                all_reported(gs).len() <= usize::MAX,
                0 <= k <= responses@.len(),
                forall|id: PublicId| #[trigger]
                    counts@.contains_key(id) <==> occurrences(all_reported(gs.take(k as int)), id) > 0,
                forall|id: PublicId| #[trigger]
                    counts@.contains_key(id) ==> counts@[id] == occurrences(all_reported(gs.take(k as int)), id),
            decreases responses@.len() - k,
        {
            let group = &responses[k].group;
            let ghost before = all_reported(gs.take(k as int));
            proof {
                assert(gs[k as int] == group@);
                assert(gs.take(k + 1).drop_last() =~= gs.take(k as int));
                assert(all_reported(gs.take(k + 1)) == before + group@);
                lemma_all_reported_prefix(gs, k + 1);
            }
            let mut j: usize = 0;
            while j < group.len()
                invariant
                    counts.wf(),
                    0 <= j <= group@.len(),
                    (before + group@).len() <= usize::MAX,
                    forall|id: PublicId| #[trigger]
                        counts@.contains_key(id) <==> occurrences(before + group@.take(j as int), id) > 0,
                    forall|id: PublicId| #[trigger]
                        counts@.contains_key(id) ==> counts@[id] == occurrences(before + group@.take(j as int), id),
                decreases group@.len() - j,
            {
                let id = group[j];
                proof {
                    assert((before + group@.take(j as int)).push(id) =~= before + group@.take(j + 1));
                    lemma_occurrences_bound(before + group@.take(j as int), id);
                }
                let n: usize = match counts.get(&id) {
                    Some(c) => *c,
                    None => 0,
                };
                proof {
                    assert((before + group@.take(j as int)).len() < usize::MAX) by {
                        assert((before + group@.take(j as int)).len() == before.len() + j);
                    }
                }
                let _ = counts.insert(id, n + 1);
                proof {
                    assert forall|q: PublicId| #[trigger] counts@.contains_key(q) implies counts@[q]
                        == occurrences(before + group@.take(j + 1), q) by {
                        lemma_occurrences_push(before + group@.take(j as int), id, q);
                    }
                    assert forall|q: PublicId| #[trigger]
                        counts@.contains_key(q) <== occurrences(before + group@.take(j + 1), q) > 0 by {
                        lemma_occurrences_push(before + group@.take(j as int), id, q);
                    }
                }
                j = j + 1;
            }
            proof {
                assert(group@.take(group@.len() as int) =~= group@);
            }
            k = k + 1;
        }
        proof {
            assert(gs.take(responses@.len() as int) =~= gs);
        }
        Self::select(&counts, Ghost(responses@))
    }
}

proof fn lemma_all_reported_prefix(gs: Seq<Seq<PublicId>>, k: int)
    requires
        0 <= k <= gs.len(),
    ensures
        all_reported(gs.take(k)).len() <= all_reported(gs).len(),
    decreases gs.len() - k,
{
    if k < gs.len() {
        assert(gs.take(k + 1).drop_last() =~= gs.take(k));
        lemma_all_reported_prefix(gs, k + 1);
    } else {
        assert(gs.take(k) =~= gs);
    }
}

impl FindGroupResponse {
    /// Takes, by falling number of votes, the members with at least a quorum of votes, at most a
    /// group's size of them.
    fn select(counts: &AssocMap<PublicId, usize>, Ghost(responses): Ghost<Seq<FindGroupResponse>>) -> (r: Option<FindGroupResponse>)
        requires
            counts.wf(),
            forall|id: PublicId| #[trigger] counts@.contains_key(id) <==> votes(responses, id) > 0,
            forall|id: PublicId| #[trigger] counts@.contains_key(id) ==> counts@[id] == votes(responses, id),
        ensures
            match r {
                None => forall|id: PublicId| votes(responses, id) < QUORUM_SIZE,
                Some(m) => is_merged_group(responses, m.group@),
            },
    {
        proof {
            counts.lemma_pairs();
        }
        let ghost pairs = counts.pairs();
        let n = counts.len();
        let mut taken: Vec<bool> = Vec::new();
        let mut t: usize = 0;
        while t < n
            invariant
                0 <= t <= n,
                taken@.len() == t,
                forall|i: int| 0 <= i < t ==> !taken@[i],
            decreases n - t,
        {
            taken.push(false);
            t = t + 1;
        }
        let mut g: Vec<PublicId> = Vec::new();
        proof {
            counts.lemma_pairs();
            assert forall|i: int| 0 <= i < n implies #[trigger] pairs[i].1 == votes(responses, pairs[i].0) by {
                assert(counts@.contains_key(pairs[i].0));
            }
            assert forall|id: PublicId| votes(responses, id) > 0 implies exists|i: int| 0 <= i < n && #[trigger] pairs[i].0 == id by {
                assert(counts@.contains_key(id));
            }
        }
        while g.len() < GROUP_SIZE
            invariant
                counts.wf(),
                pairs == counts.pairs(),
                n == pairs.len(),
                crate::assoc_map::keys_distinct(pairs),
                forall|i: int| 0 <= i < n ==> #[trigger] pairs[i].1 == votes(responses, pairs[i].0),
                forall|id: PublicId| votes(responses, id) > 0 ==> exists|i: int| 0 <= i < n && #[trigger] pairs[i].0 == id,
                taken@.len() == n,
                g@.len() <= GROUP_SIZE,
                g@.no_duplicates(),
                forall|i: int| 0 <= i < n ==> (#[trigger] taken@[i] <==> g@.contains(pairs[i].0)),
                forall|a: int| 0 <= a < g@.len() ==> votes(responses, #[trigger] g@[a]) >= QUORUM_SIZE,
                forall|a: int, b: int|
                    0 <= a < b < g@.len() ==> votes(responses, #[trigger] g@[a]) >= votes(responses, #[trigger] g@[b]),
                forall|i: int|
                    0 <= i < n && !taken@[i] && pairs[i].1 >= QUORUM_SIZE && g@.len() > 0 ==> #[trigger] pairs[i].1
                        <= votes(responses, g@[g@.len() - 1]),
            ensures
                g@.len() == GROUP_SIZE || forall|i: int|
                    0 <= i < n && !taken@[i] ==> #[trigger] pairs[i].1 < QUORUM_SIZE,
            decreases GROUP_SIZE - g@.len(),
        {
            let mut best: usize = n;
            let mut best_count: usize = 0;
            let mut i: usize = 0;
            while i < n
                invariant
                    counts.wf(),
                    pairs == counts.pairs(),
                    n == pairs.len(),
                    taken@.len() == n,
                    0 <= i <= n,
                    best == n || (best < i && !taken@[best as int] && pairs[best as int].1 >= QUORUM_SIZE
                        && best_count == pairs[best as int].1),
                    forall|j: int|
                        0 <= j < i && !taken@[j] && #[trigger] pairs[j].1 >= QUORUM_SIZE ==> best != n
                            && pairs[j].1 <= best_count,
                decreases n - i,
            {
                let c = *counts.value_at(i);
                if !taken[i] && c >= QUORUM_SIZE && (best == n || c > best_count) {
                    best = i;
                    best_count = c;
                }
                i = i + 1;
            }
            if best == n {
                break;
            }
            let ghost before = g@;
            let id = *counts.key_at(best);
            proof {
                if g@.contains(id) {
                    assert(taken@[best as int]);
                }
            }
            taken.set(best, true);
            g.push(id);
            proof {
                assert(g@.drop_last() =~= before);
                assert forall|j: int| 0 <= j < n implies (#[trigger] taken@[j] <==> g@.contains(pairs[j].0)) by {
                    if j != best {
                        if g@.contains(pairs[j].0) {
                            let a = choose|a: int| 0 <= a < g@.len() && g@[a] == pairs[j].0;
                            if a < before.len() {
                                assert(before[a] == pairs[j].0);
                                assert(before.contains(pairs[j].0));
                            } else {
                                assert(pairs[j].0 == pairs[best as int].0);
                            }
                        }
                        if before.contains(pairs[j].0) {
                            let a = choose|a: int| 0 <= a < before.len() && before[a] == pairs[j].0;
                            assert(g@[a] == pairs[j].0);
                        }
                    } else {
                        assert(g@[g@.len() - 1] == pairs[j].0);
                    }
                }
                assert forall|a: int, b: int| 0 <= a < g@.len() && 0 <= b < g@.len() && a != b implies g@[a] != g@[b] by {
                    if a < before.len() && b < before.len() {
                        assert(before[a] == g@[a] && before[b] == g@[b]);
                    } else if a < before.len() {
                        assert(before[a] == g@[a]);
                        assert(before.contains(g@[a]));
                    } else {
                        assert(before[b] == g@[b]);
                        assert(before.contains(g@[b]));
                    }
                }
                assert forall|a: int, b: int|
                    0 <= a < b < g@.len() implies votes(responses, #[trigger] g@[a]) >= votes(responses, #[trigger] g@[b]) by {
                    if b < before.len() {
                        assert(before[a] == g@[a] && before[b] == g@[b]);
                    } else {
                        assert(before[a] == g@[a]);
                        assert(pairs[best as int].1 <= votes(responses, before[before.len() - 1]));
                    }
                }
            }
        }
        proof {
            assert forall|id: PublicId|
                votes(responses, id) >= QUORUM_SIZE && !g@.contains(id) implies g@.len() == GROUP_SIZE && votes(
                    responses,
                    id,
                ) <= votes(responses, g@[g@.len() - 1]) by {
                let i = choose|i: int| 0 <= i < n && #[trigger] pairs[i].0 == id;
                assert(!taken@[i]);
                assert(pairs[i].1 >= QUORUM_SIZE);
            }
        }
        if g.len() == 0 {
            proof {
                assert forall|id: PublicId| votes(responses, id) < QUORUM_SIZE by {
                    if votes(responses, id) >= QUORUM_SIZE {
                        assert(!g@.contains(id));
                    }
                }
            }
            None
        } else {
            Some(FindGroupResponse { group: g })
        }
    }
}

} // verus!
