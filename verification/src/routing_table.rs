//! The routing table: the contacts a node is connected to, kept sorted by XOR distance from the
//! node's own name.
use crate::name_type::{
    closer, closer_to_target, closer_to_target_or_equal, common_leading_bits, is_name,
    lemma_closer_asymmetric, lemma_closer_irreflexive, lemma_closer_total, lemma_closer_transitive, names_equal, NameType,
};
use crate::public_id::PublicId;
use crate::types::GROUP_SIZE;
use vstd::prelude::*;

verus! {

broadcast use crate::public_id::lemma_name_len;

/// Number of contacts returned by `target_nodes` for a target which is outwith our close group
/// and is not a contact in the table.
pub const PARALLELISM: usize = 4;

/// Target maximum number of contacts per bucket; buckets can exceed it when required.
pub const BUCKET_SIZE: usize = 1;

/// Target maximum number of contacts for the whole table; the table can exceed it when required.
pub const OPTIMAL_TABLE_SIZE: usize = 64;

/// A transport-level connection to a peer, identified by its token.
#[derive(Clone, Copy, Debug, PartialEq, Eq, Structural)]
pub struct Connection(pub u64);

/// A contact: its identity and the connections we hold to it.
#[derive(Debug)]
pub struct NodeInfo {
    pub public_id: PublicId,
    pub connections: Vec<Connection>,
}

/// What a contact is, as a value.
pub struct NodeInfoView {
    pub public_id: PublicId,
    pub connections: Seq<Connection>,
}

impl View for NodeInfo {
    type V = NodeInfoView;

    open spec fn view(&self) -> NodeInfoView {
        NodeInfoView { public_id: self.public_id, connections: self.connections@ }
    }
}

/// The contents of a routing table.
pub struct TableView {
    pub our_name: Seq<u8>,
    pub nodes: Seq<NodeInfoView>,
}

/// The views of a sequence of contacts.
pub open spec fn infos_view(s: Seq<NodeInfo>) -> Seq<NodeInfoView> {
    s.map_values(|n: NodeInfo| n@)
}

/// The name of a contact.
pub open spec fn name_of(n: NodeInfoView) -> Seq<u8> {
    n.public_id.name_view()
}

/// The contacts are in strictly increasing distance from `target`.
pub open spec fn sorted_by_closeness(s: Seq<NodeInfoView>, target: Seq<u8>) -> bool {
    forall|i: int, j: int|
        0 <= i < j < s.len() ==> #[trigger] closer(name_of(s[i]), name_of(s[j]), target)
}

/// Some contact in `s` has the name `n`.
pub open spec fn contains_name(s: Seq<NodeInfoView>, n: Seq<u8>) -> bool {
    exists|i: int| 0 <= i < s.len() && name_of(#[trigger] s[i]) == n
}

/// A well formed table: sorted by distance from our name, so free of duplicates, and without our
/// own name.
pub open spec fn table_wf(v: TableView) -> bool {
    &&& is_name(v.our_name)
    &&& sorted_by_closeness(v.nodes, v.our_name)
    &&& !contains_name(v.nodes, v.our_name)
}

/// Number of contacts in `s` that are closer to `target` than the name `n`.
pub open spec fn count_closer(s: Seq<NodeInfoView>, n: Seq<u8>, target: Seq<u8>) -> int
    decreases s.len(),
{
    if s.len() == 0 {
        0
    } else {
        count_closer(s.drop_last(), n, target) + if closer(name_of(s.last()), n, target) {
            1int
        } else {
            0int
        }
    }
}

/// `s` with `x` inserted where it keeps the order by distance from `target`.
pub open spec fn sorted_insert(s: Seq<NodeInfoView>, x: NodeInfoView, target: Seq<u8>) -> Seq<
    NodeInfoView,
> {
    s.insert(count_closer(s, name_of(x), target), x)
}

/// The bucket of a contact: the number of leading bits its name shares with ours.
pub open spec fn bucket_of(our: Seq<u8>, n: NodeInfoView) -> int {
    common_leading_bits(our, name_of(n))
}

/// The contacts at `k - 1` and `k` fall into the same bucket.
pub open spec fn pair_at(s: Seq<NodeInfoView>, our: Seq<u8>, k: int) -> bool {
    bucket_of(our, s[k - 1]) == bucket_of(our, s[k])
}

/// The largest index in `GROUP_SIZE + 1 ..= k` whose contact shares a bucket with the contact
/// before it.
pub open spec fn last_pair_at_or_below(s: Seq<NodeInfoView>, our: Seq<u8>, k: int) -> Option<int>
    decreases k,
{
    if k <= GROUP_SIZE as int {
        None
    } else if pair_at(s, our, k) {
        Some(k)
    } else {
        last_pair_at_or_below(s, our, k - 1)
    }
}

/// The contact to drop when the table is over full: outside our close group, the furthest
/// contact of the furthest bucket holding more than `BUCKET_SIZE` contacts.
pub open spec fn removal_candidate(s: Seq<NodeInfoView>, our: Seq<u8>) -> Option<int> {
    last_pair_at_or_below(s, our, s.len() - 1)
}

/// The new name falls into a closer bucket than the removal candidate.
pub open spec fn better_than_candidate(s: Seq<NodeInfoView>, our: Seq<u8>, n: Seq<u8>) -> bool {
    match removal_candidate(s, our) {
        Some(k) => common_leading_bits(our, n) > bucket_of(our, s[k]),
        None => false,
    }
}

/// Whether a contact with name `n` would improve the table.
pub open spec fn want_to_add_spec(v: TableView, n: Seq<u8>) -> bool {
    if n == v.our_name || contains_name(v.nodes, n) {
        false
    } else if v.nodes.len() < OPTIMAL_TABLE_SIZE {
        true
    } else if closer(n, name_of(v.nodes[GROUP_SIZE - 1]), v.our_name) {
        true
    } else {
        better_than_candidate(v.nodes, v.our_name, n)
    }
}

/// The outcome of `add_node`: whether the contact was added, which one was dropped, and the
/// contacts afterwards.
pub open spec fn add_node_post(
    old: TableView,
    info: NodeInfoView,
    new: TableView,
    added: bool,
    dropped: Option<NodeInfoView>,
) -> bool {
    let n = name_of(info);
    let our = old.our_name;
    let s = old.nodes;
    &&& new.our_name == our
    &&& if n == our || contains_name(s, n) {
        !added && dropped is None && new.nodes == s
    } else if s.len() < OPTIMAL_TABLE_SIZE {
        added && dropped is None && new.nodes == sorted_insert(s, info, our)
    } else if closer(n, name_of(s[GROUP_SIZE - 1]), our) {
        let ins = sorted_insert(s, info, our);
        added && match removal_candidate(ins, our) {
            None => dropped is None && new.nodes == ins,
            Some(k) => dropped == Some(ins[k]) && new.nodes == ins.remove(k),
        }
    } else if better_than_candidate(s, our, n) {
        let k = removal_candidate(s, our)->0;
        added && dropped == Some(s[k]) && new.nodes == sorted_insert(s.remove(k), info, our)
    } else {
        !added && dropped is None && new.nodes == s
    }
}

/// The first index at or after `k` of a contact named `n`, or the length if none.
pub open spec fn index_of_name_from(s: Seq<NodeInfoView>, n: Seq<u8>, k: int) -> int
    decreases s.len() - k,
{
    if k >= s.len() {
        s.len() as int
    } else if name_of(s[k]) == n {
        k
    } else {
        index_of_name_from(s, n, k + 1)
    }
}

/// The first index of a contact named `n`, or the length if none.
pub open spec fn index_of_name(s: Seq<NodeInfoView>, n: Seq<u8>) -> int {
    index_of_name_from(s, n, 0)
}

/// The first index at or after `k` of a connection equal to `c`, or the length if none.
pub open spec fn index_of_connection_from(s: Seq<Connection>, c: Connection, k: int) -> int
    decreases s.len() - k,
{
    if k >= s.len() {
        s.len() as int
    } else if s[k] == c {
        k
    } else {
        index_of_connection_from(s, c, k + 1)
    }
}

/// The first index of a connection equal to `c`, or the length if none.
pub open spec fn index_of_connection(s: Seq<Connection>, c: Connection) -> int {
    index_of_connection_from(s, c, 0)
}

/// The first index at or after `k` of a contact holding connection `c`, or the length if none.
pub open spec fn index_of_holder_from(s: Seq<NodeInfoView>, c: Connection, k: int) -> int
    decreases s.len() - k,
{
    if k >= s.len() {
        s.len() as int
    } else if s[k].connections.contains(c) {
        k
    } else {
        index_of_holder_from(s, c, k + 1)
    }
}

/// The first index of a contact holding connection `c`, or the length if none.
pub open spec fn index_of_holder(s: Seq<NodeInfoView>, c: Connection) -> int {
    index_of_holder_from(s, c, 0)
}

/// `r` is the `k` contacts of `s` closest to `target` (all of them if fewer), closest first.
pub open spec fn closest_to(r: Seq<NodeInfoView>, s: Seq<NodeInfoView>, target: Seq<u8>, k: int) -> bool {
    &&& r.len() == if s.len() < k {
        s.len() as int
    } else {
        k
    }
    &&& sorted_by_closeness(r, target)
    &&& forall|i: int| 0 <= i < r.len() ==> s.contains(#[trigger] r[i])
    &&& forall|i: int, j: int|
        0 <= i < r.len() && 0 <= j < s.len() && !r.contains(s[j]) ==> closer(
            name_of(#[trigger] r[i]),
            name_of(#[trigger] s[j]),
            target,
        )
}

/// Our close group: the first `GROUP_SIZE` contacts (all of them if fewer).
pub open spec fn close_group_of(s: Seq<NodeInfoView>) -> Seq<NodeInfoView> {
    if s.len() < GROUP_SIZE {
        s
    } else {
        s.take(GROUP_SIZE as int)
    }
}

/// A name is close if no further from us than the furthest member of our close group, or if the
/// table holds fewer than `GROUP_SIZE` contacts.
pub open spec fn is_close_spec(v: TableView, n: Seq<u8>) -> bool {
    if v.nodes.len() < GROUP_SIZE {
        true
    } else {
        let furthest = name_of(v.nodes[GROUP_SIZE - 1]);
        closer(n, furthest, v.our_name) || n == furthest
    }
}

/// In a sorted sequence the contacts closer than a name form a prefix whose length is
/// `count_closer`.
proof fn lemma_count_closer(s: Seq<NodeInfoView>, n: Seq<u8>, t: Seq<u8>)
    requires
        sorted_by_closeness(s, t),
    ensures
        0 <= count_closer(s, n, t) <= s.len(),
        forall|i: int| 0 <= i < count_closer(s, n, t) ==> closer(name_of(#[trigger] s[i]), n, t),
        forall|i: int|
            count_closer(s, n, t) <= i < s.len() ==> !closer(name_of(#[trigger] s[i]), n, t),
    decreases s.len(),
{
    if s.len() > 0 {
        let p = s.drop_last();
        assert(sorted_by_closeness(p, t)) by {
            assert forall|i: int, j: int| 0 <= i < j < p.len() implies #[trigger] closer(
                name_of(p[i]),
                name_of(p[j]),
                t,
            ) by {
                assert(p[i] == s[i] && p[j] == s[j]);
            }
        }
        lemma_count_closer(p, n, t);
        let last = s.len() - 1;
        if closer(name_of(s[last]), n, t) {
            assert forall|i: int| 0 <= i < last implies closer(name_of(#[trigger] s[i]), n, t) by {
                assert(closer(name_of(s[i]), name_of(s[last]), t));
                lemma_closer_transitive(name_of(s[i]), name_of(s[last]), n, t);
                assert(p[i] == s[i]);
            }
        } else {
            assert forall|i: int| 0 <= i < count_closer(s, n, t) implies closer(
                name_of(#[trigger] s[i]),
                n,
                t,
            ) by {
                assert(p[i] == s[i]);
            }
            assert forall|i: int| count_closer(s, n, t) <= i < s.len() implies !closer(
                name_of(#[trigger] s[i]),
                n,
                t,
            ) by {
                if i < last {
                    assert(p[i] == s[i]);
                }
            }
        }
    }
}

/// Inserting a new name at its place keeps a sorted sequence sorted.
proof fn lemma_sorted_insert(s: Seq<NodeInfoView>, x: NodeInfoView, t: Seq<u8>)
    requires
        sorted_by_closeness(s, t),
        !contains_name(s, name_of(x)),
    ensures
        sorted_by_closeness(sorted_insert(s, x, t), t),
        sorted_insert(s, x, t).len() == s.len() + 1,
        0 <= count_closer(s, name_of(x), t) <= s.len(),
{
    lemma_count_closer(s, name_of(x), t);
    let p = count_closer(s, name_of(x), t);
    let r = sorted_insert(s, x, t);
    assert forall|i: int, j: int| 0 <= i < j < r.len() implies #[trigger] closer(
        name_of(r[i]),
        name_of(r[j]),
        t,
    ) by {
        if j < p {
            assert(r[i] == s[i] && r[j] == s[j]);
        } else if j == p {
            assert(r[i] == s[i]);
        } else if i < p {
            assert(r[i] == s[i] && r[j] == s[j - 1]);
            assert(closer(name_of(s[i]), name_of(s[j - 1]), t));
        } else if i == p {
            assert(r[j] == s[j - 1]);
            assert(!closer(name_of(s[j - 1]), name_of(x), t));
            assert(name_of(s[j - 1]) != name_of(x));
            lemma_closer_total(name_of(x), name_of(s[j - 1]), t);
        } else {
            assert(r[i] == s[i - 1] && r[j] == s[j - 1]);
        }
    }
}

/// Removing a contact keeps a sorted sequence sorted.
proof fn lemma_sorted_remove(s: Seq<NodeInfoView>, k: int, t: Seq<u8>)
    requires
        sorted_by_closeness(s, t),
        0 <= k < s.len(),
    ensures
        sorted_by_closeness(s.remove(k), t),
{
    let r = s.remove(k);
    assert forall|i: int, j: int| 0 <= i < j < r.len() implies #[trigger] closer(
        name_of(r[i]),
        name_of(r[j]),
        t,
    ) by {
        let i2 = if i < k {
            i
        } else {
            i + 1
        };
        let j2 = if j < k {
            j
        } else {
            j + 1
        };
        assert(r[i] == s[i2] && r[j] == s[j2]);
        assert(closer(name_of(s[i2]), name_of(s[j2]), t));
    }
}

proof fn lemma_last_pair_bounds(s: Seq<NodeInfoView>, our: Seq<u8>, k: int)
    ensures
        last_pair_at_or_below(s, our, k) matches Some(m) ==> GROUP_SIZE < m <= k,
    decreases k,
{
    if k > GROUP_SIZE as int && !pair_at(s, our, k) {
        lemma_last_pair_bounds(s, our, k - 1);
    }
}

/// The removal candidate, if any, is a contact outside our close group.
proof fn lemma_removal_candidate_bounds(s: Seq<NodeInfoView>, our: Seq<u8>)
    ensures
        removal_candidate(s, our) matches Some(m) ==> GROUP_SIZE < m < s.len(),
{
    lemma_last_pair_bounds(s, our, s.len() - 1);
}

/// The members of a sequence after an insertion: the new element and the old members.
proof fn lemma_insert_members(s: Seq<NodeInfoView>, p: int, x: NodeInfoView)
    requires
        0 <= p <= s.len(),
    ensures
        forall|y: NodeInfoView| #[trigger] s.insert(p, x).contains(y) <==> (y == x || s.contains(y)),
{
    let r = s.insert(p, x);
    assert forall|y: NodeInfoView| #[trigger] r.contains(y) <==> (y == x || s.contains(y)) by {
        if r.contains(y) {
            let i = choose|i: int| 0 <= i < r.len() && r[i] == y;
            if i < p {
                assert(s[i] == y);
            } else if i > p {
                assert(s[i - 1] == y);
            }
        }
        if s.contains(y) {
            let i = choose|i: int| 0 <= i < s.len() && s[i] == y;
            if i < p {
                assert(r[i] == y);
            } else {
                assert(r[i + 1] == y);
            }
        }
        if y == x {
            assert(r[p] == y);
        }
    }
}

/// Replacing a contact by one of the same name keeps a table well formed.
proof fn lemma_update_keeps_wf(s: Seq<NodeInfoView>, our: Seq<u8>, i: int, v: NodeInfoView)
    requires
        table_wf(TableView { our_name: our, nodes: s }),
        0 <= i < s.len(),
        name_of(v) == name_of(s[i]),
    ensures
        table_wf(TableView { our_name: our, nodes: s.update(i, v) }),
{
    let u = s.update(i, v);
    assert forall|a: int, b: int| 0 <= a < b < u.len() implies #[trigger] closer(
        name_of(u[a]),
        name_of(u[b]),
        our,
    ) by {
        assert(name_of(u[a]) == name_of(s[a]));
        assert(name_of(u[b]) == name_of(s[b]));
    }
    if contains_name(u, our) {
        let a = choose|a: int| 0 <= a < u.len() && name_of(#[trigger] u[a]) == our;
        assert(name_of(u[a]) == name_of(s[a]));
        assert(contains_name(s, our));
    }
}

/// Removing a contact keeps a table well formed.
proof fn lemma_remove_keeps_wf(s: Seq<NodeInfoView>, our: Seq<u8>, i: int)
    requires
        table_wf(TableView { our_name: our, nodes: s }),
        0 <= i < s.len(),
    ensures
        table_wf(TableView { our_name: our, nodes: s.remove(i) }),
{
    lemma_sorted_remove(s, i, our);
    let t = s.remove(i);
    if contains_name(t, our) {
        let a = choose|a: int| 0 <= a < t.len() && name_of(#[trigger] t[a]) == our;
        let a2 = if a < i {
            a
        } else {
            a + 1
        };
        assert(t[a] == s[a2]);
        assert(contains_name(s, our));
    }
}

/// A sorted sequence holds each name at most once.
proof fn lemma_sorted_unique(s: Seq<NodeInfoView>, t: Seq<u8>, i: int, j: int)
    requires
        sorted_by_closeness(s, t),
        0 <= i < s.len(),
        0 <= j < s.len(),
        name_of(s[i]) == name_of(s[j]),
    ensures
        i == j,
{
    if i < j {
        assert(closer(name_of(s[i]), name_of(s[j]), t));
        lemma_closer_irreflexive(name_of(s[i]), t);
    } else if j < i {
        assert(closer(name_of(s[j]), name_of(s[i]), t));
        lemma_closer_irreflexive(name_of(s[i]), t);
    }
}

proof fn lemma_index_of_name_from(s: Seq<NodeInfoView>, n: Seq<u8>, k: int)
    requires
        0 <= k <= s.len(),
    ensures
        k <= index_of_name_from(s, n, k) <= s.len(),
        index_of_name_from(s, n, k) < s.len() ==> name_of(s[index_of_name_from(s, n, k)]) == n,
        forall|m: int| k <= m < index_of_name_from(s, n, k) ==> name_of(#[trigger] s[m]) != n,
    decreases s.len() - k,
{
    if k < s.len() && name_of(s[k]) != n {
        lemma_index_of_name_from(s, n, k + 1);
    }
}

proof fn lemma_index_of_name(s: Seq<NodeInfoView>, n: Seq<u8>)
    ensures
        0 <= index_of_name(s, n) <= s.len(),
        index_of_name(s, n) < s.len() <==> contains_name(s, n),
        index_of_name(s, n) < s.len() ==> name_of(s[index_of_name(s, n)]) == n,
        forall|m: int| 0 <= m < index_of_name(s, n) ==> name_of(#[trigger] s[m]) != n,
{
    lemma_index_of_name_from(s, n, 0);
    if index_of_name(s, n) == s.len() {
        assert forall|m: int| 0 <= m < s.len() implies name_of(#[trigger] s[m]) != n by {}
    }
}

proof fn lemma_index_of_connection_from(s: Seq<Connection>, c: Connection, k: int)
    requires
        0 <= k <= s.len(),
    ensures
        k <= index_of_connection_from(s, c, k) <= s.len(),
        index_of_connection_from(s, c, k) < s.len() ==> s[index_of_connection_from(s, c, k)] == c,
        forall|m: int| k <= m < index_of_connection_from(s, c, k) ==> #[trigger] s[m] != c,
    decreases s.len() - k,
{
    if k < s.len() && s[k] != c {
        lemma_index_of_connection_from(s, c, k + 1);
    }
}

proof fn lemma_index_of_connection(s: Seq<Connection>, c: Connection)
    ensures
        0 <= index_of_connection(s, c) <= s.len(),
        index_of_connection(s, c) < s.len() <==> s.contains(c),
        index_of_connection(s, c) < s.len() ==> s[index_of_connection(s, c)] == c,
        forall|m: int| 0 <= m < index_of_connection(s, c) ==> #[trigger] s[m] != c,
{
    lemma_index_of_connection_from(s, c, 0);
}

proof fn lemma_index_of_holder_from(s: Seq<NodeInfoView>, c: Connection, k: int)
    requires
        0 <= k <= s.len(),
    ensures
        k <= index_of_holder_from(s, c, k) <= s.len(),
        index_of_holder_from(s, c, k) < s.len() ==> s[index_of_holder_from(
            s,
            c,
            k,
        )].connections.contains(c),
        forall|m: int|
            k <= m < index_of_holder_from(s, c, k) ==> !(#[trigger] s[m]).connections.contains(c),
    decreases s.len() - k,
{
    if k < s.len() && !s[k].connections.contains(c) {
        lemma_index_of_holder_from(s, c, k + 1);
    }
}

/// Copies a list of connections.
fn copy_connections(v: &Vec<Connection>) -> (r: Vec<Connection>)
    ensures
        r@ == v@,
{
    let mut r: Vec<Connection> = Vec::new();
    let mut i: usize = 0;
    while i < v.len()
        invariant
            0 <= i <= v.len(),
            r@ == v@.take(i as int),
        decreases v.len() - i,
    {
        r.push(v[i]);
        i = i + 1;
        assert(r@ =~= v@.take(i as int));
    }
    assert(r@ =~= v@);
    r
}

impl NodeInfo {
    /// Creates a contact from an identity and its connections.
    pub fn new(public_id: PublicId, connections: Vec<Connection>) -> (r: NodeInfo)
        ensures
            r@.public_id == public_id,
            r@.connections == connections@,
    {
        NodeInfo { public_id, connections }
    }

    /// The contact's name.
    pub fn name(&self) -> (r: NameType)
        ensures
            r@ == name_of(self@),
    {
        self.public_id.name()
    }

    /// A copy of this contact.
    pub fn duplicate(&self) -> (r: NodeInfo)
        ensures
            r@ == self@,
    {
        NodeInfo { public_id: self.public_id, connections: copy_connections(&self.connections) }
    }
}

impl Clone for NodeInfo {
    fn clone(&self) -> (r: NodeInfo)
        ensures
            r@ == self@,
    {
        self.duplicate()
    }
}

/// Inserts `x` into `v`, keeping `v` sorted by distance from `target`.
fn insert_sorted(v: &mut Vec<NodeInfo>, x: NodeInfo, target: &NameType)
    requires
        sorted_by_closeness(infos_view(old(v)@), target@),
        !contains_name(infos_view(old(v)@), name_of(x@)),
    ensures
        infos_view(final(v)@) == sorted_insert(infos_view(old(v)@), x@, target@),
        sorted_by_closeness(infos_view(final(v)@), target@),
{
    let ghost s = infos_view(v@);
    proof {
        lemma_count_closer(s, name_of(x@), target@);
        lemma_sorted_insert(s, x@, target@);
    }
    let x_name = x.name();
    let mut p: usize = 0;
    while p < v.len() && closer_to_target(&v[p].public_id.name(), &x_name, target)
        invariant
            0 <= p <= v.len(),
            v@.len() == s.len(),
            s == infos_view(v@),
            x_name@ == name_of(x@),
            forall|i: int| 0 <= i < p ==> closer(name_of(#[trigger] s[i]), name_of(x@), target@),
            0 <= count_closer(s, name_of(x@), target@) <= s.len(),
            forall|i: int|
                count_closer(s, name_of(x@), target@) <= i < s.len() ==> !closer(
                    name_of(#[trigger] s[i]),
                    name_of(x@),
                    target@,
                ),
        decreases v.len() - p,
    {
        proof {
            assert(s[p as int] == v@[p as int]@);
        }
        p = p + 1;
    }
    proof {
        if p < v.len() {
            assert(s[p as int] == v@[p as int]@);
        }
        if p < count_closer(s, name_of(x@), target@) {
            assert(closer(name_of(s[p as int]), name_of(x@), target@));
        }
        if p > count_closer(s, name_of(x@), target@) {
            let c = count_closer(s, name_of(x@), target@);
            assert(closer(name_of(s[c]), name_of(x@), target@));
        }
    }
    v.insert(p, x);
    proof {
        assert(infos_view(v@) =~= sorted_insert(s, x@, target@));
    }
}

/// The routing table of a node: the contacts it is connected to.
pub struct RoutingTable {
    nodes: Vec<NodeInfo>,
    our_name: NameType,
}

impl View for RoutingTable {
    type V = TableView;

    closed spec fn view(&self) -> TableView {
        TableView { our_name: self.our_name@, nodes: infos_view(self.nodes@) }
    }
}

impl RoutingTable {
    /// The table is well formed.
    pub open spec fn wf(&self) -> bool {
        table_wf(self@)
    }

    /// Creates an empty table for a node called `our_name`.
    pub fn new(our_name: &NameType) -> (r: RoutingTable)
        ensures
            r@.our_name == our_name@,
            r@.nodes == Seq::<NodeInfoView>::empty(),
            r.wf(),
    {
        let r = RoutingTable { nodes: Vec::new(), our_name: *our_name };
        assert(r@.nodes =~= Seq::<NodeInfoView>::empty());
        r
    }

    /// Number of contacts.
    pub fn len(&self) -> (r: usize)
        ensures
            r == self@.nodes.len(),
    {
        self.nodes.len()
    }

    /// Whether the table holds no contact.
    pub fn is_empty(&self) -> (r: bool)
        ensures
            r == (self@.nodes.len() == 0),
    {
        self.nodes.len() == 0
    }

    /// Our own name.
    pub fn our_name(&self) -> (r: &NameType)
        ensures
            r@ == self@.our_name,
    {
        &self.our_name
    }

    /// The contact at `index`, counting from the closest to us.
    pub fn node_at(&self, index: usize) -> (r: &NodeInfo)
        requires
            index < self@.nodes.len(),
        ensures
            r@ == self@.nodes[index as int],
    {
        &self.nodes[index]
    }

    /// Index of the first contact called `name`, or the length if none.
    fn position_of_name(&self, name: &NameType) -> (r: usize)
        ensures
            r == index_of_name(self@.nodes, name@),
    {
        let ghost s = self@.nodes;
        proof {
            lemma_index_of_name(s, name@);
        }
        let mut i: usize = 0;
        while i < self.nodes.len()
            invariant
                0 <= i <= self.nodes@.len(),
                s == infos_view(self.nodes@),
                forall|m: int| 0 <= m < i ==> name_of(#[trigger] s[m]) != name@,
                0 <= index_of_name(s, name@) <= s.len(),
                index_of_name(s, name@) < s.len() ==> name_of(s[index_of_name(s, name@)]) == name@,
                forall|m: int| 0 <= m < index_of_name(s, name@) ==> name_of(#[trigger] s[m]) != name@,
            decreases self.nodes@.len() - i,
        {
            proof {
                assert(s[i as int] == self.nodes@[i as int]@);
            }
            if names_equal(&self.nodes[i].public_id.name(), name) {
                proof {
                    if index_of_name(s, name@) > i {
                        assert(name_of(s[i as int]) != name@);
                    }
                }
                return i;
            }
            i = i + 1;
        }
        proof {
            if index_of_name(s, name@) < s.len() {
                let k = index_of_name(s, name@);
                assert(name_of(s[k]) != name@);
            }
        }
        i
    }

    /// Whether a contact called `name` is in the table.
    pub fn has_node(&self, name: &NameType) -> (r: bool)
        ensures
            r == contains_name(self@.nodes, name@),
    {
        proof {
            lemma_index_of_name(self@.nodes, name@);
        }
        self.position_of_name(name) < self.nodes.len()
    }

    /// The bucket `name` falls into: the number of leading bits it shares with our name.
    pub fn bucket_index(&self, name: &NameType) -> (r: usize)
        ensures
            r == common_leading_bits(self@.our_name, name@),
    {
        self.our_name.bucket_distance(name)
    }

    /// Outside our close group, the index of the furthest contact of the furthest bucket that
    /// holds more than `BUCKET_SIZE` contacts.
    fn find_candidate_for_removal(&self) -> (r: Option<usize>)
        requires
            self@.nodes.len() >= OPTIMAL_TABLE_SIZE,
        ensures
            match r {
                Some(k) => removal_candidate(self@.nodes, self@.our_name) == Some(k as int),
                None => removal_candidate(self@.nodes, self@.our_name) is None,
            },
    {
        let ghost s = self@.nodes;
        let ghost our = self@.our_name;
        let n = self.nodes.len();
        let mut number_in_bucket: usize = 0;
        let mut current_bucket: usize = 0;
        let mut counter: usize = n - 1;
        let mut furthest_in_this_bucket: usize = counter;
        let finish = GROUP_SIZE;
        while counter >= finish
            invariant
                n == self.nodes@.len(),
                n >= OPTIMAL_TABLE_SIZE,
                s == self@.nodes,
                our == self@.our_name,
                finish == GROUP_SIZE,
                finish - 1 <= counter <= n - 1,
                counter == n - 1 ==> number_in_bucket == 0 && furthest_in_this_bucket == n - 1,
                counter < n - 1 ==> {
                    &&& number_in_bucket == 1
                    &&& current_bucket == bucket_of(our, s[counter + 1])
                    &&& furthest_in_this_bucket == counter + 1
                    &&& removal_candidate(s, our) == last_pair_at_or_below(s, our, counter + 1)
                },
            decreases counter,
        {
            proof {
                assert(s[counter as int] == self.nodes@[counter as int]@);
            }
            let bucket_index = self.bucket_index(&self.nodes[counter].public_id.name());
            if bucket_index != current_bucket {
                current_bucket = bucket_index;
                number_in_bucket = 0;
                furthest_in_this_bucket = counter;
            }
            number_in_bucket = number_in_bucket + 1;
            if number_in_bucket > BUCKET_SIZE {
                proof {
                    assert(pair_at(s, our, counter + 1));
                }
                return Some(furthest_in_this_bucket);
            }
            counter = counter - 1;
        }
        None
    }

    /// True if `removal_node_index` is some contact and the new name falls into a closer bucket
    /// than that contact.
    fn new_node_is_better_than_existing(
        &self,
        new_node: &NameType,
        removal_node_index: Option<usize>,
    ) -> (r: bool)
        requires
            removal_node_index matches Some(k) ==> k < self@.nodes.len(),
        ensures
            r == match removal_node_index {
                Some(k) => common_leading_bits(self@.our_name, new_node@) > bucket_of(
                    self@.our_name,
                    self@.nodes[k as int],
                ),
                None => false,
            },
    {
        match removal_node_index {
            Some(index) => {
                let removal_node = &self.nodes[index];
                proof {
                    assert(self@.nodes[index as int] == self.nodes@[index as int]@);
                }
                self.bucket_index(new_node) > self.bucket_index(&removal_node.public_id.name())
            },
            None => false,
        }
    }

    /// Adds the contact, or merges its connections into the existing entry of the same name.
    fn push_back_then_sort(&mut self, node_info: NodeInfo)
        requires
            old(self).wf(),
            name_of(node_info@) != old(self)@.our_name,
        ensures
            final(self).wf(),
            final(self)@.our_name == old(self)@.our_name,
            !contains_name(old(self)@.nodes, name_of(node_info@)) ==> final(self)@.nodes
                == sorted_insert(old(self)@.nodes, node_info@, old(self)@.our_name),
            contains_name(old(self)@.nodes, name_of(node_info@)) ==> {
                let i = index_of_name(old(self)@.nodes, name_of(node_info@));
                final(self)@.nodes == old(self)@.nodes.update(
                    i,
                    NodeInfoView {
                        public_id: old(self)@.nodes[i].public_id,
                        connections: old(self)@.nodes[i].connections + node_info@.connections,
                    },
                )
            },
    {
        let ghost s = self@.nodes;
        let ghost our = self@.our_name;
        proof {
            lemma_index_of_name(s, name_of(node_info@));
        }
        let name = node_info.name();
        let i = self.position_of_name(&name);
        let mut nodes: Vec<NodeInfo> = Vec::new();
        std::mem::swap(&mut nodes, &mut self.nodes);
        if i < nodes.len() {
            let mut entry = nodes.remove(i);
            let mut extra = node_info.connections;
            entry.connections.append(&mut extra);
            nodes.insert(i, entry);
            proof {
                let u = s.update(
                    i as int,
                    NodeInfoView {
                        public_id: s[i as int].public_id,
                        connections: s[i as int].connections + node_info@.connections,
                    },
                );
                assert(infos_view(nodes@) =~= u);
                assert forall|a: int, b: int| 0 <= a < b < u.len() implies #[trigger] closer(
                    name_of(u[a]),
                    name_of(u[b]),
                    our,
                ) by {
                    assert(name_of(u[a]) == name_of(s[a]));
                    assert(name_of(u[b]) == name_of(s[b]));
                }
                assert forall|a: int| 0 <= a < u.len() implies name_of(#[trigger] u[a]) != our by {
                    assert(name_of(u[a]) == name_of(s[a]));
                    assert(!contains_name(s, our));
                    if name_of(s[a]) == our {
                        assert(contains_name(s, our));
                    }
                }
            }
        } else {
            insert_sorted(&mut nodes, node_info, &self.our_name);
            proof {
                lemma_count_closer(s, name_of(node_info@), our);
                let r = sorted_insert(s, node_info@, our);
                let p = count_closer(s, name_of(node_info@), our);
                assert forall|a: int| 0 <= a < r.len() implies name_of(#[trigger] r[a]) != our by {
                    if a < p {
                        assert(r[a] == s[a]);
                        if name_of(s[a]) == our {
                            assert(contains_name(s, our));
                        }
                    } else if a > p {
                        assert(r[a] == s[a - 1]);
                        if name_of(s[a - 1]) == our {
                            assert(contains_name(s, our));
                        }
                    }
                }
            }
        }
        self.nodes = nodes;
    }

    /// Removes and returns the contact at `index`.
    fn remove_at(&mut self, index: usize) -> (r: NodeInfo)
        requires
            old(self).wf(),
            index < old(self)@.nodes.len(),
        ensures
            final(self).wf(),
            final(self)@.our_name == old(self)@.our_name,
            final(self)@.nodes == old(self)@.nodes.remove(index as int),
            r@ == old(self)@.nodes[index as int],
    {
        let ghost s = self@.nodes;
        let ghost our = self@.our_name;
        let mut nodes: Vec<NodeInfo> = Vec::new();
        std::mem::swap(&mut nodes, &mut self.nodes);
        let r = nodes.remove(index);
        proof {
            assert(infos_view(nodes@) =~= s.remove(index as int));
            lemma_sorted_remove(s, index as int, our);
            let t = s.remove(index as int);
            assert forall|a: int| 0 <= a < t.len() implies name_of(#[trigger] t[a]) != our by {
                let a2 = if a < index {
                    a
                } else {
                    a + 1
                };
                assert(t[a] == s[a2]);
                if name_of(s[a2]) == our {
                    assert(contains_name(s, our));
                }
            }
        }
        self.nodes = nodes;
        r
    }

    /// Adds a contact.  Returns whether it was added and, if adding it made another contact be
    /// dropped, that contact.
    ///
    /// 1 - our own name, or a name already in the table, is not added;
    /// 2 - while the table holds fewer than `OPTIMAL_TABLE_SIZE` contacts, the contact is added;
    /// 3 - a contact within our close group (closer to us than the furthest of its `GROUP_SIZE`
    ///     members) is added, and then the removal candidate, if any, is dropped;
    /// 4 - otherwise, if there is a removal candidate and the new contact falls into a closer
    ///     bucket than it, the candidate is dropped and the new contact added.
    pub fn add_node(&mut self, their_info: NodeInfo) -> (r: (bool, Option<NodeInfo>))
        requires
            old(self).wf(),
        ensures
            final(self).wf(),
            add_node_post(
                old(self)@,
                their_info@,
                final(self)@,
                r.0,
                match r.1 {
                    Some(d) => Some(d@),
                    None => None,
                },
            ),
    {
        let ghost s = self@.nodes;
        let ghost our = self@.our_name;
        let ghost info = their_info@;
        let their_name = their_info.name();
        if names_equal(&self.our_name, &their_name) {
            return (false, None);
        }
        if self.has_node(&their_name) {
            return (false, None);
        }
        if self.nodes.len() < OPTIMAL_TABLE_SIZE {
            self.push_back_then_sort(their_info);
            return (true, None);
        }
        proof {
            assert(s[GROUP_SIZE - 1] == self.nodes@[GROUP_SIZE - 1]@);
        }
        if closer_to_target(&their_name, &self.nodes[GROUP_SIZE - 1].public_id.name(), &self.our_name) {
            self.push_back_then_sort(their_info);
            proof {
                lemma_sorted_insert(s, info, our);
                lemma_removal_candidate_bounds(self@.nodes, our);
            }
            let candidate = self.find_candidate_for_removal();
            return match candidate {
                None => (true, None),
                Some(node_index) => {
                    let removed = self.remove_at(node_index);
                    (true, Some(removed))
                },
            };
        }
        proof {
            lemma_removal_candidate_bounds(s, our);
        }
        let removal_node_index = self.find_candidate_for_removal();
        if self.new_node_is_better_than_existing(&their_name, removal_node_index) {
            match removal_node_index {
                Some(index) => {
                    let removal_node = self.remove_at(index);
                    proof {
                        let t = s.remove(index as int);
                        if contains_name(t, name_of(info)) {
                            let j = choose|j: int| 0 <= j < t.len() && name_of(#[trigger] t[j]) == name_of(info);
                            let j2 = if j < index {
                                j
                            } else {
                                j + 1
                            };
                            assert(t[j] == s[j2]);
                            assert(contains_name(s, name_of(info)));
                        }
                    }
                    self.push_back_then_sort(their_info);
                    return (true, Some(removal_node));
                },
                None => {
                    return (false, None);
                },
            }
        }
        (false, None)
    }

    /// Adds a connection to the entry called `their_name`.  Returns true if the connection was
    /// added; false if there is no such entry or it already holds the connection.
    pub fn add_connection(&mut self, their_name: &NameType, connection: Connection) -> (r: bool)
        requires
            old(self).wf(),
        ensures
            final(self).wf(),
            final(self)@.our_name == old(self)@.our_name,
            ({
                let s = old(self)@.nodes;
                let i = index_of_name(s, their_name@);
                if i < s.len() && !s[i].connections.contains(connection) {
                    r && final(self)@.nodes == s.update(
                        i,
                        NodeInfoView {
                            public_id: s[i].public_id,
                            connections: s[i].connections.push(connection),
                        },
                    )
                } else {
                    !r && final(self)@.nodes == s
                }
            }),
    {
        let ghost s = self@.nodes;
        let ghost our = self@.our_name;
        proof {
            lemma_index_of_name(s, their_name@);
        }
        let i = self.position_of_name(their_name);
        if i >= self.nodes.len() {
            return false;
        }
        proof {
            assert(s[i as int] == self.nodes@[i as int]@);
        }
        let mut j: usize = 0;
        while j < self.nodes[i].connections.len()
            invariant
                i < self.nodes@.len(),
                i == index_of_name(s, their_name@),
                s == self@.nodes,
                our == self@.our_name,
                self.wf(),
                s[i as int] == self.nodes@[i as int]@,
                0 <= j <= self.nodes@[i as int].connections@.len(),
                forall|m: int| 0 <= m < j ==> self.nodes@[i as int].connections@[m] != connection,
            decreases self.nodes@[i as int].connections@.len() - j,
        {
            if self.nodes[i].connections[j] == connection {
                proof {
                    assert(s[i as int].connections[j as int] == connection);
                }
                return false;
            }
            j = j + 1;
        }
        proof {
            assert(!s[i as int].connections.contains(connection));
        }
        let mut nodes: Vec<NodeInfo> = Vec::new();
        std::mem::swap(&mut nodes, &mut self.nodes);
        let mut entry = nodes.remove(i);
        entry.connections.push(connection);
        nodes.insert(i, entry);
        proof {
            let u = s.update(
                i as int,
                NodeInfoView {
                    public_id: s[i as int].public_id,
                    connections: s[i as int].connections.push(connection),
                },
            );
            assert(infos_view(nodes@) =~= u);
            assert forall|a: int, b: int| 0 <= a < b < u.len() implies #[trigger] closer(
                name_of(u[a]),
                name_of(u[b]),
                our,
            ) by {
                assert(name_of(u[a]) == name_of(s[a]));
                assert(name_of(u[b]) == name_of(s[b]));
            }
            assert forall|a: int| 0 <= a < u.len() implies name_of(#[trigger] u[a]) != our by {
                assert(name_of(u[a]) == name_of(s[a]));
                if name_of(s[a]) == our {
                    assert(contains_name(s, our));
                }
            }
        }
        self.nodes = nodes;
        true
    }

    /// Whether it is worth connecting to a peer called `their_name` in order to add it: the same
    /// test as `add_node` makes, against the last member of our close group.
    pub fn want_to_add(&self, their_name: &NameType) -> (r: bool)
        requires
            self.wf(),
        ensures
            r == want_to_add_spec(self@, their_name@),
    {
        let ghost s = self@.nodes;
        if names_equal(&self.our_name, their_name) || self.has_node(their_name) {
            return false;
        }
        if self.nodes.len() < OPTIMAL_TABLE_SIZE {
            return true;
        }
        let group_len = GROUP_SIZE - 1;
        proof {
            assert(s[group_len as int] == self.nodes@[group_len as int]@);
        }
        if closer_to_target(their_name, &self.nodes[group_len].public_id.name(), &self.our_name) {
            return true;
        }
        proof {
            lemma_removal_candidate_bounds(s, self@.our_name);
        }
        let candidate = self.find_candidate_for_removal();
        self.new_node_is_better_than_existing(their_name, candidate)
    }

    /// Removes the contact called `node_to_drop`, if there is one.
    pub fn drop_node(&mut self, node_to_drop: &NameType)
        requires
            old(self).wf(),
        ensures
            final(self).wf(),
            final(self)@.our_name == old(self)@.our_name,
            contains_name(old(self)@.nodes, node_to_drop@) ==> final(self)@.nodes == old(
                self,
            )@.nodes.remove(index_of_name(old(self)@.nodes, node_to_drop@)),
            !contains_name(old(self)@.nodes, node_to_drop@) ==> final(self)@.nodes == old(
                self,
            )@.nodes,
            !contains_name(final(self)@.nodes, node_to_drop@),
    {
        let ghost s = self@.nodes;
        let ghost our = self@.our_name;
        proof {
            lemma_index_of_name(s, node_to_drop@);
        }
        let i = self.position_of_name(node_to_drop);
        if i < self.nodes.len() {
            let _ = self.remove_at(i);
            proof {
                let t = s.remove(i as int);
                if contains_name(t, node_to_drop@) {
                    let j = choose|j: int| 0 <= j < t.len() && name_of(#[trigger] t[j]) == node_to_drop@;
                    let j2 = if j < i {
                        j
                    } else {
                        j + 1
                    };
                    assert(t[j] == s[j2]);
                    lemma_sorted_unique(s, our, j2, i as int);
                }
            }
        }
    }

    /// The index of the first contact holding `c` (the length if none) and, for that contact, the
    /// index of its first connection equal to `c`.
    fn find_connection(&self, c: &Connection) -> (r: (usize, usize))
        ensures
            r.0 == index_of_holder(self@.nodes, *c),
            r.0 < self@.nodes.len() ==> {
                &&& self@.nodes[r.0 as int].connections.contains(*c)
                &&& r.1 == index_of_connection(self@.nodes[r.0 as int].connections, *c)
                &&& r.1 < self@.nodes[r.0 as int].connections.len()
            },
    {
        let ghost s = self@.nodes;
        proof {
            lemma_index_of_holder_from(s, *c, 0);
        }
        let mut i: usize = 0;
        while i < self.nodes.len()
            invariant
                0 <= i <= self.nodes@.len(),
                s == self@.nodes,
                forall|m: int| 0 <= m < i ==> !(#[trigger] s[m]).connections.contains(*c),
                0 <= index_of_holder(s, *c) <= s.len(),
                index_of_holder(s, *c) < s.len() ==> s[index_of_holder(s, *c)].connections.contains(*c),
                forall|m: int| 0 <= m < index_of_holder(s, *c) ==> !(#[trigger] s[m]).connections.contains(*c),
            decreases self.nodes@.len() - i,
        {
            let ghost conns = s[i as int].connections;
            proof {
                assert(s[i as int] == self.nodes@[i as int]@);
                lemma_index_of_connection(conns, *c);
            }
            let mut j: usize = 0;
            while j < self.nodes[i].connections.len()
                invariant
                    i < self.nodes@.len(),
                    s == self@.nodes,
                    conns == self.nodes@[i as int].connections@,
                    conns == s[i as int].connections,
                    0 <= j <= conns.len(),
                    forall|m: int| 0 <= m < j ==> #[trigger] conns[m] != *c,
                    forall|m: int| 0 <= m < i ==> !(#[trigger] s[m]).connections.contains(*c),
                    0 <= index_of_holder(s, *c) <= s.len(),
                    index_of_holder(s, *c) < s.len() ==> s[index_of_holder(s, *c)].connections.contains(*c),
                    forall|m: int| 0 <= m < index_of_holder(s, *c) ==> !(#[trigger] s[m]).connections.contains(*c),
                    0 <= index_of_connection(conns, *c) <= conns.len(),
                    index_of_connection(conns, *c) < conns.len() ==> conns[index_of_connection(conns, *c)] == *c,
                    forall|m: int| 0 <= m < index_of_connection(conns, *c) ==> #[trigger] conns[m] != *c,
                decreases conns.len() - j,
            {
                if self.nodes[i].connections[j] == *c {
                    proof {
                        assert(conns[j as int] == *c);
                        assert(conns.contains(*c));
                        if index_of_holder(s, *c) > i {
                            assert(!s[i as int].connections.contains(*c));
                        }
                        if index_of_holder(s, *c) < i {
                            let k = index_of_holder(s, *c);
                            assert(s[k].connections.contains(*c));
                            assert(!s[k].connections.contains(*c));
                        }
                        if index_of_connection(conns, *c) < j {
                            let k = index_of_connection(conns, *c);
                            assert(conns[k] != *c);
                        }
                    }
                    return (i, j);
                }
                j = j + 1;
            }
            proof {
                if conns.contains(*c) {
                    let k = choose|k: int| 0 <= k < conns.len() && conns[k] == *c;
                    assert(conns[k] != *c);
                }
            }
            i = i + 1;
        }
        proof {
            if index_of_holder(s, *c) < s.len() {
                let k = index_of_holder(s, *c);
                assert(!s[k].connections.contains(*c));
            }
        }
        (i, 0)
    }

    /// Called when a connection is lost.  Removes it from the first contact holding it; if that
    /// contact then has no connection left, removes the contact and returns its name.
    pub fn drop_connection(&mut self, lost_connection: &Connection) -> (r: Option<NameType>)
        requires
            old(self).wf(),
        ensures
            final(self).wf(),
            final(self)@.our_name == old(self)@.our_name,
            ({
                let s = old(self)@.nodes;
                let i = index_of_holder(s, *lost_connection);
                if i < s.len() {
                    let conns = s[i].connections;
                    let left = conns.remove(index_of_connection(conns, *lost_connection));
                    if left.len() == 0 {
                        r matches Some(n) && n@ == name_of(s[i]) && final(self)@.nodes == s.remove(
                            i,
                        )
                    } else {
                        r is None && final(self)@.nodes == s.update(
                            i,
                            NodeInfoView { public_id: s[i].public_id, connections: left },
                        )
                    }
                } else {
                    r is None && final(self)@.nodes == s
                }
            }),
    {
        let ghost s = self@.nodes;
        let ghost our = self@.our_name;
        let c = *lost_connection;
        let (i, at) = self.find_connection(&c);
        if i >= self.nodes.len() {
            return None;
        }
        proof {
            assert(s[i as int] == self.nodes@[i as int]@);
        }
        let mut nodes: Vec<NodeInfo> = Vec::new();
        std::mem::swap(&mut nodes, &mut self.nodes);
        let mut entry = nodes.remove(i);
        let _ = entry.connections.remove(at);
        if entry.connections.len() == 0 {
            let name = entry.name();
            proof {
                assert(infos_view(nodes@) =~= s.remove(i as int));
                lemma_remove_keeps_wf(s, our, i as int);
            }
            self.nodes = nodes;
            return Some(name);
        }
        nodes.insert(i, entry);
        proof {
            let u = s.update(
                i as int,
                NodeInfoView {
                    public_id: s[i as int].public_id,
                    connections: s[i as int].connections.remove(at as int),
                },
            );
            assert(infos_view(nodes@) =~= u);
            lemma_update_keeps_wf(s, our, i as int, u[i as int]);
        }
        self.nodes = nodes;
        None
    }

    /// The contacts a message for `target` should be sent on to: our whole close group if
    /// `target` is close to us; otherwise the contact called `target` if there is one; otherwise
    /// the `PARALLELISM` contacts closest to `target`.
    pub fn target_nodes(&self, target: &NameType) -> (r: Vec<NodeInfo>)
        requires
            self.wf(),
        ensures
            is_close_spec(self@, target@) ==> infos_view(r@) == close_group_of(self@.nodes),
            !is_close_spec(self@, target@) && contains_name(self@.nodes, target@) ==> infos_view(
                r@,
            ) == seq![self@.nodes[index_of_name(self@.nodes, target@)]],
            !is_close_spec(self@, target@) && !contains_name(self@.nodes, target@) ==> closest_to(
                infos_view(r@),
                self@.nodes,
                target@,
                PARALLELISM as int,
            ),
    {
        let ghost s = self@.nodes;
        let ghost our = self@.our_name;
        if self.is_close(target) {
            return self.our_close_group();
        }
        proof {
            lemma_index_of_name(s, target@);
        }
        let i = self.position_of_name(target);
        if i < self.nodes.len() {
            let found = self.nodes[i].duplicate();
            let mut r: Vec<NodeInfo> = Vec::new();
            r.push(found);
            proof {
                assert(s[i as int] == self.nodes@[i as int]@);
                assert(infos_view(r@) =~= seq![s[i as int]]);
            }
            return r;
        }
        let mut sorted: Vec<NodeInfo> = Vec::new();
        let n = self.nodes.len();
        let mut k: usize = 0;
        while k < n
            invariant
                n == self.nodes@.len(),
                s == self@.nodes,
                our == self@.our_name,
                table_wf(self@),
                0 <= k <= n,
                sorted_by_closeness(infos_view(sorted@), target@),
                infos_view(sorted@).len() == k,
                forall|y: NodeInfoView| #[trigger]
                    infos_view(sorted@).contains(y) ==> s.take(k as int).contains(y),
                forall|m: int| 0 <= m < k ==> infos_view(sorted@).contains(#[trigger] s[m]),
            decreases n - k,
        {
            let ghost before = infos_view(sorted@);
            let x = self.nodes[k].duplicate();
            proof {
                assert(s[k as int] == self.nodes@[k as int]@);
                if contains_name(before, name_of(x@)) {
                    let j = choose|j: int| 0 <= j < before.len() && name_of(#[trigger] before[j]) == name_of(x@);
                    assert(before.contains(before[j]));
                    assert(s.take(k as int).contains(before[j]));
                    let m = choose|m: int| 0 <= m < k && s.take(k as int)[m] == before[j];
                    assert(s[m] == before[j]);
                    lemma_sorted_unique(s, our, m, k as int);
                }
                lemma_count_closer(before, name_of(x@), target@);
            }
            insert_sorted(&mut sorted, x, target);
            proof {
                let p = count_closer(before, name_of(x@), target@);
                lemma_insert_members(before, p, x@);
                assert forall|y: NodeInfoView| #[trigger]
                    infos_view(sorted@).contains(y) implies s.take(k + 1).contains(y) by {
                    if y == x@ {
                        assert(s.take(k + 1)[k as int] == y);
                    } else {
                        assert(before.contains(y));
                        let m = choose|m: int| 0 <= m < k && s.take(k as int)[m] == y;
                        assert(s.take(k + 1)[m] == y);
                    }
                }
                assert forall|m: int| 0 <= m < k + 1 implies infos_view(sorted@).contains(
                    #[trigger] s[m],
                ) by {
                    if m < k {
                        assert(before.contains(s[m]));
                    }
                }
            }
            k = k + 1;
        }
        let ghost all = infos_view(sorted@);
        sorted.truncate(PARALLELISM);
        proof {
            let res = infos_view(sorted@);
            assert(s.take(n as int) =~= s);
            if n >= PARALLELISM {
                assert(res =~= all.take(PARALLELISM as int));
            } else {
                assert(res =~= all);
            }
            assert forall|a: int| 0 <= a < res.len() implies s.contains(#[trigger] res[a]) by {
                assert(res[a] == all[a]);
                assert(all.contains(all[a]));
            }
            assert forall|a: int, b: int|
                0 <= a < res.len() && 0 <= b < s.len() && !res.contains(s[b]) implies closer(
                name_of(#[trigger] res[a]),
                name_of(#[trigger] s[b]),
                target@,
            ) by {
                assert(all.contains(s[b]));
                let m = choose|m: int| 0 <= m < all.len() && all[m] == s[b];
                if m < res.len() {
                    assert(res[m] == all[m]);
                }
                assert(res[a] == all[a]);
            }
            assert forall|a: int, b: int| 0 <= a < b < res.len() implies #[trigger] closer(
                name_of(res[a]),
                name_of(res[b]),
                target@,
            ) by {
                assert(res[a] == all[a] && res[b] == all[b]);
            }
        }
        sorted
    }

    /// The first `GROUP_SIZE` contacts (all of them if fewer): those closest to us, closest
    /// first.
    pub fn our_close_group(&self) -> (r: Vec<NodeInfo>)
        ensures
            infos_view(r@) == close_group_of(self@.nodes),
    {
        let mut r: Vec<NodeInfo> = Vec::new();
        let mut i: usize = 0;
        let n = if self.nodes.len() < GROUP_SIZE {
            self.nodes.len()
        } else {
            GROUP_SIZE
        };
        while i < n
            invariant
                0 <= i <= n,
                n <= self.nodes@.len(),
                n == if self.nodes@.len() < GROUP_SIZE {
                    self.nodes@.len()
                } else {
                    GROUP_SIZE as nat
                },
                infos_view(r@) == self@.nodes.take(i as int),
            decreases n - i,
        {
            let ghost before = r@;
            assert(infos_view(before).len() == before.len());
            let d = self.nodes[i].duplicate();
            r.push(d);
            proof {
                assert(self@.nodes[i as int] == self.nodes@[i as int]@);
                assert forall|k: int| 0 <= k <= i implies #[trigger] infos_view(r@)[k]
                    == self@.nodes.take(i + 1)[k] by {
                    if k < i {
                        assert(r@[k] == before[k]);
                        assert(infos_view(before)[k] == self@.nodes.take(i as int)[k]);
                    }
                }
            }
            i = i + 1;
            assert(infos_view(r@) =~= self@.nodes.take(i as int));
        }
        assert(infos_view(r@) =~= close_group_of(self@.nodes));
        r
    }

    /// Whether `name` is no further from us than the furthest member of our close group; every
    /// name is close while the table holds fewer than `GROUP_SIZE` contacts.
    pub fn is_close(&self, name: &NameType) -> (r: bool)
        ensures
            r == is_close_spec(self@, name@),
    {
        if self.nodes.len() < GROUP_SIZE {
            return true;
        }
        proof {
            assert(self@.nodes[GROUP_SIZE - 1] == self.nodes@[GROUP_SIZE - 1]@);
        }
        closer_to_target_or_equal(name, &self.nodes[GROUP_SIZE - 1].public_id.name(), &self.our_name)
    }
}

} // verus!

verus! {

/// The contact that was inserted can be found at its place.
proof fn lemma_sorted_insert_has(s: Seq<NodeInfoView>, x: NodeInfoView, t: Seq<u8>)
    requires
        sorted_by_closeness(s, t),
    ensures
        sorted_insert(s, x, t)[count_closer(s, name_of(x), t)] == x,
        contains_name(sorted_insert(s, x, t), name_of(x)),
{
    lemma_count_closer(s, name_of(x), t);
    let r = sorted_insert(s, x, t);
    let p = count_closer(s, name_of(x), t);
    assert(r[p] == x);
}

/// In a sorted sequence, a name strictly closer than the contact at `g` is placed at or before
/// `g`.
proof fn lemma_insert_position_bound(s: Seq<NodeInfoView>, n: Seq<u8>, t: Seq<u8>, g: int)
    requires
        sorted_by_closeness(s, t),
        0 <= g < s.len(),
        closer(n, name_of(s[g]), t),
    ensures
        count_closer(s, n, t) <= g,
{
    lemma_count_closer(s, n, t);
    if count_closer(s, n, t) > g {
        assert(closer(name_of(s[g]), n, t));
        lemma_closer_asymmetric(n, name_of(s[g]), t);
    }
}

/// A name occurs at one index of a sorted sequence, so it is gone once that index is removed.
proof fn lemma_removed_name_absent(s: Seq<NodeInfoView>, t: Seq<u8>, k: int)
    requires
        sorted_by_closeness(s, t),
        0 <= k < s.len(),
    ensures
        !contains_name(s.remove(k), name_of(s[k])),
{
    let r = s.remove(k);
    if contains_name(r, name_of(s[k])) {
        let j = choose|j: int| 0 <= j < r.len() && name_of(#[trigger] r[j]) == name_of(s[k]);
        let j2 = if j < k {
            j
        } else {
            j + 1
        };
        assert(r[j] == s[j2]);
        lemma_sorted_unique(s, t, j2, k);
    }
}

/// Law: a contact that `add_node` reports as added is in the table afterwards.
pub proof fn law_added_contact_is_present(
    old: TableView,
    info: NodeInfoView,
    new: TableView,
    dropped: Option<NodeInfoView>,
)
    requires
        table_wf(old),
        add_node_post(old, info, new, true, dropped),
    ensures
        contains_name(new.nodes, name_of(info)),
{
    let s = old.nodes;
    let our = old.our_name;
    let n = name_of(info);
    if s.len() < OPTIMAL_TABLE_SIZE {
        lemma_sorted_insert_has(s, info, our);
    } else if closer(n, name_of(s[GROUP_SIZE - 1]), our) {
        let ins = sorted_insert(s, info, our);
        lemma_sorted_insert_has(s, info, our);
        lemma_sorted_insert(s, info, our);
        match removal_candidate(ins, our) {
            None => {},
            Some(k) => {
                lemma_removal_candidate_bounds(ins, our);
                lemma_insert_position_bound(s, n, our, GROUP_SIZE - 1);
                let p = count_closer(s, n, our);
                assert(ins.remove(k)[p] == info);
            },
        }
    } else {
        let k = removal_candidate(s, our)->0;
        lemma_removal_candidate_bounds(s, our);
        lemma_sorted_remove(s, k, our);
        lemma_sorted_insert_has(s.remove(k), info, our);
    }
}

/// Law: the contact that `add_node` reports as dropped is no longer in the table.
pub proof fn law_dropped_contact_is_absent(
    old: TableView,
    info: NodeInfoView,
    new: TableView,
    added: bool,
    dropped: NodeInfoView,
)
    requires
        table_wf(old),
        add_node_post(old, info, new, added, Some(dropped)),
    ensures
        added,
        !contains_name(new.nodes, name_of(dropped)),
{
    let s = old.nodes;
    let our = old.our_name;
    let n = name_of(info);
    if s.len() >= OPTIMAL_TABLE_SIZE && closer(n, name_of(s[GROUP_SIZE - 1]), our) {
        let ins = sorted_insert(s, info, our);
        lemma_sorted_insert(s, info, our);
        lemma_removal_candidate_bounds(ins, our);
        let k = removal_candidate(ins, our)->0;
        lemma_removed_name_absent(ins, our, k);
    } else {
        let k = removal_candidate(s, our)->0;
        lemma_removal_candidate_bounds(s, our);
        lemma_removed_name_absent(s, our, k);
        lemma_sorted_remove(s, k, our);
        let t = s.remove(k);
        let r = sorted_insert(t, info, our);
        lemma_count_closer(t, n, our);
        let p = count_closer(t, n, our);
        if contains_name(r, name_of(dropped)) {
            let j = choose|j: int| 0 <= j < r.len() && name_of(#[trigger] r[j]) == name_of(dropped);
            if j < p {
                assert(r[j] == t[j]);
            } else if j > p {
                assert(r[j] == t[j - 1]);
            } else {
                assert(s.contains(s[k]));
                assert(name_of(s[k]) == n ==> contains_name(s, n));
            }
        }
    }
}

/// Law: a contact that `add_node` refuses leaves the table as it was, and nothing is dropped.
pub proof fn law_refused_contact_changes_nothing(
    old: TableView,
    info: NodeInfoView,
    new: TableView,
    dropped: Option<NodeInfoView>,
)
    requires
        table_wf(old),
        add_node_post(old, info, new, false, dropped),
    ensures
        new == old,
        dropped is None,
{
}

/// Law: `add_node` and `want_to_add` use the same check: a contact is added exactly when the
/// table wanted it.
pub proof fn law_add_node_adds_what_is_wanted(
    old: TableView,
    info: NodeInfoView,
    new: TableView,
    added: bool,
    dropped: Option<NodeInfoView>,
)
    requires
        table_wf(old),
        add_node_post(old, info, new, added, dropped),
    ensures
        added == want_to_add_spec(old, name_of(info)),
{
}

/// Law: adding a contact grows the table by one, unless another contact is dropped for it, in
/// which case the size is unchanged.
pub proof fn law_add_node_size(
    old: TableView,
    info: NodeInfoView,
    new: TableView,
    dropped: Option<NodeInfoView>,
)
    requires
        table_wf(old),
        add_node_post(old, info, new, true, dropped),
    ensures
        new.nodes.len() == old.nodes.len() + if dropped is None {
            1int
        } else {
            0int
        },
{
    let s = old.nodes;
    let our = old.our_name;
    let n = name_of(info);
    lemma_sorted_insert(s, info, our);
    if s.len() >= OPTIMAL_TABLE_SIZE && !closer(n, name_of(s[GROUP_SIZE - 1]), our) {
        let k = removal_candidate(s, our)->0;
        lemma_removal_candidate_bounds(s, our);
        lemma_sorted_remove(s, k, our);
        lemma_count_closer(s.remove(k), n, our);
    } else if s.len() >= OPTIMAL_TABLE_SIZE {
        lemma_removal_candidate_bounds(sorted_insert(s, info, our), our);
    }
}

} // verus!
