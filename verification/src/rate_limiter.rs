//! A leaky-bucket limit on what the clients of a proxy may send.
//!
//! Each client, known by its IP address, holds a share of `CAPACITY` bytes; what it sends is
//! charged to its share (get requests by the most they can fetch, other messages by their
//! size), and a message that would take a client over its fair share, or the bucket over its
//! capacity, is refused.  The bucket leaks over time: the leaked bytes are spread over the
//! clients, the least used first, each getting at most an equal part of what is left.
use crate::data::MAX_MUTABLE_DATA_SIZE_IN_BYTES;
use crate::error::RoutingError;
use vstd::prelude::*;

verus! {

/// The largest immutable data chunk: 1 MiB of content and 10 KiB for its encoding.
pub const MAX_IMMUTABLE_DATA_SIZE_IN_BYTES: u64 = 1024 * 1024 + 10 * 1024;

/// Maximum total bytes the rate limiter allows at any given moment: ten of the largest
/// immutable chunks.
pub const CAPACITY: u64 = 10588160;

/// The most clients one proxy serves.
pub const MAX_CLIENTS_PER_PROXY: u64 = CAPACITY / MAX_IMMUTABLE_DATA_SIZE_IN_BYTES;

/// A client's IP address as ordered values: the family (0 for IPv4, 1 for IPv6), then the
/// address as a number.
#[derive(Clone, Copy, Debug, PartialEq, Eq, Structural, Hash)]
pub struct ClientIp(pub u8, pub u128);

/// What the first part of a message turned out to be.
#[derive(Clone, Copy, Debug, PartialEq, Eq, Structural)]
pub enum PayloadKind {
    /// A request for immutable data.
    GetIData,
    /// Another get request (mutable data, account info, auth keys).
    OtherGet,
    /// A request that stores or changes data.
    Mutation,
    /// A refresh request, which clients may not send.
    Refresh,
    /// A response, which clients may not send.
    Response,
    /// A user message followed by stray bytes.
    ExtraBytes,
    /// Not a user message at all (possibly the start of a message in several parts).
    Unparsed,
}

/// A client and the bytes charged to it.
pub type Usage = (ClientIp, u64);

/// `a` comes before `b` when the entries are sorted by bytes used, then by address.
pub open spec fn usage_before(a: Usage, b: Usage) -> bool {
    a.1 < b.1 || (a.1 == b.1 && (a.0.0 < b.0.0 || (a.0.0 == b.0.0 && a.0.1 < b.0.1)))
}

/// The first index at or after `k` whose entry comes after `x`; the length if none does.
pub open spec fn insert_position(s: Seq<Usage>, x: Usage, k: int) -> int
    decreases s.len() - k,
{
    if k >= s.len() {
        s.len() as int
    } else if usage_before(x, s[k]) {
        k
    } else {
        insert_position(s, x, k + 1)
    }
}

/// The entries sorted by bytes used, then by address (each inserted after the ones before it).
pub open spec fn sort_by_usage(s: Seq<Usage>) -> Seq<Usage>
    decreases s.len(),
{
    if s.len() == 0 {
        Seq::empty()
    } else {
        let sorted = sort_by_usage(s.drop_last());
        sorted.insert(insert_position(sorted, s.last(), 0), s.last())
    }
}

/// The entries left after leaking `leaked` bytes over the sorted entries from `i` on: each in
/// turn is relieved of at most its equal part of what is still to leak, and kept if it still
/// uses something.
pub open spec fn leak_from(s: Seq<Usage>, leaked: int, i: int) -> Seq<Usage>
    decreases s.len() - i,
{
    if i >= s.len() {
        Seq::empty()
    } else {
        let share = leaked / (s.len() - i);
        let quota = if s[i].1 < share {
            s[i].1 as int
        } else {
            share
        };
        let rest = leak_from(s, leaked - quota, i + 1);
        if s[i].1 > quota {
            seq![(s[i].0, (s[i].1 - quota) as u64)] + rest
        } else {
            rest
        }
    }
}

/// The bytes charged to all clients.
pub open spec fn total_usage(s: Seq<Usage>) -> int
    decreases s.len(),
{
    if s.len() == 0 {
        0
    } else {
        s[0].1 + total_usage(s.drop_first())
    }
}

/// The bytes charged to `ip`: those of its entry, 0 if it has none.
pub open spec fn usage_of(s: Seq<Usage>, ip: ClientIp) -> int
    decreases s.len(),
{
    if s.len() == 0 {
        0
    } else if s[0].0 == ip {
        s[0].1 as int
    } else {
        usage_of(s.drop_first(), ip)
    }
}

/// No client has two entries.
pub open spec fn ips_distinct(s: Seq<Usage>) -> bool {
    forall|i: int, j: int| 0 <= i < s.len() && 0 <= j < s.len() && i != j ==> s[i].0 != s[j].0
}

/// What a message charges, or why it is refused: a single-part request is charged by what it
/// may fetch or by its size; a first part that is a refresh, a response, a user message with
/// stray bytes, a multi-part request or an unparsable single part is refused; later parts, and
/// an unparsable first part of several, are charged by their size.
pub open spec fn charge(kind: PayloadKind, part_count: u32, part_index: u32, payload_len: u64) -> Result<u64, RoutingError> {
    if part_index == 0 {
        match kind {
            PayloadKind::GetIData => if part_count > 1 {
                Err(RoutingError::InvalidMessage)
            } else {
                Ok(MAX_IMMUTABLE_DATA_SIZE_IN_BYTES)
            },
            PayloadKind::OtherGet => if part_count > 1 {
                Err(RoutingError::InvalidMessage)
            } else {
                Ok(MAX_MUTABLE_DATA_SIZE_IN_BYTES)
            },
            PayloadKind::Mutation => if part_count > 1 {
                Err(RoutingError::InvalidMessage)
            } else {
                Ok(payload_len)
            },
            PayloadKind::Refresh => Err(RoutingError::InvalidMessage),
            PayloadKind::Response => Err(RoutingError::InvalidMessage),
            PayloadKind::ExtraBytes => Err(RoutingError::InvalidMessage),
            PayloadKind::Unparsed => if part_count == 1 {
                Err(RoutingError::InvalidMessage)
            } else {
                Ok(payload_len)
            },
        }
    } else {
        Ok(payload_len)
    }
}

/// What a client may still send: its fair share of the capacity less what it uses, and no more
/// than the capacity left.
pub open spec fn allowance(total: int, used: int, online_clients: u64) -> int {
    let fair = CAPACITY / online_clients;
    let own = if fair >= used {
        fair - used
    } else {
        0
    };
    let left = CAPACITY - total;
    if left < own {
        left
    } else {
        own
    }
}

/// The entries with `ip` charged `used` bytes in all: its entry changed, or a new one added
/// last.
pub open spec fn with_usage(s: Seq<Usage>, ip: ClientIp, used: u64) -> Seq<Usage>
    decreases s.len(),
{
    if s.len() == 0 {
        seq![(ip, used)]
    } else if s[0].0 == ip {
        seq![(ip, used)] + s.drop_first()
    } else {
        seq![s[0]] + with_usage(s.drop_first(), ip, used)
    }
}

// ------------------------------------------------------------------------------------------
// Facts about the entries
// ------------------------------------------------------------------------------------------

/// Whether `ip` has an entry.
pub open spec fn contains_ip(s: Seq<Usage>, ip: ClientIp) -> bool {
    exists|j: int| 0 <= j < s.len() && s[j].0 == ip
}

proof fn lemma_usage_le_total(s: Seq<Usage>, ip: ClientIp)
    ensures
        0 <= usage_of(s, ip) <= total_usage(s),
        total_usage(s) >= 0,
    decreases s.len(),
{
    if s.len() > 0 {
        lemma_usage_le_total(s.drop_first(), ip);
    }
}

proof fn lemma_with_usage(s: Seq<Usage>, ip: ClientIp, used: u64)
    requires
        ips_distinct(s),
    ensures
        ips_distinct(with_usage(s, ip, used)),
        total_usage(with_usage(s, ip, used)) == total_usage(s) - usage_of(s, ip) + used,
        forall|k: ClientIp| #[trigger] contains_ip(with_usage(s, ip, used), k) ==> (k == ip || contains_ip(s, k)),
    decreases s.len(),
{
    let w = with_usage(s, ip, used);
    if s.len() == 0 {
        assert(w.drop_first() =~= Seq::<Usage>::empty());
        assert(total_usage(w) == w[0].1 + total_usage(w.drop_first()));
        assert forall|k: ClientIp| #[trigger] contains_ip(w, k) implies (k == ip || contains_ip(s, k)) by {
            let j = choose|j: int| 0 <= j < w.len() && w[j].0 == k;
        }
    } else {
        let d = s.drop_first();
        assert(ips_distinct(d)) by {
            assert forall|i: int, j: int| 0 <= i < d.len() && 0 <= j < d.len() && i != j implies d[i].0 != d[j].0 by {
                assert(d[i] == s[i + 1] && d[j] == s[j + 1]);
            }
        }
        if s[0].0 == ip {
            assert(w.drop_first() =~= d);
            assert(total_usage(w) == w[0].1 + total_usage(w.drop_first()));
            assert(ips_distinct(w)) by {
                assert forall|i: int, j: int| 0 <= i < w.len() && 0 <= j < w.len() && i != j implies w[i].0 != w[j].0 by {
                    if i > 0 {
                        assert(w[i] == s[i]);
                    }
                    if j > 0 {
                        assert(w[j] == s[j]);
                    }
                }
            }
            assert forall|k: ClientIp| #[trigger] contains_ip(w, k) implies (k == ip || contains_ip(s, k)) by {
                let j = choose|j: int| 0 <= j < w.len() && w[j].0 == k;
                if j > 0 {
                    assert(w[j] == s[j]);
                }
            }
        } else {
            lemma_with_usage(d, ip, used);
            let wd = with_usage(d, ip, used);
            assert(w.drop_first() =~= wd);
            assert(w[0] == s[0]);
            assert(total_usage(w) == w[0].1 + total_usage(w.drop_first()));
            assert(!contains_ip(wd, s[0].0)) by {
                if contains_ip(wd, s[0].0) {
                    if contains_ip(d, s[0].0) {
                        let jj = choose|jj: int| 0 <= jj < d.len() && d[jj].0 == s[0].0;
                        assert(s[jj + 1].0 == s[0].0);
                    }
                }
            }
            assert forall|k: ClientIp| #[trigger] contains_ip(w, k) implies (k == ip || contains_ip(s, k)) by {
                let j = choose|j: int| 0 <= j < w.len() && w[j].0 == k;
                if j == 0 {
                    assert(s[0].0 == k);
                } else {
                    assert(wd[j - 1] == w[j]);
                    assert(contains_ip(wd, k));
                    if k != ip {
                        let jj = choose|jj: int| 0 <= jj < d.len() && d[jj].0 == k;
                        assert(s[jj + 1].0 == k);
                    }
                }
            }
            assert(ips_distinct(w)) by {
                assert forall|i: int, j: int| 0 <= i < w.len() && 0 <= j < w.len() && i != j implies w[i].0 != w[j].0 by {
                    if i == 0 && j > 0 {
                        assert(w[j] == wd[j - 1]);
                        assert(contains_ip(wd, wd[j - 1].0));
                    } else if j == 0 && i > 0 {
                        assert(w[i] == wd[i - 1]);
                        assert(contains_ip(wd, wd[i - 1].0));
                    } else if i > 0 && j > 0 {
                        assert(w[i] == wd[i - 1] && w[j] == wd[j - 1]);
                    }
                }
            }
        }
    }
}

proof fn lemma_total_insert(s: Seq<Usage>, p: int, x: Usage)
    requires
        0 <= p <= s.len(),
    ensures
        total_usage(s.insert(p, x)) == total_usage(s) + x.1,
    decreases p,
{
    if p == 0 {
        assert(s.insert(0, x).drop_first() =~= s);
    } else {
        lemma_total_insert(s.drop_first(), p - 1, x);
        assert(s.insert(p, x).drop_first() =~= s.drop_first().insert(p - 1, x));
    }
}

proof fn lemma_total_push(s: Seq<Usage>, x: Usage)
    ensures
        total_usage(s.push(x)) == total_usage(s) + x.1,
{
    lemma_total_insert(s, s.len() as int, x);
    assert(s.insert(s.len() as int, x) =~= s.push(x));
}

proof fn lemma_insert_distinct(s: Seq<Usage>, p: int, x: Usage)
    requires
        0 <= p <= s.len(),
        ips_distinct(s),
        !contains_ip(s, x.0),
    ensures
        ips_distinct(s.insert(p, x)),
        forall|k: ClientIp| #[trigger] contains_ip(s.insert(p, x), k) == (contains_ip(s, k) || k == x.0),
{
    let t = s.insert(p, x);
    assert forall|i: int, j: int| 0 <= i < t.len() && 0 <= j < t.len() && i != j implies t[i].0 != t[j].0 by {
        if i != p && j != p {
            let si = if i < p { i } else { i - 1 };
            let sj = if j < p { j } else { j - 1 };
            assert(t[i] == s[si] && t[j] == s[sj]);
        } else if i == p {
            let sj = if j < p { j } else { j - 1 };
            assert(t[j] == s[sj]);
        } else {
            let si = if i < p { i } else { i - 1 };
            assert(t[i] == s[si]);
        }
    }
    assert forall|k: ClientIp| #[trigger] contains_ip(t, k) == (contains_ip(s, k) || k == x.0) by {
        if contains_ip(t, k) {
            let j = choose|j: int| 0 <= j < t.len() && t[j].0 == k;
            if j < p {
                assert(t[j] == s[j]);
            } else if j > p {
                assert(t[j] == s[j - 1]);
            }
        }
        if contains_ip(s, k) {
            let j = choose|j: int| 0 <= j < s.len() && s[j].0 == k;
            if j < p {
                assert(t[j] == s[j]);
            } else {
                assert(t[j + 1] == s[j]);
            }
        }
        if k == x.0 {
            assert(t[p] == x);
        }
    }
}

/// Sorting keeps the entries: the same total and the same clients, each once.
proof fn lemma_sort_by_usage(s: Seq<Usage>)
    requires
        ips_distinct(s),
    ensures
        total_usage(sort_by_usage(s)) == total_usage(s),
        sort_by_usage(s).len() == s.len(),
        ips_distinct(sort_by_usage(s)),
        forall|k: ClientIp| #[trigger] contains_ip(sort_by_usage(s), k) == contains_ip(s, k),
    decreases s.len(),
{
    if s.len() > 0 {
        let d = s.drop_last();
        let x = s.last();
        assert(ips_distinct(d)) by {
            assert forall|i: int, j: int| 0 <= i < d.len() && 0 <= j < d.len() && i != j implies d[i].0 != d[j].0 by {
                assert(d[i] == s[i] && d[j] == s[j]);
            }
        }
        lemma_sort_by_usage(d);
        let sd = sort_by_usage(d);
        let p = insert_position(sd, x, 0);
        lemma_insert_position_bound(sd, x, 0);
        assert(!contains_ip(d, x.0)) by {
            if contains_ip(d, x.0) {
                let j = choose|j: int| 0 <= j < d.len() && d[j].0 == x.0;
                assert(s[j].0 == s[s.len() - 1].0);
            }
        }
        lemma_insert_distinct(sd, p, x);
        lemma_total_insert(sd, p, x);
        lemma_total_push(d, x);
        assert(d.push(x) =~= s);
        assert forall|k: ClientIp| #[trigger] contains_ip(s, k) == (contains_ip(d, k) || k == x.0) by {
            if contains_ip(s, k) {
                let j = choose|j: int| 0 <= j < s.len() && s[j].0 == k;
                if j < d.len() {
                    assert(d[j] == s[j]);
                }
            }
            if contains_ip(d, k) {
                let j = choose|j: int| 0 <= j < d.len() && d[j].0 == k;
                assert(s[j] == d[j]);
            }
            if k == x.0 {
                assert(s[s.len() - 1] == x);
            }
        }
    } else {
        assert forall|k: ClientIp| #[trigger] contains_ip(sort_by_usage(s), k) == contains_ip(s, k) by {}
    }
}

proof fn lemma_insert_position_bound(s: Seq<Usage>, x: Usage, k: int)
    requires
        0 <= k <= s.len(),
    ensures
        k <= insert_position(s, x, k) <= s.len(),
    decreases s.len() - k,
{
    if k < s.len() {
        lemma_insert_position_bound(s, x, k + 1);
    }
}

/// Leaking never charges more than before, and keeps each client at most once, among those
/// it started with.
proof fn lemma_leak_from(s: Seq<Usage>, leaked: int, i: int)
    requires
        ips_distinct(s),
        0 <= i <= s.len(),
        leaked >= 0,
    ensures
        total_usage(leak_from(s, leaked, i)) <= total_usage(s.skip(i)),
        ips_distinct(leak_from(s, leaked, i)),
        forall|k: ClientIp| #[trigger] contains_ip(leak_from(s, leaked, i), k) ==> exists|m: int|
            i <= m < s.len() && s[m].0 == k,
    decreases s.len() - i,
{
    let l = leak_from(s, leaked, i);
    if i >= s.len() {
        assert(s.skip(i) =~= Seq::<Usage>::empty());
        assert forall|k: ClientIp| #[trigger] contains_ip(l, k) implies exists|m: int|
            i <= m < s.len() && s[m].0 == k by {}
    } else {
        let n = s.len() - i;
        let share = leaked / n;
        assert(0 <= share <= leaked) by (nonlinear_arith)
            requires
                share == leaked / n,
                n >= 1,
                leaked >= 0,
        ;
        let quota = if s[i].1 < share {
            s[i].1 as int
        } else {
            share
        };
        lemma_leak_from(s, leaked - quota, i + 1);
        let rest = leak_from(s, leaked - quota, i + 1);
        lemma_total_skip_bound_any(s, i);
        if s[i].1 > quota {
            let y = (s[i].0, (s[i].1 - quota) as u64);
            assert(l == seq![y] + rest);
            assert((seq![y] + rest).drop_first() =~= rest);
            assert(!contains_ip(rest, y.0)) by {
                if contains_ip(rest, y.0) {
                    let m = choose|m: int| i + 1 <= m < s.len() && s[m].0 == y.0;
                    assert(s[m].0 == s[i].0);
                }
            }
            assert forall|a: int, b: int| 0 <= a < l.len() && 0 <= b < l.len() && a != b implies l[a].0 != l[b].0 by {
                if a == 0 && b > 0 {
                    assert(l[b] == rest[b - 1]);
                    assert(contains_ip(rest, rest[b - 1].0));
                } else if b == 0 && a > 0 {
                    assert(l[a] == rest[a - 1]);
                    assert(contains_ip(rest, rest[a - 1].0));
                } else if a > 0 && b > 0 {
                    assert(l[a] == rest[a - 1] && l[b] == rest[b - 1]);
                }
            }
            assert forall|k: ClientIp| #[trigger] contains_ip(l, k) implies exists|m: int|
                i <= m < s.len() && s[m].0 == k by {
                let j = choose|j: int| 0 <= j < l.len() && l[j].0 == k;
                if j > 0 {
                    assert(l[j] == rest[j - 1]);
                    assert(contains_ip(rest, k));
                    let m = choose|m: int| i + 1 <= m < s.len() && s[m].0 == k;
                } else {
                    assert(s[i].0 == k);
                }
            }
        } else {
            assert(l == rest);
            assert forall|k: ClientIp| #[trigger] contains_ip(l, k) implies exists|m: int|
                i <= m < s.len() && s[m].0 == k by {
                let m = choose|m: int| i + 1 <= m < s.len() && s[m].0 == k;
            }
        }
    }
}

proof fn lemma_total_skip_bound_any(s: Seq<Usage>, i: int)
    requires
        0 <= i < s.len(),
    ensures
        total_usage(s.skip(i)) == s[i].1 + total_usage(s.skip(i + 1)),
{
    assert(s.skip(i).drop_first() =~= s.skip(i + 1));
}

/// Entries in order: none comes before an earlier one.
pub open spec fn usage_ordered(s: Seq<Usage>) -> bool {
    forall|i: int, j: int| 0 <= i < j < s.len() ==> !usage_before(#[trigger] s[j], #[trigger] s[i])
}

proof fn lemma_insert_keeps_order(s: Seq<Usage>, x: Usage, k: int)
    requires
        usage_ordered(s),
        0 <= k <= s.len(),
        forall|m: int| 0 <= m < k ==> !usage_before(x, #[trigger] s[m]),
    ensures
        usage_ordered(s.insert(insert_position(s, x, k), x)),
    decreases s.len() - k,
{
    if k < s.len() && !usage_before(x, s[k]) {
        lemma_insert_keeps_order(s, x, k + 1);
    } else {
        let p = k;
        assert(insert_position(s, x, k) == p);
        let t = s.insert(p, x);
        assert forall|i: int, j: int| 0 <= i < j < t.len() implies !usage_before(#[trigger] t[j], #[trigger] t[i]) by {
            if j < p {
                assert(t[i] == s[i] && t[j] == s[j]);
            } else if j == p {
                assert(t[i] == s[i]);
            } else if i == p {
                assert(t[j] == s[j - 1]);
                if j - 1 > p {
                    assert(!usage_before(s[j - 1], s[p]));
                }
            } else if i < p {
                assert(t[i] == s[i] && t[j] == s[j - 1]);
            } else {
                assert(t[i] == s[i - 1] && t[j] == s[j - 1]);
            }
        }
    }
}

proof fn lemma_sort_ordered(s: Seq<Usage>)
    ensures
        usage_ordered(sort_by_usage(s)),
    decreases s.len(),
{
    if s.len() > 0 {
        lemma_sort_ordered(s.drop_last());
        lemma_insert_keeps_order(sort_by_usage(s.drop_last()), s.last(), 0);
    }
}

/// Law: the leak takes the clients from the least used up: in the order it takes them, the
/// bytes charged never decrease, and clients charged alike come in address order.
pub proof fn law_leak_takes_least_used_first(s: Seq<Usage>)
    ensures
        forall|i: int, j: int|
            0 <= i < j < sort_by_usage(s).len() ==> #[trigger] sort_by_usage(s)[i].1 <= #[trigger] sort_by_usage(s)[j].1,
        forall|i: int, j: int|
            0 <= i < j < sort_by_usage(s).len() && #[trigger] sort_by_usage(s)[i].1 == #[trigger] sort_by_usage(s)[j].1
                ==> !(sort_by_usage(s)[j].0.0 < sort_by_usage(s)[i].0.0 || (sort_by_usage(s)[j].0.0
                == sort_by_usage(s)[i].0.0 && sort_by_usage(s)[j].0.1 < sort_by_usage(s)[i].0.1)),
{
    lemma_sort_ordered(s);
    let t = sort_by_usage(s);
    assert forall|i: int, j: int| 0 <= i < j < t.len() implies #[trigger] t[i].1 <= #[trigger] t[j].1 by {
        assert(!usage_before(t[j], t[i]));
    }
    assert forall|i: int, j: int| 0 <= i < j < t.len() && #[trigger] t[i].1 == #[trigger] t[j].1 implies !(t[j].0.0
        < t[i].0.0 || (t[j].0.0 == t[i].0.0 && t[j].0.1 < t[i].0.1)) by {
        assert(!usage_before(t[j], t[i]));
    }
}

proof fn lemma_sort_total(s: Seq<Usage>)
    ensures
        total_usage(sort_by_usage(s)) == total_usage(s),
    decreases s.len(),
{
    if s.len() > 0 {
        let d = s.drop_last();
        lemma_sort_total(d);
        let sd = sort_by_usage(d);
        lemma_insert_position_bound(sd, s.last(), 0);
        lemma_total_insert(sd, insert_position(sd, s.last(), 0), s.last());
        lemma_total_push(d, s.last());
        assert(d.push(s.last()) =~= s);
    }
}

/// Every entry from `k` on uses at least `m`, so together they use at least `m` each.
proof fn lemma_total_lower_bound(t: Seq<Usage>, k: int, m: int)
    requires
        0 <= k <= t.len(),
        m >= 0,
        forall|j: int| k <= j < t.len() ==> #[trigger] t[j].1 >= m,
    ensures
        total_usage(t.skip(k)) >= (t.len() - k) * m,
    decreases t.len() - k,
{
    if k == t.len() {
        assert(t.skip(k) =~= Seq::<Usage>::empty());
    } else {
        lemma_total_lower_bound(t, k + 1, m);
        lemma_total_skip_bound_any(t, k);
        let n = t.len() - k;
        assert((n - 1) * m + m == n * m) by (nonlinear_arith);
    }
}

/// Over entries in order of use, leaking no more than they use together releases all of it.
proof fn lemma_leak_releases(t: Seq<Usage>, leaked: int, i: int)
    requires
        forall|a: int, b: int| 0 <= a < b < t.len() ==> #[trigger] t[a].1 <= #[trigger] t[b].1,
        0 <= i <= t.len(),
        0 <= leaked <= total_usage(t.skip(i)),
    ensures
        total_usage(leak_from(t, leaked, i)) == total_usage(t.skip(i)) - leaked,
    decreases t.len() - i,
{
    if i == t.len() {
        assert(t.skip(i) =~= Seq::<Usage>::empty());
    } else {
        let n = t.len() - i;
        let share = leaked / n;
        let r = leaked % n;
        assert(leaked == n * share + r && 0 <= r < n && 0 <= share <= leaked) by (nonlinear_arith)
            requires
                n >= 1,
                leaked >= 0,
                share == leaked / n,
                r == leaked % n,
        ;
        let u = t[i].1 as int;
        let quota = if u < share {
            u
        } else {
            share
        };
        lemma_total_skip_bound_any(t, i);
        let t1 = total_usage(t.skip(i + 1));
        if u > share {
            assert forall|j: int| i + 1 <= j < t.len() implies #[trigger] t[j].1 >= share + 1 by {
                assert(t[i].1 <= t[j].1);
            }
            lemma_total_lower_bound(t, i + 1, share + 1);
            assert((n - 1) * (share + 1) == (n - 1) * share + n - 1) by (nonlinear_arith);
            assert(n * share == (n - 1) * share + share) by (nonlinear_arith);
        }
        lemma_leak_releases(t, leaked - quota, i + 1);
        let rest = leak_from(t, leaked - quota, i + 1);
        if u > quota {
            let y = (t[i].0, (u - quota) as u64);
            assert((seq![y] + rest).drop_first() =~= rest);
        }
    }
}

/// Law: the leak releases what leaked: when no more leaked than the clients use together, the
/// charges go down by exactly the leaked amount (a client that needs less than its equal part
/// hands the rest on to the clients that use more).
pub proof fn law_leak_releases_all(s: Seq<Usage>, leaked: int)
    requires
        0 <= leaked <= total_usage(s),
    ensures
        total_usage(leak_from(sort_by_usage(s), leaked, 0)) == total_usage(s) - leaked,
{
    law_leak_takes_least_used_first(s);
    lemma_sort_total(s);
    let t = sort_by_usage(s);
    assert(t.skip(0) =~= t);
    lemma_leak_releases(t, leaked, 0);
}

// ------------------------------------------------------------------------------------------
// The rate limiter
// ------------------------------------------------------------------------------------------

/// Bytes charged to each client.
pub struct RateLimiter {
    used: Vec<Usage>,
}

impl RateLimiter {
    /// The entries, in the order held.
    pub closed spec fn usage(&self) -> Seq<Usage> {
        self.used@
    }

    /// Each client has at most one entry, and no more than the capacity is charged.
    pub closed spec fn wf(&self) -> bool {
        &&& ips_distinct(self.used@)
        &&& total_usage(self.used@) <= CAPACITY
    }

    /// Law: every operation keeps the limiter well formed, so no more than `CAPACITY` bytes are
    /// ever charged, and no client has two entries.
    pub proof fn law_capacity_is_kept(&self)
        requires
            self.wf(),
        ensures
            total_usage(self.usage()) <= CAPACITY,
            ips_distinct(self.usage()),
    {
    }

    /// A rate limiter that charges nobody.
    pub fn new() -> (r: RateLimiter)
        ensures
            r.wf(),
            r.usage() == Seq::<Usage>::empty(),
    {
        RateLimiter { used: Vec::new() }
    }

    /// The bytes charged to `ip`.
    pub fn usage_of(&self, ip: ClientIp) -> (r: u64)
        requires
            self.wf(),
        ensures
            r == usage_of(self.usage(), ip),
    {
        let ghost s = self.used@;
        let mut i: usize = 0;
        assert(s.skip(0) =~= s);
        while i < self.used.len()
            invariant
                0 <= i <= s.len(),
                s == self.used@,
                total_usage(s) <= CAPACITY,
                usage_of(s, ip) == usage_of(s.skip(i as int), ip),
            decreases s.len() - i,
        {
            proof {
                assert(s.skip(i as int).drop_first() =~= s.skip(i + 1));
                assert(s.skip(i as int)[0] == s[i as int]);
                lemma_usage_le_total(s, ip);
            }
            if self.used[i].0 == ip {
                return self.used[i].1;
            }
            i = i + 1;
        }
        0
    }

    /// The bytes charged to all clients.
    pub fn total_used(&self) -> (r: u64)
        requires
            self.wf(),
        ensures
            r == total_usage(self.usage()),
    {
        let ghost s = self.used@;
        let mut total: u64 = 0;
        let mut i: usize = self.used.len();
        assert(s.skip(s.len() as int) =~= Seq::<Usage>::empty());
        while i > 0
            invariant
                0 <= i <= s.len(),
                s == self.used@,
                total_usage(s) <= CAPACITY,
                total == total_usage(s.skip(i as int)),
            decreases i,
        {
            i = i - 1;
            proof {
                assert(s.skip(i as int).drop_first() =~= s.skip(i + 1));
                assert(s.skip(i as int)[0] == s[i as int]);
                lemma_total_skip_bound(s, i as int);
            }
            total = total + self.used[i].1;
        }
        proof {
            assert(s.skip(0) =~= s);
        }
        total
    }

    /// Spreads `leaked_units` bytes over the clients, the least used first (ties by address):
    /// each is relieved of what it uses or of an equal part of what is still to leak,
    /// whichever is less, and drops out once it uses nothing.
    pub fn update(&mut self, leaked_units: u64)
        requires
            old(self).wf(),
        ensures
            final(self).wf(),
            final(self).usage() == leak_from(sort_by_usage(old(self).usage()), leaked_units as int, 0),
    {
        let ghost s = self.used@;
        let sorted = self.sorted_usage();
        let ghost t = sorted@;
        proof {
            lemma_sort_by_usage(s);
            lemma_leak_from(t, leaked_units as int, 0);
            assert(t.skip(0) =~= t);
        }
        let n = sorted.len();
        let mut out: Vec<Usage> = Vec::new();
        let mut left: u64 = leaked_units;
        let mut i: usize = 0;
        while i < n
            invariant
                n == t.len(),
                t == sorted@,
                0 <= i <= n,
                left <= leaked_units,
                out@ + leak_from(t, left as int, i as int) == leak_from(t, leaked_units as int, 0),
            decreases n - i,
        {
            let (ip, used) = sorted[i];
            let share = left / ((n - i) as u64);
            let quota = if used < share {
                used
            } else {
                share
            };
            proof {
                assert(share <= left) by (nonlinear_arith)
                    requires
                        share == left / ((n - i) as u64),
                        n - i >= 1,
                ;
            }
            let ghost rest = leak_from(t, (left - quota) as int, i + 1);
            if used > quota {
                proof {
                    assert(leak_from(t, left as int, i as int) == seq![(ip, (used - quota) as u64)] + rest);
                }
                out.push((ip, used - quota));
                proof {
                    assert(out@ + rest =~= (out@.drop_last() + seq![(ip, (used - quota) as u64)]) + rest);
                }
            } else {
                proof {
                    assert(leak_from(t, left as int, i as int) == rest);
                }
            }
            left = left - quota;
            i = i + 1;
        }
        proof {
            assert(out@ =~= out@ + leak_from(t, left as int, n as int));
        }
        self.used = out;
    }

    /// The entries sorted by bytes used, then by address.
    fn sorted_usage(&self) -> (r: Vec<Usage>)
        ensures
            r@ == sort_by_usage(self.usage()),
    {
        let ghost s = self.used@;
        let mut out: Vec<Usage> = Vec::new();
        let mut i: usize = 0;
        while i < self.used.len()
            invariant
                0 <= i <= s.len(),
                s == self.used@,
                out@ == sort_by_usage(s.take(i as int)),
            decreases s.len() - i,
        {
            let x = self.used[i];
            let mut p: usize = 0;
            while p < out.len() && !(x.1 < out[p].1 || (x.1 == out[p].1 && (x.0.0 < out[p].0.0 || (x.0.0
                == out[p].0.0 && x.0.1 < out[p].0.1))))
                invariant
                    0 <= p <= out@.len(),
                    insert_position(out@, x, 0) == insert_position(out@, x, p as int),
                decreases out@.len() - p,
            {
                p = p + 1;
            }
            proof {
                let ti = s.take(i + 1);
                assert(ti.drop_last() =~= s.take(i as int));
                assert(ti.last() == x);
            }
            out.insert(p, x);
            i = i + 1;
        }
        proof {
            assert(s.take(s.len() as int) =~= s);
        }
        out
    }

    /// Takes a message part from `client_ip`, after leaking `leaked_units` bytes: charges what
    /// the message costs (see `charge`) and answers it, or refuses it as invalid, or refuses it
    /// with the message's `hash` when the client may not send that much now.
    pub fn add_message(
        &mut self,
        leaked_units: u64,
        online_clients: u64,
        client_ip: ClientIp,
        hash: &[u8; 32],
        part_count: u32,
        part_index: u32,
        kind: PayloadKind,
        payload_len: u64,
    ) -> (r: Result<u64, RoutingError>)
        requires
            old(self).wf(),
            online_clients > 0,
        ensures
            final(self).wf(),
            ({
                let leaked = leak_from(sort_by_usage(old(self).usage()), leaked_units as int, 0);
                match charge(kind, part_count, part_index, payload_len) {
                    Err(e) => r == Err::<u64, RoutingError>(e) && final(self).usage() == leaked,
                    Ok(bytes) => if bytes > allowance(
                        total_usage(leaked),
                        usage_of(leaked, client_ip),
                        online_clients,
                    ) {
                        r == Err::<u64, RoutingError>(RoutingError::ExceedsRateLimit(*hash))
                            && final(self).usage() == leaked
                    } else {
                        r == Ok::<u64, RoutingError>(bytes) && final(self).usage() == with_usage(
                            leaked,
                            client_ip,
                            (usage_of(leaked, client_ip) + bytes) as u64,
                        )
                    },
                }
            }),
    {
        self.update(leaked_units);
        let total_used = self.total_used();
        let used = self.usage_of(client_ip);
        proof {
            lemma_usage_le_total(self.used@, client_ip);
        }
        let fair = CAPACITY / online_clients;
        let own = if fair >= used {
            fair - used
        } else {
            0
        };
        let left = CAPACITY - total_used;
        let allowance = if left < own {
            left
        } else {
            own
        };
        let bytes_to_add = if part_index == 0 {
            match kind {
                PayloadKind::GetIData => {
                    if part_count > 1 {
                        return Err(RoutingError::InvalidMessage);
                    }
                    MAX_IMMUTABLE_DATA_SIZE_IN_BYTES
                },
                PayloadKind::OtherGet => {
                    if part_count > 1 {
                        return Err(RoutingError::InvalidMessage);
                    }
                    MAX_MUTABLE_DATA_SIZE_IN_BYTES
                },
                PayloadKind::Mutation => {
                    if part_count > 1 {
                        return Err(RoutingError::InvalidMessage);
                    }
                    payload_len
                },
                PayloadKind::Refresh => {
                    return Err(RoutingError::InvalidMessage);
                },
                PayloadKind::Response => {
                    return Err(RoutingError::InvalidMessage);
                },
                PayloadKind::ExtraBytes => {
                    return Err(RoutingError::InvalidMessage);
                },
                PayloadKind::Unparsed => {
                    if part_count == 1 {
                        return Err(RoutingError::InvalidMessage);
                    }
                    payload_len
                },
            }
        } else {
            payload_len
        };
        if bytes_to_add > allowance {
            return Err(RoutingError::ExceedsRateLimit(*hash));
        }
        self.set_usage(client_ip, used + bytes_to_add);
        Ok(bytes_to_add)
    }

    /// Charges `ip` with `used` bytes in all.
    fn set_usage(&mut self, ip: ClientIp, used: u64)
        requires
            old(self).wf(),
            total_usage(old(self).usage()) - usage_of(old(self).usage(), ip) + used <= CAPACITY,
        ensures
            final(self).wf(),
            final(self).usage() == with_usage(old(self).usage(), ip, used),
    {
        let ghost s = self.used@;
        proof {
            lemma_with_usage(s, ip, used);
            assert(s.skip(0) =~= s);
            assert(s.take(0) =~= Seq::<Usage>::empty());
            assert(s.take(0) + with_usage(s.skip(0), ip, used) =~= with_usage(s, ip, used));
        }
        let mut i: usize = 0;
        while i < self.used.len()
            invariant
                0 <= i <= s.len(),
                s == self.used@,
                s == old(self).used@,
                ips_distinct(with_usage(s, ip, used)),
                total_usage(with_usage(s, ip, used)) <= CAPACITY,
                with_usage(s, ip, used) == s.take(i as int) + with_usage(s.skip(i as int), ip, used),
                forall|j: int| 0 <= j < i ==> s[j].0 != ip,
            decreases s.len() - i,
        {
            proof {
                let k = s.skip(i as int);
                assert(k[0] == s[i as int]);
                assert(k.drop_first() =~= s.skip(i + 1));
            }
            if self.used[i].0 == ip {
                self.used.set(i, (ip, used));
                proof {
                    let k = s.skip(i as int);
                    assert(with_usage(k, ip, used) == seq![(ip, used)] + k.drop_first());
                    assert(self.used@ =~= s.take(i as int) + (seq![(ip, used)] + s.skip(i + 1)));
                }
                return;
            }
            proof {
                assert(s.take(i + 1) =~= s.take(i as int).push(s[i as int]));
                assert(s.take(i as int) + with_usage(s.skip(i as int), ip, used) =~= s.take(i + 1)
                    + with_usage(s.skip(i + 1), ip, used));
            }
            i = i + 1;
        }
        self.used.push((ip, used));
        proof {
            assert(s.skip(s.len() as int) =~= Seq::<Usage>::empty());
            assert(s.take(s.len() as int) =~= s);
            assert(self.used@ =~= s + seq![(ip, used)]);
        }
    }
}

proof fn lemma_total_skip_bound(s: Seq<Usage>, i: int)
    requires
        0 <= i < s.len(),
    ensures
        total_usage(s.skip(i)) == s[i].1 + total_usage(s.skip(i + 1)),
        total_usage(s.skip(i + 1)) >= 0,
        total_usage(s.skip(i)) <= total_usage(s),
    decreases i,
{
    assert(s.skip(i).drop_first() =~= s.skip(i + 1));
    lemma_usage_le_total(s.skip(i + 1), s[i].0);
    if i > 0 {
        lemma_total_skip_bound(s, i - 1);
    } else {
        assert(s.skip(0) =~= s);
    }
}

} // verus!
