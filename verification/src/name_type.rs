//! Network names and the XOR metric over them.
//!
//! A name is a fixed sequence of `NAME_TYPE_LEN` bytes.  The distance between two names is their
//! bytewise XOR read as a big-endian number, so "closer" is the lexicographic order of the XOR
//! distances.
use vstd::prelude::*;
use vstd::std_specs::bits::u8_leading_zeros;

verus! {

/// Number of bytes in a name.
pub const NAME_TYPE_LEN: usize = 64;

/// A network name.
#[derive(Clone, Copy, Debug, PartialEq, Eq, PartialOrd, Ord, Hash)]
pub struct NameType(pub [u8; 64]);

impl View for NameType {
    type V = Seq<u8>;

    open spec fn view(&self) -> Seq<u8> {
        self.0@
    }
}

/// The index of the first byte, at or after `k`, at which `a` and `b` differ; `NAME_TYPE_LEN`
/// when they agree from `k` on.
pub open spec fn first_diff_from(a: Seq<u8>, b: Seq<u8>, k: int) -> int
    decreases 64 - k,
{
    if k >= 64 {
        64
    } else if a[k] != b[k] {
        k
    } else {
        first_diff_from(a, b, k + 1)
    }
}

/// The index of the first byte at which `a` and `b` differ (`NAME_TYPE_LEN` if none).
pub open spec fn first_diff(a: Seq<u8>, b: Seq<u8>) -> int {
    first_diff_from(a, b, 0)
}

/// Strict lexicographic order on byte sequences of name length.
pub open spec fn lex_less(a: Seq<u8>, b: Seq<u8>) -> bool {
    let i = first_diff(a, b);
    i < 64 && a[i] < b[i]
}

/// The XOR distance between two names, byte by byte.
pub open spec fn xor_distance(a: Seq<u8>, b: Seq<u8>) -> Seq<u8> {
    Seq::new(64, |i: int| a[i] ^ b[i])
}

/// `lhs` is strictly closer to `target` than `rhs` is.
pub open spec fn closer(lhs: Seq<u8>, rhs: Seq<u8>, target: Seq<u8>) -> bool {
    lex_less(xor_distance(lhs, target), xor_distance(rhs, target))
}

/// Number of leading bits that `a` and `b` have in common.
pub open spec fn common_leading_bits(a: Seq<u8>, b: Seq<u8>) -> int {
    let i = first_diff(a, b);
    if i < 64 {
        8 * i + u8_leading_zeros(a[i] ^ b[i])
    } else {
        512
    }
}

/// A byte sequence that can stand for a name.
pub open spec fn is_name(a: Seq<u8>) -> bool {
    a.len() == 64
}

proof fn lemma_first_diff_from(a: Seq<u8>, b: Seq<u8>, k: int)
    requires
        0 <= k <= 64,
    ensures
        k <= first_diff_from(a, b, k) <= 64,
        forall|m: int| k <= m < first_diff_from(a, b, k) ==> a[m] == b[m],
        first_diff_from(a, b, k) < 64 ==> a[first_diff_from(a, b, k)] != b[first_diff_from(a, b, k)],
    decreases 64 - k,
{
    if k < 64 && a[k] == b[k] {
        lemma_first_diff_from(a, b, k + 1);
    }
}

/// What the first differing index is: the sequences agree before it and differ at it.
pub proof fn lemma_first_diff(a: Seq<u8>, b: Seq<u8>)
    ensures
        0 <= first_diff(a, b) <= 64,
        forall|m: int| 0 <= m < first_diff(a, b) ==> a[m] == b[m],
        first_diff(a, b) < 64 ==> a[first_diff(a, b)] != b[first_diff(a, b)],
{
    lemma_first_diff_from(a, b, 0);
}

/// The first differing index is the only index with that property.
pub proof fn lemma_first_diff_unique(a: Seq<u8>, b: Seq<u8>, k: int)
    requires
        0 <= k <= 64,
        forall|m: int| 0 <= m < k ==> a[m] == b[m],
        k < 64 ==> a[k] != b[k],
    ensures
        first_diff(a, b) == k,
{
    lemma_first_diff(a, b);
    let f = first_diff(a, b);
    if f < k {
        assert(a[f] == b[f]);
    } else if k < f {
        assert(a[k] == b[k]);
    }
}

proof fn lemma_xor_cancel(x: u8, y: u8, t: u8)
    ensures
        (x ^ t == y ^ t) <==> (x == y),
{
    assert((x ^ t == y ^ t) <==> (x == y)) by (bit_vector);
}

proof fn lemma_xor_symmetric(x: u8, y: u8)
    ensures
        x ^ y == y ^ x,
        x != y ==> x ^ y != 0,
{
    assert(x ^ y == y ^ x) by (bit_vector);
    assert(x != y ==> x ^ y != 0) by (bit_vector);
}

/// The XOR distances of two names to a common target first differ where the names do.
pub proof fn lemma_distance_first_diff(l: Seq<u8>, r: Seq<u8>, t: Seq<u8>)
    ensures
        first_diff(xor_distance(l, t), xor_distance(r, t)) == first_diff(l, r),
{
    let dl = xor_distance(l, t);
    let dr = xor_distance(r, t);
    lemma_first_diff(l, r);
    let k = first_diff(l, r);
    assert forall|m: int| 0 <= m < k implies dl[m] == dr[m] by {
        lemma_xor_cancel(l[m], r[m], t[m]);
    }
    if k < 64 {
        lemma_xor_cancel(l[k], r[k], t[k]);
    }
    lemma_first_diff_unique(dl, dr, k);
}

/// Closeness compares the first differing byte of the two names by its XOR with the target.
pub proof fn lemma_closer_at_first_diff(l: Seq<u8>, r: Seq<u8>, t: Seq<u8>)
    ensures
        closer(l, r, t) == (first_diff(l, r) < 64 && (l[first_diff(l, r)] ^ t[first_diff(l, r)])
            < (r[first_diff(l, r)] ^ t[first_diff(l, r)])),
{
    lemma_distance_first_diff(l, r, t);
    lemma_first_diff(l, r);
    let k = first_diff(l, r);
    if k < 64 {
        assert(xor_distance(l, t)[k] == l[k] ^ t[k]);
        assert(xor_distance(r, t)[k] == r[k] ^ t[k]);
    }
}

/// Law: no name is closer to a target than itself.
pub proof fn lemma_closer_irreflexive(a: Seq<u8>, t: Seq<u8>)
    ensures
        !closer(a, a, t),
{
    lemma_first_diff(xor_distance(a, t), xor_distance(a, t));
}

/// Law: of two names, at most one is the closer to a target.
pub proof fn lemma_closer_asymmetric(a: Seq<u8>, b: Seq<u8>, t: Seq<u8>)
    ensures
        !(closer(a, b, t) && closer(b, a, t)),
{
    lemma_closer_at_first_diff(a, b, t);
    lemma_closer_at_first_diff(b, a, t);
    lemma_first_diff(a, b);
    lemma_first_diff(b, a);
    lemma_first_diff_unique(b, a, first_diff(a, b));
}

/// Law: closeness to a target is transitive.
pub proof fn lemma_closer_transitive(a: Seq<u8>, b: Seq<u8>, c: Seq<u8>, t: Seq<u8>)
    requires
        closer(a, b, t),
        closer(b, c, t),
    ensures
        closer(a, c, t),
{
    let da = xor_distance(a, t);
    let db = xor_distance(b, t);
    let dc = xor_distance(c, t);
    lemma_first_diff(da, db);
    lemma_first_diff(db, dc);
    let i = first_diff(da, db);
    let j = first_diff(db, dc);
    if i < j {
        lemma_first_diff_unique(da, dc, i);
    } else if j < i {
        lemma_first_diff_unique(da, dc, j);
    } else {
        lemma_first_diff_unique(da, dc, i);
    }
}

/// Law: of two different names, one is the closer to any target.
pub proof fn lemma_closer_total(a: Seq<u8>, b: Seq<u8>, t: Seq<u8>)
    requires
        is_name(a),
        is_name(b),
        a != b,
    ensures
        closer(a, b, t) || closer(b, a, t),
{
    lemma_first_diff(a, b);
    let k = first_diff(a, b);
    if k == 64 {
        assert(a =~= b);
    }
    lemma_closer_at_first_diff(a, b, t);
    lemma_closer_at_first_diff(b, a, t);
    lemma_first_diff_unique(b, a, k);
    lemma_xor_cancel(a[k], b[k], t[k]);
}

/// Law: every name has all of its bits in common with itself, and two different names share
/// fewer than all of them.
pub proof fn law_common_leading_bits_symmetric(a: Seq<u8>, b: Seq<u8>)
    requires
        is_name(a),
        is_name(b),
    ensures
        (common_leading_bits(a, b) == 512) <==> (a == b),
        0 <= common_leading_bits(a, b) <= 512,
        common_leading_bits(a, b) == common_leading_bits(b, a),
{
    lemma_first_diff(a, b);
    lemma_first_diff(b, a);
    let k = first_diff(a, b);
    lemma_first_diff_unique(b, a, k);
    if k == 64 {
        assert(a =~= b);
    } else {
        vstd::std_specs::bits::axiom_u8_leading_zeros(a[k] ^ b[k]);
        lemma_xor_symmetric(a[k], b[k]);
    }
}

impl NameType {
    /// Wraps the given bytes as a name.
    pub fn new(bytes: [u8; 64]) -> (r: NameType)
        ensures
            r@ == bytes@,
    {
        NameType(bytes)
    }

    /// The bytes of this name.
    pub fn bytes(&self) -> (r: [u8; 64])
        ensures
            r@ == self@,
    {
        self.0
    }

    /// Number of leading bits that this name has in common with `other`: the index of the
    /// bucket that `other` falls into from this name's point of view.
    pub fn bucket_distance(&self, other: &NameType) -> (r: usize)
        ensures
            r == common_leading_bits(self@, other@),
    {
        let mut i: usize = 0;
        while i < NAME_TYPE_LEN
            invariant
                0 <= i <= 64,
                self@.len() == 64,
                other@.len() == 64,
                first_diff(self@, other@) == first_diff_from(self@, other@, i as int),
            decreases 64 - i,
        {
            let a = self.0[i];
            let b = other.0[i];
            if a != b {
                let x: u8 = a ^ b;
                let lz = x.leading_zeros();
                proof {
                    vstd::std_specs::bits::axiom_u8_leading_zeros(x);
                }
                return i * 8 + lz as usize;
            }
            i = i + 1;
        }
        512
    }
}

/// Returns true if `lhs` is strictly closer to `target` than `rhs` is.
pub fn closer_to_target(lhs: &NameType, rhs: &NameType, target: &NameType) -> (r: bool)
    ensures
        r == closer(lhs@, rhs@, target@),
{
    proof {
        lemma_closer_at_first_diff(lhs@, rhs@, target@);
    }
    let mut i: usize = 0;
    while i < NAME_TYPE_LEN
        invariant
            0 <= i <= 64,
            first_diff(lhs@, rhs@) == first_diff_from(lhs@, rhs@, i as int),
            closer(lhs@, rhs@, target@) == (first_diff(lhs@, rhs@) < 64 && (lhs@[first_diff(
                lhs@,
                rhs@,
            )] ^ target@[first_diff(lhs@, rhs@)]) < (rhs@[first_diff(lhs@, rhs@)]
                ^ target@[first_diff(lhs@, rhs@)])),
        decreases 64 - i,
    {
        let a = lhs.0[i];
        let b = rhs.0[i];
        if a != b {
            let t = target.0[i];
            return (a ^ t) < (b ^ t);
        }
        i = i + 1;
    }
    false
}

/// Returns true if `lhs` is closer to `target` than `rhs` is, or `lhs` is `rhs`.
pub fn closer_to_target_or_equal(lhs: &NameType, rhs: &NameType, target: &NameType) -> (r: bool)
    ensures
        r == (closer(lhs@, rhs@, target@) || lhs@ == rhs@),
{
    let c = closer_to_target(lhs, rhs, target);
    if c {
        return true;
    }
    let e = names_equal(lhs, rhs);
    e
}

/// Returns true if the two names are the same.
pub fn names_equal(a: &NameType, b: &NameType) -> (r: bool)
    ensures
        r == (a@ == b@),
{
    let mut i: usize = 0;
    while i < NAME_TYPE_LEN
        invariant
            0 <= i <= 64,
            a@.len() == 64,
            b@.len() == 64,
            forall|m: int| 0 <= m < i ==> a@[m] == b@[m],
        decreases 64 - i,
    {
        if a.0[i] != b.0[i] {
            return false;
        }
        i = i + 1;
    }
    assert(a@ =~= b@);
    true
}

/// Names with the same bytes are the same name.
pub proof fn lemma_name_view_injective(a: NameType, b: NameType)
    requires
        a@ == b@,
    ensures
        a == b,
{
    vstd::array::axiom_array_ext_equal(a.0, b.0);
    assert(a.0 =~= b.0);
}

impl crate::assoc_map::KeyEq for NameType {
    fn key_eq(&self, other: &Self) -> (r: bool) {
        let e = names_equal(self, other);
        proof {
            if e {
                vstd::array::axiom_array_ext_equal(self.0, other.0);
                assert(self.0 =~= other.0);
            }
        }
        e
    }
}

} // verus!
