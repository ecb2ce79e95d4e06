//! Mutable data: a versioned key-value store with owners and per-user permissions.
use crate::crypto::{same_sign_key, sign_keys_equal, PublicSignKey};
use crate::error::RoutingError;
use vstd::prelude::*;

verus! {

/// Maximum allowed size for mutable data (1 MiB).
pub const MAX_MUTABLE_DATA_SIZE_IN_BYTES: u64 = 1048576;

/// Maximum allowed number of entries in mutable data.
pub const MAX_MUTABLE_DATA_ENTRIES: u64 = 100;

// ------------------------------------------------------------------------------------------
// Byte strings and their order
// ------------------------------------------------------------------------------------------

/// Lexicographic order of byte strings (a proper prefix comes first).
pub open spec fn bytes_lt(a: Seq<u8>, b: Seq<u8>) -> bool
    decreases a.len(),
{
    if a.len() == 0 {
        b.len() > 0
    } else if b.len() == 0 {
        false
    } else if a[0] != b[0] {
        a[0] < b[0]
    } else {
        bytes_lt(a.drop_first(), b.drop_first())
    }
}

/// Law: no byte string comes before itself.
pub proof fn lemma_bytes_lt_irreflexive(a: Seq<u8>)
    ensures
        !bytes_lt(a, a),
    decreases a.len(),
{
    if a.len() > 0 {
        lemma_bytes_lt_irreflexive(a.drop_first());
    }
}

/// Law: the order of byte strings is transitive.
pub proof fn lemma_bytes_lt_transitive(a: Seq<u8>, b: Seq<u8>, c: Seq<u8>)
    requires
        bytes_lt(a, b),
        bytes_lt(b, c),
    ensures
        bytes_lt(a, c),
    decreases a.len(),
{
    if a.len() > 0 && b.len() > 0 && c.len() > 0 && a[0] == b[0] && b[0] == c[0] {
        lemma_bytes_lt_transitive(a.drop_first(), b.drop_first(), c.drop_first());
    }
}

/// Law: of two different byte strings, one comes first.
pub proof fn lemma_bytes_lt_total(a: Seq<u8>, b: Seq<u8>)
    requires
        a != b,
    ensures
        bytes_lt(a, b) || bytes_lt(b, a),
    decreases a.len(),
{
    if a.len() == 0 {
        if b.len() == 0 {
            assert(a =~= b);
        }
    } else if b.len() > 0 && a[0] == b[0] {
        if a.drop_first() == b.drop_first() {
            assert(a.drop_first().len() == b.drop_first().len());
            assert(a =~= b) by {
                assert forall|i: int| 0 <= i < a.len() implies a[i] == b[i] by {
                    if i > 0 {
                        assert(a[i] == a.drop_first()[i - 1]);
                        assert(b[i] == b.drop_first()[i - 1]);
                    }
                }
            }
        }
        lemma_bytes_lt_total(a.drop_first(), b.drop_first());
    }
}

/// Law: of two byte strings, at most one comes first.
pub proof fn lemma_bytes_lt_asymmetric(a: Seq<u8>, b: Seq<u8>)
    ensures
        !(bytes_lt(a, b) && bytes_lt(b, a)),
{
    if bytes_lt(a, b) && bytes_lt(b, a) {
        lemma_bytes_lt_transitive(a, b, a);
        lemma_bytes_lt_irreflexive(a);
    }
}

/// Compares two byte strings: true if `a` comes before `b`.
pub fn bytes_less(a: &Vec<u8>, b: &Vec<u8>) -> (r: bool)
    ensures
        r == bytes_lt(a@, b@),
{
    let mut i: usize = 0;
    assert(a@.skip(0) =~= a@);
    assert(b@.skip(0) =~= b@);
    while i < a.len() && i < b.len()
        invariant
            0 <= i <= a@.len(),
            i <= b@.len(),
            bytes_lt(a@, b@) == bytes_lt(a@.skip(i as int), b@.skip(i as int)),
        decreases a@.len() - i,
    {
        if a[i] != b[i] {
            return a[i] < b[i];
        }
        proof {
            assert(a@.skip(i as int).drop_first() =~= a@.skip(i + 1));
            assert(b@.skip(i as int).drop_first() =~= b@.skip(i + 1));
        }
        i = i + 1;
    }
    i < b.len()
}

/// Returns true if the two byte strings are equal.
pub fn bytes_equal(a: &Vec<u8>, b: &Vec<u8>) -> (r: bool)
    ensures
        r == (a@ == b@),
{
    if a.len() != b.len() {
        return false;
    }
    let mut i: usize = 0;
    while i < a.len()
        invariant
            0 <= i <= a@.len(),
            a@.len() == b@.len(),
            forall|m: int| 0 <= m < i ==> a@[m] == b@[m],
        decreases a@.len() - i,
    {
        if a[i] != b[i] {
            return false;
        }
        i = i + 1;
    }
    assert(a@ =~= b@);
    true
}

/// A copy of a byte string.
pub fn copy_bytes(a: &Vec<u8>) -> (r: Vec<u8>)
    ensures
        r@ == a@,
{
    let mut r: Vec<u8> = Vec::new();
    let mut i: usize = 0;
    while i < a.len()
        invariant
            0 <= i <= a@.len(),
            r@ == a@.take(i as int),
        decreases a@.len() - i,
    {
        r.push(a[i]);
        i = i + 1;
        assert(r@ =~= a@.take(i as int));
    }
    assert(r@ =~= a@);
    r
}

// ------------------------------------------------------------------------------------------
// Values, users, permissions and entry actions
// ------------------------------------------------------------------------------------------

/// A value in mutable data: its content and the version of the entry.
#[derive(Debug, PartialEq, Eq, PartialOrd, Ord, Hash)]
pub struct Value {
    pub content: Vec<u8>,
    pub entry_version: u64,
}

/// What a value is.
pub struct ValueView {
    pub content: Seq<u8>,
    pub entry_version: u64,
}

impl View for Value {
    type V = ValueView;

    open spec fn view(&self) -> ValueView {
        ValueView { content: self.content@, entry_version: self.entry_version }
    }
}

impl Clone for Value {
    fn clone(&self) -> (r: Value)
        ensures
            r@ == self@,
    {
        Value { content: copy_bytes(&self.content), entry_version: self.entry_version }
    }
}

/// Who a permission applies to.
#[derive(Clone, Copy, Debug, PartialEq, Eq, PartialOrd, Ord, Hash)]
pub enum User {
    /// Any requester.
    Anyone,
    /// The holder of this signing key.
    Key(PublicSignKey),
}

/// Returns true if the two users are the same.
pub fn users_equal(a: &User, b: &User) -> (r: bool)
    ensures
        r == (*a == *b),
{
    match (a, b) {
        (User::Anyone, User::Anyone) => true,
        (User::Key(x), User::Key(y)) => {
            let e = sign_keys_equal(x, y);
            proof {
                if x@ == y@ {
                    vstd::array::axiom_array_ext_equal(x.0, y.0);
                    assert(x.0 =~= y.0);
                }
            }
            e
        },
        _ => false,
    }
}

/// An action on mutable data that a permission can allow or deny.
#[derive(Clone, Copy, Debug, PartialEq, Eq, Structural, PartialOrd, Ord, Hash)]
pub enum Action {
    Insert,
    Update,
    Delete,
    ManagePermission,
}

/// For each action: allowed, denied, or not set.
#[derive(Clone, Copy, Debug, PartialEq, Eq, Structural, PartialOrd, Ord, Hash)]
pub struct PermissionSet {
    insert: Option<bool>,
    update: Option<bool>,
    delete: Option<bool>,
    manage_permission: Option<bool>,
}

impl PermissionSet {
    /// What the set says of `action`.
    pub closed spec fn get_spec(&self, action: Action) -> Option<bool> {
        match action {
            Action::Insert => self.insert,
            Action::Update => self.update,
            Action::Delete => self.delete,
            Action::ManagePermission => self.manage_permission,
        }
    }

    /// The set with `action` set to `value`.
    pub closed spec fn with_spec(&self, action: Action, value: Option<bool>) -> PermissionSet {
        match action {
            Action::Insert => PermissionSet { insert: value, ..*self },
            Action::Update => PermissionSet { update: value, ..*self },
            Action::Delete => PermissionSet { delete: value, ..*self },
            Action::ManagePermission => PermissionSet { manage_permission: value, ..*self },
        }
    }

    /// Number of actions the set says something of.
    pub closed spec fn count_set(&self) -> int {
        (if self.insert is Some {
            1int
        } else {
            0int
        }) + (if self.update is Some {
            1int
        } else {
            0int
        }) + (if self.delete is Some {
            1int
        } else {
            0int
        }) + (if self.manage_permission is Some {
            1int
        } else {
            0int
        })
    }

    /// Law: setting what a permission set says of one action changes what it says of that
    /// action only.
    pub proof fn law_with_then_get(&self, action: Action, value: Option<bool>, other: Action)
        ensures
            self.with_spec(action, value).get_spec(action) == value,
            other != action ==> self.with_spec(action, value).get_spec(other) == self.get_spec(other),
    {
    }

    /// A set that says nothing of any action.
    pub fn new() -> (r: PermissionSet)
        ensures
            forall|a: Action| r.get_spec(a) is None,
    {
        PermissionSet { insert: None, update: None, delete: None, manage_permission: None }
    }

    fn set(&mut self, action: Action, value: Option<bool>)
        ensures
            *final(self) == old(self).with_spec(action, value),
    {
        match action {
            Action::Insert => self.insert = value,
            Action::Update => self.update = value,
            Action::Delete => self.delete = value,
            Action::ManagePermission => self.manage_permission = value,
        }
    }

    /// Allows `action`.
    pub fn allow(&mut self, action: Action) -> (r: &mut PermissionSet)
        ensures
            *r == old(self).with_spec(action, Some(true)),
            *final(self) == *final(r),
    {
        self.set(action, Some(true));
        self
    }

    /// Denies `action`.
    pub fn deny(&mut self, action: Action) -> (r: &mut PermissionSet)
        ensures
            *r == old(self).with_spec(action, Some(false)),
            *final(self) == *final(r),
    {
        self.set(action, Some(false));
        self
    }

    /// Says nothing more of `action`.
    pub fn clear(&mut self, action: Action) -> (r: &mut PermissionSet)
        ensures
            *r == old(self).with_spec(action, None),
            *final(self) == *final(r),
    {
        self.set(action, None);
        self
    }

    /// Whether `action` is allowed (`Some(true)`), denied (`Some(false)`) or not set (`None`).
    pub fn is_allowed(&self, action: Action) -> (r: Option<bool>)
        ensures
            r == self.get_spec(action),
    {
        match action {
            Action::Insert => self.insert,
            Action::Update => self.update,
            Action::Delete => self.delete,
            Action::ManagePermission => self.manage_permission,
        }
    }
}

/// A change to one entry.
#[derive(Debug, PartialEq, Eq, PartialOrd, Ord, Hash)]
pub enum EntryAction {
    /// Inserts a new entry
    Ins(Value),
    /// Updates an entry with a new value and version
    Update(Value),
    /// Deletes an entry. Contains the version number
    Del(u64),
}

/// What an entry action is.
pub enum EntryActionView {
    Ins(ValueView),
    Update(ValueView),
    Del(u64),
}

impl View for EntryAction {
    type V = EntryActionView;

    open spec fn view(&self) -> EntryActionView {
        match self {
            EntryAction::Ins(v) => EntryActionView::Ins(v@),
            EntryAction::Update(v) => EntryActionView::Update(v@),
            EntryAction::Del(n) => EntryActionView::Del(*n),
        }
    }
}

impl Clone for EntryAction {
    fn clone(&self) -> (r: EntryAction)
        ensures
            r@ == self@,
    {
        match self {
            EntryAction::Ins(v) => EntryAction::Ins(v.clone()),
            EntryAction::Update(v) => EntryAction::Update(v.clone()),
            EntryAction::Del(n) => EntryAction::Del(*n),
        }
    }
}


// ------------------------------------------------------------------------------------------
// Entries of mutable data
// ------------------------------------------------------------------------------------------

/// The keys are in strictly increasing order, so each occurs once.
pub open spec fn keys_sorted(s: Seq<(Seq<u8>, ValueView)>) -> bool {
    forall|i: int, j: int| 0 <= i < j < s.len() ==> #[trigger] bytes_lt(s[i].0, s[j].0)
}

/// The map from keys to values that a sequence of entries stands for.
pub open spec fn entries_map(s: Seq<(Seq<u8>, ValueView)>) -> Map<Seq<u8>, ValueView>
    decreases s.len(),
{
    if s.len() == 0 {
        Map::empty()
    } else {
        entries_map(s.drop_last()).insert(s.last().0, s.last().1)
    }
}

/// The views of stored entries.
pub open spec fn entries_view(v: Seq<(Vec<u8>, Value)>) -> Seq<(Seq<u8>, ValueView)> {
    v.map_values(|e: (Vec<u8>, Value)| (e.0@, e.1@))
}

/// The views of entry actions.
pub open spec fn actions_view(v: Seq<(Vec<u8>, EntryAction)>) -> Seq<(Seq<u8>, EntryActionView)> {
    v.map_values(|e: (Vec<u8>, EntryAction)| (e.0@, e.1@))
}

/// No key occurs twice among the actions.
pub open spec fn distinct_action_keys(a: Seq<(Seq<u8>, EntryActionView)>) -> bool {
    forall|i: int, j: int| 0 <= i < a.len() && 0 <= j < a.len() && i != j ==> a[i].0 != a[j].0
}

proof fn lemma_sorted_distinct(s: Seq<(Seq<u8>, ValueView)>, i: int, j: int)
    requires
        keys_sorted(s),
        0 <= i < s.len(),
        0 <= j < s.len(),
        s[i].0 == s[j].0,
    ensures
        i == j,
{
    if i < j {
        assert(bytes_lt(s[i].0, s[j].0));
        lemma_bytes_lt_irreflexive(s[i].0);
    } else if j < i {
        assert(bytes_lt(s[j].0, s[i].0));
        lemma_bytes_lt_irreflexive(s[i].0);
    }
}

/// What the map of sorted entries holds: exactly their keys, each with its value.
proof fn lemma_entries_map(s: Seq<(Seq<u8>, ValueView)>)
    requires
        keys_sorted(s),
    ensures
        forall|k: Seq<u8>| #[trigger]
            entries_map(s).contains_key(k) <==> exists|i: int| 0 <= i < s.len() && s[i].0 == k,
        forall|i: int| 0 <= i < s.len() ==> #[trigger] entries_map(s)[s[i].0] == s[i].1,
    decreases s.len(),
{
    if s.len() > 0 {
        let p = s.drop_last();
        assert(keys_sorted(p)) by {
            assert forall|i: int, j: int| 0 <= i < j < p.len() implies #[trigger] bytes_lt(
                p[i].0,
                p[j].0,
            ) by {
                assert(p[i] == s[i] && p[j] == s[j]);
            }
        }
        lemma_entries_map(p);
        let last = s.len() - 1;
        assert(entries_map(s) == entries_map(p).insert(s[last].0, s[last].1));
        assert forall|k: Seq<u8>| #[trigger]
            entries_map(s).contains_key(k) <==> exists|i: int| 0 <= i < s.len() && s[i].0 == k by {
            if entries_map(s).contains_key(k) && k != s[last].0 {
                let i = choose|i: int| 0 <= i < p.len() && p[i].0 == k;
                assert(s[i].0 == k);
            }
            if exists|i: int| 0 <= i < s.len() && s[i].0 == k {
                let i = choose|i: int| 0 <= i < s.len() && s[i].0 == k;
                if i < last {
                    assert(p[i].0 == k);
                }
            }
        }
        assert forall|i: int| 0 <= i < s.len() implies #[trigger] entries_map(s)[s[i].0] == s[i].1 by {
            if i < last {
                assert(p[i] == s[i]);
                if s[i].0 == s[last].0 {
                    lemma_sorted_distinct(s, i, last);
                }
            }
        }
    }
}

/// Replacing the value of an entry changes the map at that key only.
proof fn lemma_entries_map_update(s: Seq<(Seq<u8>, ValueView)>, i: int, v: ValueView)
    requires
        keys_sorted(s),
        0 <= i < s.len(),
    ensures
        keys_sorted(s.update(i, (s[i].0, v))),
        entries_map(s.update(i, (s[i].0, v))) == entries_map(s).insert(s[i].0, v),
{
    let t = s.update(i, (s[i].0, v));
    assert(keys_sorted(t)) by {
        assert forall|a: int, b: int| 0 <= a < b < t.len() implies #[trigger] bytes_lt(
            t[a].0,
            t[b].0,
        ) by {
            assert(t[a].0 == s[a].0 && t[b].0 == s[b].0);
        }
    }
    lemma_entries_map(s);
    lemma_entries_map(t);
    let m = entries_map(s).insert(s[i].0, v);
    assert forall|k: Seq<u8>| #[trigger] entries_map(t).contains_key(k) <==> m.contains_key(k) by {
        if exists|j: int| 0 <= j < s.len() && s[j].0 == k {
            let j = choose|j: int| 0 <= j < s.len() && s[j].0 == k;
            assert(t[j].0 == k);
        }
        if exists|j: int| 0 <= j < t.len() && t[j].0 == k {
            let j = choose|j: int| 0 <= j < t.len() && t[j].0 == k;
            assert(s[j].0 == k);
        }
    }
    assert forall|k: Seq<u8>| entries_map(t).contains_key(k) implies #[trigger] entries_map(t)[k]
        == m[k] by {
        let j = choose|j: int| 0 <= j < t.len() && t[j].0 == k;
        assert(entries_map(t)[t[j].0] == t[j].1);
        if j != i {
            assert(entries_map(s)[s[j].0] == s[j].1);
            if k == s[i].0 {
                lemma_sorted_distinct(s, i, j);
            }
        }
    }
    assert(entries_map(t) =~= m);
}

/// Removing an entry removes its key from the map.
proof fn lemma_entries_map_remove(s: Seq<(Seq<u8>, ValueView)>, i: int)
    requires
        keys_sorted(s),
        0 <= i < s.len(),
    ensures
        keys_sorted(s.remove(i)),
        entries_map(s.remove(i)) == entries_map(s).remove(s[i].0),
{
    let t = s.remove(i);
    assert(keys_sorted(t)) by {
        assert forall|a: int, b: int| 0 <= a < b < t.len() implies #[trigger] bytes_lt(
            t[a].0,
            t[b].0,
        ) by {
            let a2 = if a < i {
                a
            } else {
                a + 1
            };
            let b2 = if b < i {
                b
            } else {
                b + 1
            };
            assert(t[a] == s[a2] && t[b] == s[b2]);
            assert(bytes_lt(s[a2].0, s[b2].0));
        }
    }
    lemma_entries_map(s);
    lemma_entries_map(t);
    let m = entries_map(s).remove(s[i].0);
    assert forall|k: Seq<u8>| #[trigger] entries_map(t).contains_key(k) <==> m.contains_key(k) by {
        if exists|j: int| 0 <= j < t.len() && t[j].0 == k {
            let j = choose|j: int| 0 <= j < t.len() && t[j].0 == k;
            let j2 = if j < i {
                j
            } else {
                j + 1
            };
            assert(t[j] == s[j2]);
            if k == s[i].0 {
                lemma_sorted_distinct(s, i, j2);
            }
        }
        if m.contains_key(k) {
            let j = choose|j: int| 0 <= j < s.len() && s[j].0 == k;
            if j < i {
                assert(t[j] == s[j]);
            } else {
                assert(t[j - 1] == s[j]);
            }
        }
    }
    assert forall|k: Seq<u8>| entries_map(t).contains_key(k) implies #[trigger] entries_map(t)[k]
        == m[k] by {
        let j = choose|j: int| 0 <= j < t.len() && t[j].0 == k;
        let j2 = if j < i {
            j
        } else {
            j + 1
        };
        assert(t[j] == s[j2]);
        assert(entries_map(t)[t[j].0] == t[j].1);
        assert(entries_map(s)[s[j2].0] == s[j2].1);
    }
    assert(entries_map(t) =~= m);
}

/// Number of keys in `s` that come before `k`.
pub open spec fn count_keys_before(s: Seq<(Seq<u8>, ValueView)>, k: Seq<u8>) -> int
    decreases s.len(),
{
    if s.len() == 0 {
        0
    } else {
        count_keys_before(s.drop_last(), k) + if bytes_lt(s.last().0, k) {
            1int
        } else {
            0int
        }
    }
}

proof fn lemma_count_keys_before(s: Seq<(Seq<u8>, ValueView)>, k: Seq<u8>)
    requires
        keys_sorted(s),
    ensures
        0 <= count_keys_before(s, k) <= s.len(),
        forall|i: int| 0 <= i < count_keys_before(s, k) ==> bytes_lt((#[trigger] s[i]).0, k),
        forall|i: int| count_keys_before(s, k) <= i < s.len() ==> !bytes_lt((#[trigger] s[i]).0, k),
    decreases s.len(),
{
    if s.len() > 0 {
        let p = s.drop_last();
        assert(keys_sorted(p)) by {
            assert forall|i: int, j: int| 0 <= i < j < p.len() implies #[trigger] bytes_lt(
                p[i].0,
                p[j].0,
            ) by {
                assert(p[i] == s[i] && p[j] == s[j]);
            }
        }
        lemma_count_keys_before(p, k);
        let last = s.len() - 1;
        if bytes_lt(s[last].0, k) {
            assert forall|i: int| 0 <= i < last implies bytes_lt((#[trigger] s[i]).0, k) by {
                assert(bytes_lt(s[i].0, s[last].0));
                lemma_bytes_lt_transitive(s[i].0, s[last].0, k);
            }
        } else {
            assert forall|i: int| 0 <= i < count_keys_before(s, k) implies bytes_lt(
                (#[trigger] s[i]).0,
                k,
            ) by {
                assert(p[i] == s[i]);
            }
            assert forall|i: int| count_keys_before(s, k) <= i < s.len() implies !bytes_lt(
                (#[trigger] s[i]).0,
                k,
            ) by {
                if i < last {
                    assert(p[i] == s[i]);
                }
            }
        }
    }
}

/// Inserting an entry with a new key at its place keeps the keys sorted and adds it to the map.
proof fn lemma_entries_map_insert(s: Seq<(Seq<u8>, ValueView)>, k: Seq<u8>, v: ValueView)
    requires
        keys_sorted(s),
        !entries_map(s).contains_key(k),
    ensures
        keys_sorted(s.insert(count_keys_before(s, k), (k, v))),
        entries_map(s.insert(count_keys_before(s, k), (k, v))) == entries_map(s).insert(k, v),
{
    lemma_count_keys_before(s, k);
    lemma_entries_map(s);
    let p = count_keys_before(s, k);
    let t = s.insert(p, (k, v));
    assert forall|j: int| 0 <= j < s.len() implies (#[trigger] s[j]).0 != k by {
        if s[j].0 == k {
            assert(entries_map(s).contains_key(k));
        }
    }
    assert(keys_sorted(t)) by {
        assert forall|a: int, b: int| 0 <= a < b < t.len() implies #[trigger] bytes_lt(
            t[a].0,
            t[b].0,
        ) by {
            if b < p {
                assert(t[a] == s[a] && t[b] == s[b]);
            } else if b == p {
                assert(t[a] == s[a]);
            } else if a < p {
                assert(t[a] == s[a] && t[b] == s[b - 1]);
                assert(bytes_lt(s[a].0, s[b - 1].0));
            } else if a == p {
                assert(t[b] == s[b - 1]);
                assert(!bytes_lt(s[b - 1].0, k));
                lemma_bytes_lt_total(k, s[b - 1].0);
            } else {
                assert(t[a] == s[a - 1] && t[b] == s[b - 1]);
                assert(bytes_lt(s[a - 1].0, s[b - 1].0));
            }
        }
    }
    lemma_entries_map(t);
    let m = entries_map(s).insert(k, v);
    assert forall|q: Seq<u8>| #[trigger] entries_map(t).contains_key(q) <==> m.contains_key(q) by {
        if exists|j: int| 0 <= j < t.len() && t[j].0 == q {
            let j = choose|j: int| 0 <= j < t.len() && t[j].0 == q;
            if j < p {
                assert(t[j] == s[j]);
            } else if j > p {
                assert(t[j] == s[j - 1]);
            }
        }
        if m.contains_key(q) && q != k {
            let j = choose|j: int| 0 <= j < s.len() && s[j].0 == q;
            if j < p {
                assert(t[j] == s[j]);
            } else {
                assert(t[j + 1] == s[j]);
            }
        }
        if q == k {
            assert(t[p].0 == k);
        }
    }
    assert forall|q: Seq<u8>| entries_map(t).contains_key(q) implies #[trigger] entries_map(t)[q]
        == m[q] by {
        let j = choose|j: int| 0 <= j < t.len() && t[j].0 == q;
        assert(entries_map(t)[t[j].0] == t[j].1);
        if j < p {
            assert(t[j] == s[j]);
            assert(entries_map(s)[s[j].0] == s[j].1);
        } else if j > p {
            assert(t[j] == s[j - 1]);
            assert(entries_map(s)[s[j - 1].0] == s[j - 1].1);
        }
    }
    assert(entries_map(t) =~= m);
}

/// The index of the entry with key `k`, or the length if none.
fn find_entry(data: &Vec<(Vec<u8>, Value)>, key: &Vec<u8>) -> (r: usize)
    requires
        keys_sorted(entries_view(data@)),
    ensures
        r <= data@.len(),
        r < data@.len() ==> entries_view(data@)[r as int].0 == key@,
        r == data@.len() <==> !entries_map(entries_view(data@)).contains_key(key@),
{
    let ghost s = entries_view(data@);
    proof {
        lemma_entries_map(s);
    }
    let mut i: usize = 0;
    while i < data.len()
        invariant
            0 <= i <= data@.len(),
            s == entries_view(data@),
            keys_sorted(s),
            forall|j: int| 0 <= j < i ==> (#[trigger] s[j]).0 != key@,
        decreases data@.len() - i,
    {
        proof {
            assert(s[i as int] == (data@[i as int].0@, data@[i as int].1@));
        }
        if bytes_equal(&data[i].0, key) {
            proof {
                lemma_entries_map(s);
                assert(s[i as int].0 == key@);
                assert(entries_map(s).contains_key(key@));
            }
            return i;
        }
        i = i + 1;
    }
    proof {
        if entries_map(s).contains_key(key@) {
            let j = choose|j: int| 0 <= j < s.len() && s[j].0 == key@;
            assert(s[j].0 != key@);
        }
    }
    i
}

/// Inserts an entry whose key is new, at its place in key order.
fn insert_entry(data: &mut Vec<(Vec<u8>, Value)>, key: Vec<u8>, value: Value)
    requires
        keys_sorted(entries_view(old(data)@)),
        !entries_map(entries_view(old(data)@)).contains_key(key@),
    ensures
        keys_sorted(entries_view(final(data)@)),
        entries_map(entries_view(final(data)@)) == entries_map(entries_view(old(data)@)).insert(
            key@,
            value@,
        ),
{
    let ghost s = entries_view(data@);
    proof {
        lemma_count_keys_before(s, key@);
        lemma_entries_map_insert(s, key@, value@);
    }
    let mut p: usize = 0;
    while p < data.len() && bytes_less(&data[p].0, &key)
        invariant
            0 <= p <= data@.len(),
            s == entries_view(data@),
            forall|j: int| 0 <= j < p ==> bytes_lt((#[trigger] s[j]).0, key@),
            0 <= count_keys_before(s, key@) <= s.len(),
            forall|j: int| count_keys_before(s, key@) <= j < s.len() ==> !bytes_lt(
                (#[trigger] s[j]).0,
                key@,
            ),
        decreases data@.len() - p,
    {
        proof {
            assert(s[p as int] == (data@[p as int].0@, data@[p as int].1@));
        }
        p = p + 1;
    }
    proof {
        if p < data@.len() {
            assert(s[p as int] == (data@[p as int].0@, data@[p as int].1@));
        }
        let c = count_keys_before(s, key@);
        if p < c {
            assert(bytes_lt(s[p as int].0, key@));
        }
        if p > c {
            assert(bytes_lt(s[c].0, key@));
        }
    }
    let ghost kv = (key@, value@);
    data.insert(p, (key, value));
    proof {
        assert(entries_view(data@) =~= s.insert(p as int, kv));
    }
}

/// Replaces the value of the entry at `i`.
fn replace_entry(data: &mut Vec<(Vec<u8>, Value)>, i: usize, value: Value)
    requires
        keys_sorted(entries_view(old(data)@)),
        i < old(data)@.len(),
    ensures
        keys_sorted(entries_view(final(data)@)),
        entries_map(entries_view(final(data)@)) == entries_map(entries_view(old(data)@)).insert(
            entries_view(old(data)@)[i as int].0,
            value@,
        ),
{
    let ghost s = entries_view(data@);
    let ghost v = value@;
    let (key, _) = data.remove(i);
    let ghost kv = (key@, v);
    data.insert(i, (key, value));
    proof {
        assert(entries_view(data@) =~= s.update(i as int, (s[i as int].0, v)));
        lemma_entries_map_update(s, i as int, v);
    }
}

/// Removes the entry at `i`.
fn remove_entry(data: &mut Vec<(Vec<u8>, Value)>, i: usize)
    requires
        keys_sorted(entries_view(old(data)@)),
        i < old(data)@.len(),
    ensures
        keys_sorted(entries_view(final(data)@)),
        entries_map(entries_view(final(data)@)) == entries_map(entries_view(old(data)@)).remove(
            entries_view(old(data)@)[i as int].0,
        ),
{
    let ghost s = entries_view(data@);
    let _ = data.remove(i);
    proof {
        assert(entries_view(data@) =~= s.remove(i as int));
        lemma_entries_map_remove(s, i as int);
    }
}

/// A copy of the stored entries.
fn copy_entries(data: &Vec<(Vec<u8>, Value)>) -> (r: Vec<(Vec<u8>, Value)>)
    ensures
        entries_view(r@) == entries_view(data@),
{
    let mut r: Vec<(Vec<u8>, Value)> = Vec::new();
    let mut i: usize = 0;
    while i < data.len()
        invariant
            0 <= i <= data@.len(),
            entries_view(r@) == entries_view(data@).take(i as int),
        decreases data@.len() - i,
    {
        let ghost before = r@;
        let k = copy_bytes(&data[i].0);
        let v = data[i].1.clone();
        r.push((k, v));
        proof {
            assert(entries_view(before).len() == before.len());
            assert forall|j: int| 0 <= j <= i implies #[trigger] entries_view(r@)[j]
                == entries_view(data@).take(i + 1)[j] by {
                if j < i {
                    assert(r@[j] == before[j]);
                    assert(entries_view(before)[j] == entries_view(data@).take(i as int)[j]);
                }
            }
        }
        i = i + 1;
        assert(entries_view(r@) =~= entries_view(data@).take(i as int));
    }
    assert(entries_view(r@) =~= entries_view(data@));
    r
}


// ------------------------------------------------------------------------------------------
// Applying entry actions
// ------------------------------------------------------------------------------------------

/// The phases in which entry actions are applied: all inserts, then all updates, then all
/// deletes.
pub enum Phase {
    Inserting,
    Updating,
    Deleting,
}

/// The action belongs to the phase.
pub open spec fn kind_of(p: Phase, e: EntryActionView) -> bool {
    match (p, e) {
        (Phase::Inserting, EntryActionView::Ins(_)) => true,
        (Phase::Updating, EntryActionView::Update(_)) => true,
        (Phase::Deleting, EntryActionView::Del(_)) => true,
        _ => false,
    }
}

/// Some action belongs to the phase.
pub open spec fn has_kind(acts: Seq<(Seq<u8>, EntryActionView)>, p: Phase) -> bool {
    exists|i: int| 0 <= i < acts.len() && kind_of(p, (#[trigger] acts[i]).1)
}

/// The error, if any, that one action of the phase meets in the entries `m`.
pub open spec fn step_error(p: Phase, m: Map<Seq<u8>, ValueView>, e: (Seq<u8>, EntryActionView)) -> Option<RoutingError> {
    match (p, e.1) {
        (Phase::Inserting, EntryActionView::Ins(_)) => if m.contains_key(e.0) {
            Some(RoutingError::EntryAlreadyExist)
        } else {
            None
        },
        (Phase::Updating, EntryActionView::Update(v)) => if !m.contains_key(e.0) {
            Some(RoutingError::EntryNotFound)
        } else if v.entry_version != m[e.0].entry_version + 1 {
            Some(RoutingError::InvalidSuccessor)
        } else {
            None
        },
        (Phase::Deleting, EntryActionView::Del(version)) => if !m.contains_key(e.0) {
            Some(RoutingError::EntryNotFound)
        } else if version != m[e.0].entry_version + 1 {
            Some(RoutingError::InvalidSuccessor)
        } else {
            None
        },
        _ => None,
    }
}

/// The entries after one action of the phase.
pub open spec fn step_apply(p: Phase, m: Map<Seq<u8>, ValueView>, e: (Seq<u8>, EntryActionView)) -> Map<Seq<u8>, ValueView> {
    match (p, e.1) {
        (Phase::Inserting, EntryActionView::Ins(v)) => m.insert(e.0, v),
        (Phase::Updating, EntryActionView::Update(v)) => m.insert(e.0, v),
        (Phase::Deleting, EntryActionView::Del(_)) => m.remove(e.0),
        _ => m,
    }
}

/// The entries after the actions of the phase, taken in order.
pub open spec fn apply_phase(p: Phase, m: Map<Seq<u8>, ValueView>, acts: Seq<(Seq<u8>, EntryActionView)>) -> Map<Seq<u8>, ValueView>
    decreases acts.len(),
{
    if acts.len() == 0 {
        m
    } else {
        step_apply(p, apply_phase(p, m, acts.drop_last()), acts.last())
    }
}

/// The first error that the actions of the phase meet, taken in order.
pub open spec fn phase_error(p: Phase, m: Map<Seq<u8>, ValueView>, acts: Seq<(Seq<u8>, EntryActionView)>) -> Option<RoutingError>
    decreases acts.len(),
{
    if acts.len() == 0 {
        None
    } else {
        let e = phase_error(p, m, acts.drop_last());
        if e is Some {
            e
        } else {
            step_error(p, apply_phase(p, m, acts.drop_last()), acts.last())
        }
    }
}

proof fn lemma_phase_error_prefix(p: Phase, m: Map<Seq<u8>, ValueView>, acts: Seq<(Seq<u8>, EntryActionView)>, j: int)
    requires
        0 <= j <= acts.len(),
        phase_error(p, m, acts.take(j)) is Some,
    ensures
        phase_error(p, m, acts) == phase_error(p, m, acts.take(j)),
    decreases acts.len() - j,
{
    if j < acts.len() {
        let t = acts.take(j + 1);
        assert(t.drop_last() =~= acts.take(j));
        lemma_phase_error_prefix(p, m, acts, j + 1);
    } else {
        assert(acts.take(j) =~= acts);
    }
}

/// A phase leaves alone every key that none of its actions names.
proof fn lemma_apply_phase_agrees(p: Phase, m: Map<Seq<u8>, ValueView>, t: Seq<(Seq<u8>, EntryActionView)>, k: Seq<u8>)
    requires
        forall|j: int| 0 <= j < t.len() && (#[trigger] t[j]).0 == k ==> !kind_of(p, t[j].1),
    ensures
        apply_phase(p, m, t).contains_key(k) == m.contains_key(k),
        m.contains_key(k) ==> apply_phase(p, m, t)[k] == m[k],
    decreases t.len(),
{
    if t.len() > 0 {
        let d = t.drop_last();
        assert forall|j: int| 0 <= j < d.len() && (#[trigger] d[j]).0 == k implies !kind_of(p, d[j].1) by {
            assert(d[j] == t[j]);
        }
        lemma_apply_phase_agrees(p, m, d, k);
        assert(t.last() == t[t.len() - 1]);
    }
}

/// Runs one phase over the entries `work`.  Returns the first error met; otherwise `work`
/// holds the entries after the phase.
fn run_phase(work: &mut Vec<(Vec<u8>, Value)>, actions: &Vec<(Vec<u8>, EntryAction)>, phase: Phase) -> (r: Option<RoutingError>)
    requires
        keys_sorted(entries_view(old(work)@)),
        distinct_action_keys(actions_view(actions@)),
    ensures
        r == phase_error(phase, entries_map(entries_view(old(work)@)), actions_view(actions@)),
        r is None ==> keys_sorted(entries_view(final(work)@)) && entries_map(entries_view(final(work)@))
            == apply_phase(phase, entries_map(entries_view(old(work)@)), actions_view(actions@)),
{
    let ghost m0 = entries_map(entries_view(work@));
    let ghost acts = actions_view(actions@);
    let mut i: usize = 0;
    assert(acts.take(0) =~= Seq::<(Seq<u8>, EntryActionView)>::empty());
    while i < actions.len()
        invariant
            0 <= i <= actions@.len(),
            acts == actions_view(actions@),
            m0 == entries_map(entries_view(old(work)@)),
            acts.len() == actions@.len(),
            distinct_action_keys(acts),
            keys_sorted(entries_view(work@)),
            entries_map(entries_view(work@)) == apply_phase(phase, m0, acts.take(i as int)),
            phase_error(phase, m0, acts.take(i as int)) is None,
        decreases actions@.len() - i,
    {
        let ghost cur = entries_map(entries_view(work@));
        let ghost t = acts.take(i + 1);
        proof {
            assert(t.drop_last() =~= acts.take(i as int));
            assert(t.last() == acts[i as int]);
            assert(acts[i as int] == (actions@[i as int].0@, actions@[i as int].1@));
            let k = acts[i as int].0;
            let tk = acts.take(i as int);
            assert forall|j: int| 0 <= j < tk.len() && (#[trigger] tk[j]).0 == k implies !kind_of(phase, tk[j].1) by {
                assert(tk[j] == acts[j]);
            }
            lemma_apply_phase_agrees(phase, m0, tk, k);
        }
        let key = &actions[i].0;
        let err: Option<RoutingError> = match (&phase, &actions[i].1) {
            (Phase::Inserting, EntryAction::Ins(v)) => {
                let idx = find_entry(work, key);
                if idx < work.len() {
                    Some(RoutingError::EntryAlreadyExist)
                } else {
                    insert_entry(work, copy_bytes(key), v.clone());
                    None
                }
            },
            (Phase::Updating, EntryAction::Update(v)) => {
                let idx = find_entry(work, key);
                if idx == work.len() {
                    Some(RoutingError::EntryNotFound)
                } else {
                    proof {
                        lemma_entries_map(entries_view(work@));
                        assert(entries_view(work@)[idx as int] == (work@[idx as int].0@, work@[idx as int].1@));
                    }
                    let current = work[idx].1.entry_version;
                    if current == u64::MAX || v.entry_version != current + 1 {
                        Some(RoutingError::InvalidSuccessor)
                    } else {
                        replace_entry(work, idx, v.clone());
                        None
                    }
                }
            },
            (Phase::Deleting, EntryAction::Del(version)) => {
                let idx = find_entry(work, key);
                if idx == work.len() {
                    Some(RoutingError::EntryNotFound)
                } else {
                    proof {
                        lemma_entries_map(entries_view(work@));
                        assert(entries_view(work@)[idx as int] == (work@[idx as int].0@, work@[idx as int].1@));
                    }
                    let current = work[idx].1.entry_version;
                    if current == u64::MAX || *version != current + 1 {
                        Some(RoutingError::InvalidSuccessor)
                    } else {
                        remove_entry(work, idx);
                        None
                    }
                }
            },
            _ => None,
        };
        proof {
            assert(err == step_error(phase, cur, acts[i as int]));
            assert(phase_error(phase, m0, t) == err);
        }
        if err.is_some() {
            proof {
                lemma_phase_error_prefix(phase, m0, acts, i + 1);
            }
            return err;
        }
        i = i + 1;
    }
    proof {
        assert(acts.take(actions@.len() as int) =~= acts);
    }
    None
}

// ------------------------------------------------------------------------------------------
// Serialised size
// ------------------------------------------------------------------------------------------

/// Serialised size of a value: its content with a 64 bit length, then its version.
pub open spec fn value_size(v: ValueView) -> int {
    (8 + v.content.len() + 8) as int
}

/// Serialised size of the entries, each key with a 64 bit length followed by its value.
pub open spec fn entries_size(s: Seq<(Seq<u8>, ValueView)>) -> int
    decreases s.len(),
{
    if s.len() == 0 {
        0
    } else {
        entries_size(s.drop_last()) + 8 + s.last().0.len() + value_size(s.last().1)
    }
}

/// Serialised size of a user: a 32 bit tag, then the key with a 64 bit length.
pub open spec fn user_size(u: User) -> int {
    match u {
        User::Anyone => 4,
        User::Key(_) => 44,
    }
}

/// Serialised size of a permission set: a 64 bit length, then each set action (32 bit tag)
/// with its flag.
pub open spec fn permission_set_size(p: PermissionSet) -> int {
    8 + 5 * p.count_set()
}

/// Serialised size of the permissions.
pub open spec fn permissions_size(s: Seq<(User, PermissionSet)>) -> int
    decreases s.len(),
{
    if s.len() == 0 {
        0
    } else {
        permissions_size(s.drop_last()) + user_size(s.last().0) + permission_set_size(s.last().1)
    }
}

/// Serialised size of mutable data with these entries, permissions and number of owners: the
/// 32 byte name, the tag, the entries, the permissions and the version, then the owners'
/// keys; collections carry a 64 bit length.
pub open spec fn size_of_parts(entries: Seq<(Seq<u8>, ValueView)>, permissions: Seq<(User, PermissionSet)>, owners: int) -> int {
    32 + 8 + 8 + entries_size(entries) + 8 + permissions_size(permissions) + 8 + 8 + 40 * owners
}

proof fn lemma_entries_size_prefix(s: Seq<(Seq<u8>, ValueView)>, i: int)
    requires
        0 <= i <= s.len(),
    ensures
        entries_size(s.take(i)) <= entries_size(s),
    decreases s.len() - i,
{
    if i < s.len() {
        let t = s.take(i + 1);
        assert(t.drop_last() =~= s.take(i));
        lemma_entries_size_prefix(s, i + 1);
    } else {
        assert(s.take(i) =~= s);
    }
}

proof fn lemma_permissions_size_prefix(s: Seq<(User, PermissionSet)>, i: int)
    requires
        0 <= i <= s.len(),
    ensures
        0 <= permissions_size(s.take(i)) <= permissions_size(s),
    decreases s.len() - i,
{
    lemma_sizes_nonneg(Seq::empty(), s.take(i));
    if i < s.len() {
        let t = s.take(i + 1);
        assert(t.drop_last() =~= s.take(i));
        lemma_permissions_size_prefix(s, i + 1);
    } else {
        assert(s.take(i) =~= s);
    }
}

proof fn lemma_sizes_nonneg(e: Seq<(Seq<u8>, ValueView)>, p: Seq<(User, PermissionSet)>)
    ensures
        entries_size(e) >= 0,
        permissions_size(p) >= 0,
    decreases e.len() + p.len(),
{
    if e.len() > 0 {
        lemma_sizes_nonneg(e.drop_last(), p);
    }
    if p.len() > 0 {
        lemma_sizes_nonneg(e, p.drop_last());
    }
}

impl PermissionSet {
    fn count(&self) -> (r: u64)
        ensures
            r == self.count_set(),
    {
        let mut n: u64 = 0;
        if self.insert.is_some() {
            n = n + 1;
        }
        if self.update.is_some() {
            n = n + 1;
        }
        if self.delete.is_some() {
            n = n + 1;
        }
        if self.manage_permission.is_some() {
            n = n + 1;
        }
        n
    }
}

/// Whether mutable data with these parts serialises to at most `limit` bytes.
fn size_at_most(data: &Vec<(Vec<u8>, Value)>, permissions: &Vec<(User, PermissionSet)>, owners: usize, limit: u64) -> (r: bool)
    ensures
        r == (size_of_parts(entries_view(data@), permissions@, owners as int) <= limit),
{
    let ghost e = entries_view(data@);
    let ghost p = permissions@;
    proof {
        lemma_sizes_nonneg(e, p);
    }
    let mut total: u128 = 32 + 8 + 8 + 8 + 8 + 8 + 40 * (owners as u128);
    if total > limit as u128 {
        return false;
    }
    let mut i: usize = 0;
    assert(e.take(0) =~= Seq::<(Seq<u8>, ValueView)>::empty());
    while i < data.len()
        invariant
            0 <= i <= data@.len(),
            e == entries_view(data@),
            p == permissions@,
            e.len() == data@.len(),
            total <= limit,
            total == 72 + 40 * owners + entries_size(e.take(i as int)),
            entries_size(e) >= 0,
            permissions_size(p) >= 0,
        decreases data@.len() - i,
    {
        proof {
            let t = e.take(i + 1);
            assert(t.drop_last() =~= e.take(i as int));
            assert(t.last() == e[i as int]);
            assert(e[i as int] == (data@[i as int].0@, data@[i as int].1@));
        }
        let x: u128 = 24 + data[i].0.len() as u128 + data[i].1.content.len() as u128;
        total = total + x;
        if total > limit as u128 {
            proof {
                lemma_entries_size_prefix(e, i + 1);
                assert(entries_size(e.take(i + 1)) == entries_size(e.take(i as int)) + x);
            }
            return false;
        }
        i = i + 1;
    }
    assert(e.take(data@.len() as int) =~= e);
    let mut j: usize = 0;
    assert(p.take(0) =~= Seq::<(User, PermissionSet)>::empty());
    while j < permissions.len()
        invariant
            0 <= j <= permissions@.len(),
            p == permissions@,
            e == entries_view(data@),
            total <= limit,
            total == 72 + 40 * owners + entries_size(e) + permissions_size(p.take(j as int)),
            entries_size(e) >= 0,
            permissions_size(p) >= 0,
        decreases permissions@.len() - j,
    {
        proof {
            let t = p.take(j + 1);
            assert(t.drop_last() =~= p.take(j as int));
            assert(t.last() == p[j as int]);
        }
        let user_bytes: u128 = match permissions[j].0 {
            User::Anyone => 4,
            User::Key(_) => 44,
        };
        let c = permissions[j].1.count();
        total = total + user_bytes + 8 + 5 * (c as u128);
        if total > limit as u128 {
            proof {
                lemma_permissions_size_prefix(p, j + 1);
                assert(permissions_size(p.take(j + 1)) == permissions_size(p.take(j as int)) + user_bytes + 8 + 5 * c);
            }
            return false;
        }
        j = j + 1;
    }
    assert(p.take(permissions@.len() as int) =~= p);
    true
}


// ------------------------------------------------------------------------------------------
// Sorted entries are determined by their map
// ------------------------------------------------------------------------------------------

/// The entries of `m` in key order.
pub open spec fn sorted_entries(m: Map<Seq<u8>, ValueView>) -> Seq<(Seq<u8>, ValueView)> {
    choose|s: Seq<(Seq<u8>, ValueView)>| keys_sorted(s) && entries_map(s) == m
}

/// Two sequences of entries in key order with the same map are the same sequence.
proof fn lemma_sorted_unique(s: Seq<(Seq<u8>, ValueView)>, t: Seq<(Seq<u8>, ValueView)>)
    requires
        keys_sorted(s),
        keys_sorted(t),
        entries_map(s) == entries_map(t),
    ensures
        s == t,
    decreases s.len(),
{
    lemma_entries_map(s);
    lemma_entries_map(t);
    if s.len() == 0 {
        if t.len() > 0 {
            assert(entries_map(t).contains_key(t[0].0));
        }
        assert(s =~= t);
    } else {
        assert(entries_map(s).contains_key(s[0].0));
        let j = choose|j: int| 0 <= j < t.len() && t[j].0 == s[0].0;
        assert(entries_map(t).contains_key(t[0].0));
        let i = choose|i: int| 0 <= i < s.len() && s[i].0 == t[0].0;
        if i > 0 {
            assert(bytes_lt(s[0].0, s[i].0));
            if j > 0 {
                assert(bytes_lt(t[0].0, t[j].0));
                lemma_bytes_lt_asymmetric(s[0].0, t[0].0);
            } else {
                lemma_bytes_lt_irreflexive(s[0].0);
            }
        }
        assert(s[0].0 == t[0].0);
        assert(s[0].1 == entries_map(s)[s[0].0]);
        assert(t[0].1 == entries_map(t)[t[0].0]);
        lemma_entries_map_remove(s, 0);
        lemma_entries_map_remove(t, 0);
        lemma_sorted_unique(s.remove(0), t.remove(0));
        assert forall|k: int| 0 <= k < s.len() implies s[k] == t[k] by {
            if k > 0 {
                assert(s[k] == s.remove(0)[k - 1]);
                assert(t[k] == t.remove(0)[k - 1]);
            }
        }
        assert(s =~= t);
    }
}

/// A sequence of entries in key order is the sorted form of its map.
pub proof fn lemma_sorted_entries(s: Seq<(Seq<u8>, ValueView)>)
    requires
        keys_sorted(s),
    ensures
        sorted_entries(entries_map(s)) == s,
{
    let c = sorted_entries(entries_map(s));
    assert(keys_sorted(c) && entries_map(c) == entries_map(s));
    lemma_sorted_unique(c, s);
}

/// The map of entries in key order is finite and has one key per entry.
proof fn lemma_entries_map_len(s: Seq<(Seq<u8>, ValueView)>)
    requires
        keys_sorted(s),
    ensures
        entries_map(s).dom().finite(),
        entries_map(s).len() == s.len(),
    decreases s.len(),
{
    if s.len() > 0 {
        let p = s.drop_last();
        assert(keys_sorted(p)) by {
            assert forall|i: int, j: int| 0 <= i < j < p.len() implies #[trigger] bytes_lt(
                p[i].0,
                p[j].0,
            ) by {
                assert(p[i] == s[i] && p[j] == s[j]);
            }
        }
        lemma_entries_map_len(p);
        lemma_entries_map(p);
        if entries_map(p).contains_key(s.last().0) {
            let i = choose|i: int| 0 <= i < p.len() && p[i].0 == s.last().0;
            assert(p[i] == s[i]);
            lemma_sorted_distinct(s, i, s.len() - 1);
        }
    }
}

// ------------------------------------------------------------------------------------------
// Owners and user permissions
// ------------------------------------------------------------------------------------------

/// No user occurs twice.
pub open spec fn users_distinct(s: Seq<(User, PermissionSet)>) -> bool {
    forall|i: int, j: int| 0 <= i < s.len() && 0 <= j < s.len() && i != j ==> s[i].0 != s[j].0
}

/// Whether `u` has permissions set.
pub open spec fn has_user(s: Seq<(User, PermissionSet)>, u: User) -> bool {
    exists|i: int| 0 <= i < s.len() && s[i].0 == u
}

/// Where the permissions of `u` stand.
pub open spec fn user_index(s: Seq<(User, PermissionSet)>, u: User) -> int {
    choose|i: int| 0 <= i < s.len() && s[i].0 == u
}

/// The permissions set for `u`, if any.
pub open spec fn user_permissions(s: Seq<(User, PermissionSet)>, u: User) -> Option<PermissionSet> {
    if has_user(s, u) {
        Some(s[user_index(s, u)].1)
    } else {
        None
    }
}

/// The permissions after those of `u` are set to `p`: replaced in place where `u` has some,
/// otherwise added last.
pub open spec fn with_user_permissions(s: Seq<(User, PermissionSet)>, u: User, p: PermissionSet) -> Seq<(User, PermissionSet)> {
    if has_user(s, u) {
        s.update(user_index(s, u), (u, p))
    } else {
        s.push((u, p))
    }
}

/// The permissions after those of `u` are removed.
pub open spec fn without_user_permissions(s: Seq<(User, PermissionSet)>, u: User) -> Seq<(User, PermissionSet)> {
    if has_user(s, u) {
        s.remove(user_index(s, u))
    } else {
        s
    }
}

/// Where the permissions of `u` stand, or the length if `u` has none.
fn find_user(perms: &Vec<(User, PermissionSet)>, u: &User) -> (r: usize)
    requires
        users_distinct(perms@),
    ensures
        r <= perms@.len(),
        r == perms@.len() <==> !has_user(perms@, *u),
        r < perms@.len() ==> r == user_index(perms@, *u) && perms@[r as int].0 == *u,
{
    let mut i: usize = 0;
    while i < perms.len()
        invariant
            0 <= i <= perms@.len(),
            users_distinct(perms@),
            forall|j: int| 0 <= j < i ==> (#[trigger] perms@[j]).0 != *u,
        decreases perms@.len() - i,
    {
        if users_equal(&perms[i].0, u) {
            proof {
                assert(perms@[i as int].0 == *u);
                assert(has_user(perms@, *u));
                let c = user_index(perms@, *u);
                assert(perms@[c].0 == *u);
            }
            return i;
        }
        i = i + 1;
    }
    proof {
        if has_user(perms@, *u) {
            let c = user_index(perms@, *u);
            assert(perms@[c].0 == *u);
        }
    }
    i
}

/// Law: setting the permissions of a user keeps one set per user; reading them back gives
/// what was set, and those of every other user are as they were.
pub proof fn law_set_user_permissions(s: Seq<(User, PermissionSet)>, u: User, p: PermissionSet)
    requires
        users_distinct(s),
    ensures
        users_distinct(with_user_permissions(s, u, p)),
        user_permissions(with_user_permissions(s, u, p), u) == Some(p),
        forall|w: User|
            w != u ==> #[trigger] user_permissions(with_user_permissions(s, u, p), w)
                == user_permissions(s, w),
{
    let t = with_user_permissions(s, u, p);
    let k = if has_user(s, u) {
        user_index(s, u)
    } else {
        s.len() as int
    };
    if has_user(s, u) {
        assert(s[k].0 == u);
    }
    assert(t[k].0 == u);
    assert forall|i: int| 0 <= i < t.len() && i != k implies (#[trigger] t[i]) == s[i] && s[i].0 != u by {
        if has_user(s, u) && s[i].0 == u {
            assert(s[k].0 == u);
        }
    }
    assert(users_distinct(t)) by {
        assert forall|i: int, j: int| 0 <= i < t.len() && 0 <= j < t.len() && i != j implies t[i].0
            != t[j].0 by {
            if i != k && j != k {
                assert(t[i] == s[i] && t[j] == s[j]);
            }
        }
    }
    assert(has_user(t, u));
    assert(t[user_index(t, u)].0 == u);
    assert forall|w: User| w != u implies #[trigger] user_permissions(t, w) == user_permissions(s, w) by {
        if has_user(s, w) {
            let i = user_index(s, w);
            assert(s[i].0 == w);
            assert(t[i] == s[i]);
            assert(has_user(t, w));
            assert(t[user_index(t, w)].0 == w);
        }
        if has_user(t, w) {
            let j = user_index(t, w);
            assert(t[j].0 == w);
            assert(t[j] == s[j]);
            assert(has_user(s, w));
        }
    }
}

/// Law: removing the permissions of a user keeps one set per user; that user then has none,
/// and every other user has what it had.
pub proof fn law_del_user_permissions(s: Seq<(User, PermissionSet)>, u: User)
    requires
        users_distinct(s),
    ensures
        users_distinct(without_user_permissions(s, u)),
        user_permissions(without_user_permissions(s, u), u) is None,
        forall|w: User|
            w != u ==> #[trigger] user_permissions(without_user_permissions(s, u), w)
                == user_permissions(s, w),
{
    let t = without_user_permissions(s, u);
    if has_user(s, u) {
        let k = user_index(s, u);
        assert(s[k].0 == u);
        assert forall|i: int| 0 <= i < t.len() implies (#[trigger] t[i]) == s[if i < k { i } else { i + 1 }] by {}
        assert(users_distinct(t)) by {
            assert forall|i: int, j: int| 0 <= i < t.len() && 0 <= j < t.len() && i != j implies t[i].0
                != t[j].0 by {
                let i2 = if i < k { i } else { i + 1 };
                let j2 = if j < k { j } else { j + 1 };
                assert(t[i] == s[i2] && t[j] == s[j2]);
            }
        }
        assert(!has_user(t, u)) by {
            if has_user(t, u) {
                let j = user_index(t, u);
                let j2 = if j < k { j } else { j + 1 };
                assert(t[j] == s[j2]);
            }
        }
        assert forall|w: User| w != u implies #[trigger] user_permissions(t, w) == user_permissions(s, w) by {
            if has_user(s, w) {
                let i = user_index(s, w);
                assert(s[i].0 == w);
                let i1 = if i < k { i } else { i - 1 };
                assert(t[i1] == s[i]);
                assert(has_user(t, w));
                let j = user_index(t, w);
                let j2 = if j < k { j } else { j + 1 };
                assert(t[j] == s[j2]);
            }
            if has_user(t, w) {
                let j = user_index(t, w);
                let j2 = if j < k { j } else { j + 1 };
                assert(t[j] == s[j2]);
                assert(has_user(s, w));
            }
        }
    }
}

// ------------------------------------------------------------------------------------------
// Mutable data
// ------------------------------------------------------------------------------------------

/// Mutable data: entries under arbitrary keys, the permissions of users, and its owners.
pub struct MutableData {
    /// Network address.
    name: xor_name::XorName,
    /// Type tag.
    tag: u64,
    /// The entries, in key order.
    data: Vec<(Vec<u8>, Value)>,
    /// The permissions of each user, one element per user.
    permissions: Vec<(User, PermissionSet)>,
    /// Version of the fields other than the entries.
    version: u64,
    /// Those who may change the permissions; at most one.
    owners: Vec<PublicSignKey>,
}

/// What mutable data is.
pub struct MutableDataView {
    pub name: xor_name::XorName,
    pub tag: u64,
    pub entries: Map<Seq<u8>, ValueView>,
    pub permissions: Seq<(User, PermissionSet)>,
    pub version: u64,
    pub owners: Seq<PublicSignKey>,
}

impl View for MutableData {
    type V = MutableDataView;

    closed spec fn view(&self) -> MutableDataView {
        MutableDataView {
            name: self.name,
            tag: self.tag,
            entries: entries_map(entries_view(self.data@)),
            permissions: self.permissions@,
            version: self.version,
            owners: self.owners@,
        }
    }
}

/// Serialised size of mutable data.
pub open spec fn mdata_size(v: MutableDataView) -> int {
    size_of_parts(sorted_entries(v.entries), v.permissions, v.owners.len() as int)
}

/// Whether the permissions of anyone allow `action`.
pub open spec fn anyone_may(perms: Seq<(User, PermissionSet)>, action: Action) -> bool {
    match user_permissions(perms, User::Anyone) {
        Some(p) => p.get_spec(action) == Some(true),
        None => false,
    }
}

/// Whether `requester` may perform `action`: an owner may do anything; otherwise the
/// requester's own permissions decide, and where they say nothing, those of anyone.
pub open spec fn action_allowed(v: MutableDataView, requester: PublicSignKey, action: Action) -> bool {
    if v.owners.contains(requester) {
        true
    } else {
        match user_permissions(v.permissions, User::Key(requester)) {
            Some(p) => match p.get_spec(action) {
                Some(b) => b,
                None => anyone_may(v.permissions, action),
            },
            None => anyone_may(v.permissions, action),
        }
    }
}

/// The keys of the actions are in strictly increasing order.
pub open spec fn actions_sorted(a: Seq<(Seq<u8>, EntryActionView)>) -> bool {
    forall|i: int, j: int| 0 <= i < j < a.len() ==> #[trigger] bytes_lt(a[i].0, a[j].0)
}

/// The outcome of applying `acts` to `v` on behalf of `requester`: the new entries, or the error.
pub open spec fn mutation_result(v: MutableDataView, acts: Seq<(Seq<u8>, EntryActionView)>, requester: PublicSignKey) -> Result<Map<Seq<u8>, ValueView>, RoutingError> {
    let ins = has_kind(acts, Phase::Inserting);
    let upd = has_kind(acts, Phase::Updating);
    let del = has_kind(acts, Phase::Deleting);
    let m1 = apply_phase(Phase::Inserting, v.entries, acts);
    let m2 = apply_phase(Phase::Updating, m1, acts);
    let m3 = apply_phase(Phase::Deleting, m2, acts);
    if (ins && !action_allowed(v, requester, Action::Insert)) || (upd && !action_allowed(
        v,
        requester,
        Action::Update,
    )) || (del && !action_allowed(v, requester, Action::Delete)) {
        Err(RoutingError::AccessDenied)
    } else if (ins || upd) && v.entries.len() > MAX_MUTABLE_DATA_ENTRIES {
        Err(RoutingError::TooManyEntries)
    } else if phase_error(Phase::Inserting, v.entries, acts) is Some {
        Err(phase_error(Phase::Inserting, v.entries, acts).unwrap())
    } else if phase_error(Phase::Updating, m1, acts) is Some {
        Err(phase_error(Phase::Updating, m1, acts).unwrap())
    } else if phase_error(Phase::Deleting, m2, acts) is Some {
        Err(phase_error(Phase::Deleting, m2, acts).unwrap())
    } else if mdata_size(MutableDataView { entries: m3, ..v }) > 2 * MAX_MUTABLE_DATA_SIZE_IN_BYTES {
        Err(RoutingError::ExceededSizeLimit)
    } else {
        Ok(m3)
    }
}

/// Mutable data as created from its parts, at version 0.
pub open spec fn created_view(name: xor_name::XorName, tag: u64, permissions: Seq<(User, PermissionSet)>, data: Seq<(Seq<u8>, ValueView)>, owners: Seq<PublicSignKey>) -> MutableDataView {
    MutableDataView {
        name: name,
        tag: tag,
        entries: entries_map(data),
        permissions: permissions,
        version: 0,
        owners: owners,
    }
}

/// Whether some action belongs to the phase.
fn has_action_kind(actions: &Vec<(Vec<u8>, EntryAction)>, phase: Phase) -> (r: bool)
    ensures
        r == has_kind(actions_view(actions@), phase),
{
    let ghost acts = actions_view(actions@);
    let mut i: usize = 0;
    while i < actions.len()
        invariant
            0 <= i <= actions@.len(),
            acts == actions_view(actions@),
            forall|j: int| 0 <= j < i ==> !kind_of(phase, (#[trigger] acts[j]).1),
        decreases actions@.len() - i,
    {
        proof {
            assert(acts[i as int] == (actions@[i as int].0@, actions@[i as int].1@));
        }
        let found = match (&phase, &actions[i].1) {
            (Phase::Inserting, EntryAction::Ins(_)) => true,
            (Phase::Updating, EntryAction::Update(_)) => true,
            (Phase::Deleting, EntryAction::Del(_)) => true,
            _ => false,
        };
        if found {
            assert(kind_of(phase, acts[i as int].1));
            return true;
        }
        i = i + 1;
    }
    false
}

impl MutableData {
    /// The stored entries are in key order, each user has one set of permissions, and there is
    /// at most one owner.
    pub closed spec fn wf(&self) -> bool {
        &&& keys_sorted(entries_view(self.data@))
        &&& users_distinct(self.permissions@)
        &&& self.owners@.len() <= 1
    }

    /// Creates new mutable data at version 0.  `data` is in key order, each user has one set
    /// of permissions and no owner occurs twice.
    pub fn new(
        name: xor_name::XorName,
        tag: u64,
        permissions: Vec<(User, PermissionSet)>,
        data: Vec<(Vec<u8>, Value)>,
        owners: Vec<PublicSignKey>,
    ) -> (r: Result<MutableData, RoutingError>)
        requires
            keys_sorted(entries_view(data@)),
            users_distinct(permissions@),
            owners@.no_duplicates(),
        ensures
            owners@.len() > 1 ==> r == Err::<MutableData, RoutingError>(RoutingError::InvalidOwners),
            owners@.len() <= 1 && data@.len() > MAX_MUTABLE_DATA_ENTRIES ==> r == Err::<
                MutableData,
                RoutingError,
            >(RoutingError::TooManyEntries),
            owners@.len() <= 1 && data@.len() <= MAX_MUTABLE_DATA_ENTRIES ==> {
                let v = created_view(name, tag, permissions@, entries_view(data@), owners@);
                if mdata_size(v) > MAX_MUTABLE_DATA_SIZE_IN_BYTES {
                    r == Err::<MutableData, RoutingError>(RoutingError::ExceededSizeLimit)
                } else {
                    r is Ok && r->Ok_0@ == v && r->Ok_0.wf()
                }
            },
    {
        if owners.len() > 1 {
            return Err(RoutingError::InvalidOwners);
        }
        if data.len() >= (MAX_MUTABLE_DATA_ENTRIES + 1) as usize {
            return Err(RoutingError::TooManyEntries);
        }
        let md = MutableData {
            name: name,
            tag: tag,
            data: data,
            permissions: permissions,
            version: 0,
            owners: owners,
        };
        proof {
            lemma_sorted_entries(entries_view(md.data@));
        }
        if !size_at_most(&md.data, &md.permissions, md.owners.len(), MAX_MUTABLE_DATA_SIZE_IN_BYTES) {
            return Err(RoutingError::ExceededSizeLimit);
        }
        Ok(md)
    }

    /// Returns the name.
    pub fn name(&self) -> (r: &xor_name::XorName)
        ensures
            *r == self@.name,
    {
        &self.name
    }

    /// Returns the type tag.
    pub fn tag(&self) -> (r: u64)
        ensures
            r == self@.tag,
    {
        self.tag
    }

    /// Returns the current version.
    pub fn version(&self) -> (r: u64)
        ensures
            r == self@.version,
    {
        self.version
    }

    /// Returns the value under `key`, if any.
    pub fn get(&self, key: &Vec<u8>) -> (r: Option<&Value>)
        requires
            self.wf(),
        ensures
            match r {
                Some(v) => self@.entries.contains_key(key@) && v@ == self@.entries[key@],
                None => !self@.entries.contains_key(key@),
            },
    {
        let i = find_entry(&self.data, key);
        if i < self.data.len() {
            proof {
                lemma_entries_map(entries_view(self.data@));
                assert(entries_view(self.data@)[i as int] == (self.data@[i as int].0@, self.data@[i as int].1@));
            }
            Some(&self.data[i].1)
        } else {
            None
        }
    }

    /// Returns the keys of all entries, in key order.
    pub fn keys(&self) -> (r: Vec<Vec<u8>>)
        requires
            self.wf(),
        ensures
            r@.len() == sorted_entries(self@.entries).len(),
            forall|i: int| 0 <= i < r@.len() ==> (#[trigger] r@[i])@ == sorted_entries(self@.entries)[i].0,
    {
        proof {
            lemma_sorted_entries(entries_view(self.data@));
        }
        let ghost s = entries_view(self.data@);
        let mut r: Vec<Vec<u8>> = Vec::new();
        let mut i: usize = 0;
        while i < self.data.len()
            invariant
                0 <= i <= self.data@.len(),
                s == entries_view(self.data@),
                r@.len() == i,
                forall|j: int| 0 <= j < i ==> (#[trigger] r@[j])@ == s[j].0,
            decreases self.data@.len() - i,
        {
            proof {
                assert(s[i as int] == (self.data@[i as int].0@, self.data@[i as int].1@));
            }
            r.push(copy_bytes(&self.data[i].0));
            i = i + 1;
        }
        r
    }

    /// Returns the values of all entries, in key order.
    pub fn values(&self) -> (r: Vec<Value>)
        requires
            self.wf(),
        ensures
            r@.len() == sorted_entries(self@.entries).len(),
            forall|i: int| 0 <= i < r@.len() ==> (#[trigger] r@[i])@ == sorted_entries(self@.entries)[i].1,
    {
        proof {
            lemma_sorted_entries(entries_view(self.data@));
        }
        let ghost s = entries_view(self.data@);
        let mut r: Vec<Value> = Vec::new();
        let mut i: usize = 0;
        while i < self.data.len()
            invariant
                0 <= i <= self.data@.len(),
                s == entries_view(self.data@),
                r@.len() == i,
                forall|j: int| 0 <= j < i ==> (#[trigger] r@[j])@ == s[j].1,
            decreases self.data@.len() - i,
        {
            proof {
                assert(s[i as int] == (self.data@[i as int].0@, self.data@[i as int].1@));
            }
            r.push(self.data[i].1.clone());
            i = i + 1;
        }
        r
    }

    /// Returns all entries, in key order.
    pub fn entries(&self) -> (r: &Vec<(Vec<u8>, Value)>)
        requires
            self.wf(),
        ensures
            entries_view(r@) == sorted_entries(self@.entries),
    {
        proof {
            lemma_sorted_entries(entries_view(self.data@));
        }
        &self.data
    }

    /// Whether `requester` is an owner.
    fn is_owner(&self, requester: &PublicSignKey) -> (r: bool)
        ensures
            r == self@.owners.contains(*requester),
    {
        let mut i: usize = 0;
        while i < self.owners.len()
            invariant
                0 <= i <= self.owners@.len(),
                forall|j: int| 0 <= j < i ==> self.owners@[j] != *requester,
            decreases self.owners@.len() - i,
        {
            if same_sign_key(&self.owners[i], requester) {
                assert(self.owners@[i as int] == *requester);
                return true;
            }
            i = i + 1;
        }
        false
    }

    /// Whether the permissions of anyone allow `action`.
    fn check_anyone_permissions(&self, action: Action) -> (r: bool)
        requires
            self.wf(),
        ensures
            r == anyone_may(self@.permissions, action),
    {
        let i = find_user(&self.permissions, &User::Anyone);
        if i < self.permissions.len() {
            match self.permissions[i].1.is_allowed(action) {
                Some(b) => b,
                None => false,
            }
        } else {
            false
        }
    }

    /// Whether `requester` may perform `action`.
    fn is_action_allowed(&self, requester: PublicSignKey, action: Action) -> (r: bool)
        requires
            self.wf(),
        ensures
            r == action_allowed(self@, requester, action),
    {
        if self.is_owner(&requester) {
            return true;
        }
        let i = find_user(&self.permissions, &User::Key(requester));
        if i < self.permissions.len() {
            match self.permissions[i].1.is_allowed(action) {
                Some(b) => b,
                None => self.check_anyone_permissions(action),
            }
        } else {
            self.check_anyone_permissions(action)
        }
    }

    /// Applies entry actions in bulk: all inserts, then all updates, then all deletes, each
    /// in key order.  On any error nothing changes.  `actions` holds one action per key, in
    /// key order.
    pub fn mutate_entries(&mut self, actions: Vec<(Vec<u8>, EntryAction)>, requester: PublicSignKey) -> (r: Result<(), RoutingError>)
        requires
            old(self).wf(),
            actions_sorted(actions_view(actions@)),
        ensures
            final(self).wf(),
            match mutation_result(old(self)@, actions_view(actions@), requester) {
                Ok(m) => r is Ok && final(self)@ == (MutableDataView { entries: m, ..old(self)@ }),
                Err(e) => r == Err::<(), RoutingError>(e) && final(self)@ == old(self)@,
            },
    {
        let ghost acts = actions_view(actions@);
        let ghost v0 = self@;
        proof {
            lemma_actions_distinct(acts);
            lemma_entries_map_len(entries_view(self.data@));
        }
        let ins = has_action_kind(&actions, Phase::Inserting);
        let upd = has_action_kind(&actions, Phase::Updating);
        let del = has_action_kind(&actions, Phase::Deleting);
        if (ins && !self.is_action_allowed(requester, Action::Insert)) || (upd
            && !self.is_action_allowed(requester, Action::Update)) || (del
            && !self.is_action_allowed(requester, Action::Delete)) {
            return Err(RoutingError::AccessDenied);
        }
        if (ins || upd) && self.data.len() > MAX_MUTABLE_DATA_ENTRIES as usize {
            return Err(RoutingError::TooManyEntries);
        }
        let mut work = copy_entries(&self.data);
        match run_phase(&mut work, &actions, Phase::Inserting) {
            Some(e) => {
                return Err(e);
            },
            None => {},
        }
        match run_phase(&mut work, &actions, Phase::Updating) {
            Some(e) => {
                return Err(e);
            },
            None => {},
        }
        match run_phase(&mut work, &actions, Phase::Deleting) {
            Some(e) => {
                return Err(e);
            },
            None => {},
        }
        proof {
            lemma_sorted_entries(entries_view(work@));
        }
        if !size_at_most(&work, &self.permissions, self.owners.len(), 2 * MAX_MUTABLE_DATA_SIZE_IN_BYTES) {
            return Err(RoutingError::ExceededSizeLimit);
        }
        self.data = work;
        Ok(())
    }

    /// Sets the permissions of `user`, replacing any it had; the version goes up by one.
    pub fn set_user_permissions(&mut self, user: User, permissions: PermissionSet, requester: PublicSignKey) -> (r: Result<(), RoutingError>)
        requires
            old(self).wf(),
            old(self)@.version < u64::MAX,
        ensures
            final(self).wf(),
            !action_allowed(old(self)@, requester, Action::ManagePermission) ==> r == Err::<
                (),
                RoutingError,
            >(RoutingError::AccessDenied) && final(self)@ == old(self)@,
            action_allowed(old(self)@, requester, Action::ManagePermission) ==> {
                let v = MutableDataView {
                    permissions: with_user_permissions(old(self)@.permissions, user, permissions),
                    version: (old(self)@.version + 1) as u64,
                    ..old(self)@
                };
                if mdata_size(v) > 2 * MAX_MUTABLE_DATA_SIZE_IN_BYTES {
                    r == Err::<(), RoutingError>(RoutingError::ExceededSizeLimit) && final(self)@ == old(self)@
                } else {
                    r is Ok && final(self)@ == v
                }
            },
    {
        if !self.is_action_allowed(requester, Action::ManagePermission) {
            return Err(RoutingError::AccessDenied);
        }
        let ghost before = self.permissions@;
        proof {
            law_set_user_permissions(before, user, permissions);
            lemma_sorted_entries(entries_view(self.data@));
        }
        let i = find_user(&self.permissions, &user);
        if i < self.permissions.len() {
            let prev = self.permissions[i];
            self.permissions.set(i, (user, permissions));
            assert(self.permissions@ =~= with_user_permissions(before, user, permissions));
            if !size_at_most(&self.data, &self.permissions, self.owners.len(), 2 * MAX_MUTABLE_DATA_SIZE_IN_BYTES) {
                self.permissions.set(i, prev);
                assert(self.permissions@ =~= before);
                return Err(RoutingError::ExceededSizeLimit);
            }
        } else {
            self.permissions.push((user, permissions));
            assert(self.permissions@ =~= with_user_permissions(before, user, permissions));
            if !size_at_most(&self.data, &self.permissions, self.owners.len(), 2 * MAX_MUTABLE_DATA_SIZE_IN_BYTES) {
                let _ = self.permissions.pop();
                assert(self.permissions@ =~= before);
                return Err(RoutingError::ExceededSizeLimit);
            }
        }
        self.version = self.version + 1;
        Ok(())
    }

    /// Removes the permissions of `user`; the version goes up by one.
    pub fn del_user_permissions(&mut self, user: &User, requester: PublicSignKey) -> (r: Result<(), RoutingError>)
        requires
            old(self).wf(),
            old(self)@.version < u64::MAX,
        ensures
            final(self).wf(),
            !action_allowed(old(self)@, requester, Action::ManagePermission) ==> r == Err::<
                (),
                RoutingError,
            >(RoutingError::AccessDenied) && final(self)@ == old(self)@,
            action_allowed(old(self)@, requester, Action::ManagePermission) && !has_user(
                old(self)@.permissions,
                *user,
            ) ==> r == Err::<(), RoutingError>(RoutingError::EntryNotFound) && final(self)@ == old(self)@,
            action_allowed(old(self)@, requester, Action::ManagePermission) && has_user(
                old(self)@.permissions,
                *user,
            ) ==> r is Ok && final(self)@ == (MutableDataView {
                permissions: without_user_permissions(old(self)@.permissions, *user),
                version: (old(self)@.version + 1) as u64,
                ..old(self)@
            }),
    {
        if !self.is_action_allowed(requester, Action::ManagePermission) {
            return Err(RoutingError::AccessDenied);
        }
        let ghost before = self.permissions@;
        proof {
            law_del_user_permissions(before, *user);
        }
        let i = find_user(&self.permissions, user);
        if i == self.permissions.len() {
            return Err(RoutingError::EntryNotFound);
        }
        let _ = self.permissions.remove(i);
        assert(self.permissions@ =~= without_user_permissions(before, *user));
        self.version = self.version + 1;
        Ok(())
    }

    /// Makes `new_owner` the only owner; the version goes up by one.  Only an owner may do so.
    pub fn change_owner(&mut self, new_owner: PublicSignKey, requester: PublicSignKey) -> (r: Result<(), RoutingError>)
        requires
            old(self).wf(),
            old(self)@.version < u64::MAX,
        ensures
            final(self).wf(),
            !old(self)@.owners.contains(requester) ==> r == Err::<(), RoutingError>(
                RoutingError::AccessDenied,
            ) && final(self)@ == old(self)@,
            old(self)@.owners.contains(requester) ==> r is Ok && final(self)@ == (MutableDataView {
                owners: seq![new_owner],
                version: (old(self)@.version + 1) as u64,
                ..old(self)@
            }),
    {
        if !self.is_owner(&requester) {
            return Err(RoutingError::AccessDenied);
        }
        self.owners.clear();
        self.owners.push(new_owner);
        assert(self.owners@ =~= seq![new_owner]);
        self.version = self.version + 1;
        Ok(())
    }

    /// Whether the serialised size is within the limit.
    pub fn validate_size(&self) -> (r: bool)
        requires
            self.wf(),
        ensures
            r == (mdata_size(self@) <= MAX_MUTABLE_DATA_SIZE_IN_BYTES),
    {
        proof {
            lemma_sorted_entries(entries_view(self.data@));
        }
        size_at_most(&self.data, &self.permissions, self.owners.len(), MAX_MUTABLE_DATA_SIZE_IN_BYTES)
    }
}


// ------------------------------------------------------------------------------------------
// Laws of mutable data
// ------------------------------------------------------------------------------------------

/// The one action of the phase on key `k` decides what the phase leaves under `k`.
proof fn lemma_apply_phase_hits(p: Phase, m: Map<Seq<u8>, ValueView>, acts: Seq<(Seq<u8>, EntryActionView)>, i: int)
    requires
        distinct_action_keys(acts),
        0 <= i < acts.len(),
        kind_of(p, acts[i].1),
    ensures
        match acts[i].1 {
            EntryActionView::Ins(x) => apply_phase(p, m, acts).contains_key(acts[i].0) && apply_phase(
                p,
                m,
                acts,
            )[acts[i].0] == x,
            EntryActionView::Update(x) => apply_phase(p, m, acts).contains_key(acts[i].0)
                && apply_phase(p, m, acts)[acts[i].0] == x,
            EntryActionView::Del(_) => !apply_phase(p, m, acts).contains_key(acts[i].0),
        },
    decreases acts.len(),
{
    let d = acts.drop_last();
    let last = acts.len() - 1;
    assert(acts.last() == acts[last]);
    if i < last {
        assert(distinct_action_keys(d)) by {
            assert forall|a: int, b: int| 0 <= a < d.len() && 0 <= b < d.len() && a != b implies d[a].0 != d[b].0 by {
                assert(d[a] == acts[a] && d[b] == acts[b]);
            }
        }
        assert(d[i] == acts[i]);
        lemma_apply_phase_hits(p, m, d, i);
        assert(acts[last].0 != acts[i].0);
    }
}

/// Law: who may perform an action.  An owner may do anything.  Otherwise a requester whose own
/// permission set says something of the action gets what it says, and one whose set says
/// nothing of it, or who has no set, gets what the permissions of anyone allow (nothing where
/// they say nothing or there are none).
pub proof fn law_permission_fallback(v: MutableDataView, requester: PublicSignKey, action: Action)
    ensures
        v.owners.contains(requester) ==> action_allowed(v, requester, action),
        !v.owners.contains(requester) && (user_permissions(v.permissions, User::Key(requester)) matches Some(p)
            && p.get_spec(action) is Some) ==> action_allowed(v, requester, action)
            == user_permissions(v.permissions, User::Key(requester))->Some_0.get_spec(action)->Some_0,
        !v.owners.contains(requester) && !(user_permissions(v.permissions, User::Key(requester)) matches Some(p)
            && p.get_spec(action) is Some) ==> action_allowed(v, requester, action) == (user_permissions(
            v.permissions,
            User::Anyone,
        ) matches Some(q) && q.get_spec(action) == Some(true)),
{
}

/// Law: an owner may perform every action.
pub proof fn law_owner_may_do_anything(v: MutableDataView, owner: PublicSignKey, action: Action)
    requires
        v.owners.contains(owner),
    ensures
        action_allowed(v, owner, action),
{
}

/// Law: after a successful mutation each key named by an action holds what the action wrote:
/// the inserted or updated value, or nothing once deleted.
pub proof fn law_mutation_writes(v: MutableDataView, acts: Seq<(Seq<u8>, EntryActionView)>, requester: PublicSignKey, i: int)
    requires
        actions_sorted(acts),
        mutation_result(v, acts, requester) is Ok,
        0 <= i < acts.len(),
    ensures
        match acts[i].1 {
            EntryActionView::Ins(x) => mutation_result(v, acts, requester)->Ok_0.contains_key(acts[i].0)
                && mutation_result(v, acts, requester)->Ok_0[acts[i].0] == x,
            EntryActionView::Update(x) => mutation_result(v, acts, requester)->Ok_0.contains_key(
                acts[i].0,
            ) && mutation_result(v, acts, requester)->Ok_0[acts[i].0] == x,
            EntryActionView::Del(_) => !mutation_result(v, acts, requester)->Ok_0.contains_key(
                acts[i].0,
            ),
        },
{
    lemma_actions_distinct(acts);
    let k = acts[i].0;
    let m1 = apply_phase(Phase::Inserting, v.entries, acts);
    let m2 = apply_phase(Phase::Updating, m1, acts);
    assert forall|j: int| 0 <= j < acts.len() && (#[trigger] acts[j]).0 == k implies j == i by {}
    match acts[i].1 {
        EntryActionView::Ins(_) => {
            lemma_apply_phase_hits(Phase::Inserting, v.entries, acts, i);
            lemma_apply_phase_agrees(Phase::Updating, m1, acts, k);
            lemma_apply_phase_agrees(Phase::Deleting, m2, acts, k);
        },
        EntryActionView::Update(_) => {
            lemma_apply_phase_hits(Phase::Updating, m1, acts, i);
            lemma_apply_phase_agrees(Phase::Deleting, m2, acts, k);
        },
        EntryActionView::Del(_) => {
            lemma_apply_phase_hits(Phase::Deleting, m2, acts, i);
        },
    }
}

/// Law: a successful mutation leaves every key that no action names as it was.
pub proof fn law_mutation_keeps_others(v: MutableDataView, acts: Seq<(Seq<u8>, EntryActionView)>, requester: PublicSignKey, k: Seq<u8>)
    requires
        mutation_result(v, acts, requester) is Ok,
        forall|i: int| 0 <= i < acts.len() ==> (#[trigger] acts[i]).0 != k,
    ensures
        mutation_result(v, acts, requester)->Ok_0.contains_key(k) == v.entries.contains_key(k),
        v.entries.contains_key(k) ==> mutation_result(v, acts, requester)->Ok_0[k] == v.entries[k],
{
    let m1 = apply_phase(Phase::Inserting, v.entries, acts);
    let m2 = apply_phase(Phase::Updating, m1, acts);
    lemma_apply_phase_agrees(Phase::Inserting, v.entries, acts, k);
    lemma_apply_phase_agrees(Phase::Updating, m1, acts, k);
    lemma_apply_phase_agrees(Phase::Deleting, m2, acts, k);
}

/// Actions in strict key order name each key once.
proof fn lemma_actions_distinct(acts: Seq<(Seq<u8>, EntryActionView)>)
    requires
        actions_sorted(acts),
    ensures
        distinct_action_keys(acts),
{
    assert forall|i: int, j: int| 0 <= i < acts.len() && 0 <= j < acts.len() && i != j implies acts[i].0
        != acts[j].0 by {
        if i < j {
            assert(bytes_lt(acts[i].0, acts[j].0));
        } else {
            assert(bytes_lt(acts[j].0, acts[i].0));
        }
        if acts[i].0 == acts[j].0 {
            lemma_bytes_lt_irreflexive(acts[i].0);
        }
    }
}

/// In a phase that meets no error, no action of the phase meets one where it is applied, and
/// what it meets under its key is what the phase started from.
proof fn lemma_phase_ok_at(p: Phase, m: Map<Seq<u8>, ValueView>, acts: Seq<(Seq<u8>, EntryActionView)>, i: int)
    requires
        distinct_action_keys(acts),
        phase_error(p, m, acts) is None,
        0 <= i < acts.len(),
    ensures
        step_error(p, apply_phase(p, m, acts.take(i)), acts[i]) is None,
        apply_phase(p, m, acts.take(i)).contains_key(acts[i].0) == m.contains_key(acts[i].0),
        m.contains_key(acts[i].0) ==> apply_phase(p, m, acts.take(i))[acts[i].0] == m[acts[i].0],
    decreases acts.len(),
{
    let d = acts.drop_last();
    let last = acts.len() - 1;
    let t = acts.take(i);
    assert forall|j: int| 0 <= j < t.len() && (#[trigger] t[j]).0 == acts[i].0 implies !kind_of(p, t[j].1) by {
        assert(t[j] == acts[j]);
    }
    lemma_apply_phase_agrees(p, m, t, acts[i].0);
    if i == last {
        assert(t =~= d);
        assert(acts.last() == acts[i]);
    } else {
        assert(distinct_action_keys(d)) by {
            assert forall|a: int, b: int| 0 <= a < d.len() && 0 <= b < d.len() && a != b implies d[a].0 != d[b].0 by {
                assert(d[a] == acts[a] && d[b] == acts[b]);
            }
        }
        assert(d.take(i) =~= t);
        assert(d[i] == acts[i]);
        lemma_phase_ok_at(p, m, d, i);
    }
}

/// Law: a successful mutation updates or deletes an entry only with the successor of the
/// entry's version, and only an entry that was there.
pub proof fn law_mutation_versions_succeed(v: MutableDataView, acts: Seq<(Seq<u8>, EntryActionView)>, requester: PublicSignKey, i: int)
    requires
        actions_sorted(acts),
        mutation_result(v, acts, requester) is Ok,
        0 <= i < acts.len(),
    ensures
        match acts[i].1 {
            EntryActionView::Ins(_) => !v.entries.contains_key(acts[i].0),
            EntryActionView::Update(x) => v.entries.contains_key(acts[i].0) && x.entry_version
                == v.entries[acts[i].0].entry_version + 1,
            EntryActionView::Del(n) => v.entries.contains_key(acts[i].0) && n == v.entries[acts[i].0].entry_version
                + 1,
        },
{
    lemma_actions_distinct(acts);
    let k = acts[i].0;
    let m1 = apply_phase(Phase::Inserting, v.entries, acts);
    let m2 = apply_phase(Phase::Updating, m1, acts);
    assert forall|j: int| 0 <= j < acts.len() && (#[trigger] acts[j]).0 == k implies j == i by {}
    match acts[i].1 {
        EntryActionView::Ins(_) => {
            lemma_phase_ok_at(Phase::Inserting, v.entries, acts, i);
        },
        EntryActionView::Update(_) => {
            lemma_apply_phase_agrees(Phase::Inserting, v.entries, acts, k);
            lemma_phase_ok_at(Phase::Updating, m1, acts, i);
        },
        EntryActionView::Del(_) => {
            lemma_apply_phase_agrees(Phase::Inserting, v.entries, acts, k);
            lemma_apply_phase_agrees(Phase::Updating, m1, acts, k);
            lemma_phase_ok_at(Phase::Deleting, m2, acts, i);
        },
    }
}

} // verus!
