//! The list of requests awaiting an individual approval, kept sorted by
//! request id so one approval resolves in logarithmic time.
//!
//! Entries are pairs of a request id and a direction code. Ids are assigned
//! in increasing order and every entry is appended when its request enters,
//! so plain appends keep the list sorted.

use vstd::prelude::*;

use smallvec::SmallVec;

use crate::types::RequestDirection;

verus! {

/// Code for the direction an awaiting entry belongs to.
pub open spec fn spec_direction_code(d: RequestDirection) -> u64 {
    match d {
        RequestDirection::Inbound => 0,
        RequestDirection::Outbound => 1,
    }
}

/// The direction a code stands for (codes other than zero and one do not
/// occur).
pub open spec fn spec_code_direction(c: u64) -> RequestDirection {
    if c == 0 {
        RequestDirection::Inbound
    } else {
        RequestDirection::Outbound
    }
}

/// Code for the direction an awaiting entry belongs to.
pub fn direction_code(d: RequestDirection) -> (r: u64)
    ensures
        r == spec_direction_code(d),
{
    match d {
        RequestDirection::Inbound => 0,
        RequestDirection::Outbound => 1,
    }
}

/// The direction a code stands for.
pub fn code_direction(c: u64) -> (r: RequestDirection)
    ensures
        r == spec_code_direction(c),
{
    if c == 0 {
        RequestDirection::Inbound
    } else {
        RequestDirection::Outbound
    }
}

/// Backing store of the awaiting entries: a small vector that keeps a
/// handful of entries inline. Opaque to the verifier; what it holds is given
/// by [`approval_entries`].
#[verifier::external_body]
pub struct ApprovalVec {
    items: SmallVec<[(u64, u64); 10]>,
}

/// The entries a backing vector holds, in order: pairs of request id and
/// direction code.
pub uninterp spec fn approval_entries(v: ApprovalVec) -> Seq<(u64, u64)>;

/// Relies on smallvec::SmallVec::new: the fresh vector is empty.
#[verifier::external_body]
fn sv_new() -> (r: ApprovalVec)
    ensures
        approval_entries(r) == Seq::<(u64, u64)>::empty(),
{
    ApprovalVec { items: SmallVec::new() }
}

/// Relies on smallvec::SmallVec::len: the number of stored elements.
#[verifier::external_body]
fn sv_len(v: &ApprovalVec) -> (r: usize)
    ensures
        r == approval_entries(*v).len(),
{
    v.items.len()
}

/// Relies on the slice indexing that smallvec::SmallVec derefs to: the
/// element at the index.
#[verifier::external_body]
fn sv_get(v: &ApprovalVec, i: usize) -> (r: (u64, u64))
    requires
        i < approval_entries(*v).len(),
    ensures
        r == approval_entries(*v)[i as int],
{
    v.items[i]
}

/// Relies on smallvec::SmallVec::push: appends the element at the end.
#[verifier::external_body]
fn sv_push(v: &mut ApprovalVec, item: (u64, u64))
    ensures
        approval_entries(*final(v)) == approval_entries(*old(v)).push(item),
{
    v.items.push(item)
}

/// Relies on smallvec::SmallVec::insert: places the element at the index,
/// shifting later elements right.
#[verifier::external_body]
fn sv_insert(v: &mut ApprovalVec, i: usize, item: (u64, u64))
    requires
        i <= approval_entries(*old(v)).len(),
    ensures
        approval_entries(*final(v)) == approval_entries(*old(v)).insert(i as int, item),
{
    v.items.insert(i, item)
}

/// Relies on smallvec::SmallVec::remove: removes and returns the element at
/// the index, shifting later elements left.
#[verifier::external_body]
fn sv_remove(v: &mut ApprovalVec, i: usize) -> (r: (u64, u64))
    requires
        i < approval_entries(*old(v)).len(),
    ensures
        approval_entries(*final(v)) == approval_entries(*old(v)).remove(i as int),
        r == approval_entries(*old(v))[i as int],
{
    v.items.remove(i)
}

/// Whether the entries are strictly ascending in their request ids.
pub open spec fn sorted_by_id(s: Seq<(u64, u64)>) -> bool {
    forall|i: int, j: int| 0 <= i < j < s.len() ==> (#[trigger] s[i]).0 < (#[trigger] s[j]).0
}

/// The requests awaiting individual approval, sorted by request id.
pub struct ApprovalList {
    pub items: ApprovalVec,
}

impl View for ApprovalList {
    type V = Seq<(u64, u64)>;

    open spec fn view(&self) -> Seq<(u64, u64)> {
        approval_entries(self.items)
    }
}

impl ApprovalList {
    /// An empty list.
    pub fn new() -> (r: ApprovalList)
        ensures
            r@ == Seq::<(u64, u64)>::empty(),
    {
        ApprovalList { items: sv_new() }
    }

    /// The number of awaiting entries.
    pub fn len(&self) -> (r: usize)
        ensures
            r == self@.len(),
    {
        sv_len(&self.items)
    }

    /// The entry at position `i`.
    pub fn get(&self, i: usize) -> (r: (u64, u64))
        requires
            i < self@.len(),
        ensures
            r == self@[i as int],
    {
        sv_get(&self.items, i)
    }

    /// Append an entry at the end.
    pub fn push(&mut self, item: (u64, u64))
        ensures
            final(self)@ == old(self)@.push(item),
    {
        sv_push(&mut self.items, item)
    }

    /// Remove and return the entry at position `i`.
    pub fn remove(&mut self, i: usize) -> (r: (u64, u64))
        requires
            i < old(self)@.len(),
        ensures
            final(self)@ == old(self)@.remove(i as int),
            r == old(self)@[i as int],
    {
        sv_remove(&mut self.items, i)
    }

    /// Place an entry at its sorted position; an id that is already listed
    /// is left as it is.
    pub fn insert_sorted(&mut self, id: u64, code: u64) -> (inserted: bool)
        requires
            sorted_by_id(old(self)@),
        ensures
            sorted_by_id(final(self)@),
            inserted == !(exists|k: int|
                0 <= k < old(self)@.len() && (#[trigger] old(self)@[k]).0 == id),
            !inserted ==> final(self)@ == old(self)@,
            forall|a: (u64, u64)| #[trigger]
                final(self)@.contains(a) == (old(self)@.contains(a) || (inserted && a == (
                id,
                code,
                ))),
            forall|k: int|
                0 <= k < final(self)@.len() ==> (#[trigger] final(self)@[k]).1 == code
                    || old(self)@.contains(final(self)@[k]),
    {
        let ghost s = self@;
        let mut i: usize = 0;
        while i < self.len()
            invariant
                i <= s.len(),
                self@ == s,
                s == old(self)@,
                sorted_by_id(s),
                forall|k: int| 0 <= k < i ==> (#[trigger] s[k]).0 < id,
            decreases s.len() - i,
        {
            let entry = self.get(i);
            if entry.0 == id {
                proof {
                    assert(s[i as int].0 == id);
                    assert(old(self)@[i as int].0 == id);
                    assert(exists|k: int|
                        0 <= k < old(self)@.len() && (#[trigger] old(self)@[k]).0 == id);
                    assert(self@ == old(self)@);
                }
                return false;
            }
            if entry.0 > id {
                sv_insert(&mut self.items, i, (id, code));
                proof {
                    let t = self@;
                    assert(t == s.insert(i as int, (id, code)));
                    assert(forall|k: int| 0 <= k < i ==> t[k] == s[k]);
                    assert(t[i as int] == (id, code));
                    assert(forall|k: int| i < k < t.len() ==> t[k] == s[k - 1]);
                    assert forall|k1: int, k2: int| 0 <= k1 < k2 < t.len() implies (
                    #[trigger] t[k1]).0 < (#[trigger] t[k2]).0 by {
                        if k1 < i && k2 > i {
                            assert(t[k1] == s[k1] && t[k2] == s[k2 - 1]);
                            assert(s[k1].0 < id);
                            assert(s[i as int].0 > id);
                            if k2 - 1 > i {
                                assert(s[i as int].0 <= s[k2 - 1].0);
                            }
                        }
                    }
                    assert(!(exists|k: int| 0 <= k < s.len() && (#[trigger] s[k]).0 == id)) by {
                        if exists|k: int| 0 <= k < s.len() && (#[trigger] s[k]).0 == id {
                            let k = choose|k: int| 0 <= k < s.len() && (#[trigger] s[k]).0 == id;
                            if k < i {
                                assert(s[k].0 < id);
                            } else {
                                assert(s[i as int].0 <= s[k].0);
                            }
                        }
                    }
                    assert forall|a: (u64, u64)| #[trigger] t.contains(a) == (s.contains(a) || a
                        == (id, code)) by {
                        if t.contains(a) {
                            let k = choose|k: int| 0 <= k < t.len() && t[k] == a;
                            if k < i {
                                assert(s[k] == a);
                            } else if k > i {
                                assert(s[k - 1] == a);
                            }
                        }
                        if s.contains(a) {
                            let k = choose|k: int| 0 <= k < s.len() && s[k] == a;
                            if k < i {
                                assert(t[k] == a);
                            } else {
                                assert(t[k + 1] == a);
                            }
                        }
                        if a == (id, code) {
                            assert(t[i as int] == a);
                        }
                    }
                }
                return true;
            }
            i = i + 1;
        }
        let ghost n = s.len() as int;
        self.push((id, code));
        proof {
            let t = self@;
            assert(t == s.push((id, code)));
            assert(t =~= s.insert(n, (id, code)));
            assert(forall|k: int| 0 <= k < n ==> t[k] == s[k]);
            assert(t[n] == (id, code));
            assert forall|a: (u64, u64)| #[trigger] t.contains(a) == (s.contains(a) || a == (
            id,
            code,
            )) by {
                if t.contains(a) {
                    let k = choose|k: int| 0 <= k < t.len() && t[k] == a;
                    if k < n {
                        assert(s[k] == a);
                    }
                }
                if s.contains(a) {
                    let k = choose|k: int| 0 <= k < s.len() && s[k] == a;
                    assert(t[k] == a);
                }
            }
        }
        true
    }

    /// Position of the entry for request id `id`, found by binary search
    /// over the sorted list.
    pub fn find_id(&self, id: u64) -> (r: Option<usize>)
        requires
            sorted_by_id(self@),
        ensures
            match r {
                Some(i) => i < self@.len() && self@[i as int].0 == id,
                None => forall|k: int| 0 <= k < self@.len() ==> (#[trigger] self@[k]).0 != id,
            },
    {
        let mut lo: usize = 0;
        let mut hi: usize = self.len();
        while lo < hi
            invariant
                lo <= hi <= self@.len(),
                sorted_by_id(self@),
                forall|k: int| 0 <= k < lo ==> (#[trigger] self@[k]).0 < id,
                forall|k: int| hi <= k < self@.len() ==> (#[trigger] self@[k]).0 > id,
            decreases hi - lo,
        {
            let mid = lo + (hi - lo) / 2;
            let entry = self.get(mid);
            if entry.0 == id {
                return Some(mid);
            } else if entry.0 < id {
                lo = mid + 1;
            } else {
                hi = mid;
            }
        }
        None
    }
}

} // verus!
