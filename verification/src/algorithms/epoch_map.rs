use vstd::prelude::*;

verus! {

/// A set of indices in `0..capacity` that can be emptied in constant time.
///
/// Each slot remembers the epoch in which it was last inserted; a slot is a
/// member exactly when its epoch equals the current one. Clearing the set
/// starts a new epoch, and only when the epoch counter wraps around are the
/// slots reset one by one.
pub struct EpochMap {
    epochs: Vec<u64>,
    current: u64,
}

impl View for EpochMap {
    type V = Seq<bool>;

    /// Membership of each index: `self@[i]` holds when `i` is in the set.
    closed spec fn view(&self) -> Seq<bool> {
        Seq::new(self.epochs@.len(), |i: int| self.epochs@[i] == self.current)
    }
}

impl EpochMap {
    /// The epoch counter is never zero and no slot is ahead of it.
    pub closed spec fn wf(&self) -> bool {
        &&& self.current >= 1
        &&& forall|i: int| 0 <= i < self.epochs@.len() ==> #[trigger] self.epochs@[i] <= self.current
    }

    /// The number of indices the set can hold.
    pub open spec fn capacity(&self) -> nat {
        self@.len()
    }

    /// An empty set over the indices `0..capacity`.
    pub fn new(capacity: usize) -> (res: Self)
        ensures
            res.wf(),
            res.capacity() == capacity,
            res@ == Seq::new(capacity as nat, |i: int| false),
    {
        let mut epochs: Vec<u64> = Vec::new();
        let mut i: usize = 0;
        while i < capacity
            invariant
                i <= capacity,
                epochs@.len() == i,
                forall|j: int| 0 <= j < i ==> #[trigger] epochs@[j] == 0,
            decreases capacity - i,
        {
            epochs.push(0);
            i = i + 1;
        }
        let res = EpochMap { epochs, current: 1 };
        assert(res@ =~= Seq::new(capacity as nat, |i: int| false));
        res
    }

    /// Whether `idx` is in the set.
    pub fn contains(&self, idx: usize) -> (res: bool)
        requires
            self.wf(),
            idx < self.capacity(),
        ensures
            res == self@[idx as int],
    {
        self.epochs[idx] == self.current
    }

    /// Adds `idx` to the set; every other index keeps its membership.
    pub fn insert(&mut self, idx: usize)
        requires
            old(self).wf(),
            idx < old(self).capacity(),
        ensures
            final(self).wf(),
            final(self).capacity() == old(self).capacity(),
            final(self)@ == old(self)@.update(idx as int, true),
    {
        let cur = self.current;
        self.epochs.set(idx, cur);
        assert(self@ =~= old(self)@.update(idx as int, true));
    }

    /// Empties the set, keeping its capacity.
    pub fn clear(&mut self)
        requires
            old(self).wf(),
        ensures
            final(self).wf(),
            final(self).capacity() == old(self).capacity(),
            final(self)@ == Seq::new(old(self).capacity(), |i: int| false),
    {
        self.current = self.current.wrapping_add(1);
        if self.current == 0 {
            let n = self.epochs.len();
            let mut i: usize = 0;
            while i < n
                invariant
                    i <= n,
                    n == self.epochs@.len(),
                    n == old(self).epochs@.len(),
                    forall|j: int| 0 <= j < i ==> #[trigger] self.epochs@[j] == 0,
                decreases n - i,
            {
                self.epochs.set(i, 0);
                i = i + 1;
            }
            self.current = 1;
        }
        assert(self@ =~= Seq::new(old(self).capacity(), |i: int| false));
    }
}

/// One operation on an `EpochMap`.
pub enum EpochOp {
    Insert(usize),
    Clear,
}

/// The membership that `EpochMap::new(capacity)` followed by `ops` leaves,
/// one step at a time as the contracts of `new`, `insert` and `clear` state
/// it.
pub open spec fn membership_after(capacity: nat, ops: Seq<EpochOp>) -> Seq<bool>
    decreases ops.len(),
{
    if ops.len() == 0 {
        Seq::new(capacity, |i: int| false)
    } else {
        let before = membership_after(capacity, ops.drop_last());
        match ops.last() {
            EpochOp::Insert(j) => before.update(j as int, true),
            EpochOp::Clear => Seq::new(capacity, |i: int| false),
        }
    }
}

/// `idx` was inserted after the last clear of `ops` (anywhere, if there was
/// none).
pub open spec fn inserted_since_clear(ops: Seq<EpochOp>, idx: usize) -> bool
    decreases ops.len(),
{
    if ops.len() == 0 {
        false
    } else {
        match ops.last() {
            EpochOp::Insert(j) => j == idx || inserted_since_clear(ops.drop_last(), idx),
            EpochOp::Clear => false,
        }
    }
}

/// Every index that `ops` inserts is below `capacity`.
pub open spec fn inserts_within(ops: Seq<EpochOp>, capacity: nat) -> bool {
    forall|k: int| 0 <= k < ops.len() ==> match #[trigger] ops[k] {
        EpochOp::Insert(j) => j < capacity,
        EpochOp::Clear => true,
    }
}

/// After a new map and any sequence of inserts and clears, an index is in
/// the set exactly when it was inserted after the last clear (or anywhere,
/// if there was no clear), and the capacity stays as it was made.
pub proof fn lemma_epoch_sequence(capacity: nat, ops: Seq<EpochOp>, idx: usize)
    requires
        inserts_within(ops, capacity),
        idx < capacity,
    ensures
        membership_after(capacity, ops).len() == capacity,
        membership_after(capacity, ops)[idx as int] == inserted_since_clear(ops, idx),
    decreases ops.len(),
{
    if ops.len() > 0 {
        let rest = ops.drop_last();
        assert forall|k: int| 0 <= k < rest.len() implies match #[trigger] rest[k] {
            EpochOp::Insert(j) => j < capacity,
            EpochOp::Clear => true,
        } by {
            assert(rest[k] == ops[k]);
        }
        lemma_epoch_sequence(capacity, rest, idx);
        let k = ops.len() - 1;
        assert(ops.last() == ops[k]);
    }
}

impl EpochMap {
    /// Makes a map with `EpochMap::new(capacity)` and runs `ops` on it with
    /// `insert` and `clear`. In the map that comes out, an index is in the
    /// set exactly when it was inserted after the last clear of `ops` (or
    /// anywhere, if there was no clear).
    pub fn replay(capacity: usize, ops: &Vec<EpochOp>) -> (m: Self)
        requires
            inserts_within(ops@, capacity as nat),
        ensures
            m.wf(),
            m.capacity() == capacity,
            m@ == membership_after(capacity as nat, ops@),
            forall|idx: usize| idx < capacity ==> #[trigger] m@[idx as int] == inserted_since_clear(ops@, idx),
    {
        let mut m = EpochMap::new(capacity);
        let mut k: usize = 0;
        while k < ops.len()
            invariant
                m.wf(),
                m.capacity() == capacity,
                k <= ops@.len(),
                inserts_within(ops@, capacity as nat),
                m@ == membership_after(capacity as nat, ops@.take(k as int)),
            decreases ops@.len() - k,
        {
            proof {
                assert(ops@.take(k + 1).drop_last() =~= ops@.take(k as int));
                assert(ops@.take(k + 1).last() == ops@[k as int]);
            }
            match &ops[k] {
                EpochOp::Insert(j) => {
                    assert(ops@[k as int] == EpochOp::Insert(*j));
                    m.insert(*j);
                },
                EpochOp::Clear => {
                    m.clear();
                },
            }
            k = k + 1;
        }
        assert(ops@.take(k as int) =~= ops@);
        proof {
            assert forall|idx: usize| idx < capacity implies #[trigger] m@[idx as int] == inserted_since_clear(ops@, idx) by {
                lemma_epoch_sequence(capacity as nat, ops@, idx);
            }
        }
        m
    }
}

} // verus!
