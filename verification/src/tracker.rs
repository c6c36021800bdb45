use crate::error::QueryError;
use std::collections::HashMap;
use vstd::prelude::*;

verus! {

broadcast use vstd::std_specs::hash::group_hash_axioms;

/// Borrow state that marks a component type as mutably borrowed.
pub const WRITE_EXCLUSIVE: i32 = -1;

/// The tracker state after one more shared borrow of `t`, or the reason why
/// the borrow is refused.
///
/// An entry of `0` is free, a positive entry counts shared borrows, and a
/// negative entry is an exclusive borrow.
pub open spec fn after_read(state: Map<u64, i32>, t: u64) -> Result<Map<u64, i32>, QueryError> {
    if !state.contains_key(t) {
        Err(QueryError::UnknownComponent)
    } else if state[t] < 0 {
        Err(QueryError::BorrowConflict)
    } else if state[t] == i32::MAX {
        Err(QueryError::CounterOverflow)
    } else {
        Ok(state.insert(t, (state[t] + 1) as i32))
    }
}

/// The tracker state after an exclusive borrow of `t`, or the reason why the
/// borrow is refused.
pub open spec fn after_write(state: Map<u64, i32>, t: u64) -> Result<Map<u64, i32>, QueryError> {
    if !state.contains_key(t) {
        Err(QueryError::UnknownComponent)
    } else if state[t] != 0 {
        Err(QueryError::BorrowConflict)
    } else {
        Ok(state.insert(t, WRITE_EXCLUSIVE))
    }
}

/// The tracker state with the same component types, all of them free.
pub open spec fn all_free(state: Map<u64, i32>) -> Map<u64, i32> {
    Map::new(|t: u64| state.contains_key(t), |t: u64| 0i32)
}

/// Aliasing tracker for component arrays: one counter per registered
/// component type.
pub struct CompChk {
    chk: HashMap<u64, i32>,
}

impl View for CompChk {
    type V = Map<u64, i32>;

    closed spec fn view(&self) -> Map<u64, i32> {
        self.chk@
    }
}

impl CompChk {
    /// A tracker that knows no component type.
    pub fn new() -> (chk: Self)
        ensures
            chk@ == Map::<u64, i32>::empty(),
    {
        CompChk { chk: HashMap::new() }
    }

    /// The entry of component type `t`, if it is registered.
    pub fn state(&self, t: u64) -> (entry: Option<i32>)
        ensures
            entry == (if self@.contains_key(t) {
                Some(self@[t])
            } else {
                None
            }),
    {
        match self.chk.get(&t) {
            Some(val) => Some(*val),
            None => None,
        }
    }

    /// Grants one more shared borrow of `t`.
    pub fn borrow(&mut self, t: u64) -> (res: Result<(), QueryError>)
        ensures
            match after_read(old(self)@, t) {
                Ok(state) => res is Ok && final(self)@ == state,
                Err(e) => res == Err::<(), QueryError>(e) && final(self)@ == old(self)@,
            },
    {
        let val: i32 = match self.chk.get(&t) {
            Some(val) => *val,
            None => {
                return Err(QueryError::UnknownComponent);
            },
        };
        if val < 0 {
            return Err(QueryError::BorrowConflict);
        } else if val == i32::MAX {
            return Err(QueryError::CounterOverflow);
        }
        self.chk.insert(t, val + 1);
        Ok(())
    }

    /// Grants the exclusive borrow of `t`.
    pub fn borrow_mut(&mut self, t: u64) -> (res: Result<(), QueryError>)
        ensures
            match after_write(old(self)@, t) {
                Ok(state) => res is Ok && final(self)@ == state,
                Err(e) => res == Err::<(), QueryError>(e) && final(self)@ == old(self)@,
            },
    {
        let val: i32 = match self.chk.get(&t) {
            Some(val) => *val,
            None => {
                return Err(QueryError::UnknownComponent);
            },
        };
        if val != 0 {
            return Err(QueryError::BorrowConflict);
        }
        self.chk.insert(t, WRITE_EXCLUSIVE);
        Ok(())
    }

    /// Gives every borrow back: all registered component types are free again.
    pub fn return_all(&mut self)
        ensures
            final(self)@ == all_free(old(self)@),
    {
        let mut keys: Vec<u64> = Vec::new();
        for t in it: self.chk.keys()
            invariant
                keys@ == it.seq().take(it.index() as int).unref(),
                it.seq().unref().to_set() == self.chk@.dom(),
                it.index() == it.seq().len() ==> keys@.to_set() == self.chk@.dom(),
        {
            assert(it.seq().take(it.index() + 1).unref() =~= it.seq().take(it.index() as int).unref().push(
                *it.seq()[it.index() as int],
            ));
            assert(it.seq().take(it.seq().len() as int) =~= it.seq());
            keys.push(*t);
        }
        assert forall|t: u64| self.chk@.contains_key(t) implies keys@.contains(t) by {
            assert(keys@.to_set().contains(t));
        }
        let mut i: usize = 0;
        while i < keys.len()
            invariant
                i <= keys@.len(),
                self.chk@.dom() == old(self).chk@.dom(),
                forall|j: int| 0 <= j < keys@.len() ==> self.chk@.contains_key(#[trigger] keys@[j]),
                forall|t: u64| old(self).chk@.contains_key(t) ==> keys@.contains(t),
                forall|j: int| 0 <= j < i ==> self.chk@[#[trigger] keys@[j]] == 0,
            decreases keys@.len() - i,
        {
            assert(self.chk@.contains_key(keys@[i as int]));
            self.chk.insert(keys[i], 0);
            assert(self.chk@.dom() =~= old(self).chk@.dom());
            i += 1;
        }
        assert(self.chk@ =~= all_free(old(self).chk@));
    }

    /// Makes `t` a known component type, with no borrow outstanding.
    pub fn register(&mut self, t: u64)
        ensures
            final(self)@ == old(self)@.insert(t, 0i32),
    {
        self.chk.insert(t, 0);
    }
}

} // verus!
