use crate::error::QueryError;
use crate::tracker::{after_read, after_write, CompChk};
use vstd::prelude::*;

verus! {

/// How a query wants to reach a component.
#[derive(Clone, Copy, Debug, PartialEq, Eq, Structural)]
pub enum Access {
    /// Through a shared reference.
    Read,
    /// Through a mutable reference.
    Write,
}

/// One position of a query: a component type and the access wanted to it.
#[derive(Clone, Copy, Debug, PartialEq, Eq, Structural)]
pub struct Requirement {
    /// The component type.
    pub key: u64,
    /// The access wanted to the components of that type.
    pub access: Access,
}

/// The tracker state after `req` is granted, or the reason why it is refused.
pub open spec fn acquire(state: Map<u64, i32>, req: Requirement) -> Result<
    Map<u64, i32>,
    QueryError,
> {
    match req.access {
        Access::Read => after_read(state, req.key),
        Access::Write => after_write(state, req.key),
    }
}

/// What became of a list of requirements that were asked for one after the
/// other: the tracker state reached, how many were granted before the first
/// refusal, and that refusal.
pub struct Acquisition {
    /// The tracker state after the last requirement that was granted.
    pub state: Map<u64, i32>,
    /// How many requirements were granted.
    pub granted: nat,
    /// Why the next one was refused, if one was.
    pub error: Option<QueryError>,
}

/// Asks the tracker for `reqs` in order, and stops at the first refusal.
pub open spec fn acquire_all(state: Map<u64, i32>, reqs: Seq<Requirement>) -> Acquisition
    decreases reqs.len(),
{
    if reqs.len() == 0 {
        Acquisition { state, granted: 0, error: None }
    } else {
        match acquire(state, reqs[0]) {
            Err(e) => Acquisition { state, granted: 0, error: Some(e) },
            Ok(next) => {
                let rest = acquire_all(next, reqs.skip(1));
                Acquisition { state: rest.state, granted: rest.granted + 1, error: rest.error }
            },
        }
    }
}

/// Asks for `first`, and for `second` only if all of `first` was granted.
pub open spec fn acquire_both(
    state: Map<u64, i32>,
    first: Seq<Requirement>,
    second: Seq<Requirement>,
) -> Acquisition {
    let head = acquire_all(state, first);
    if head.error is Some {
        head
    } else {
        let tail = acquire_all(head.state, second);
        Acquisition { state: tail.state, granted: first.len() + tail.granted, error: tail.error }
    }
}

/// The component types of `reqs`, position by position.
pub open spec fn keys_of(reqs: Seq<Requirement>) -> Seq<u64> {
    Seq::new(reqs.len(), |i: int| reqs[i].key)
}

/// The outcome of a query's acquisition as the query reports it.
pub open spec fn outcome(acq: Acquisition) -> Result<(), QueryError> {
    match acq.error {
        Some(e) => Err(e),
        None => Ok(()),
    }
}

/// Never more requirements are granted than were asked for, and all of them
/// are granted exactly when there is no refusal.
pub proof fn lemma_granted_bound(state: Map<u64, i32>, reqs: Seq<Requirement>)
    ensures
        acquire_all(state, reqs).granted <= reqs.len(),
        acquire_all(state, reqs).error is None <==> acquire_all(state, reqs).granted == reqs.len(),
    decreases reqs.len(),
{
    if reqs.len() > 0 {
        if let Ok(next) = acquire(state, reqs[0]) {
            lemma_granted_bound(next, reqs.skip(1));
        }
    }
}

/// Asking the tracker for requirements never changes which types it knows.
pub proof fn lemma_tracker_domain(state: Map<u64, i32>, reqs: Seq<Requirement>)
    ensures
        acquire_all(state, reqs).state.dom() == state.dom(),
    decreases reqs.len(),
{
    if reqs.len() > 0 {
        if let Ok(next) = acquire(state, reqs[0]) {
            lemma_tracker_domain(next, reqs.skip(1));
            assert(next.dom() =~= state.dom());
        }
    }
}

/// Asking for a single requirement.
pub proof fn lemma_acquire_one(state: Map<u64, i32>, req: Requirement)
    ensures
        acquire_all(state, seq![req]) == (match acquire(state, req) {
            Err(e) => Acquisition { state, granted: 0, error: Some(e) },
            Ok(next) => Acquisition { state: next, granted: 1, error: None },
        }),
{
    let reqs = seq![req];
    assert(reqs.len() == 1 && reqs[0] == req);
    if let Ok(next) = acquire(state, req) {
        assert(reqs.skip(1).len() == 0);
        assert(acquire_all(next, reqs.skip(1)).granted == 0);
    }
}

/// Asking for a concatenation is asking for its parts in turn.
pub proof fn lemma_acquire_concat(
    state: Map<u64, i32>,
    first: Seq<Requirement>,
    second: Seq<Requirement>,
)
    ensures
        acquire_all(state, first + second) == acquire_both(state, first, second),
    decreases first.len(),
{
    if first.len() == 0 {
        assert(first + second =~= second);
    } else {
        assert((first + second)[0] == first[0]);
        assert((first + second).skip(1) =~= first.skip(1) + second);
        if let Ok(next) = acquire(state, first[0]) {
            lemma_acquire_concat(next, first.skip(1), second);
        }
    }
}

/// The prefix of a concatenation that `acquire_both` grants, split into the
/// parts it comes from.
pub proof fn lemma_granted_keys_concat(
    state: Map<u64, i32>,
    first: Seq<Requirement>,
    second: Seq<Requirement>,
)
    ensures
        ({
            let head = acquire_all(state, first);
            let both = acquire_both(state, first, second);
            keys_of((first + second).take(both.granted as int)) == (if head.error is Some {
                keys_of(first.take(head.granted as int))
            } else {
                keys_of(first.take(head.granted as int)) + keys_of(
                    second.take(acquire_all(head.state, second).granted as int),
                )
            })
        }),
{
    let head = acquire_all(state, first);
    let both = acquire_both(state, first, second);
    lemma_granted_bound(state, first);
    lemma_granted_bound(head.state, second);
    if head.error is Some {
        assert((first + second).take(both.granted as int) =~= first.take(head.granted as int));
    } else {
        let tail = acquire_all(head.state, second);
        assert(first.take(head.granted as int) =~= first);
        assert((first + second).take(both.granted as int) =~= first + second.take(
            tail.granted as int,
        ));
        assert(keys_of(first + second.take(tail.granted as int)) =~= keys_of(first) + keys_of(
            second.take(tail.granted as int),
        ));
    }
}

/// A registered type that is not asked for keeps its state.
pub proof fn lemma_untouched(state: Map<u64, i32>, reqs: Seq<Requirement>, key: u64)
    requires
        state.contains_key(key),
        forall|i: int| 0 <= i < reqs.len() ==> (#[trigger] reqs[i]).key != key,
    ensures
        acquire_all(state, reqs).state.contains_key(key),
        acquire_all(state, reqs).state[key] == state[key],
    decreases reqs.len(),
{
    if reqs.len() > 0 {
        assert(reqs[0].key != key);
        if let Ok(next) = acquire(state, reqs[0]) {
            let rest = reqs.skip(1);
            assert forall|i: int| 0 <= i < rest.len() implies (#[trigger] rest[i]).key != key by {
                assert(rest[i] == reqs[i + 1]);
            }
            lemma_untouched(next, rest, key);
        }
    }
}

/// What a full grant says about the requirements and the tracker.
///
/// Every type asked for is registered. A type asked for mutably was free
/// before, is write-exclusive after, and is asked for only once. A type asked
/// for through shared references counts at least one reader after.
pub proof fn lemma_granted_modes(state: Map<u64, i32>, reqs: Seq<Requirement>)
    requires
        acquire_all(state, reqs).error is None,
    ensures
        acquire_all(state, reqs).state.dom() == state.dom(),
        forall|i: int| 0 <= i < reqs.len() ==> state.contains_key((#[trigger] reqs[i]).key),
        forall|i: int|
            0 <= i < reqs.len() && (#[trigger] reqs[i]).access == Access::Write ==> state[reqs[i].key]
                == 0 && acquire_all(state, reqs).state[reqs[i].key] < 0,
        forall|i: int, j: int|
            0 <= i < reqs.len() && 0 <= j < reqs.len() && i != j && (#[trigger] reqs[i]).access
                == Access::Write ==> reqs[i].key != (#[trigger] reqs[j]).key,
        forall|i: int|
            0 <= i < reqs.len() && (#[trigger] reqs[i]).access == Access::Read ==> state[reqs[i].key]
                >= 0 && acquire_all(state, reqs).state[reqs[i].key] > 0,
    decreases reqs.len(),
{
    if reqs.len() > 0 {
        let next = acquire(state, reqs[0])->Ok_0;
        let rest = reqs.skip(1);
        let end = acquire_all(state, reqs).state;
        assert(end == acquire_all(next, rest).state);
        lemma_granted_modes(next, rest);
        let first = reqs[0].key;
        assert(end.dom() =~= state.dom());
        assert forall|i: int| 0 < i < reqs.len() implies rest[i - 1] == #[trigger] reqs[i] by {}
        // The first requirement's type either does not come again, or is read again.
        assert forall|j: int| 0 < j < reqs.len() && (#[trigger] reqs[j]).key == first implies reqs[0].access
            == Access::Read && reqs[j].access == Access::Read by {
            assert(rest[j - 1] == reqs[j]);
        }
        assert forall|i: int| 0 <= i < reqs.len() implies state.contains_key(
            (#[trigger] reqs[i]).key,
        ) by {
            if i > 0 {
                assert(rest[i - 1] == reqs[i]);
            }
        }
        if forall|j: int| 0 < j < reqs.len() ==> (#[trigger] reqs[j]).key != first {
            assert forall|i: int| 0 <= i < rest.len() implies (#[trigger] rest[i]).key != first by {
                assert(rest[i] == reqs[i + 1]);
            }
            lemma_untouched(next, rest, first);
            assert(end[first] == next[first]);
        } else {
            let j = choose|j: int| 0 < j < reqs.len() && (#[trigger] reqs[j]).key == first;
            assert(rest[j - 1] == reqs[j]);
        }
        assert forall|i: int|
            0 <= i < reqs.len() && (#[trigger] reqs[i]).access == Access::Write implies state[reqs[i].key]
            == 0 && end[reqs[i].key] < 0 by {
            if i > 0 {
                assert(rest[i - 1] == reqs[i]);
            }
        }
        assert forall|i: int|
            0 <= i < reqs.len() && (#[trigger] reqs[i]).access == Access::Read implies state[reqs[i].key]
            >= 0 && end[reqs[i].key] > 0 by {
            if i > 0 {
                assert(rest[i - 1] == reqs[i]);
            }
        }
        assert forall|i: int, j: int|
            0 <= i < reqs.len() && 0 <= j < reqs.len() && i != j && (#[trigger] reqs[i]).access
                == Access::Write implies reqs[i].key != (#[trigger] reqs[j]).key by {
            if i > 0 {
                assert(rest[i - 1] == reqs[i]);
            }
            if j > 0 {
                assert(rest[j - 1] == reqs[j]);
            }
        }
    }
}

/// The requirements that `chk` has granted for `keys`: mutable access where
/// the type is write-exclusive, shared access elsewhere.
pub fn granted_requirements(keys: &Vec<u64>, chk: &CompChk) -> (reqs: Vec<Requirement>)
    ensures
        reqs@.len() == keys@.len(),
        forall|i: int|
            0 <= i < keys@.len() ==> (#[trigger] reqs@[i]).key == keys@[i] && reqs@[i].access == (
            if chk@.contains_key(keys@[i]) && chk@[keys@[i]] < 0 {
                Access::Write
            } else {
                Access::Read
            }),
{
    let mut reqs: Vec<Requirement> = Vec::with_capacity(keys.len());
    let mut i: usize = 0;
    while i < keys.len()
        invariant
            i <= keys@.len(),
            reqs@.len() == i,
            forall|j: int|
                0 <= j < i ==> (#[trigger] reqs@[j]).key == keys@[j] && reqs@[j].access == (
                if chk@.contains_key(keys@[j]) && chk@[keys@[j]] < 0 {
                    Access::Write
                } else {
                    Access::Read
                }),
        decreases keys@.len() - i,
    {
        let access = match chk.state(keys[i]) {
            Some(entry) => if entry < 0 {
                Access::Write
            } else {
                Access::Read
            },
            None => Access::Read,
        };
        reqs.push(Requirement { key: keys[i], access });
        i += 1;
    }
    reqs
}

/// A list of component requirements that is fixed at compile time: what a
/// query is instantiated with.
pub trait SystemReq {
    /// The requirements, in the order in which the callback receives them.
    spec fn requirements() -> Seq<Requirement>;

    /// Asks `chk` for every requirement in order, and appends the component
    /// type of each granted one to `store`. Stops at the first refusal.
    fn c_set(store: &mut Vec<u64>, chk: &mut CompChk) -> (res: Result<(), QueryError>)
        ensures
            final(chk)@ == acquire_all(old(chk)@, Self::requirements()).state,
            res == outcome(acquire_all(old(chk)@, Self::requirements())),
            final(store)@ == old(store)@ + keys_of(
                Self::requirements().take(
                    acquire_all(old(chk)@, Self::requirements()).granted as int,
                ),
            ),
    ;
}

/// Shared access to the components of type `K`.
pub struct Read<const K: u64>;

/// Mutable access to the components of type `K`.
pub struct Write<const K: u64>;

impl<const K: u64> SystemReq for Read<K> {
    open spec fn requirements() -> Seq<Requirement> {
        seq![Requirement { key: K, access: Access::Read }]
    }

    fn c_set(store: &mut Vec<u64>, chk: &mut CompChk) -> (res: Result<(), QueryError>) {
        let ghost reqs = Self::requirements();
        proof {
            lemma_acquire_one(chk@, Requirement { key: K, access: Access::Read });
        }
        match chk.borrow(K) {
            Ok(()) => {
                store.push(K);
                assert(keys_of(reqs.take(1)) =~= seq![K]);
                Ok(())
            },
            Err(e) => {
                assert(keys_of(reqs.take(0)) =~= Seq::<u64>::empty());
                Err(e)
            },
        }
    }
}

impl<const K: u64> SystemReq for Write<K> {
    open spec fn requirements() -> Seq<Requirement> {
        seq![Requirement { key: K, access: Access::Write }]
    }

    fn c_set(store: &mut Vec<u64>, chk: &mut CompChk) -> (res: Result<(), QueryError>) {
        let ghost reqs = Self::requirements();
        proof {
            lemma_acquire_one(chk@, Requirement { key: K, access: Access::Write });
        }
        match chk.borrow_mut(K) {
            Ok(()) => {
                store.push(K);
                assert(keys_of(reqs.take(1)) =~= seq![K]);
                Ok(())
            },
            Err(e) => {
                assert(keys_of(reqs.take(0)) =~= Seq::<u64>::empty());
                Err(e)
            },
        }
    }
}

impl<A: SystemReq> SystemReq for (A,) {
    open spec fn requirements() -> Seq<Requirement> {
        A::requirements()
    }

    fn c_set(store: &mut Vec<u64>, chk: &mut CompChk) -> (res: Result<(), QueryError>) {
        A::c_set(store, chk)
    }
}

impl<A: SystemReq, B: SystemReq> SystemReq for (A, B) {
    open spec fn requirements() -> Seq<Requirement> {
        A::requirements() + B::requirements()
    }

    fn c_set(store: &mut Vec<u64>, chk: &mut CompChk) -> (res: Result<(), QueryError>) {
        proof {
            lemma_acquire_concat(chk@, A::requirements(), B::requirements());
            lemma_granted_keys_concat(chk@, A::requirements(), B::requirements());
        }
        match A::c_set(store, chk) {
            Ok(()) => B::c_set(store, chk),
            Err(e) => Err(e),
        }
    }
}

impl<A: SystemReq, B: SystemReq, C: SystemReq> SystemReq for (A, B, C) {
    open spec fn requirements() -> Seq<Requirement> {
        A::requirements() + B::requirements() + C::requirements()
    }

    fn c_set(store: &mut Vec<u64>, chk: &mut CompChk) -> (res: Result<(), QueryError>) {
        proof {
            lemma_acquire_concat(chk@, <(A, B)>::requirements(), C::requirements());
            lemma_granted_keys_concat(chk@, <(A, B)>::requirements(), C::requirements());
        }
        match <(A, B)>::c_set(store, chk) {
            Ok(()) => C::c_set(store, chk),
            Err(e) => Err(e),
        }
    }
}

} // verus!
