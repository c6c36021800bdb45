use vstd::prelude::*;

verus! {

/// Whether an entity record holds a component of type `key`.
pub open spec fn owns(record: Seq<(u64, usize)>, key: u64) -> bool {
    exists|p: int| 0 <= p < record.len() && (#[trigger] record[p]).0 == key
}

/// The position of the first pair of `record` with component type `key`, or
/// the length of `record` if there is none.
pub open spec fn first_position(record: Seq<(u64, usize)>, key: u64) -> int
    decreases record.len(),
{
    if record.len() == 0 {
        0
    } else if record[0].0 == key {
        0
    } else {
        1 + first_position(record.skip(1), key)
    }
}

/// The slot under which `record` holds its component of type `key`: the one
/// of the first pair with that type.
pub open spec fn slot_of(record: Seq<(u64, usize)>, key: u64) -> usize {
    record[first_position(record, key)].1
}

/// Whether `record` holds a component of every type in `keys`.
pub open spec fn qualifies(record: Seq<(u64, usize)>, keys: Seq<u64>) -> bool {
    forall|i: int| 0 <= i < keys.len() ==> owns(record, #[trigger] keys[i])
}

/// The slots of `record` for `keys`, position by position.
pub open spec fn resolve(record: Seq<(u64, usize)>, keys: Seq<u64>) -> Seq<usize> {
    Seq::new(keys.len(), |i: int| slot_of(record, keys[i]))
}

/// The entities that a query for `keys` visits: the indices of the qualifying
/// records, in registry order.
pub open spec fn visited(entities: Seq<Seq<(u64, usize)>>, keys: Seq<u64>) -> Seq<int>
    decreases entities.len(),
{
    if entities.len() == 0 {
        Seq::empty()
    } else {
        let before = visited(entities.drop_last(), keys);
        if qualifies(entities.last(), keys) {
            before.push(entities.len() - 1)
        } else {
            before
        }
    }
}

/// The slots that a query for `keys` hands to its callback, one row for each
/// entity that it visits, in registry order.
pub open spec fn rows_of(entities: Seq<Seq<(u64, usize)>>, keys: Seq<u64>) -> Seq<Seq<usize>>
    decreases entities.len(),
{
    if entities.len() == 0 {
        Seq::empty()
    } else {
        let before = rows_of(entities.drop_last(), keys);
        if qualifies(entities.last(), keys) {
            before.push(resolve(entities.last(), keys))
        } else {
            before
        }
    }
}

/// The records of a registry, as sequences of pairs.
pub open spec fn records_of(entities: Seq<Vec<(u64, usize)>>) -> Seq<Seq<(u64, usize)>> {
    entities.map_values(|record: Vec<(u64, usize)>| record@)
}

/// One more entity adds its row if it qualifies, and nothing otherwise.
pub proof fn lemma_rows_extend(entities: Seq<Seq<(u64, usize)>>, keys: Seq<u64>, e: int)
    requires
        0 <= e < entities.len(),
    ensures
        rows_of(entities.take(e + 1), keys) == (if qualifies(entities[e], keys) {
            rows_of(entities.take(e), keys).push(resolve(entities[e], keys))
        } else {
            rows_of(entities.take(e), keys)
        }),
{
    assert(entities.take(e + 1).drop_last() =~= entities.take(e));
    assert(entities.take(e + 1).last() == entities[e]);
}

/// `first_position` is the least position with the wanted type.
pub proof fn lemma_first_position(record: Seq<(u64, usize)>, key: u64)
    ensures
        0 <= first_position(record, key) <= record.len(),
        first_position(record, key) < record.len() <==> owns(record, key),
        first_position(record, key) < record.len() ==> record[first_position(record, key)].0
            == key,
        forall|q: int| 0 <= q < first_position(record, key) ==> (#[trigger] record[q]).0 != key,
    decreases record.len(),
{
    if record.len() == 0 {
    } else if record[0].0 == key {
    } else {
        let rest = record.skip(1);
        lemma_first_position(rest, key);
        let fp = first_position(rest, key);
        assert forall|q: int| 0 <= q < 1 + fp implies (#[trigger] record[q]).0 != key by {
            if q > 0 {
                assert(rest[q - 1] == record[q]);
            }
        }
        if fp < rest.len() {
            assert(rest[fp] == record[fp + 1]);
        }
        if owns(record, key) {
            let p = choose|p: int| 0 <= p < record.len() && (#[trigger] record[p]).0 == key;
            assert(rest[p - 1] == record[p]);
        }
    }
}

/// A position that holds the wanted type, with none before it, is the first.
pub proof fn lemma_first_position_is(record: Seq<(u64, usize)>, key: u64, p: int)
    requires
        0 <= p < record.len(),
        record[p].0 == key,
        forall|q: int| 0 <= q < p ==> (#[trigger] record[q]).0 != key,
    ensures
        first_position(record, key) == p,
{
    lemma_first_position(record, key);
}

/// The slot under which `record` holds its component of type `key`, if it
/// holds one.
pub fn find_slot(record: &Vec<(u64, usize)>, key: u64) -> (res: Option<usize>)
    ensures
        res == (if owns(record@, key) {
            Some(slot_of(record@, key))
        } else {
            None
        }),
{
    let mut p: usize = 0;
    while p < record.len()
        invariant
            p <= record@.len(),
            forall|q: int| 0 <= q < p ==> (#[trigger] record@[q]).0 != key,
        decreases record@.len() - p,
    {
        if record[p].0 == key {
            proof {
                lemma_first_position_is(record@, key, p as int);
            }
            return Some(record[p].1);
        }
        p += 1;
    }
    None
}

/// The slots of `record` for `keys`, if it holds a component of each type.
pub fn match_entity(record: &Vec<(u64, usize)>, keys: &Vec<u64>) -> (res: Option<Vec<usize>>)
    ensures
        match res {
            Some(slots) => qualifies(record@, keys@) && slots@ == resolve(record@, keys@),
            None => !qualifies(record@, keys@),
        },
{
    let mut slots: Vec<usize> = Vec::with_capacity(keys.len());
    let mut i: usize = 0;
    while i < keys.len()
        invariant
            i <= keys@.len(),
            slots@.len() == i,
            forall|j: int| 0 <= j < i ==> owns(record@, #[trigger] keys@[j]),
            forall|j: int| 0 <= j < i ==> #[trigger] slots@[j] == slot_of(record@, keys@[j]),
        decreases keys@.len() - i,
    {
        match find_slot(record, keys[i]) {
            Some(slot) => {
                slots.push(slot);
            },
            None => {
                return None;
            },
        }
        i += 1;
    }
    assert(slots@ =~= resolve(record@, keys@));
    Some(slots)
}

} // verus!
