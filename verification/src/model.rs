//! What a query does to the component table, as plain mathematics: which
//! places a callback is handed for an entity, and what the table holds after
//! the callback has run for a sequence of entities.

use crate::matching::{first_position, lemma_first_position, owns, qualifies, resolve};
use crate::request::{Access, Requirement};
use vstd::prelude::*;

verus! {

/// Whether a (component type, slot) pair names an existing array element.
pub open spec fn in_table<T>(table: Map<u64, Seq<T>>, pair: (u64, usize)) -> bool {
    table.contains_key(pair.0) && pair.1 < table[pair.0].len()
}

/// Whether every pair of every record names an existing array element.
pub open spec fn records_fit<T>(table: Map<u64, Seq<T>>, records: Seq<Seq<(u64, usize)>>) -> bool {
    forall|e: int, p: int|
        0 <= e < records.len() && 0 <= p < records[e].len() ==> in_table(
            table,
            #[trigger] records[e][p],
        )
}

/// The arrays of a component map, as sequences of values.
pub open spec fn arrays<T>(components: Map<u64, Vec<T>>) -> Map<u64, Seq<T>> {
    components.map_values(|array: Vec<T>| array@)
}

/// Whether two tables have the same component types and arrays of the same
/// lengths.
pub open spec fn same_shape<T>(a: Map<u64, Seq<T>>, b: Map<u64, Seq<T>>) -> bool {
    &&& a.dom() == b.dom()
    &&& forall|key: u64| a.contains_key(key) ==> (#[trigger] a[key]).len() == b[key].len()
}

/// No component type that is asked for mutably is asked for a second time.
pub open spec fn exclusive_writes(reqs: Seq<Requirement>) -> bool {
    forall|i: int, j: int|
        0 <= i < reqs.len() && 0 <= j < reqs.len() && i != j && (#[trigger] reqs[i]).access
            == Access::Write ==> reqs[i].key != (#[trigger] reqs[j]).key
}

/// The positions of `reqs` that ask for `access`, in ascending order.
pub open spec fn positions(reqs: Seq<Requirement>, access: Access) -> Seq<int>
    decreases reqs.len(),
{
    if reqs.len() == 0 {
        Seq::empty()
    } else {
        let before = positions(reqs.drop_last(), access);
        if reqs.last().access == access {
            before.push(reqs.len() - 1)
        } else {
            before
        }
    }
}

/// The array elements, as (component type, slot) pairs, that a callback is
/// handed with `access` for an entity whose slots are `row`.
pub open spec fn places(reqs: Seq<Requirement>, row: Seq<usize>, access: Access) -> Seq<
    (u64, usize),
> {
    let at = positions(reqs, access);
    Seq::new(at.len(), |k: int| (reqs[at[k]].key, row[at[k]]))
}

/// The values that `table` holds at the places `at`.
pub open spec fn gather<T>(table: Map<u64, Seq<T>>, at: Seq<(u64, usize)>) -> Seq<T> {
    Seq::new(at.len(), |k: int| table[at[k].0][at[k].1 as int])
}

/// The table after `values` were written to the places `at`, one after the
/// other.
pub open spec fn scatter<T>(table: Map<u64, Seq<T>>, at: Seq<(u64, usize)>, values: Seq<T>) -> Map<
    u64,
    Seq<T>,
>
    decreases at.len(),
{
    if at.len() == 0 {
        table
    } else {
        let before = scatter(table, at.drop_last(), values.drop_last());
        let (key, slot) = at.last();
        before.insert(key, before[key].update(slot as int, values.last()))
    }
}

/// One invocation of a query's callback, for an entity whose slots are `row`.
///
/// The callback was handed mutable references to the values `taken` and
/// shared references to the values `seen`, both read from `before` at the
/// entity's places. It left the values `given` behind the mutable references,
/// and `after` is `before` with these written back.
pub open spec fn step<T>(
    reqs: Seq<Requirement>,
    row: Seq<usize>,
    before: Map<u64, Seq<T>>,
    after: Map<u64, Seq<T>>,
    taken: Seq<T>,
    given: Seq<T>,
    seen: Seq<T>,
) -> bool {
    &&& taken == gather(before, places(reqs, row, Access::Write))
    &&& seen == gather(before, places(reqs, row, Access::Read))
    &&& given.len() == taken.len()
    &&& after == scatter(before, places(reqs, row, Access::Write), given)
}

/// What one invocation of a callback was handed and what it left behind.
pub struct Call<T> {
    /// The values behind the mutable references before the call.
    pub taken: Seq<T>,
    /// The values behind the shared references.
    pub seen: Seq<T>,
    /// The values behind the mutable references after the call.
    pub given: Seq<T>,
}

/// The table after the callback ran once for each row, in order, and left
/// behind what `log` records.
pub open spec fn replay<T>(
    reqs: Seq<Requirement>,
    rows: Seq<Seq<usize>>,
    table: Map<u64, Seq<T>>,
    log: Seq<Call<T>>,
) -> Map<u64, Seq<T>>
    decreases rows.len(),
{
    if rows.len() == 0 {
        table
    } else {
        scatter(
            replay(reqs, rows.drop_last(), table, log.drop_last()),
            places(reqs, rows.last(), Access::Write),
            log.last().given,
        )
    }
}

/// Whether `log` records one call for each row, each of them handed the
/// values that the table held at the row's places when its turn came.
pub open spec fn faithful<T>(
    reqs: Seq<Requirement>,
    rows: Seq<Seq<usize>>,
    table: Map<u64, Seq<T>>,
    log: Seq<Call<T>>,
) -> bool
    decreases rows.len(),
{
    &&& log.len() == rows.len()
    &&& rows.len() > 0 ==> {
        &&& faithful(reqs, rows.drop_last(), table, log.drop_last())
        &&& step(
            reqs,
            rows.last(),
            replay(reqs, rows.drop_last(), table, log.drop_last()),
            replay(reqs, rows, table, log),
            log.last().taken,
            log.last().given,
            log.last().seen,
        )
    }
}

/// `positions` lists exactly the positions with the wanted access, each once
/// and in ascending order.
pub proof fn lemma_positions(reqs: Seq<Requirement>, access: Access)
    ensures
        positions(reqs, access).len() <= reqs.len(),
        forall|k: int|
            0 <= k < positions(reqs, access).len() ==> 0 <= (#[trigger] positions(
                reqs,
                access,
            )[k]) < reqs.len() && reqs[positions(reqs, access)[k]].access == access,
        forall|k: int, l: int|
            0 <= k < l < positions(reqs, access).len() ==> (#[trigger] positions(reqs, access)[k])
                < (#[trigger] positions(reqs, access)[l]),
        forall|i: int|
            0 <= i < reqs.len() && (#[trigger] reqs[i]).access == access ==> positions(
                reqs,
                access,
            ).contains(i),
    decreases reqs.len(),
{
    if reqs.len() > 0 {
        let front = reqs.drop_last();
        lemma_positions(front, access);
        let before = positions(front, access);
        let all = positions(reqs, access);
        assert forall|i: int| 0 <= i < reqs.len() && (#[trigger] reqs[i]).access
            == access implies all.contains(i) by {
            if i < reqs.len() - 1 {
                assert(front[i] == reqs[i]);
                let k = choose|k: int| 0 <= k < before.len() && before[k] == i;
                assert(all[k] == i);
            } else {
                assert(all[all.len() - 1] == i);
            }
        }
        assert forall|k: int| 0 <= k < all.len() implies 0 <= (#[trigger] all[k]) < reqs.len()
            && reqs[all[k]].access == access by {
            if k < before.len() {
                assert(front[before[k]] == reqs[before[k]]);
            }
        }
    }
}

/// The slot that a qualifying record gives for a wanted type is one of its
/// own, so it names an array element if all pairs of the record do.
pub proof fn lemma_row_in_table<T>(
    table: Map<u64, Seq<T>>,
    record: Seq<(u64, usize)>,
    keys: Seq<u64>,
    p: int,
)
    requires
        forall|q: int| 0 <= q < record.len() ==> in_table(table, #[trigger] record[q]),
        qualifies(record, keys),
        0 <= p < keys.len(),
    ensures
        in_table(table, (keys[p], resolve(record, keys)[p])),
{
    lemma_first_position(record, keys[p]);
    assert(owns(record, keys[p]));
    let at = first_position(record, keys[p]);
    assert(in_table(table, record[at]));
}

} // verus!
