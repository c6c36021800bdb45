//! General facts about the store, proved from the models that the contracts
//! of the executable functions are stated over.

use crate::error::QueryError;
use crate::matching::{qualifies, resolve, rows_of, visited};
use crate::model::{
    exclusive_writes, faithful, gather, in_table, lemma_positions, lemma_row_in_table, places,
    positions, records_fit, replay, same_shape, scatter, step, Call,
};
use crate::request::{acquire, acquire_all, keys_of, lemma_granted_modes, Access, Requirement};
use crate::tracker::all_free;
use crate::world::{inserted, next_slot, registered, WorldView};
use vstd::prelude::*;

verus! {

/// What a builder has reached after `with` was called for each of `inserts`
/// in order: the world and the pending record.
pub open spec fn staged<T>(
    start: WorldView<T>,
    pending: Seq<(u64, usize)>,
    inserts: Seq<(u64, T)>,
) -> (WorldView<T>, Seq<(u64, usize)>)
    decreases inserts.len(),
{
    if inserts.len() == 0 {
        (start, pending)
    } else {
        let (world, record) = staged(start, pending, inserts.drop_last());
        let (key, component) = inserts.last();
        (inserted(world, key, component), record.push((key, next_slot(world.table, key) as usize)))
    }
}

/// How many of the first `n` insertions are of type `key`.
pub open spec fn count_before<T>(inserts: Seq<(u64, T)>, key: u64, n: int) -> nat
    decreases n,
{
    if n <= 0 {
        0
    } else {
        count_before(inserts, key, n - 1) + if inserts[n - 1].0 == key {
            1nat
        } else {
            0nat
        }
    }
}

/// The arrays after a run of insertions: each has grown by the number of
/// insertions of its type, and the record has one pair per insertion.
pub proof fn lemma_staged<T>(start: WorldView<T>, inserts: Seq<(u64, T)>, key: u64)
    ensures
        staged(start, Seq::empty(), inserts).1.len() == inserts.len(),
        staged(start, Seq::empty(), inserts).0.records == start.records,
        next_slot(staged(start, Seq::empty(), inserts).0.table, key) == next_slot(start.table, key)
            + count_before(inserts, key, inserts.len() as int),
    decreases inserts.len(),
{
    if inserts.len() > 0 {
        let front = inserts.drop_last();
        lemma_staged(start, front, key);
        lemma_count_prefix(inserts, front, key, front.len() as int);
    }
}

/// Counting insertions looks only at the insertions counted.
pub proof fn lemma_count_prefix<T>(a: Seq<(u64, T)>, b: Seq<(u64, T)>, key: u64, n: int)
    requires
        n <= a.len(),
        n <= b.len(),
        forall|i: int| 0 <= i < n ==> a[i] == b[i],
    ensures
        count_before(a, key, n) == count_before(b, key, n),
    decreases n,
{
    if n > 0 {
        lemma_count_prefix(a, b, key, n - 1);
    }
}

/// Building an entity from any run of `with` calls.
///
/// The new record is the last of the registry and has one pair for each
/// insertion, in order, with the inserted type. As long as the arrays fit the
/// machine's index range, each slot is the length that the array of its type
/// had just before that insertion: its length at the start plus the number of
/// earlier insertions of the same type. Where no type is inserted twice, the
/// record holds each inserted type exactly once.
pub proof fn law_built_record<T>(start: WorldView<T>, inserts: Seq<(u64, T)>)
    requires
        forall|key: u64| next_slot(start.table, key) + inserts.len() <= usize::MAX,
    ensures
        ({
            let (world, record) = staged(start, Seq::empty(), inserts);
            let built = registered(world, record);
            &&& built.records == start.records.push(record)
            &&& record.len() == inserts.len()
            &&& forall|i: int| 0 <= i < inserts.len() ==> (#[trigger] record[i]).0 == inserts[i].0
            &&& forall|i: int|
                0 <= i < inserts.len() ==> (#[trigger] record[i]).1 == next_slot(
                    staged(start, Seq::empty(), inserts.take(i)).0.table,
                    inserts[i].0,
                )
            &&& forall|i: int|
                0 <= i < inserts.len() ==> (#[trigger] record[i]).1 == next_slot(
                    start.table,
                    inserts[i].0,
                ) + count_before(inserts, inserts[i].0, i)
            &&& (forall|i: int, j: int|
                0 <= i < j < inserts.len() ==> (#[trigger] inserts[i]).0 != (#[trigger] inserts[j]).0)
                ==> forall|i: int, j: int|
                0 <= i < j < record.len() ==> (#[trigger] record[i]).0 != (#[trigger] record[j]).0
        }),
    decreases inserts.len(),
{
    let (world, record) = staged(start, Seq::empty(), inserts);
    lemma_staged(start, inserts, 0);
    if inserts.len() > 0 {
        let front = inserts.drop_last();
        let n = front.len() as int;
        law_built_record(start, front);
        let (before, shorter) = staged(start, Seq::empty(), front);
        let key = inserts.last().0;
        lemma_staged(start, front, key);
        assert(inserts.take(n) =~= front);
        assert(count_before(front, key, n) <= n) by {
            lemma_count_bound(front, key, n);
        }
        lemma_count_prefix(inserts, front, key, n);
        assert forall|i: int| 0 <= i < inserts.len() implies (#[trigger] record[i]).0
            == inserts[i].0 by {
            if i < n {
                assert(record[i] == shorter[i]);
                assert(front[i] == inserts[i]);
            }
        }
        assert forall|i: int| 0 <= i < inserts.len() implies (#[trigger] record[i]).1 == next_slot(
            staged(start, Seq::empty(), inserts.take(i)).0.table,
            inserts[i].0,
        ) by {
            if i < n {
                assert(record[i] == shorter[i]);
                assert(front[i] == inserts[i]);
                assert(inserts.take(i) =~= front.take(i));
            }
        }
        assert forall|i: int| 0 <= i < inserts.len() implies (#[trigger] record[i]).1 == next_slot(
            start.table,
            inserts[i].0,
        ) + count_before(inserts, inserts[i].0, i) by {
            if i < n {
                assert(record[i] == shorter[i]);
                assert(front[i] == inserts[i]);
                lemma_count_prefix(inserts, front, inserts[i].0, i);
            }
        }
        if forall|i: int, j: int|
            0 <= i < j < inserts.len() ==> (#[trigger] inserts[i]).0 != (#[trigger] inserts[j]).0 {
            assert forall|i: int, j: int| 0 <= i < j < front.len() implies (#[trigger] front[i]).0 != (
            #[trigger] front[j]).0 by {
                assert(front[i] == inserts[i]);
                assert(front[j] == inserts[j]);
            }
            assert forall|i: int, j: int| 0 <= i < j < record.len() implies (#[trigger] record[i]).0
                != (#[trigger] record[j]).0 by {
                assert(record[i].0 == inserts[i].0);
                assert(record[j].0 == inserts[j].0);
            }
        }
    }
}

/// No more insertions of a type are counted than insertions at all.
pub proof fn lemma_count_bound<T>(inserts: Seq<(u64, T)>, key: u64, n: int)
    requires
        0 <= n,
    ensures
        count_before(inserts, key, n) <= n,
    decreases n,
{
    if n > 0 {
        lemma_count_bound(inserts, key, n - 1);
    }
}

/// A query visits exactly the entities that hold every wanted type, each of
/// them once, in registry order, and hands the callback that entity's slots.
pub proof fn law_visits(entities: Seq<Seq<(u64, usize)>>, keys: Seq<u64>)
    ensures
        forall|e: int|
            0 <= e < entities.len() ==> (qualifies(#[trigger] entities[e], keys) <==> visited(
                entities,
                keys,
            ).contains(e)),
        forall|i: int|
            0 <= i < visited(entities, keys).len() ==> 0 <= (#[trigger] visited(entities, keys)[i])
                < entities.len(),
        forall|i: int, j: int|
            0 <= i < j < visited(entities, keys).len() ==> (#[trigger] visited(entities, keys)[i])
                < (#[trigger] visited(entities, keys)[j]),
        rows_of(entities, keys).len() == visited(entities, keys).len(),
        forall|i: int|
            0 <= i < visited(entities, keys).len() ==> (#[trigger] rows_of(entities, keys)[i])
                == resolve(entities[visited(entities, keys)[i]], keys),
    decreases entities.len(),
{
    if entities.len() > 0 {
        let front = entities.drop_last();
        let last = entities.len() - 1;
        law_visits(front, keys);
        let before = visited(front, keys);
        let all = visited(entities, keys);
        assert forall|i: int| 0 <= i < before.len() implies all[i] == before[i] && all[i] < last by {}
        assert forall|e: int| 0 <= e < entities.len() implies (qualifies(
            #[trigger] entities[e],
            keys,
        ) <==> all.contains(e)) by {
            if e < last {
                assert(front[e] == entities[e]);
                if before.contains(e) {
                    let i = before.index_of(e);
                    assert(all[i] == e);
                }
                if all.contains(e) {
                    let i = all.index_of(e);
                    assert(before[i] == e);
                }
            } else {
                if qualifies(entities[e], keys) {
                    assert(all[all.len() - 1] == e);
                }
                if all.contains(e) {
                    let i = all.index_of(e);
                    if i < before.len() {
                        assert(before[i] < last);
                    }
                }
            }
        }
        assert forall|i: int| 0 <= i < all.len() implies (#[trigger] rows_of(entities, keys)[i])
            == resolve(entities[all[i]], keys) by {
            if i < before.len() {
                assert(rows_of(front, keys)[i] == resolve(front[before[i]], keys));
                assert(front[before[i]] == entities[before[i]]);
            }
        }
    }
}

/// What a callback leaves behind its mutable references is what the table
/// holds at these places right after the call, as long as the places lie in
/// arrays of different types.
pub proof fn law_write_through<T>(
    table: Map<u64, Seq<T>>,
    at: Seq<(u64, usize)>,
    values: Seq<T>,
)
    requires
        values.len() == at.len(),
        forall|k: int| 0 <= k < at.len() ==> in_table(table, #[trigger] at[k]),
        forall|k: int, l: int| 0 <= k < l < at.len() ==> (#[trigger] at[k]).0 != (#[trigger] at[l]).0,
    ensures
        gather(scatter(table, at, values), at) == values,
        scatter(table, at, values).dom() == table.dom(),
        forall|key: u64|
            table.contains_key(key) ==> (#[trigger] scatter(table, at, values)[key]).len()
                == table[key].len(),
        forall|key: u64|
            table.contains_key(key) && (forall|k: int| 0 <= k < at.len() ==> (#[trigger] at[k]).0
                != key) ==> scatter(table, at, values)[key] == table[key],
    decreases at.len(),
{
    if at.len() > 0 {
        let front = at.drop_last();
        let n = front.len() as int;
        law_write_through(table, front, values.drop_last());
        let before = scatter(table, front, values.drop_last());
        let after = scatter(table, at, values);
        let (key, slot) = at.last();
        assert(in_table(table, at[n]));
        assert(forall|k: int| 0 <= k < n ==> (#[trigger] front[k]).0 != key) by {
            assert forall|k: int| 0 <= k < n implies (#[trigger] front[k]).0 != key by {
                assert(front[k] == at[k]);
                assert(at[k].0 != at[n].0);
            }
        }
        assert(before[key] == table[key]);
        assert(after.dom() =~= table.dom());
        assert forall|k: int| 0 <= k < at.len() implies gather(after, at)[k] == values[k] by {
            if k < n {
                assert(front[k] == at[k]);
                assert(at[k].0 != at[n].0);
                assert(gather(before, front)[k] == values.drop_last()[k]);
            }
        }
        assert(gather(after, at) =~= values);
        assert forall|other: u64|
            table.contains_key(other) && (forall|k: int|
                0 <= k < at.len() ==> (#[trigger] at[k]).0 != other) implies after[other]
            == table[other] by {
            assert(at[n].0 != other);
            assert forall|k: int| 0 <= k < n implies (#[trigger] front[k]).0 != other by {
                assert(front[k] == at[k]);
            }
        }
    } else {
        assert(gather(table, at) =~= values);
    }
}

/// Write-through for one call of a query's callback: right after the call,
/// the table holds at the entity's places what the callback left behind its
/// mutable references, the values it saw through shared references are
/// untouched, and no array has changed its length.
pub proof fn law_call_writes_through<T>(
    reqs: Seq<Requirement>,
    row: Seq<usize>,
    before: Map<u64, Seq<T>>,
    after: Map<u64, Seq<T>>,
    taken: Seq<T>,
    given: Seq<T>,
    seen: Seq<T>,
)
    requires
        exclusive_writes(reqs),
        row.len() == reqs.len(),
        forall|p: int| 0 <= p < reqs.len() ==> in_table(before, (#[trigger] reqs[p].key, row[p])),
        step(reqs, row, before, after, taken, given, seen),
    ensures
        gather(after, places(reqs, row, Access::Write)) == given,
        gather(after, places(reqs, row, Access::Read)) == seen,
        same_shape(after, before),
{
    lemma_positions(reqs, Access::Write);
    lemma_positions(reqs, Access::Read);
    let write_at = positions(reqs, Access::Write);
    let read_at = positions(reqs, Access::Read);
    let writes = places(reqs, row, Access::Write);
    let reads = places(reqs, row, Access::Read);
    assert forall|k: int| 0 <= k < writes.len() implies in_table(before, #[trigger] writes[k]) by {
        assert(in_table(before, (reqs[write_at[k]].key, row[write_at[k]])));
    }
    assert forall|k: int, l: int| 0 <= k < l < writes.len() implies (#[trigger] writes[k]).0 != (
    #[trigger] writes[l]).0 by {
        assert(write_at[k] < write_at[l]);
        assert(reqs[write_at[k]].access == Access::Write);
        assert(reqs[write_at[k]].key != reqs[write_at[l]].key);
    }
    law_write_through(before, writes, given);
    assert forall|k: int| 0 <= k < reads.len() implies gather(after, reads)[k] == seen[k] by {
        let key = reads[k].0;
        assert(in_table(before, (reqs[read_at[k]].key, row[read_at[k]])));
        assert(reqs[read_at[k]].access == Access::Read);
        assert forall|l: int| 0 <= l < writes.len() implies (#[trigger] writes[l]).0 != key by {
            assert(reqs[write_at[l]].access == Access::Write);
            assert(reqs[write_at[l]].key != reqs[read_at[k]].key);
        }
    }
    assert(gather(after, reads) =~= seen);
}

/// A query that is granted never holds a mutable reference next to another
/// reference to a component of the same type.
pub proof fn law_granted_is_exclusive(state: Map<u64, i32>, reqs: Seq<Requirement>)
    requires
        acquire_all(state, reqs).error is None,
    ensures
        exclusive_writes(reqs),
{
    lemma_granted_modes(state, reqs);
}

/// A mutable and a shared reference to the same registered type, in either
/// order, or two mutable ones, are refused as a borrow conflict. Two shared
/// references to it are granted.
pub proof fn law_same_type_twice(state: Map<u64, i32>, key: u64)
    requires
        state.contains_key(key),
    ensures
        acquire_all(
            all_free(state),
            seq![
                Requirement { key, access: Access::Write },
                Requirement { key, access: Access::Read },
            ],
        ).error == Some(QueryError::BorrowConflict),
        acquire_all(
            all_free(state),
            seq![
                Requirement { key, access: Access::Read },
                Requirement { key, access: Access::Write },
            ],
        ).error == Some(QueryError::BorrowConflict),
        acquire_all(
            all_free(state),
            seq![
                Requirement { key, access: Access::Write },
                Requirement { key, access: Access::Write },
            ],
        ).error == Some(QueryError::BorrowConflict),
        acquire_all(
            all_free(state),
            seq![
                Requirement { key, access: Access::Read },
                Requirement { key, access: Access::Read },
            ],
        ).error is None,
{
    let free = all_free(state);
    let read = Requirement { key, access: Access::Read };
    let write = Requirement { key, access: Access::Write };
    assert(free.contains_key(key) && free[key] == 0);
    reveal_with_fuel(acquire_all, 3);
    assert(seq![write, read].skip(1) =~= seq![read]);
    assert(seq![read, write].skip(1) =~= seq![write]);
    assert(seq![write, write].skip(1) =~= seq![write]);
    assert(seq![read, read].skip(1) =~= seq![read]);
    assert(seq![read].skip(1) =~= Seq::<Requirement>::empty());
    assert(seq![write].skip(1) =~= Seq::<Requirement>::empty());
    assert(seq![read][0] == read);
    assert(seq![write][0] == write);
}

/// A query that asks for a type that was never registered is refused, and
/// where everything asked for before that type can be granted, the refusal
/// is `UnknownComponent`.
pub proof fn law_unknown_type(state: Map<u64, i32>, reqs: Seq<Requirement>, i: int)
    requires
        0 <= i < reqs.len(),
        !state.contains_key(reqs[i].key),
    ensures
        acquire_all(state, reqs).error is Some,
        acquire_all(state, reqs.take(i)).error is None ==> acquire_all(state, reqs).error == Some(
            QueryError::UnknownComponent,
        ),
    decreases i,
{
    if i > 0 {
        if let Ok(next) = acquire(state, reqs[0]) {
            assert(next.dom() =~= state.dom());
            assert(reqs.skip(1)[i - 1] == reqs[i]);
            assert(reqs.take(i).skip(1) =~= reqs.skip(1).take(i - 1));
            assert(reqs.take(i)[0] == reqs[0]);
            law_unknown_type(next, reqs.skip(1), i - 1);
        } else {
            assert(reqs.take(i)[0] == reqs[0]);
        }
    }
}

/// Whether every row has one slot for each requirement, and each slot names
/// an array element of the requirement's type.
pub open spec fn rows_fit<T>(
    reqs: Seq<Requirement>,
    rows: Seq<Seq<usize>>,
    table: Map<u64, Seq<T>>,
) -> bool {
    &&& forall|i: int| 0 <= i < rows.len() ==> (#[trigger] rows[i]).len() == reqs.len()
    &&& forall|i: int, p: int|
        0 <= i < rows.len() && 0 <= p < reqs.len() ==> in_table(
            table,
            (reqs[p].key, #[trigger] rows[i][p]),
        )
}

/// In a world whose records fit its table, the rows of every query fit it
/// too.
pub proof fn lemma_rows_fit<T>(
    table: Map<u64, Seq<T>>,
    records: Seq<Seq<(u64, usize)>>,
    reqs: Seq<Requirement>,
)
    requires
        records_fit(table, records),
    ensures
        rows_fit(reqs, rows_of(records, keys_of(reqs)), table),
    decreases records.len(),
{
    let keys = keys_of(reqs);
    if records.len() > 0 {
        let front = records.drop_last();
        assert(records_fit(table, front)) by {
            assert forall|e: int, p: int|
                0 <= e < front.len() && 0 <= p < front[e].len() implies in_table(
                table,
                #[trigger] front[e][p],
            ) by {
                assert(in_table(table, records[e][p]));
            }
        }
        lemma_rows_fit(table, front, reqs);
        let rows = rows_of(records, keys);
        let before = rows_of(front, keys);
        assert forall|i: int| 0 <= i < rows.len() implies (#[trigger] rows[i]).len()
            == reqs.len() by {
            if i < before.len() {
                assert(rows[i] == before[i]);
            }
        }
        assert forall|i: int, p: int| 0 <= i < rows.len() && 0 <= p < reqs.len() implies in_table(
            table,
            (reqs[p].key, #[trigger] rows[i][p]),
        ) by {
            if i < before.len() {
                assert(rows[i] == before[i]);
                assert(in_table(table, (reqs[p].key, before[i][p])));
            } else {
                let last = records.last();
                assert forall|q: int| 0 <= q < last.len() implies in_table(
                    table,
                    #[trigger] last[q],
                ) by {
                    assert(in_table(table, records[records.len() - 1][q]));
                }
                lemma_row_in_table(table, last, keys, p);
            }
        }
    }
}

/// Writing back what the table holds changes nothing.
pub proof fn lemma_scatter_same<T>(table: Map<u64, Seq<T>>, at: Seq<(u64, usize)>)
    requires
        forall|k: int| 0 <= k < at.len() ==> in_table(table, #[trigger] at[k]),
    ensures
        scatter(table, at, gather(table, at)) == table,
    decreases at.len(),
{
    if at.len() > 0 {
        let front = at.drop_last();
        assert(gather(table, at).drop_last() =~= gather(table, front));
        assert forall|k: int| 0 <= k < front.len() implies in_table(table, #[trigger] front[k]) by {
            assert(front[k] == at[k]);
        }
        lemma_scatter_same(table, front);
        let (key, slot) = at.last();
        assert(in_table(table, at[at.len() - 1]));
        assert(table[key].update(slot as int, table[key][slot as int]) =~= table[key]);
        assert(table.insert(key, table[key]) =~= table);
    }
}

/// Running a query again, with nothing changed in between, visits the same
/// entities in the same order and shows the callback the same values.
///
/// Both runs start from the same table and go through the same rows. If
/// neither changes a component, the table is the same after each, and the
/// calls of the second run are handed the values that those of the first
/// were handed.
pub proof fn law_repeatable<T>(
    reqs: Seq<Requirement>,
    rows: Seq<Seq<usize>>,
    table: Map<u64, Seq<T>>,
    first: Seq<Call<T>>,
    second: Seq<Call<T>>,
)
    requires
        rows_fit(reqs, rows, table),
        faithful(reqs, rows, table, first),
        faithful(reqs, rows, table, second),
        forall|i: int| 0 <= i < first.len() ==> (#[trigger] first[i]).given == first[i].taken,
        forall|i: int| 0 <= i < second.len() ==> (#[trigger] second[i]).given == second[i].taken,
    ensures
        replay(reqs, rows, table, first) == table,
        replay(reqs, rows, table, second) == table,
        first.len() == second.len(),
        forall|i: int|
            0 <= i < first.len() ==> (#[trigger] first[i]).taken == second[i].taken && first[i].seen
                == second[i].seen,
    decreases rows.len(),
{
    if rows.len() > 0 {
        let n = rows.len() - 1;
        let front = rows.drop_last();
        assert(rows_fit(reqs, front, table)) by {
            assert forall|i: int| 0 <= i < front.len() implies (#[trigger] front[i]).len()
                == reqs.len() by {
                assert(front[i] == rows[i]);
            }
            assert forall|i: int, p: int|
                0 <= i < front.len() && 0 <= p < reqs.len() implies in_table(
                table,
                (reqs[p].key, #[trigger] front[i][p]),
            ) by {
                assert(front[i] == rows[i]);
                assert(in_table(table, (reqs[p].key, rows[i][p])));
            }
        }
        assert forall|i: int| 0 <= i < n implies (#[trigger] first.drop_last()[i]).given
            == first.drop_last()[i].taken by {
            assert(first.drop_last()[i] == first[i]);
        }
        assert forall|i: int| 0 <= i < n implies (#[trigger] second.drop_last()[i]).given
            == second.drop_last()[i].taken by {
            assert(second.drop_last()[i] == second[i]);
        }
        law_repeatable(reqs, front, table, first.drop_last(), second.drop_last());
        lemma_positions(reqs, Access::Write);
        let at = places(reqs, rows.last(), Access::Write);
        assert forall|k: int| 0 <= k < at.len() implies in_table(table, #[trigger] at[k]) by {
            let p = positions(reqs, Access::Write)[k];
            assert(in_table(table, (reqs[p].key, rows[n][p])));
        }
        lemma_scatter_same(table, at);
        assert(first[n].given == first[n].taken);
        assert(second[n].given == second[n].taken);
        assert forall|i: int| 0 <= i < first.len() implies (#[trigger] first[i]).taken
            == second[i].taken && first[i].seen == second[i].seen by {
            if i < n {
                assert(first.drop_last()[i] == first[i]);
                assert(second.drop_last()[i] == second[i]);
            }
        }
    }
}

/// A query that asks for no mutable reference changes no component, so that
/// it is repeatable whatever its callback does.
pub proof fn law_read_only_repeatable<T>(
    reqs: Seq<Requirement>,
    rows: Seq<Seq<usize>>,
    table: Map<u64, Seq<T>>,
    first: Seq<Call<T>>,
    second: Seq<Call<T>>,
)
    requires
        positions(reqs, Access::Write).len() == 0,
        rows_fit(reqs, rows, table),
        faithful(reqs, rows, table, first),
        faithful(reqs, rows, table, second),
    ensures
        replay(reqs, rows, table, first) == table,
        replay(reqs, rows, table, second) == table,
        first.len() == second.len(),
        forall|i: int| 0 <= i < first.len() ==> (#[trigger] first[i]).seen == second[i].seen,
{
    lemma_no_writes(reqs, rows, table, first);
    lemma_no_writes(reqs, rows, table, second);
    law_repeatable(reqs, rows, table, first, second);
}

/// The calls of a query that asks for no mutable reference take and give
/// nothing.
pub proof fn lemma_no_writes<T>(
    reqs: Seq<Requirement>,
    rows: Seq<Seq<usize>>,
    table: Map<u64, Seq<T>>,
    log: Seq<Call<T>>,
)
    requires
        positions(reqs, Access::Write).len() == 0,
        faithful(reqs, rows, table, log),
    ensures
        forall|i: int| 0 <= i < log.len() ==> (#[trigger] log[i]).given == log[i].taken,
    decreases rows.len(),
{
    if rows.len() > 0 {
        let n = rows.len() - 1;
        lemma_no_writes(reqs, rows.drop_last(), table, log.drop_last());
        assert(places(reqs, rows.last(), Access::Write).len() == 0);
        assert(log[n].given =~= log[n].taken);
        assert forall|i: int| 0 <= i < log.len() implies (#[trigger] log[i]).given
            == log[i].taken by {
            if i < n {
                assert(log.drop_last()[i] == log[i]);
            }
        }
    }
}

} // verus!
