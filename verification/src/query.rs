//! The query engine: takes the arrays that a query writes out of the
//! component table, hands the callback references into them and into the
//! arrays it reads, entity by entity, and puts the arrays back.

use crate::matching::{lemma_rows_extend, match_entity, records_of, rows_of};
use crate::model::{
    arrays, exclusive_writes, faithful, gather, in_table, lemma_positions, lemma_row_in_table,
    places, positions, records_fit, replay, same_shape, scatter, Call,
};
use crate::request::{keys_of, Access, Requirement};
use std::collections::HashMap;
use vstd::prelude::*;

verus! {

broadcast use vstd::std_specs::hash::group_hash_axioms;

/// The component types of `reqs` at the positions `at`.
pub open spec fn keys_at(reqs: Seq<Requirement>, at: Seq<int>) -> Seq<u64> {
    Seq::new(at.len(), |k: int| reqs[at[k]].key)
}

/// The places made of `keys` and `slots`, pair by pair.
pub open spec fn paired(keys: Seq<u64>, slots: Seq<usize>) -> Seq<(u64, usize)> {
    Seq::new(keys.len(), |k: int| (keys[k], slots[k]))
}

/// `columns` with `given[k]` written to slot `slots[k]` of column `k`, for
/// the first `m` columns.
pub open spec fn updated<T>(columns: Seq<Seq<T>>, slots: Seq<usize>, given: Seq<T>, m: int) -> Seq<
    Seq<T>,
> {
    Seq::new(
        columns.len(),
        |k: int|
            if k < m {
                columns[k].update(slots[k] as int, given[k])
            } else {
                columns[k]
            },
    )
}

/// The columns of a query, as sequences of values.
pub open spec fn columns_of<T>(columns: Seq<Vec<T>>) -> Seq<Seq<T>> {
    columns.map_values(|column: Vec<T>| column@)
}

/// The table `rest` with `columns` put in as the arrays of `keys`.
pub open spec fn joined<T>(rest: Map<u64, Seq<T>>, keys: Seq<u64>, columns: Seq<Seq<T>>) -> Map<
    u64,
    Seq<T>,
> {
    Map::new(
        |key: u64| rest.contains_key(key) || keys.contains(key),
        |key: u64|
            if keys.contains(key) {
                columns[keys.index_of(key)]
            } else {
                rest[key]
            },
    )
}

/// With exclusive writes, the component types asked for mutably are distinct.
pub proof fn lemma_write_keys_distinct(reqs: Seq<Requirement>)
    requires
        exclusive_writes(reqs),
    ensures
        keys_at(reqs, positions(reqs, Access::Write)).no_duplicates(),
{
    lemma_positions(reqs, Access::Write);
    let at = positions(reqs, Access::Write);
    let keys = keys_at(reqs, at);
    assert forall|k: int, l: int| 0 <= k < keys.len() && 0 <= l < keys.len() && k != l implies keys[k]
        != keys[l] by {
        if k < l {
            assert(at[k] < at[l]);
        } else {
            assert(at[l] < at[k]);
        }
        assert(reqs[at[k]].access == Access::Write);
        assert(reqs[at[k]].key != reqs[at[l]].key);
    }
}

/// Writing to the places of distinct columns, in a table that holds these
/// columns, is writing into the columns.
pub proof fn lemma_scatter_columns<T>(
    rest: Map<u64, Seq<T>>,
    keys: Seq<u64>,
    columns: Seq<Seq<T>>,
    slots: Seq<usize>,
    given: Seq<T>,
    m: int,
)
    requires
        keys.no_duplicates(),
        columns.len() == keys.len(),
        slots.len() == keys.len(),
        given.len() == keys.len(),
        0 <= m <= keys.len(),
    ensures
        scatter(joined(rest, keys, columns), paired(keys, slots).take(m), given.take(m)) == joined(
            rest,
            keys,
            updated(columns, slots, given, m),
        ),
    decreases m,
{
    let table = joined(rest, keys, columns);
    if m == 0 {
        assert(updated(columns, slots, given, 0) =~= columns);
    } else {
        lemma_scatter_columns(rest, keys, columns, slots, given, m - 1);
        let at = paired(keys, slots).take(m);
        assert(at.drop_last() =~= paired(keys, slots).take(m - 1));
        assert(given.take(m).drop_last() =~= given.take(m - 1));
        assert(at.last() == (keys[m - 1], slots[m - 1]));
        assert(given.take(m).last() == given[m - 1]);
        let before = joined(rest, keys, updated(columns, slots, given, m - 1));
        assert(keys.contains(keys[m - 1]));
        assert(keys.index_of(keys[m - 1]) == m - 1);
        let after = before.insert(
            keys[m - 1],
            before[keys[m - 1]].update(slots[m - 1] as int, given[m - 1]),
        );
        assert(after =~= joined(rest, keys, updated(columns, slots, given, m)));
    }
}

/// The positions of `reqs` that ask for `access`.
pub(crate) fn positions_of(reqs: &Vec<Requirement>, access: Access) -> (at: Vec<usize>)
    ensures
        at@.len() == positions(reqs@, access).len(),
        forall|k: int| 0 <= k < at@.len() ==> (#[trigger] at@[k]) as int == positions(reqs@, access)[k],
{
    let mut at: Vec<usize> = Vec::new();
    let mut i: usize = 0;
    while i < reqs.len()
        invariant
            i <= reqs@.len(),
            at@.len() == positions(reqs@.take(i as int), access).len(),
            forall|k: int|
                0 <= k < at@.len() ==> (#[trigger] at@[k]) as int == positions(
                    reqs@.take(i as int),
                    access,
                )[k],
        decreases reqs@.len() - i,
    {
        assert(reqs@.take(i + 1).drop_last() == reqs@.take(i as int));
        if reqs[i].access == access {
            at.push(i);
        }
        i += 1;
    }
    assert(reqs@.take(i as int) == reqs@);
    at
}

/// The entries of `row` at the positions `at`.
pub(crate) fn select(row: &Vec<usize>, at: &Vec<usize>) -> (slots: Vec<usize>)
    requires
        forall|k: int| 0 <= k < at@.len() ==> (#[trigger] at@[k]) < row@.len(),
    ensures
        slots@.len() == at@.len(),
        forall|k: int| 0 <= k < at@.len() ==> #[trigger] slots@[k] == row@[at@[k] as int],
{
    let mut slots: Vec<usize> = Vec::with_capacity(at.len());
    let mut k: usize = 0;
    while k < at.len()
        invariant
            k <= at@.len(),
            slots@.len() == k,
            forall|j: int| 0 <= j < at@.len() ==> (#[trigger] at@[j]) < row@.len(),
            forall|j: int| 0 <= j < k ==> #[trigger] slots@[j] == row@[at@[j] as int],
        decreases at@.len() - k,
    {
        slots.push(row[at[k]]);
        k += 1;
    }
    slots
}

/// The component types of `reqs` at the positions `at`.
pub(crate) fn pick_keys(reqs: &Vec<Requirement>, at: &Vec<usize>) -> (keys: Vec<u64>)
    requires
        forall|k: int| 0 <= k < at@.len() ==> (#[trigger] at@[k]) < reqs@.len(),
    ensures
        keys@.len() == at@.len(),
        forall|k: int| 0 <= k < at@.len() ==> #[trigger] keys@[k] == reqs@[at@[k] as int].key,
{
    let mut keys: Vec<u64> = Vec::with_capacity(at.len());
    let mut k: usize = 0;
    while k < at.len()
        invariant
            k <= at@.len(),
            keys@.len() == k,
            forall|j: int| 0 <= j < at@.len() ==> (#[trigger] at@[j]) < reqs@.len(),
            forall|j: int| 0 <= j < k ==> #[trigger] keys@[j] == reqs@[at@[j] as int].key,
        decreases at@.len() - k,
    {
        keys.push(reqs[at[k]].key);
        k += 1;
    }
    keys
}

/// The component types of `reqs`, position by position.
pub(crate) fn all_keys(reqs: &Vec<Requirement>) -> (keys: Vec<u64>)
    ensures
        keys@ == keys_of(reqs@),
{
    let mut keys: Vec<u64> = Vec::with_capacity(reqs.len());
    let mut i: usize = 0;
    while i < reqs.len()
        invariant
            i <= reqs@.len(),
            keys@.len() == i,
            forall|j: int| 0 <= j < i ==> #[trigger] keys@[j] == reqs@[j].key,
        decreases reqs@.len() - i,
    {
        keys.push(reqs[i].key);
        i += 1;
    }
    assert(keys@ =~= keys_of(reqs@));
    keys
}

/// Takes the arrays of `keys` out of `components`, in the order of `keys`.
pub(crate) fn take_columns<T>(components: &mut HashMap<u64, Vec<T>>, keys: &Vec<u64>) -> (columns: Vec<
    Vec<T>,
>)
    requires
        keys@.no_duplicates(),
        forall|k: int| 0 <= k < keys@.len() ==> old(components)@.contains_key(#[trigger] keys@[k]),
    ensures
        columns@.len() == keys@.len(),
        forall|k: int| 0 <= k < keys@.len() ==> #[trigger] columns@[k] == old(components)@[keys@[k]],
        final(components)@ == old(components)@.remove_keys(keys@.to_set()),
{
    let mut columns: Vec<Vec<T>> = Vec::with_capacity(keys.len());
    let mut k: usize = 0;
    while k < keys.len()
        invariant
            k <= keys@.len(),
            keys@.no_duplicates(),
            forall|j: int| 0 <= j < keys@.len() ==> old(components)@.contains_key(#[trigger] keys@[j]),
            columns@.len() == k,
            forall|j: int| 0 <= j < k ==> #[trigger] columns@[j] == old(components)@[keys@[j]],
            components@ == old(components)@.remove_keys(keys@.take(k as int).to_set()),
        decreases keys@.len() - k,
    {
        let ghost before = components@;
        assert(!keys@.take(k as int).to_set().contains(keys@[k as int])) by {
            if keys@.take(k as int).contains(keys@[k as int]) {
                let j = keys@.take(k as int).index_of(keys@[k as int]);
                assert(keys@[j] == keys@[k as int]);
            }
        }
        let column = components.remove(&keys[k]).unwrap();
        columns.push(column);
        assert(components@ =~= old(components)@.remove_keys(keys@.take(k + 1).to_set())) by {
            assert(keys@.take(k + 1) =~= keys@.take(k as int).push(keys@[k as int]));
            keys@.take(k as int).lemma_push_to_set_commute(keys@[k as int]);
        }
        k += 1;
    }
    assert(keys@.take(k as int) == keys@);
    columns
}

/// Puts `columns` back into `components` as the arrays of `keys`.
pub(crate) fn restore_columns<T>(
    components: &mut HashMap<u64, Vec<T>>,
    keys: &Vec<u64>,
    columns: Vec<Vec<T>>,
)
    requires
        keys@.no_duplicates(),
        columns@.len() == keys@.len(),
    ensures
        arrays(final(components)@) == joined(arrays(old(components)@), keys@, columns_of(columns@)),
{
    let mut columns = columns;
    let ghost all = columns@;
    let mut k: usize = keys.len();
    while k > 0
        invariant
            k <= keys@.len(),
            keys@.no_duplicates(),
            all.len() == keys@.len(),
            columns@ == all.take(k as int),
            forall|key: u64|
                components@.contains_key(key) <==> (old(components)@.contains_key(key) || (exists|
                    j: int,
                | k <= j < keys@.len() && keys@[j] == key)),
            forall|j: int| k <= j < keys@.len() ==> components@[#[trigger] keys@[j]] == all[j],
            forall|key: u64|
                old(components)@.contains_key(key) && !keys@.contains(key) ==> components@[key]
                    == old(components)@[key],
        decreases k,
    {
        let column = columns.pop().unwrap();
        k -= 1;
        assert(column == all[k as int]);
        components.insert(keys[k], column);
        assert(columns@ == all.take(k as int));
    }
    assert(arrays(components@) =~= joined(arrays(old(components)@), keys@, columns_of(all))) by {
        assert forall|key: u64| #[trigger]
            arrays(components@).contains_key(key) <==> joined(
                arrays(old(components)@),
                keys@,
                columns_of(all),
            ).contains_key(key) by {
            if keys@.contains(key) {
                let j = keys@.index_of(key);
                assert(keys@[j] == key);
            }
        }
        assert forall|key: u64| #[trigger] arrays(components@).contains_key(key) implies arrays(
            components@,
        )[key] == joined(arrays(old(components)@), keys@, columns_of(all))[key] by {
            if keys@.contains(key) {
                let j = keys@.index_of(key);
                assert(keys@[j] == key);
            }
        }
    }
}

/// Mutable references to one element of each column: `slots[k]` of column `k`.
///
/// Whatever is left behind the references is what the columns hold at these
/// slots once the borrow ends, and nothing else changes.
pub(crate) fn borrow_row<'a, T>(columns: &'a mut Vec<Vec<T>>, slots: &Vec<usize>) -> (writes: Vec<
    &'a mut T,
>)
    requires
        slots@.len() == old(columns)@.len(),
        forall|k: int|
            0 <= k < slots@.len() ==> slots@[k] < (#[trigger] old(columns)@[k])@.len(),
    ensures
        writes@.len() == slots@.len(),
        forall|k: int|
            0 <= k < slots@.len() ==> *(#[trigger] writes@[k]) == old(columns)@[k]@[slots@[k] as int],
        final(columns)@.len() == old(columns)@.len(),
        forall|k: int|
            0 <= k < slots@.len() ==> (#[trigger] final(columns)@[k])@ == old(
                columns,
            )@[k]@.update(slots@[k] as int, *final(writes@[k])),
{
    let mut writes: Vec<&'a mut T> = Vec::with_capacity(slots.len());
    let ghost done: Seq<Vec<T>> = final(columns)@;
    let mut rest: &mut [Vec<T>] = columns.as_mut_slice();
    let mut k: usize = 0;
    while k < slots.len()
        invariant
            k <= slots@.len(),
            slots@.len() == old(columns)@.len(),
            forall|j: int|
                0 <= j < slots@.len() ==> slots@[j] < (#[trigger] old(columns)@[j])@.len(),
            rest@ == old(columns)@.subrange(k as int, slots@.len() as int),
            writes@.len() == k,
            forall|j: int|
                0 <= j < k ==> *(#[trigger] writes@[j]) == old(columns)@[j]@[slots@[j] as int],
            done.len() == k + final(rest)@.len(),
            forall|j: int|
                0 <= j < k ==> (#[trigger] done[j])@ == old(columns)@[j]@.update(
                    slots@[j] as int,
                    *final(writes@[j]),
                ),
            forall|j: int| 0 <= j < final(rest)@.len() ==> done[k + j] == #[trigger] final(rest)@[j],
        decreases slots@.len() - k,
    {
        let ghost rest_done = final(rest)@;
        let (head, tail) = rest.split_at_mut(1);
        let ghost head_done = final(head)@;
        let ghost head_now = head@;
        assert(rest_done == head_done + final(tail)@);
        assert(head_now.len() == 1);
        assert(head_now[0] == old(columns)@[k as int]);
        let element = &mut head[0][slots[k]];
        assert(head_done.len() == 1);
        assert(head_done[0]@ == head_now[0]@.update(slots@[k as int] as int, *final(element)));
        writes.push(element);
        rest = tail;
        assert(done[k as int] == rest_done[0]);
        assert forall|j: int| 0 <= j < final(rest)@.len() implies done[k + 1 + j]
            == #[trigger] final(rest)@[j] by {
            assert(rest_done[j + 1] == final(rest)@[j]);
        }
        k += 1;
    }
    writes
}

/// Shared references to the elements that `row` names at the positions `at`.
pub(crate) fn read_row<'a, T>(
    components: &'a HashMap<u64, Vec<T>>,
    reqs: &Vec<Requirement>,
    at: &Vec<usize>,
    row: &Vec<usize>,
) -> (reads: Vec<&'a T>)
    requires
        row@.len() == reqs@.len(),
        forall|k: int| 0 <= k < at@.len() ==> (#[trigger] at@[k]) < reqs@.len(),
        forall|k: int|
            0 <= k < at@.len() ==> components@.contains_key(reqs@[(#[trigger] at@[k]) as int].key)
                && row@[at@[k] as int] < components@[reqs@[at@[k] as int].key]@.len(),
    ensures
        reads@.len() == at@.len(),
        forall|k: int|
            0 <= k < at@.len() ==> *(#[trigger] reads@[k]) == components@[reqs@[at@[k] as int].key]@[row@[at@[k] as int] as int],
{
    let mut reads: Vec<&'a T> = Vec::with_capacity(at.len());
    let mut k: usize = 0;
    while k < at.len()
        invariant
            k <= at@.len(),
            row@.len() == reqs@.len(),
            forall|j: int| 0 <= j < at@.len() ==> (#[trigger] at@[j]) < reqs@.len(),
            forall|j: int|
                0 <= j < at@.len() ==> components@.contains_key(
                    reqs@[(#[trigger] at@[j]) as int].key,
                ) && row@[at@[j] as int] < components@[reqs@[at@[j] as int].key]@.len(),
            reads@.len() == k,
            forall|j: int|
                0 <= j < k ==> *(#[trigger] reads@[j]) == components@[reqs@[at@[j] as int].key]@[row@[at@[j] as int] as int],
        decreases at@.len() - k,
    {
        let position = at[k];
        let array = components.get(&reqs[position].key).unwrap();
        reads.push(&array[row[position]]);
        k += 1;
    }
    reads
}

/// Runs `f` once for every entity that holds a component of each type in
/// `reqs`, in registry order, with mutable references to the components asked
/// for with `Access::Write` and shared references to those asked for with
/// `Access::Read`, each group in the order of `reqs`.
pub(crate) fn run_query<T, F: FnMut(Vec<&mut T>, Vec<&T>)>(
    components: &mut HashMap<u64, Vec<T>>,
    entities: &Vec<Vec<(u64, usize)>>,
    reqs: &Vec<Requirement>,
    f: &mut F,
)
    requires
        exclusive_writes(reqs@),
        forall|i: int|
            0 <= i < reqs@.len() ==> old(components)@.contains_key((#[trigger] reqs@[i]).key),
        records_fit(arrays(old(components)@), records_of(entities@)),
        forall|w: Vec<&mut T>, r: Vec<&T>|
            w@.len() == positions(reqs@, Access::Write).len() && r@.len() == positions(
                reqs@,
                Access::Read,
            ).len() ==> call_requires(*old(f), (w, r)),
    ensures
        *final(f) == *old(f),
        same_shape(arrays(final(components)@), arrays(old(components)@)),
        exists|calls: Seq<(Vec<&mut T>, Vec<&T>)>, log: Seq<Call<T>>|
            {
                &&& calls.len() == log.len()
                &&& forall|i: int|
                    0 <= i < calls.len() ==> {
                        &&& call_ensures(*old(f), #[trigger] calls[i], ())
                        &&& log[i].taken == calls[i].0@.map_values(|w: &mut T| *w)
                        &&& log[i].given == calls[i].0@.map_values(|w: &mut T| *final(w))
                        &&& log[i].seen == calls[i].1@.map_values(|r: &T| *r)
                    }
                &&& faithful(
                    reqs@,
                    rows_of(records_of(entities@), keys_of(reqs@)),
                    arrays(old(components)@),
                    log,
                )
                &&& arrays(final(components)@) == replay(
                    reqs@,
                    rows_of(records_of(entities@), keys_of(reqs@)),
                    arrays(old(components)@),
                    log,
                )
            },
{
    let keys = all_keys(reqs);
    let write_at = positions_of(reqs, Access::Write);
    let read_at = positions_of(reqs, Access::Read);
    proof {
        lemma_positions(reqs@, Access::Write);
        lemma_positions(reqs@, Access::Read);
        lemma_write_keys_distinct(reqs@);
    }
    let write_keys = pick_keys(reqs, &write_at);
    assert(write_keys@ =~= keys_at(reqs@, positions(reqs@, Access::Write)));
    let ghost table = arrays(old(components)@);
    let ghost records = records_of(entities@);
    let mut columns = take_columns(components, &write_keys);
    let ghost rest = arrays(components@);
    let ghost mut calls: Seq<(Vec<&mut T>, Vec<&T>)> = Seq::empty();
    let ghost mut log: Seq<Call<T>> = Seq::empty();
    assert(joined(rest, write_keys@, columns_of(columns@)) =~= table) by {
        assert forall|key: u64| #[trigger] table.contains_key(key) && write_keys@.contains(
            key,
        ) implies columns_of(columns@)[write_keys@.index_of(key)] == table[key] by {
            let k = write_keys@.index_of(key);
            assert(write_keys@[k] == key);
        }
    }
    let mut e: usize = 0;
    while e < entities.len()
        invariant
            e <= entities@.len(),
            *f == *old(f),
            exclusive_writes(reqs@),
            keys@ == keys_of(reqs@),
            records == records_of(entities@),
            table == arrays(old(components)@),
            rest == arrays(components@),
            records_fit(table, records),
            forall|i: int| 0 <= i < reqs@.len() ==> table.contains_key((#[trigger] reqs@[i]).key),
            forall|w: Vec<&mut T>, r: Vec<&T>|
                w@.len() == positions(reqs@, Access::Write).len() && r@.len() == positions(
                    reqs@,
                    Access::Read,
                ).len() ==> call_requires(*old(f), (w, r)),
            write_at@.len() == positions(reqs@, Access::Write).len(),
            forall|k: int|
                0 <= k < write_at@.len() ==> (#[trigger] write_at@[k]) as int == positions(
                    reqs@,
                    Access::Write,
                )[k],
            read_at@.len() == positions(reqs@, Access::Read).len(),
            forall|k: int|
                0 <= k < read_at@.len() ==> (#[trigger] read_at@[k]) as int == positions(
                    reqs@,
                    Access::Read,
                )[k],
            write_keys@ == keys_at(reqs@, positions(reqs@, Access::Write)),
            write_keys@.no_duplicates(),
            components@ == old(components)@.remove_keys(write_keys@.to_set()),
            columns@.len() == write_keys@.len(),
            forall|k: int|
                0 <= k < columns@.len() ==> table.contains_key(write_keys@[k]) && (
                #[trigger] columns@[k])@.len() == table[write_keys@[k]].len(),
            calls.len() == log.len(),
            forall|i: int|
                0 <= i < calls.len() ==> {
                    &&& call_ensures(*old(f), #[trigger] calls[i], ())
                    &&& log[i].taken == calls[i].0@.map_values(|w: &mut T| *w)
                    &&& log[i].given == calls[i].0@.map_values(|w: &mut T| *final(w))
                    &&& log[i].seen == calls[i].1@.map_values(|r: &T| *r)
                },
            faithful(reqs@, rows_of(records.take(e as int), keys@), table, log),
            joined(rest, write_keys@, columns_of(columns@)) == replay(
                reqs@,
                rows_of(records.take(e as int), keys@),
                table,
                log,
            ),
        decreases entities@.len() - e,
    {
        proof {
            lemma_rows_extend(records, keys@, e as int);
            lemma_positions(reqs@, Access::Write);
            lemma_positions(reqs@, Access::Read);
        }
        match match_entity(&entities[e], &keys) {
            Some(row) => {
                let ghost rows = rows_of(records.take(e as int), keys@);
                let ghost before = joined(rest, write_keys@, columns_of(columns@));
                let ghost columns_before = columns_of(columns@);
                assert forall|p: int| 0 <= p < keys@.len() implies in_table(
                    table,
                    (keys@[p], #[trigger] row@[p]),
                ) by {
                    lemma_row_in_table(table, records[e as int], keys@, p);
                }
                let slots = select(&row, &write_at);
                assert forall|k: int| 0 <= k < slots@.len() implies slots@[k] < (
                #[trigger] columns@[k])@.len() by {
                    assert(in_table(table, (keys@[write_at@[k] as int], row@[write_at@[k] as int])));
                }
                let writes = borrow_row(&mut columns, &slots);
                assert forall|k: int| 0 <= k < read_at@.len() implies components@.contains_key(
                    reqs@[(#[trigger] read_at@[k]) as int].key,
                ) && row@[read_at@[k] as int] < components@[reqs@[read_at@[k] as int].key]@.len() by {
                    let p = read_at@[k] as int;
                    let key = reqs@[p].key;
                    assert(in_table(table, (keys@[p], row@[p])));
                    if write_keys@.contains(key) {
                        let j = write_keys@.index_of(key);
                        assert(reqs@[write_at@[j] as int].access == Access::Write);
                        assert(reqs@[p].access == Access::Read);
                        assert(false);
                    }
                }
                let reads = read_row(components, reqs, &read_at, &row);
                let ghost call = (writes, reads);
                f(writes, reads);
                proof {
                    let taken = call.0@.map_values(|w: &mut T| *w);
                    let given = Seq::new(slots@.len(), |k: int| columns@[k]@[slots@[k] as int]);
                    let seen = call.1@.map_values(|r: &T| *r);
                    assert(given =~= call.0@.map_values(|w: &mut T| *final(w)));
                    let entry = Call { taken, seen, given };
                    let write_places = places(reqs@, row@, Access::Write);
                    let read_places = places(reqs@, row@, Access::Read);
                    assert(write_places =~= paired(write_keys@, slots@));
                    lemma_scatter_columns(
                        rest,
                        write_keys@,
                        columns_before,
                        slots@,
                        given,
                        write_keys@.len() as int,
                    );
                    assert(paired(write_keys@, slots@).take(write_keys@.len() as int)
                        =~= paired(write_keys@, slots@));
                    assert(given.take(write_keys@.len() as int) =~= given);
                    assert(columns_of(columns@) =~= updated(
                        columns_before,
                        slots@,
                        given,
                        write_keys@.len() as int,
                    ));
                    assert(taken =~= gather(before, write_places)) by {
                        assert forall|k: int| 0 <= k < taken.len() implies taken[k] == gather(
                            before,
                            write_places,
                        )[k] by {
                            assert(write_keys@.contains(write_keys@[k]));
                            assert(write_keys@.index_of(write_keys@[k]) == k);
                        }
                    }
                    assert(seen =~= gather(before, read_places)) by {
                        assert forall|k: int| 0 <= k < seen.len() implies seen[k] == gather(
                            before,
                            read_places,
                        )[k] by {
                            let p = read_at@[k] as int;
                            let key = reqs@[p].key;
                            if write_keys@.contains(key) {
                                let j = write_keys@.index_of(key);
                                assert(reqs@[write_at@[j] as int].access == Access::Write);
                                assert(reqs@[p].access == Access::Read);
                                assert(false);
                            }
                        }
                    }
                    let more_rows = rows.push(row@);
                    let more_log = log.push(entry);
                    assert(more_rows.drop_last() =~= rows);
                    assert(more_log.drop_last() =~= log);
                    calls = calls.push(call);
                    log = more_log;
                }
            },
            None => {},
        }
        e += 1;
    }
    assert(records.take(e as int) =~= records);
    restore_columns(components, &write_keys, columns);
    proof {
        let done = arrays(components@);
        assert(done.dom() =~= table.dom()) by {
            assert forall|key: u64| done.contains_key(key) <==> table.contains_key(key) by {
                if write_keys@.contains(key) {
                    let k = write_keys@.index_of(key);
                    assert(write_keys@[k] == key);
                }
            }
        }
        assert forall|key: u64| done.contains_key(key) implies (#[trigger] done[key]).len()
            == table[key].len() by {
            if write_keys@.contains(key) {
                let k = write_keys@.index_of(key);
                assert(write_keys@[k] == key);
            }
        }
    }
}

} // verus!
