//! Facts about the model that the proofs of the store rest on.

use vstd::prelude::*;
use crate::model::{
    absent_from, blocks_up_to, carries, carrying, consistent, contents, extended, first_where,
    fresh, fresh_blocks, holding, holds, identified, index_of, lemma_carries_iff,
    lemma_first_where, lemma_first_where_is, lemma_holds_iff, nearest_snapshot, next_number, next_record, numbered, numbers_below,
    pool_at, rebuilt, resolves, selected, split, volume, well_formed, BlockView, DeltaView,
};

verus! {

/// Every block of `part` is a block of `whole`.
pub open spec fn within(part: Seq<BlockView>, whole: Seq<BlockView>) -> bool {
    forall|j: int| 0 <= j < part.len() ==> whole.contains(#[trigger] part[j])
}

/// A pool that has a block with the bytes `data` holds `data`.
pub proof fn lemma_holds(pool: Seq<BlockView>, data: Seq<u8>, at: int)
    requires
        0 <= at < pool.len(),
        pool[at].data == data,
    ensures
        holds(pool, data),
        pool[first_where(pool, holding(data))].data == data,
{
    lemma_holds_iff(pool, data);
    lemma_first_where(pool, holding(data));
}

/// A pool that has a block with the number `number` carries `number`.
pub proof fn lemma_carries(pool: Seq<BlockView>, number: nat, at: int)
    requires
        0 <= at < pool.len(),
        pool[at].number == number,
    ensures
        carries(pool, number),
        pool[first_where(pool, carrying(number))].number == number,
{
    lemma_carries_iff(pool, number);
    lemma_first_where(pool, carrying(number));
}

/// Where every block of `current` has its bytes in `records`, the index
/// names one block for each: the first that holds its bytes.
pub proof fn lemma_index_of_total(current: Seq<BlockView>, records: Seq<BlockView>)
    requires
        forall|i: int| 0 <= i < current.len() ==> holds(records, (#[trigger] current[i]).data),
    ensures
        index_of(current, records).len() == current.len(),
        forall|i: int|
            0 <= i < current.len() ==> #[trigger] index_of(current, records)[i] == records[first_where(
                records,
                holding(current[i].data),
            )].number,
    decreases current.len(),
{
    if current.len() > 0 {
        let front = current.drop_last();
        assert forall|i: int| 0 <= i < front.len() implies holds(
            records,
            (#[trigger] front[i]).data,
        ) by {
            assert(front[i] == current[i]);
        }
        lemma_index_of_total(front, records);
        assert(holds(records, current[current.len() - 1].data));
        assert forall|i: int| 0 <= i < current.len() implies #[trigger] index_of(
            current,
            records,
        )[i] == records[first_where(records, holding(current[i].data))].number by {
            if i < front.len() {
                assert(front[i] == current[i]);
            }
        }
    }
}

/// Where `pool` carries every number of `index`, one block is selected
/// for each: the first that carries it.
pub proof fn lemma_selected_total(index: Seq<nat>, pool: Seq<BlockView>)
    requires
        resolves(index, pool),
    ensures
        selected(index, pool).len() == index.len(),
        forall|i: int|
            0 <= i < index.len() ==> #[trigger] selected(index, pool)[i] == pool[first_where(
                pool,
                carrying(index[i]),
            )],
    decreases index.len(),
{
    if index.len() > 0 {
        let front = index.drop_last();
        assert forall|i: int| 0 <= i < front.len() implies carries(pool, #[trigger] front[i]) by {
            assert(front[i] == index[i]);
        }
        lemma_selected_total(front, pool);
        assert(carries(pool, index[index.len() - 1]));
        assert forall|i: int| 0 <= i < index.len() implies #[trigger] selected(index, pool)[i]
            == pool[first_where(pool, carrying(index[i]))] by {
            if i < front.len() {
                assert(front[i] == index[i]);
            }
        }
    }
}

/// What one more record adds to the blocks up to `id`.
pub proof fn lemma_blocks_up_to_push(chain: Seq<DeltaView>, record: DeltaView, id: nat)
    ensures
        blocks_up_to(chain.push(record), id) == if record.id <= id {
            blocks_up_to(chain, id) + record.blocks
        } else {
            blocks_up_to(chain, id)
        },
{
    assert(chain.push(record).drop_last() =~= chain);
}

/// The blocks up to `id` of a chain of one record.
pub proof fn lemma_blocks_up_to_single(record: DeltaView, id: nat)
    ensures
        blocks_up_to(seq![record], id) == if record.id <= id {
            record.blocks
        } else {
            Seq::empty()
        },
{
    let none = Seq::<DeltaView>::empty();
    lemma_blocks_up_to_push(none, record, id);
    assert(none.push(record) =~= seq![record]);
    assert(blocks_up_to(none, id) + record.blocks =~= record.blocks);
}

/// Two bounds that no id of `chain` exceeds give the same blocks.
pub proof fn lemma_blocks_up_to_all(chain: Seq<DeltaView>, id: nat, other: nat)
    requires
        forall|i: int| 0 <= i < chain.len() ==> (#[trigger] chain[i]).id <= id,
        forall|i: int| 0 <= i < chain.len() ==> (#[trigger] chain[i]).id <= other,
    ensures
        blocks_up_to(chain, id) == blocks_up_to(chain, other),
    decreases chain.len(),
{
    if chain.len() > 0 {
        let front = chain.drop_last();
        assert forall|i: int| 0 <= i < front.len() implies (#[trigger] front[i]).id <= id by {
            assert(front[i] == chain[i]);
        }
        assert forall|i: int| 0 <= i < front.len() implies (#[trigger] front[i]).id <= other by {
            assert(front[i] == chain[i]);
        }
        lemma_blocks_up_to_all(front, id, other);
        assert(chain.last() == chain[chain.len() - 1]);
    }
}

/// The blocks of a record whose id is at most `id` are among the blocks up
/// to `id`, which are at least as many.
pub proof fn lemma_record_within(chain: Seq<DeltaView>, at: int, id: nat)
    requires
        0 <= at < chain.len(),
        chain[at].id <= id,
    ensures
        within(chain[at].blocks, blocks_up_to(chain, id)),
        chain[at].blocks.len() <= blocks_up_to(chain, id).len(),
    decreases chain.len(),
{
    let front = chain.drop_last();
    let all = blocks_up_to(chain, id);
    let part = chain[at].blocks;
    if at == chain.len() - 1 {
        let before = blocks_up_to(front, id);
        assert forall|j: int| 0 <= j < part.len() implies all.contains(#[trigger] part[j]) by {
            assert(all[before.len() + j] == part[j]);
        }
    } else {
        assert(front[at] == chain[at]);
        lemma_record_within(front, at, id);
        let before = blocks_up_to(front, id);
        assert forall|j: int| 0 <= j < part.len() implies all.contains(#[trigger] part[j]) by {
            let q = choose|q: int| 0 <= q < before.len() && before[q] == part[j];
            assert(all[q] == part[j]);
        }
    }
}

/// A part of a list in which a number stands for one content has that
/// property too, and its numbers keep under a bound of the list.
pub proof fn lemma_within_inherits(part: Seq<BlockView>, whole: Seq<BlockView>, bound: nat)
    requires
        within(part, whole),
        consistent(whole),
    ensures
        consistent(part),
        numbers_below(whole, bound) ==> numbers_below(part, bound),
{
    assert forall|a: int, b: int|
        0 <= a < part.len() && 0 <= b < part.len() && (#[trigger] part[a]).number == (
        #[trigger] part[b]).number implies part[a].data == part[b].data by {
        let p = choose|p: int| 0 <= p < whole.len() && whole[p] == part[a];
        let q = choose|q: int| 0 <= q < whole.len() && whole[q] == part[b];
        assert(whole[p].number == whole[q].number);
    }
    if numbers_below(whole, bound) {
        assert forall|j: int| 0 <= j < part.len() implies (#[trigger] part[j]).number < bound by {
            let q = choose|q: int| 0 <= q < whole.len() && whole[q] == part[j];
            assert(whole[q].number < bound);
        }
    }
}

/// A list followed by blocks that it already has keeps what held of it.
pub proof fn lemma_repeat_keeps(whole: Seq<BlockView>, extra: Seq<BlockView>, bound: nat)
    requires
        within(extra, whole),
        consistent(whole),
        numbers_below(whole, bound),
    ensures
        consistent(whole + extra),
        numbers_below(whole + extra, bound),
        within(whole + extra, whole),
{
    let both = whole + extra;
    assert forall|j: int| 0 <= j < both.len() implies whole.contains(#[trigger] both[j]) by {
        if j < whole.len() {
            assert(whole[j] == both[j]);
        } else {
            assert(both[j] == extra[j - whole.len()]);
        }
    }
    lemma_within_inherits(both, whole, bound);
}

/// A list whose numbers are under `first`, followed by blocks numbered
/// from `first` on, still has one content for each number, and all its
/// numbers are under `first` plus the count of the new blocks.
pub proof fn lemma_numbered_keeps(whole: Seq<BlockView>, pieces: Seq<Seq<u8>>, first: nat)
    requires
        consistent(whole),
        numbers_below(whole, first),
    ensures
        consistent(whole + numbered(pieces, first)),
        numbers_below(whole + numbered(pieces, first), first + pieces.len()),
{
    let added = numbered(pieces, first);
    let both = whole + added;
    assert forall|j: int| 0 <= j < both.len() implies (#[trigger] both[j]).number < first
        + pieces.len() by {
        if j < whole.len() {
            assert(both[j] == whole[j]);
        } else {
            assert(both[j] == added[j - whole.len()]);
        }
    }
    assert forall|a: int, b: int|
        0 <= a < both.len() && 0 <= b < both.len() && (#[trigger] both[a]).number == (
        #[trigger] both[b]).number implies both[a].data == both[b].data by {
        if a < whole.len() {
            assert(both[a] == whole[a]);
        } else {
            assert(both[a] == added[a - whole.len()]);
        }
        if b < whole.len() {
            assert(both[b] == whole[b]);
        } else {
            assert(both[b] == added[b - whole.len()]);
        }
    }
}

/// What the blocks of `current` add to `pool`. Every block of `current`
/// then has its bytes in the extended pool; no new block has its bytes in
/// `pool`; and where there is a new block, the next free number has grown
/// by their count.
pub proof fn lemma_extension(pool: Seq<BlockView>, current: Seq<BlockView>)
    ensures
        forall|i: int|
            0 <= i < current.len() ==> holds(
                extended(pool, fresh(pool, current)),
                (#[trigger] current[i]).data,
            ),
        forall|t: int|
            0 <= t < fresh(pool, current).len() ==> !holds(
                pool,
                (#[trigger] fresh(pool, current)[t]).data,
            ),
        fresh(pool, current).len() > 0 ==> next_number(extended(pool, fresh(pool, current)))
            == next_number(pool) + fresh(pool, current).len(),
        extended(pool, fresh(pool, current)).len() == pool.len() + fresh(pool, current).len(),
{
    let new = fresh(pool, current);
    let records = extended(pool, new);
    let added = numbered(contents(new), next_number(pool));
    assert forall|i: int| 0 <= i < current.len() implies holds(
        records,
        (#[trigger] current[i]).data,
    ) by {
        let data = current[i].data;
        if holds(pool, data) {
            let at = first_where(pool, holding(data));
            lemma_first_where(pool, holding(data));
            assert(holding(data)(pool[at]));
            assert(records[at] == pool[at]);
            lemma_holds(records, data, at);
        } else {
            assert(absent_from(pool)(current[i]));
            current.lemma_filter_contains(absent_from(pool), i);
            let t = choose|t: int| 0 <= t < new.len() && new[t] == current[i];
            assert(records[pool.len() + t] == added[t]);
            lemma_holds(records, data, pool.len() + t);
        }
    }
    assert forall|t: int| 0 <= t < new.len() implies !holds(pool, (#[trigger] new[t]).data) by {
        current.lemma_filter_pred(absent_from(pool), t);
    }
    if new.len() > 0 {
        assert(records.last() == added[new.len() - 1]);
    }
}

/// Where the first record with the id `id` stands once `record` is added
/// behind `chain`.
pub proof fn lemma_first_identified_push(chain: Seq<DeltaView>, record: DeltaView, id: nat)
    ensures
        first_where(chain, identified(id)) < chain.len() ==> first_where(
            chain.push(record),
            identified(id),
        ) == first_where(chain, identified(id)),
        first_where(chain, identified(id)) >= chain.len() && record.id == id ==> first_where(
            chain.push(record),
            identified(id),
        ) == chain.len(),
        first_where(chain, identified(id)) >= chain.len() && record.id != id ==> first_where(
            chain.push(record),
            identified(id),
        ) == chain.len() + 1,
{
    let longer = chain.push(record);
    let found = first_where(chain, identified(id));
    lemma_first_where(chain, identified(id));
    let at = if found < chain.len() {
        found
    } else if record.id == id {
        chain.len() as int
    } else {
        chain.len() + 1 as int
    };
    assert forall|j: int| 0 <= j < at implies !identified(id)(#[trigger] longer[j]) by {
        if j < chain.len() {
            assert(longer[j] == chain[j]);
        }
    }
    if found < chain.len() {
        assert(longer[found] == chain[found]);
    }
    lemma_first_where_is(longer, identified(id), at);
}

/// In a chain whose ids count from zero, the first record with the id of a
/// position stands at that position.
pub proof fn lemma_first_identified(chain: Seq<DeltaView>, at: int)
    requires
        forall|i: int| 0 <= i < chain.len() ==> (#[trigger] chain[i]).id == i,
        0 <= at,
    ensures
        first_where(chain, identified(at as nat)) == if at < chain.len() {
            at
        } else {
            chain.len() as int
        },
{
    let place = if at < chain.len() {
        at
    } else {
        chain.len() as int
    };
    lemma_first_where_is(chain, identified(at as nat), place);
}

/// A record added behind a chain whose ids count from zero changes neither
/// the pool nor the bytes of an earlier version.
pub proof fn lemma_earlier_versions_kept(
    chain: Seq<DeltaView>,
    record: DeltaView,
    id: nat,
    interval: nat,
)
    requires
        interval > 0,
        forall|i: int| 0 <= i < chain.len() ==> (#[trigger] chain[i]).id == i,
        record.id == chain.len(),
        id < chain.len(),
    ensures
        pool_at(chain.push(record), id, interval) == pool_at(chain, id, interval),
        rebuilt(chain.push(record), id, interval) == rebuilt(chain, id, interval),
{
    let longer = chain.push(record);
    lemma_first_identified(chain, id as int);
    lemma_first_identified_push(chain, record, id);
    assert(longer[id as int] == chain[id as int]);
    lemma_blocks_up_to_push(chain, record, id);
    if id != 0 && id % interval == 0 {
        assert(nearest_snapshot(id, interval) == id);
    }
}

/// A list is within itself followed by anything, and what follows is
/// within the whole too.
pub proof fn lemma_within_add(left: Seq<BlockView>, right: Seq<BlockView>)
    ensures
        within(left, left + right),
        within(right, left + right),
{
    let both = left + right;
    assert forall|j: int| 0 <= j < left.len() implies both.contains(#[trigger] left[j]) by {
        assert(both[j] == left[j]);
    }
    assert forall|j: int| 0 <= j < right.len() implies both.contains(#[trigger] right[j]) by {
        assert(both[left.len() + j] == right[j]);
    }
}

/// Being within is passed on.
pub proof fn lemma_within_chain(inner: Seq<BlockView>, middle: Seq<BlockView>, outer: Seq<BlockView>)
    requires
        within(inner, middle),
        within(middle, outer),
    ensures
        within(inner, outer),
{
    assert forall|j: int| 0 <= j < inner.len() implies outer.contains(#[trigger] inner[j]) by {
        let q = choose|q: int| 0 <= q < middle.len() && middle[q] == inner[j];
        assert(outer.contains(middle[q]));
    }
}

/// The pool of the last record of a well-formed chain is within the blocks
/// of the whole chain, which are at least as many.
pub proof fn lemma_last_pool_within(chain: Seq<DeltaView>, interval: nat)
    requires
        interval > 0,
        chain.len() > 0,
        well_formed(chain, interval),
    ensures
        within(
            pool_at(chain, (chain.len() - 1) as nat, interval),
            blocks_up_to(chain, chain.len()),
        ),
        pool_at(chain, (chain.len() - 1) as nat, interval).len() <= blocks_up_to(
            chain,
            chain.len(),
        ).len(),
{
    let last = (chain.len() - 1) as nat;
    let all = blocks_up_to(chain, chain.len());
    let prior = pool_at(chain, last, interval);
    if last != 0 && last % interval == 0 {
        assert(nearest_snapshot(last, interval) == last);
        lemma_first_identified(chain, last as int);
        lemma_record_within(chain, last as int, chain.len());
    } else {
        lemma_blocks_up_to_all(chain, last, chain.len());
        lemma_within_add(prior, Seq::empty());
        assert(prior + Seq::<BlockView>::empty() =~= prior);
    }
}

/// Two lists within a third are within it together.
pub proof fn lemma_within_both(left: Seq<BlockView>, right: Seq<BlockView>, whole: Seq<BlockView>)
    requires
        within(left, whole),
        within(right, whole),
    ensures
        within(left + right, whole),
{
    let both = left + right;
    assert forall|j: int| 0 <= j < both.len() implies whole.contains(#[trigger] both[j]) by {
        if j < left.len() {
            assert(both[j] == left[j]);
        } else {
            assert(both[j] == right[j - left.len()]);
        }
    }
}

/// What holds once a record that brings new blocks stands behind a
/// well-formed chain: of its pool, and of the blocks of the longer chain.
pub proof fn lemma_growth(
    content: Seq<u8>,
    chain: Seq<DeltaView>,
    force: bool,
    block_size: nat,
    interval: nat,
)
    requires
        block_size > 0,
        interval > 0,
        chain.len() > 0,
        well_formed(chain, interval),
        fresh_blocks(content, chain, block_size, interval).len() > 0,
    ensures
        ({
            let record = next_record(content, chain, force, block_size, interval);
            let longer = chain.push(record);
            let prior = pool_at(chain, (chain.len() - 1) as nat, interval);
            let current = numbered(split(content, block_size), 0);
            let records = extended(prior, fresh(prior, current));
            let pool = pool_at(longer, chain.len(), interval);
            let all = blocks_up_to(longer, longer.len());
            &&& record.id == chain.len()
            &&& record.index == index_of(current, records)
            &&& record.snapshot ==> record.blocks == records
            &&& within(records, pool)
            &&& within(pool, all)
            &&& consistent(all)
            &&& next_number(pool) <= pool.len()
            &&& numbers_below(all, next_number(pool))
        }),
{
    let record = next_record(content, chain, force, block_size, interval);
    let longer = chain.push(record);
    let last = (chain.len() - 1) as nat;
    assert(chain.last() == chain[chain.len() - 1]);
    let prior = pool_at(chain, last, interval);
    let current = numbered(split(content, block_size), 0);
    let new = fresh(prior, current);
    let first = next_number(prior);
    let added = numbered(contents(new), first);
    let records = extended(prior, new);
    let pool = pool_at(longer, chain.len(), interval);
    let all = blocks_up_to(longer, longer.len());
    let before = blocks_up_to(chain, chain.len());

    lemma_last_pool_within(chain, interval);
    lemma_extension(prior, current);
    assert(records.skip(prior.len() as int) =~= added);

    // the blocks of the longer chain
    lemma_blocks_up_to_push(chain, record, longer.len());
    lemma_blocks_up_to_all(chain, chain.len(), longer.len());
    assert(all == before + record.blocks);
    lemma_within_add(before, record.blocks);
    lemma_within_add(prior, added);
    if record.snapshot {
        lemma_repeat_keeps(before, prior, first);
        lemma_numbered_keeps(before + prior, contents(new), first);
        assert(all =~= (before + prior) + added);
    } else {
        lemma_numbered_keeps(before, contents(new), first);
    }
    lemma_within_chain(prior, before, all);
    lemma_within_chain(added, record.blocks, all);
    lemma_within_both(prior, added, all);

    // the pool of the new record
    let id = chain.len();
    if id % interval == 0 {
        assert(nearest_snapshot(id, interval) == id);
        lemma_first_identified(chain, id as int);
        lemma_first_identified_push(chain, record, id);
        assert(longer[id as int] == record);
        assert(pool == records);
    } else {
        lemma_blocks_up_to_push(chain, record, id);
        assert(pool == all);
        assert(pool.last() == added[new.len() - 1]);
    }
}

/// The index of a record that brings new blocks behind a well-formed
/// chain resolves in the pool of the record, to the pieces of the content;
/// where the record is a snapshot, it resolves in the record's own blocks.
pub proof fn lemma_new_index(
    content: Seq<u8>,
    chain: Seq<DeltaView>,
    force: bool,
    block_size: nat,
    interval: nat,
)
    requires
        block_size > 0,
        interval > 0,
        chain.len() > 0,
        well_formed(chain, interval),
        fresh_blocks(content, chain, block_size, interval).len() > 0,
    ensures
        ({
            let record = next_record(content, chain, force, block_size, interval);
            let pool = pool_at(chain.push(record), chain.len(), interval);
            &&& resolves(record.index, pool)
            &&& record.snapshot ==> resolves(record.index, record.blocks)
            &&& contents(selected(record.index, pool)) == split(content, block_size)
        }),
{
    let record = next_record(content, chain, force, block_size, interval);
    let longer = chain.push(record);
    let prior = pool_at(chain, (chain.len() - 1) as nat, interval);
    let current = numbered(split(content, block_size), 0);
    let records = extended(prior, fresh(prior, current));
    let pool = pool_at(longer, chain.len(), interval);
    let all = blocks_up_to(longer, longer.len());
    let index = record.index;
    lemma_growth(content, chain, force, block_size, interval);
    lemma_extension(prior, current);
    lemma_index_of_total(current, records);
    lemma_within_inherits(pool, all, 0);
    assert forall|i: int| 0 <= i < index.len() implies carries(pool, #[trigger] index[i])
        && carries(records, index[i]) && pool[first_where(pool, carrying(index[i]))].data
        == current[i].data by {
        let data = current[i].data;
        let at = first_where(records, holding(data));
        lemma_first_where(records, holding(data));
        assert(holds(records, data));
        assert(holding(data)(records[at]));
        assert(index[i] == index_of(current, records)[i]);
        assert(index[i] == records[at].number);
        lemma_carries(records, index[i], at);
        assert(pool.contains(records[at]));
        let q = choose|q: int| 0 <= q < pool.len() && pool[q] == records[at];
        lemma_carries(pool, index[i], q);
        let found = first_where(pool, carrying(index[i]));
        lemma_first_where(pool, carrying(index[i]));
        assert(pool[found].number == pool[q].number);
    }
    lemma_selected_total(index, pool);
    assert(contents(selected(index, pool)) =~= split(content, block_size));
}

/// What one more block adds to the volume of a list.
pub proof fn lemma_volume_push(blocks: Seq<BlockView>, block: BlockView)
    ensures
        volume(blocks.push(block)) == volume(blocks) + block.data.len(),
{
    assert(contents(blocks.push(block)) =~= contents(blocks).push(block.data));
    contents(blocks).lemma_flatten_push(block.data);
}

/// The blocks picked out of a list hold no more bytes than the list, and
/// fewer where a block that holds a byte is left out.
pub proof fn lemma_volume_filter(blocks: Seq<BlockView>, picked: spec_fn(BlockView) -> bool)
    ensures
        volume(blocks.filter(picked)) <= volume(blocks),
        forall|i: int|
            0 <= i < blocks.len() && !picked(#[trigger] blocks[i]) && blocks[i].data.len() > 0
                ==> volume(blocks.filter(picked)) < volume(blocks),
    decreases blocks.len(),
{
    if blocks.len() == 0 {
        reveal(Seq::filter);
    } else {
        let front = blocks.drop_last();
        let last = blocks.last();
        assert(front.push(last) =~= blocks);
        lemma_volume_filter(front, picked);
        front.lemma_filter_push(last, picked);
        lemma_volume_push(front, last);
        if picked(last) {
            lemma_volume_push(front.filter(picked), last);
        }
        assert forall|i: int|
            0 <= i < blocks.len() && !picked(#[trigger] blocks[i]) && blocks[i].data.len()
                > 0 implies volume(blocks.filter(picked)) < volume(blocks) by {
            if i < front.len() {
                assert(front[i] == blocks[i]);
            }
        }
    }
}

/// Where only the first record of a chain has an id of at most `id`, the
/// blocks up to `id` are the blocks of that record.
pub proof fn lemma_blocks_up_to_first(chain: Seq<DeltaView>, id: nat)
    requires
        chain.len() > 0,
        chain[0].id <= id,
        forall|j: int| 1 <= j < chain.len() ==> (#[trigger] chain[j]).id > id,
    ensures
        blocks_up_to(chain, id) == chain[0].blocks,
    decreases chain.len(),
{
    if chain.len() == 1 {
        assert(chain =~= seq![chain[0]]);
        lemma_blocks_up_to_single(chain[0], id);
    } else {
        let front = chain.drop_last();
        assert(chain.last() == chain[chain.len() - 1]);
        assert forall|j: int| 1 <= j < front.len() implies (#[trigger] front[j]).id > id by {
            assert(front[j] == chain[j]);
        }
        assert(front[0] == chain[0]);
        lemma_blocks_up_to_first(front, id);
    }
}

/// The blocks up to an id are within the blocks up to a later id.
pub proof fn lemma_blocks_up_to_grows(chain: Seq<DeltaView>, id: nat, later: nat)
    requires
        id <= later,
    ensures
        within(blocks_up_to(chain, id), blocks_up_to(chain, later)),
    decreases chain.len(),
{
    if chain.len() > 0 {
        let front = chain.drop_last();
        lemma_blocks_up_to_grows(front, id, later);
        let less = blocks_up_to(front, id);
        let more = blocks_up_to(front, later);
        if chain.last().id <= id {
            lemma_within_add(more, chain.last().blocks);
            lemma_within_chain(less, more, more + chain.last().blocks);
            lemma_within_both(less, chain.last().blocks, more + chain.last().blocks);
        } else if chain.last().id <= later {
            lemma_within_add(more, chain.last().blocks);
            lemma_within_chain(less, more, more + chain.last().blocks);
        }
    }
}

/// An index that resolves in a part of a pool selects the same blocks
/// from the part and from the pool, where a number of the pool stands for
/// one content.
pub proof fn lemma_selected_from_part(
    index: Seq<nat>,
    part: Seq<BlockView>,
    whole: Seq<BlockView>,
)
    requires
        resolves(index, part),
        within(part, whole),
        consistent(whole),
    ensures
        resolves(index, whole),
        selected(index, part) == selected(index, whole),
{
    assert forall|i: int| 0 <= i < index.len() implies carries(whole, #[trigger] index[i])
        && part[first_where(part, carrying(index[i]))] == whole[first_where(
        whole,
        carrying(index[i]),
    )] by {
        let number = index[i];
        let f = first_where(part, carrying(number));
        lemma_first_where(part, carrying(number));
        assert(carries(part, number));
        assert(carrying(number)(part[f]));
        assert(whole.contains(part[f]));
        let q = choose|q: int| 0 <= q < whole.len() && whole[q] == part[f];
        lemma_carries(whole, number, q);
        let g = first_where(whole, carrying(number));
        lemma_first_where(whole, carrying(number));
        assert(whole[g].number == whole[q].number);
        assert(whole[g].data == whole[q].data);
    }
    lemma_selected_total(index, part);
    lemma_selected_total(index, whole);
    assert(selected(index, part) =~= selected(index, whole));
}

} // verus!
