//! Testing whether a chain that came from elsewhere is well formed.

use vstd::prelude::*;
use crate::block::{
    blocks_view, extend_with_copies, numbers_view, position_carrying, same_bytes, DataBlock,
};
use crate::delta::{chain_view, Delta};
use crate::model::{
    blocks_up_to, carries, consistent, numbers_below, pool_at, records_well_formed, resolves,
    well_formed,
};
use crate::reconstruct::get_data_blocks_up_to_id;

verus! {

/// Whether some block of `pool` carries each number of `index`.
pub fn index_resolves(index: &Vec<usize>, pool: &[DataBlock]) -> (ok: bool)
    ensures
        ok == resolves(numbers_view(index@), blocks_view(pool@)),
{
    let ghost numbers = numbers_view(index@);
    let mut i: usize = 0;
    while i < index.len()
        invariant
            i <= index@.len(),
            numbers == numbers_view(index@),
            forall|j: int| 0 <= j < i ==> carries(blocks_view(pool@), #[trigger] numbers[j]),
        decreases index@.len() - i,
    {
        if position_carrying(pool, index[i]).is_none() {
            proof {
                assert(!carries(blocks_view(pool@), numbers[i as int]));
            }
            return false;
        }
        i = i + 1;
    }
    true
}

/// Whether blocks of `blocks` with equal numbers hold equal bytes.
pub fn is_consistent(blocks: &[DataBlock]) -> (ok: bool)
    ensures
        ok == consistent(blocks_view(blocks@)),
{
    let ghost pool = blocks_view(blocks@);
    let mut a: usize = 0;
    while a < blocks.len()
        invariant
            a <= blocks@.len(),
            pool == blocks_view(blocks@),
            forall|x: int, y: int|
                0 <= x < a && 0 <= y < pool.len() && (#[trigger] pool[x]).number == (
                #[trigger] pool[y]).number ==> pool[x].data == pool[y].data,
        decreases blocks@.len() - a,
    {
        let mut b: usize = 0;
        while b < blocks.len()
            invariant
                a < blocks@.len(),
                b <= blocks@.len(),
                pool == blocks_view(blocks@),
                forall|y: int|
                    0 <= y < b && pool[a as int].number == (#[trigger] pool[y]).number
                        ==> pool[a as int].data == pool[y].data,
            decreases blocks@.len() - b,
        {
            if blocks[a].block_number == blocks[b].block_number && !same_bytes(
                blocks[a].data.as_slice(),
                blocks[b].data.as_slice(),
            ) {
                proof {
                    assert(pool[a as int].number == pool[b as int].number);
                    assert(pool[a as int].data != pool[b as int].data);
                }
                return false;
            }
            b = b + 1;
        }
        a = a + 1;
    }
    true
}

/// Whether every block of `blocks` carries a number under `bound`.
pub fn numbers_are_below(blocks: &[DataBlock], bound: usize) -> (ok: bool)
    ensures
        ok == numbers_below(blocks_view(blocks@), bound as nat),
{
    let ghost pool = blocks_view(blocks@);
    let mut i: usize = 0;
    while i < blocks.len()
        invariant
            i <= blocks@.len(),
            pool == blocks_view(blocks@),
            forall|j: int| 0 <= j < i ==> (#[trigger] pool[j]).number < bound,
        decreases blocks@.len() - i,
    {
        if blocks[i].block_number >= bound {
            proof {
                assert(pool[i as int].number >= bound);
            }
            return false;
        }
        i = i + 1;
    }
    true
}

/// Whether the records of `chain` are well formed one by one.
pub fn are_records_well_formed(chain: &Vec<Delta>, snapshot_interval: usize) -> (ok: bool)
    requires
        snapshot_interval > 0,
    ensures
        ok == records_well_formed(chain_view(chain@), snapshot_interval as nat),
{
    let ghost records = chain_view(chain@);
    let ghost interval = snapshot_interval as nat;
    let mut i: usize = 0;
    while i < chain.len()
        invariant
            i <= chain@.len(),
            snapshot_interval > 0,
            interval == snapshot_interval as nat,
            records == chain_view(chain@),
            forall|j: int| 0 <= j < i ==> (#[trigger] records[j]).id == j,
            forall|j: int|
                0 <= j < i && (j as nat) % interval == 0 ==> (#[trigger] records[j]).snapshot,
            forall|j: int|
                0 <= j < i && (#[trigger] records[j]).snapshot ==> resolves(
                    records[j].index,
                    records[j].blocks,
                ),
            forall|j: int|
                0 <= j < i ==> resolves(
                    (#[trigger] records[j]).index,
                    pool_at(records, j as nat, interval),
                ),
        decreases chain@.len() - i,
    {
        let delta = &chain[i];
        if delta.id != i {
            proof {
                assert(records[i as int].id != i);
            }
            return false;
        }
        if i % snapshot_interval == 0 && !delta.snapshot {
            proof {
                assert(!records[i as int].snapshot);
            }
            return false;
        }
        if delta.snapshot && !index_resolves(&delta.index, delta.blocks.as_slice()) {
            proof {
                assert(!resolves(records[i as int].index, records[i as int].blocks));
            }
            return false;
        }
        let pool = get_data_blocks_up_to_id(i, chain, snapshot_interval);
        if !index_resolves(&delta.index, pool.as_slice()) {
            proof {
                assert(!resolves(records[i as int].index, pool_at(records, i as nat, interval)));
            }
            return false;
        }
        i = i + 1;
    }
    true
}

/// The blocks of all records of `chain` whose id is at most the length of
/// the chain, in the order of the chain.
pub fn all_blocks(chain: &Vec<Delta>) -> (blocks: Vec<DataBlock>)
    ensures
        blocks_view(blocks@) == blocks_up_to(chain_view(chain@), chain@.len()),
{
    let ghost records = chain_view(chain@);
    let ghost bound = chain@.len();
    let mut blocks: Vec<DataBlock> = Vec::new();
    let mut i: usize = 0;
    proof {
        assert(blocks_view(blocks@) =~= blocks_up_to(records.take(0), bound));
    }
    while i < chain.len()
        invariant
            i <= chain@.len(),
            records == chain_view(chain@),
            bound == chain@.len(),
            blocks_view(blocks@) == blocks_up_to(records.take(i as int), bound),
        decreases chain@.len() - i,
    {
        proof {
            assert(records.take(i + 1).drop_last() =~= records.take(i as int));
        }
        if chain[i].id <= chain.len() {
            extend_with_copies(&mut blocks, &chain[i].blocks);
        }
        i = i + 1;
    }
    proof {
        assert(records.take(i as int) =~= records);
    }
    blocks
}

/// Whether `chain` is well formed for the snapshot interval
/// `snapshot_interval`: whether it could have been built by the store.
pub fn is_well_formed(chain: &Vec<Delta>, snapshot_interval: usize) -> (ok: bool)
    requires
        snapshot_interval > 0,
    ensures
        ok == well_formed(chain_view(chain@), snapshot_interval as nat),
{
    if !are_records_well_formed(chain, snapshot_interval) {
        return false;
    }
    let blocks = all_blocks(chain);
    if !is_consistent(blocks.as_slice()) {
        return false;
    }
    if chain.len() == 0 {
        return true;
    }
    let pool = get_data_blocks_up_to_id(chain.len() - 1, chain, snapshot_interval);
    if pool.len() == 0 {
        proof {
            assert(blocks_view(pool@).len() == 0);
            if blocks@.len() > 0 {
                assert(blocks_view(blocks@)[0].number >= 0);
            }
        }
        return blocks.len() == 0;
    }
    let last = pool[pool.len() - 1].block_number;
    proof {
        assert(blocks_view(pool@).last() == pool@[pool@.len() - 1]@);
    }
    if last >= pool.len() {
        return false;
    }
    numbers_are_below(blocks.as_slice(), last + 1)
}

} // verus!
