//! Building a chain: finding the blocks that a content adds to the pool,
//! numbering them, and recording the content as one more delta.

use vstd::prelude::*;
use vstd::slice::slice_to_vec;
use crate::block::{blocks_view, numbers_view, position_holding, split_data_into_blocks, DataBlock};
use crate::config::Config;
use crate::delta::{chain_view, Delta};
use crate::error::StoreError;
use crate::model::{
    absent_from, appended, contents, extended, first_record, fresh, index_of, next_number,
    numbered, split, well_formed, DeltaView,
};
use crate::laws::{lemma_append_well_formed, lemma_first_record_well_formed};
use crate::reconstruct::get_data_blocks_up_to_id;

verus! {

/// The blocks of `current_data`, cut at `block_size` bytes, whose bytes no
/// block of `previous_pool` holds, in the order of `current_data`. A
/// block that differs from one of the pool in a single byte is new.
pub fn find_different_blocks(
    previous_pool: &[DataBlock],
    current_data: &[u8],
    block_size: usize,
) -> (different: Vec<DataBlock>)
    requires
        block_size > 0,
    ensures
        blocks_view(different@) == fresh(
            blocks_view(previous_pool@),
            numbered(split(current_data@, block_size as nat), 0),
        ),
{
    let (current, _numbers) = split_data_into_blocks(current_data, block_size);
    let ghost pool = blocks_view(previous_pool@);
    let ghost blocks = blocks_view(current@);
    let mut different: Vec<DataBlock> = Vec::new();
    let mut i: usize = 0;
    proof {
        reveal(Seq::filter);
        assert(blocks_view(different@) =~= blocks.take(0).filter(absent_from(pool)));
    }
    while i < current.len()
        invariant
            i <= current@.len(),
            pool == blocks_view(previous_pool@),
            blocks == blocks_view(current@),
            blocks_view(different@) == blocks.take(i as int).filter(absent_from(pool)),
        decreases current@.len() - i,
    {
        proof {
            assert(blocks.take(i + 1) =~= blocks.take(i as int).push(blocks[i as int]));
            blocks.take(i as int).lemma_filter_push(blocks[i as int], absent_from(pool));
        }
        if position_holding(previous_pool, current[i].data.as_slice()).is_none() {
            let copy = current[i].clone();
            proof {
                assert(blocks_view(different@.push(copy)) =~= blocks_view(different@).push(
                    blocks[i as int],
                ));
            }
            different.push(copy);
        }
        i = i + 1;
    }
    proof {
        assert(blocks.take(i as int) =~= blocks);
    }
    different
}

/// Adds the bytes of `different_blocks` to the end of `block_list`, each
/// under the number after that of the block before it, and lists the
/// numbers given.
pub fn add_to_block_list(mut block_list: Vec<DataBlock>, different_blocks: Vec<DataBlock>) -> (res: (
    Vec<DataBlock>,
    Vec<usize>,
))
    requires
        next_number(blocks_view(block_list@)) <= block_list@.len(),
    ensures
        blocks_view(res.0@) == extended(blocks_view(block_list@), blocks_view(different_blocks@)),
        numbers_view(res.1@) == Seq::new(
            different_blocks@.len(),
            |i: int| (next_number(blocks_view(block_list@)) + i) as nat,
        ),
{
    let ghost pool = blocks_view(block_list@);
    let ghost pieces = contents(blocks_view(different_blocks@));
    let ghost first = next_number(pool);
    let mut diff_number: Vec<usize> = Vec::new();
    let mut i: usize = 0;
    proof {
        assert(blocks_view(block_list@) =~= pool + numbered(pieces.take(0), first));
    }
    while i < different_blocks.len()
        invariant
            i <= different_blocks@.len(),
            pieces == contents(blocks_view(different_blocks@)),
            first == next_number(pool),
            first <= pool.len(),
            blocks_view(block_list@) == pool + numbered(pieces.take(i as int), first),
            diff_number@.len() == i,
            forall|j: int| 0 <= j < i ==> #[trigger] diff_number@[j] == first + j,
        decreases different_blocks@.len() - i,
    {
        let ghost before = blocks_view(block_list@);
        proof {
            assert(before.len() == pool.len() + i);
            assert(next_number(before) == first + i) by {
                if i > 0 {
                    assert(before.last() == numbered(pieces.take(i as int), first)[i - 1]);
                }
            }
        }
        let block_number: usize = if block_list.len() == 0 {
            0
        } else {
            block_list[block_list.len() - 1].block_number + 1
        };
        let block = DataBlock::new(
            block_number,
            slice_to_vec(different_blocks[i].data.as_slice()),
        );
        proof {
            assert(block_list@.len() > 0 ==> before.last() == block_list@.last()@);
            assert(block@.number == first + i);
            assert(block@.data == pieces[i as int]);
            assert(blocks_view(block_list@.push(block)) =~= before.push(block@));
            assert(before.push(block@) =~= pool + numbered(pieces.take(i + 1), first));
        }
        diff_number.push(block_number);
        block_list.push(block);
        i = i + 1;
    }
    proof {
        assert(pieces.take(i as int) =~= pieces);
        assert(numbers_view(diff_number@) =~= Seq::new(
            different_blocks@.len(),
            |i: int| (first + i) as nat,
        ));
    }
    (block_list, diff_number)
}

/// For each block of `vec_data1` whose bytes some block of `vec_data2`
/// holds, the number of the first such block, in the order of `vec_data1`.
pub fn extract_index(vec_data1: &Vec<DataBlock>, vec_data2: &[DataBlock]) -> (index: Vec<usize>)
    ensures
        numbers_view(index@) == index_of(blocks_view(vec_data1@), blocks_view(vec_data2@)),
{
    let ghost current = blocks_view(vec_data1@);
    let ghost records = blocks_view(vec_data2@);
    let mut index: Vec<usize> = Vec::new();
    let mut i: usize = 0;
    proof {
        assert(numbers_view(index@) =~= index_of(current.take(0), records));
    }
    while i < vec_data1.len()
        invariant
            i <= vec_data1@.len(),
            current == blocks_view(vec_data1@),
            records == blocks_view(vec_data2@),
            numbers_view(index@) == index_of(current.take(i as int), records),
        decreases vec_data1@.len() - i,
    {
        proof {
            assert(current.take(i + 1).drop_last() =~= current.take(i as int));
        }
        match position_holding(vec_data2, vec_data1[i].data.as_slice()) {
            Some(at) => {
                let number = vec_data2[at].block_number;
                proof {
                    assert(numbers_view(index@.push(number)) =~= numbers_view(index@).push(
                        records[at as int].number,
                    ));
                }
                index.push(number);
            },
            None => {},
        }
        i = i + 1;
    }
    proof {
        assert(current.take(i as int) =~= current);
    }
    index
}

/// A copy of the blocks of `blocks` from the position `start` on.
pub fn copy_blocks_from(blocks: &Vec<DataBlock>, start: usize) -> (copy: Vec<DataBlock>)
    requires
        start <= blocks@.len(),
    ensures
        blocks_view(copy@) == blocks_view(blocks@).skip(start as int),
{
    let ghost all = blocks_view(blocks@);
    let mut copy: Vec<DataBlock> = Vec::new();
    let mut i: usize = start;
    proof {
        assert(blocks_view(copy@) =~= all.subrange(start as int, i as int));
    }
    while i < blocks.len()
        invariant
            start <= i <= blocks@.len(),
            all == blocks_view(blocks@),
            blocks_view(copy@) == all.subrange(start as int, i as int),
        decreases blocks@.len() - i,
    {
        let block = blocks[i].clone();
        proof {
            assert(blocks_view(copy@.push(block)) =~= blocks_view(copy@).push(all[i as int]));
            assert(all.subrange(start as int, i + 1) =~= all.subrange(start as int, i as int).push(
                all[i as int],
            ));
        }
        copy.push(block);
        i = i + 1;
    }
    proof {
        assert(all.subrange(start as int, i as int) =~= all.skip(start as int));
    }
    copy
}

/// The chain that holds `content` as its first version: one record with
/// the id zero, all blocks of the content and the full index, marked as a
/// snapshot.
pub fn first_chain(content: &[u8], block_size: usize) -> (chain: Vec<Delta>)
    requires
        block_size > 0,
    ensures
        chain_view(chain@) == seq![first_record(content@, block_size as nat)],
{
    let (blocks, data_indices) = split_data_into_blocks(content, block_size);
    let delta = Delta::new(0, data_indices, blocks, true);
    let mut track: Vec<Delta> = Vec::new();
    track.push(delta);
    proof {
        assert(chain_view(track@) =~= seq![first_record(content@, block_size as nat)]);
    }
    track
}

/// Starts a chain with `content`, under the options `cfg`. Options that
/// are not valid are refused; else the chain holds one record, which is a
/// snapshot of the whole content.
pub fn initialize(content: &[u8], cfg: &Config) -> (res: Result<Vec<Delta>, StoreError>)
    ensures
        match res {
            Ok(chain) => {
                &&& cfg.valid()
                &&& chain_view(chain@) == seq![first_record(content@, cfg.block_size as nat)]
                &&& well_formed(chain_view(chain@), cfg.snapshot_interval as nat)
            },
            Err(e) => !cfg.valid() && e == StoreError::InvalidConfiguration,
        },
{
    if !cfg.is_valid() {
        return Err(StoreError::InvalidConfiguration);
    }
    proof {
        lemma_first_record_well_formed(
            content@,
            cfg.block_size as nat,
            cfg.snapshot_interval as nat,
        );
    }
    Ok(first_chain(content, cfg.block_size))
}

/// Whether `res` is the outcome of storing `content` behind `chain` under
/// the options `cfg`. Options that are not valid give
/// `InvalidConfiguration`, an empty chain gives `EmptyChain`. Else the
/// chain comes back: with one more record, or as it was where the content
/// brings no block that the pool of the last record lacks.
pub open spec fn append_outcome(
    res: Result<Vec<Delta>, StoreError>,
    content: Seq<u8>,
    chain: Seq<DeltaView>,
    force_snapshot: bool,
    cfg: Config,
) -> bool {
    match res {
        Ok(longer) => {
            &&& cfg.valid()
            &&& chain.len() > 0
            &&& chain_view(longer@) == appended(
                content,
                chain,
                force_snapshot,
                cfg.block_size as nat,
                cfg.snapshot_interval as nat,
            )
            &&& well_formed(chain_view(longer@), cfg.snapshot_interval as nat)
        },
        Err(e) => if !cfg.valid() {
            e == StoreError::InvalidConfiguration
        } else {
            chain.len() == 0 && e == StoreError::EmptyChain
        },
    }
}

/// Stores `content` as the next version of `chain`, under the options
/// `cfg`. The new record lists, for every block of the content, the number
/// under which the pool holds its bytes. It is a snapshot where
/// `force_snapshot` is set or its id is a multiple of the snapshot
/// interval; a snapshot holds the whole pool, another record only the
/// blocks that are new. A content that brings no new block leaves the
/// chain as it is.
pub fn append(content: &[u8], chain: Vec<Delta>, force_snapshot: bool, cfg: &Config) -> (res: Result<
    Vec<Delta>,
    StoreError,
>)
    requires
        cfg.valid() ==> well_formed(chain_view(chain@), cfg.snapshot_interval as nat),
    ensures
        append_outcome(res, content@, chain_view(chain@), force_snapshot, *cfg),
{
    if !cfg.is_valid() {
        return Err(StoreError::InvalidConfiguration);
    }
    if chain.len() == 0 {
        return Err(StoreError::EmptyChain);
    }
    let ghost before = chain_view(chain@);
    proof {
        assert(before.last() == before[before.len() - 1]);
        lemma_append_well_formed(
            content@,
            before,
            force_snapshot,
            cfg.block_size as nat,
            cfg.snapshot_interval as nat,
        );
    }
    let mut record_table = chain;
    let last_id = record_table[record_table.len() - 1].id;
    let current_id = last_id + 1;

    let (current_data_blocks, _data_indices) = split_data_into_blocks(content, cfg.block_size);
    let block_list = get_data_blocks_up_to_id(last_id, &record_table, cfg.snapshot_interval);
    let different_blocks = find_different_blocks(block_list.as_slice(), content, cfg.block_size);
    if different_blocks.len() == 0 {
        return Ok(record_table);
    }
    let ghost prior = blocks_view(block_list@);
    let ghost new = blocks_view(different_blocks@);
    let (records, diff) = add_to_block_list(block_list, different_blocks);
    proof {
        assert(blocks_view(records@).len() == prior.len() + new.len());
        assert(numbers_view(diff@).len() == new.len());
    }
    let matching_block_numbers = extract_index(&current_data_blocks, records.as_slice());

    let snapshot = force_snapshot || current_id % cfg.snapshot_interval == 0;
    let blocks = if snapshot {
        records
    } else {
        copy_blocks_from(&records, records.len() - diff.len())
    };
    let delta = Delta::new(current_id, matching_block_numbers, blocks, snapshot);
    proof {
        assert(chain_view(record_table@.push(delta)) =~= before.push(delta@));
    }
    record_table.push(delta);
    Ok(record_table)
}

} // verus!
