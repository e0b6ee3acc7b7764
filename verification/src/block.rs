//! Blocks, and the splitting of a content into blocks.

use vstd::prelude::*;
use vstd::slice::{slice_subrange, slice_to_vec};
use crate::model::{
    carrying, contents, counting, first_where, holding, lemma_first_where_is, lemma_split_step,
    numbered, split, BlockView,
};

verus! {

/// A piece of a content, with its number in the pool of blocks.
#[derive(Debug, PartialEq)]
pub struct DataBlock {
    /// Number of the block in the pool.
    pub block_number: usize,
    /// The bytes of the block.
    pub data: Vec<u8>,
}

impl View for DataBlock {
    type V = BlockView;

    open spec fn view(&self) -> BlockView {
        BlockView { number: self.block_number as nat, data: self.data@ }
    }
}

impl Clone for DataBlock {
    fn clone(&self) -> (copy: DataBlock)
        ensures
            copy@ == self@,
    {
        DataBlock { block_number: self.block_number, data: slice_to_vec(self.data.as_slice()) }
    }
}

impl DataBlock {
    /// The block numbered `block_number` that holds `data`.
    pub fn new(block_number: usize, data: Vec<u8>) -> (block: DataBlock)
        ensures
            block@ == (BlockView { number: block_number as nat, data: data@ }),
    {
        DataBlock { block_number, data }
    }
}

/// A list of blocks as values.
pub open spec fn blocks_view(blocks: Seq<DataBlock>) -> Seq<BlockView> {
    Seq::new(blocks.len(), |i: int| blocks[i]@)
}

/// A list of numbers as mathematical numbers.
pub open spec fn numbers_view(numbers: Seq<usize>) -> Seq<nat> {
    Seq::new(numbers.len(), |i: int| numbers[i] as nat)
}

/// Whether `left` and `right` hold the same bytes.
pub fn same_bytes(left: &[u8], right: &[u8]) -> (same: bool)
    ensures
        same == (left@ == right@),
{
    if left.len() != right.len() {
        return false;
    }
    let mut i: usize = 0;
    while i < left.len()
        invariant
            i <= left@.len(),
            left@.len() == right@.len(),
            forall|j: int| 0 <= j < i ==> left@[j] == right@[j],
        decreases left@.len() - i,
    {
        if left[i] != right[i] {
            return false;
        }
        i = i + 1;
    }
    proof {
        assert(left@ =~= right@);
    }
    true
}

/// The position of the first block of `blocks` that holds the bytes
/// `data`.
pub fn position_holding(blocks: &[DataBlock], data: &[u8]) -> (found: Option<usize>)
    ensures
        match found {
            Some(at) => at < blocks@.len() && at == first_where(
                blocks_view(blocks@),
                holding(data@),
            ),
            None => first_where(blocks_view(blocks@), holding(data@)) >= blocks@.len(),
        },
{
    let ghost pool = blocks_view(blocks@);
    let mut i: usize = 0;
    while i < blocks.len()
        invariant
            i <= blocks@.len(),
            pool == blocks_view(blocks@),
            forall|j: int| 0 <= j < i ==> !holding(data@)(#[trigger] pool[j]),
        decreases blocks@.len() - i,
    {
        if same_bytes(blocks[i].data.as_slice(), data) {
            proof {
                lemma_first_where_is(pool, holding(data@), i as int);
            }
            return Some(i);
        }
        i = i + 1;
    }
    proof {
        lemma_first_where_is(pool, holding(data@), i as int);
    }
    None
}

/// The position of the first block of `blocks` that carries the number
/// `number`.
pub fn position_carrying(blocks: &[DataBlock], number: usize) -> (found: Option<usize>)
    ensures
        match found {
            Some(at) => at < blocks@.len() && at == first_where(
                blocks_view(blocks@),
                carrying(number as nat),
            ),
            None => first_where(blocks_view(blocks@), carrying(number as nat)) >= blocks@.len(),
        },
{
    let ghost pool = blocks_view(blocks@);
    let mut i: usize = 0;
    while i < blocks.len()
        invariant
            i <= blocks@.len(),
            pool == blocks_view(blocks@),
            forall|j: int| 0 <= j < i ==> !carrying(number as nat)(#[trigger] pool[j]),
        decreases blocks@.len() - i,
    {
        if blocks[i].block_number == number {
            proof {
                lemma_first_where_is(pool, carrying(number as nat), i as int);
            }
            return Some(i);
        }
        i = i + 1;
    }
    proof {
        lemma_first_where_is(pool, carrying(number as nat), i as int);
    }
    None
}

/// Adds a copy of every block of `source` to the end of `target`.
pub fn extend_with_copies(target: &mut Vec<DataBlock>, source: &Vec<DataBlock>)
    ensures
        blocks_view(final(target)@) == blocks_view(old(target)@) + blocks_view(source@),
{
    let mut i: usize = 0;
    while i < source.len()
        invariant
            i <= source@.len(),
            blocks_view(target@) == blocks_view(old(target)@) + blocks_view(source@).take(i as int),
        decreases source@.len() - i,
    {
        let copy = source[i].clone();
        proof {
            assert(blocks_view(target@.push(copy)) =~= blocks_view(target@).push(source@[i as int]@));
            assert(blocks_view(source@).take(i + 1) =~= blocks_view(source@).take(i as int).push(
                source@[i as int]@,
            ));
        }
        target.push(copy);
        i = i + 1;
    }
    proof {
        assert(blocks_view(source@).take(i as int) =~= blocks_view(source@));
    }
}

/// Cuts `data` into blocks of `block_size` bytes, numbered from zero, and
/// lists their numbers. The last block holds what is left.
pub fn split_data_into_blocks(data: &[u8], block_size: usize) -> (res: (Vec<DataBlock>, Vec<usize>))
    requires
        block_size > 0,
    ensures
        blocks_view(res.0@) == numbered(split(data@, block_size as nat), 0),
        numbers_view(res.1@) == counting(split(data@, block_size as nat).len()),
{
    let mut blocks: Vec<DataBlock> = Vec::new();
    let mut numbers: Vec<usize> = Vec::new();
    let mut index: usize = 0;
    let mut block_number: usize = 0;
    proof {
        assert(data@.skip(0) =~= data@);
    }
    while index < data.len()
        invariant
            block_size > 0,
            index <= data@.len(),
            block_number == blocks@.len(),
            block_number <= index,
            numbers@.len() == blocks@.len(),
            forall|j: int| 0 <= j < blocks@.len() ==> (#[trigger] blocks@[j]).block_number == j,
            forall|j: int| 0 <= j < numbers@.len() ==> #[trigger] numbers@[j] == j,
            split(data@, block_size as nat) == contents(blocks_view(blocks@)) + split(
                data@.skip(index as int),
                block_size as nat,
            ),
        decreases data@.len() - index,
    {
        let end: usize = if data.len() - index <= block_size {
            data.len()
        } else {
            index + block_size
        };
        let piece = slice_to_vec(slice_subrange(data, index, end));
        proof {
            lemma_split_step(data@, block_size as nat, index as int, end as int);
            assert(contents(blocks_view(blocks@.push(DataBlock { block_number, data: piece })))
                =~= contents(blocks_view(blocks@)) + seq![data@.subrange(index as int, end as int)]);
        }
        numbers.push(block_number);
        blocks.push(DataBlock::new(block_number, piece));
        index = end;
        block_number = block_number + 1;
    }
    proof {
        let pieces = split(data@, block_size as nat);
        assert(split(data@.skip(index as int), block_size as nat) =~= Seq::<Seq<u8>>::empty());
        assert(pieces =~= contents(blocks_view(blocks@)));
        assert(blocks_view(blocks@) =~= numbered(pieces, 0));
        assert(numbers_view(numbers@) =~= counting(pieces.len()));
    }
    (blocks, numbers)
}

} // verus!
