//! The mathematical model of the store: what a block, a delta and a chain
//! are as plain values, and what splitting, pooling and rebuilding mean.

use vstd::prelude::*;

verus! {

/// A block as a value: its number in the pool and the bytes it holds.
pub struct BlockView {
    pub number: nat,
    pub data: Seq<u8>,
}

/// A delta as a value.
pub struct DeltaView {
    /// Position of the record in its chain.
    pub id: nat,
    /// The numbers of the blocks that make up the content, in order.
    pub index: Seq<nat>,
    /// The blocks that the record holds.
    pub blocks: Seq<BlockView>,
    /// Whether the record holds every block that its index names.
    pub snapshot: bool,
}

/// `data` cut into pieces of `block_size` bytes; the last piece holds what
/// is left, between one and `block_size` bytes. No piece comes of empty
/// data.
pub open spec fn split(data: Seq<u8>, block_size: nat) -> Seq<Seq<u8>>
    decreases data.len(),
{
    if block_size == 0 || data.len() == 0 {
        Seq::empty()
    } else if data.len() <= block_size {
        seq![data]
    } else {
        seq![data.take(block_size as int)] + split(data.skip(block_size as int), block_size)
    }
}

/// The pieces `pieces` as blocks numbered `first`, `first + 1`, and so on.
pub open spec fn numbered(pieces: Seq<Seq<u8>>, first: nat) -> Seq<BlockView> {
    Seq::new(pieces.len(), |i: int| BlockView { number: (first + i) as nat, data: pieces[i] })
}

/// The numbers `0, 1, .., count - 1`.
pub open spec fn counting(count: nat) -> Seq<nat> {
    Seq::new(count, |i: int| i as nat)
}

/// The bytes of the blocks `blocks`, block by block.
pub open spec fn contents(blocks: Seq<BlockView>) -> Seq<Seq<u8>> {
    Seq::new(blocks.len(), |i: int| blocks[i].data)
}

/// The least position of `items` whose item is wanted; the length of
/// `items` where none is.
pub open spec fn first_where<A>(items: Seq<A>, wanted: spec_fn(A) -> bool) -> int
    decreases items.len(),
{
    if items.len() == 0 {
        0
    } else if wanted(items[0]) {
        0
    } else {
        1 + first_where(items.drop_first(), wanted)
    }
}

/// The blocks that hold the bytes `data`.
pub open spec fn holding(data: Seq<u8>) -> spec_fn(BlockView) -> bool {
    |b: BlockView| b.data == data
}

/// The blocks that carry the number `number`.
pub open spec fn carrying(number: nat) -> spec_fn(BlockView) -> bool {
    |b: BlockView| b.number == number
}

/// The records whose id is `id`.
pub open spec fn identified(id: nat) -> spec_fn(DeltaView) -> bool {
    |d: DeltaView| d.id == id
}

/// Whether some block of `pool` holds the bytes `data`.
pub open spec fn holds(pool: Seq<BlockView>, data: Seq<u8>) -> bool {
    first_where(pool, holding(data)) < pool.len()
}

/// The blocks whose bytes no block of `pool` holds.
pub open spec fn absent_from(pool: Seq<BlockView>) -> spec_fn(BlockView) -> bool {
    |b: BlockView| !holds(pool, b.data)
}

/// Whether some block of `pool` carries the number `number`.
pub open spec fn carries(pool: Seq<BlockView>, number: nat) -> bool {
    first_where(pool, carrying(number)) < pool.len()
}

/// The blocks of `current` whose bytes no block of `pool` holds, in the
/// order of `current`.
pub open spec fn fresh(pool: Seq<BlockView>, current: Seq<BlockView>) -> Seq<BlockView> {
    current.filter(absent_from(pool))
}

/// The number that the next block added to `pool` gets: one more than
/// that of its last block, zero where it has none.
pub open spec fn next_number(pool: Seq<BlockView>) -> nat {
    if pool.len() == 0 {
        0
    } else {
        pool.last().number + 1
    }
}

/// `pool`, followed by the bytes of `added` under the next free numbers.
pub open spec fn extended(pool: Seq<BlockView>, added: Seq<BlockView>) -> Seq<BlockView> {
    pool + numbered(contents(added), next_number(pool))
}

/// For each block of `current` whose bytes some block of `records` holds,
/// the number of the first such block, in the order of `current`.
pub open spec fn index_of(current: Seq<BlockView>, records: Seq<BlockView>) -> Seq<nat>
    decreases current.len(),
{
    if current.len() == 0 {
        Seq::empty()
    } else {
        let before = index_of(current.drop_last(), records);
        let at = first_where(records, holding(current.last().data));
        if at < records.len() {
            before.push(records[at].number)
        } else {
            before
        }
    }
}

/// For each number of `index` that some block of `pool` carries, the first
/// such block, in the order of `index`.
pub open spec fn selected(index: Seq<nat>, pool: Seq<BlockView>) -> Seq<BlockView>
    decreases index.len(),
{
    if index.len() == 0 {
        Seq::empty()
    } else {
        let before = selected(index.drop_last(), pool);
        let at = first_where(pool, carrying(index.last()));
        if at < pool.len() {
            before.push(pool[at])
        } else {
            before
        }
    }
}

/// The blocks of all records of `chain` whose id is at most `id`, in the
/// order of the chain.
pub open spec fn blocks_up_to(chain: Seq<DeltaView>, id: nat) -> Seq<BlockView>
    decreases chain.len(),
{
    if chain.len() == 0 {
        Seq::empty()
    } else if chain.last().id <= id {
        blocks_up_to(chain.drop_last(), id) + chain.last().blocks
    } else {
        blocks_up_to(chain.drop_last(), id)
    }
}

/// The largest multiple of `interval` that is at most `id`.
pub open spec fn nearest_snapshot(id: nat, interval: nat) -> nat {
    (id - id % interval) as nat
}

/// The blocks of the first record of `chain` whose id is `id`; none where
/// no record has that id.
pub open spec fn blocks_of(chain: Seq<DeltaView>, id: nat) -> Seq<BlockView> {
    let at = first_where(chain, identified(id));
    if at < chain.len() {
        chain[at].blocks
    } else {
        Seq::empty()
    }
}

/// The pool against which the index of the record `id` is resolved. Where
/// `id` is a positive multiple of `interval`, the record's own blocks;
/// else the blocks of all records up to `id`.
pub open spec fn pool_at(chain: Seq<DeltaView>, id: nat, interval: nat) -> Seq<BlockView> {
    if id != 0 && id % interval == 0 {
        blocks_of(chain, nearest_snapshot(id, interval))
    } else {
        blocks_up_to(chain, id)
    }
}

/// The bytes of version `id` of `chain`; `None` where no record has that
/// id.
pub open spec fn rebuilt(chain: Seq<DeltaView>, id: nat, interval: nat) -> Option<Seq<u8>> {
    let at = first_where(chain, identified(id));
    if at < chain.len() {
        Some(contents(selected(chain[at].index, pool_at(chain, id, interval))).flatten())
    } else {
        None
    }
}

/// The one record of a chain that starts with `content`.
pub open spec fn first_record(content: Seq<u8>, block_size: nat) -> DeltaView {
    let pieces = split(content, block_size);
    DeltaView {
        id: 0,
        index: counting(pieces.len()),
        blocks: numbered(pieces, 0),
        snapshot: true,
    }
}

/// The blocks of `content` that the pool of the last record of `chain`
/// does not hold yet.
pub open spec fn fresh_blocks(
    content: Seq<u8>,
    chain: Seq<DeltaView>,
    block_size: nat,
    interval: nat,
) -> Seq<BlockView> {
    fresh(pool_at(chain, chain.last().id, interval), numbered(split(content, block_size), 0))
}

/// The record that stores `content` behind the non-empty `chain`. It is a
/// snapshot where `force` is set or its id is a multiple of `interval`; a
/// snapshot holds the whole pool, another record only the new blocks.
pub open spec fn next_record(
    content: Seq<u8>,
    chain: Seq<DeltaView>,
    force: bool,
    block_size: nat,
    interval: nat,
) -> DeltaView {
    let id = chain.last().id + 1;
    let prior = pool_at(chain, chain.last().id, interval);
    let current = numbered(split(content, block_size), 0);
    let records = extended(prior, fresh(prior, current));
    let snapshot = force || id % interval == 0;
    DeltaView {
        id,
        index: index_of(current, records),
        blocks: if snapshot {
            records
        } else {
            records.skip(prior.len() as int)
        },
        snapshot,
    }
}

/// The chain after `content` was stored behind the non-empty `chain`: one
/// record longer, or `chain` itself where `content` brings no new block.
pub open spec fn appended(
    content: Seq<u8>,
    chain: Seq<DeltaView>,
    force: bool,
    block_size: nat,
    interval: nat,
) -> Seq<DeltaView> {
    if fresh_blocks(content, chain, block_size, interval).len() == 0 {
        chain
    } else {
        chain.push(next_record(content, chain, force, block_size, interval))
    }
}

/// The chain that comes of starting with the first of `contents` and
/// storing the others behind it in turn, no snapshot forced.
pub open spec fn replayed(contents: Seq<Seq<u8>>, block_size: nat, interval: nat) -> Seq<DeltaView>
    decreases contents.len(),
{
    if contents.len() == 0 {
        Seq::empty()
    } else if contents.len() == 1 {
        seq![first_record(contents[0], block_size)]
    } else {
        appended(
            contents.last(),
            replayed(contents.drop_last(), block_size, interval),
            false,
            block_size,
            interval,
        )
    }
}

/// Every content of `contents` after the first brings at least one block
/// that the chain before it lacks, so that each becomes a version.
#[verifier::opaque]
pub open spec fn each_brings_blocks(contents: Seq<Seq<u8>>, block_size: nat, interval: nat) -> bool {
    forall|n: int|
        0 < n < contents.len() ==> fresh_blocks(
            #[trigger] contents[n],
            replayed(contents.take(n), block_size, interval),
            block_size,
            interval,
        ).len() > 0
}

/// The count of the bytes that the blocks `blocks` hold together.
pub open spec fn volume(blocks: Seq<BlockView>) -> nat {
    contents(blocks).flatten().len()
}

/// Blocks with equal numbers hold equal bytes.
pub open spec fn consistent(blocks: Seq<BlockView>) -> bool {
    forall|a: int, b: int|
        0 <= a < blocks.len() && 0 <= b < blocks.len() && (#[trigger] blocks[a]).number == (
        #[trigger] blocks[b]).number ==> blocks[a].data == blocks[b].data
}

/// Every block carries a number under `bound`.
pub open spec fn numbers_below(blocks: Seq<BlockView>, bound: nat) -> bool {
    forall|j: int| 0 <= j < blocks.len() ==> (#[trigger] blocks[j]).number < bound
}

/// Some block of `pool` carries each number of `index`.
pub open spec fn resolves(index: Seq<nat>, pool: Seq<BlockView>) -> bool {
    forall|i: int| 0 <= i < index.len() ==> carries(pool, #[trigger] index[i])
}

/// What holds of the records of every chain that the store builds, one
/// by one, for the snapshot interval `interval`. The ids count from zero.
/// Every record whose id is a multiple of the interval is a snapshot, and
/// a snapshot holds every block that its index names. Every index resolves
/// in its pool.
pub open spec fn records_well_formed(chain: Seq<DeltaView>, interval: nat) -> bool {
    &&& forall|i: int| 0 <= i < chain.len() ==> (#[trigger] chain[i]).id == i
    &&& forall|i: int|
        0 <= i < chain.len() && (i as nat) % interval == 0 ==> (#[trigger] chain[i]).snapshot
    &&& forall|i: int|
        0 <= i < chain.len() && (#[trigger] chain[i]).snapshot ==> resolves(
            chain[i].index,
            chain[i].blocks,
        )
    &&& forall|i: int|
        0 <= i < chain.len() ==> resolves(
            (#[trigger] chain[i]).index,
            pool_at(chain, i as nat, interval),
        )
}

/// What holds of every chain that the store builds, for the snapshot
/// interval `interval`. Its records are well formed one by one. Over the
/// whole chain a number stands for one content, and the pool of the last
/// record ends with the highest number, which is less than its length.
pub open spec fn well_formed(chain: Seq<DeltaView>, interval: nat) -> bool {
    &&& records_well_formed(chain, interval)
    &&& consistent(blocks_up_to(chain, chain.len()))
    &&& chain.len() > 0 ==> {
        let pool = pool_at(chain, (chain.len() - 1) as nat, interval);
        &&& next_number(pool) <= pool.len()
        &&& numbers_below(blocks_up_to(chain, chain.len()), next_number(pool))
    }
}

/// `first_where` is a position of `items` or their length; no item before
/// it is wanted, and the item at it is.
pub proof fn lemma_first_where<A>(items: Seq<A>, wanted: spec_fn(A) -> bool)
    ensures
        0 <= first_where(items, wanted) <= items.len(),
        forall|j: int| 0 <= j < first_where(items, wanted) ==> !wanted(#[trigger] items[j]),
        first_where(items, wanted) < items.len() ==> wanted(items[first_where(items, wanted)]),
    decreases items.len(),
{
    if items.len() > 0 && !wanted(items[0]) {
        let rest = items.drop_first();
        lemma_first_where(rest, wanted);
        assert forall|j: int| 0 <= j < first_where(items, wanted) implies !wanted(
            #[trigger] items[j],
        ) by {
            if j > 0 {
                assert(items[j] == rest[j - 1]);
            }
        }
    }
}

/// A position before which no item is wanted, and which holds a wanted
/// item or is the length of `items`, is `first_where`.
pub proof fn lemma_first_where_is<A>(items: Seq<A>, wanted: spec_fn(A) -> bool, at: int)
    requires
        0 <= at <= items.len(),
        forall|j: int| 0 <= j < at ==> !wanted(#[trigger] items[j]),
        at < items.len() ==> wanted(items[at]),
    ensures
        first_where(items, wanted) == at,
{
    lemma_first_where(items, wanted);
    let found = first_where(items, wanted);
    if found < at {
        assert(!wanted(items[found]));
    }
}

/// A pool holds the bytes `data` where one of its blocks has them, and
/// only there.
pub proof fn lemma_holds_iff(pool: Seq<BlockView>, data: Seq<u8>)
    ensures
        holds(pool, data) <==> exists|j: int| 0 <= j < pool.len() && (#[trigger] pool[j]).data == data,
{
    let found = first_where(pool, holding(data));
    lemma_first_where(pool, holding(data));
    if holds(pool, data) {
        assert(holding(data)(pool[found]));
    } else {
        assert forall|j: int| 0 <= j < pool.len() implies (#[trigger] pool[j]).data != data by {
            assert(!holding(data)(pool[j]));
        }
    }
}

/// A pool carries the number `number` where one of its blocks has it, and
/// only there.
pub proof fn lemma_carries_iff(pool: Seq<BlockView>, number: nat)
    ensures
        carries(pool, number) <==> exists|j: int|
            0 <= j < pool.len() && (#[trigger] pool[j]).number == number,
{
    let found = first_where(pool, carrying(number));
    lemma_first_where(pool, carrying(number));
    if carries(pool, number) {
        assert(carrying(number)(pool[found]));
    } else {
        assert forall|j: int| 0 <= j < pool.len() implies (#[trigger] pool[j]).number
            != number by {
            assert(!carrying(number)(pool[j]));
        }
    }
}

/// Splitting what is left of `data` from `start` on gives one piece, which
/// ends at `end`, and then the pieces of the rest.
pub proof fn lemma_split_step(data: Seq<u8>, block_size: nat, start: int, end: int)
    requires
        block_size > 0,
        0 <= start < data.len(),
        end == if data.len() - start <= block_size {
            data.len() as int
        } else {
            start + block_size
        },
    ensures
        split(data.skip(start), block_size) == seq![data.subrange(start, end)] + split(
            data.skip(end),
            block_size,
        ),
{
    let rest = data.skip(start);
    if rest.len() <= block_size {
        assert(rest =~= data.subrange(start, end));
        assert(data.skip(end).len() == 0);
        assert(split(rest, block_size) =~= seq![rest] + Seq::<Seq<u8>>::empty());
    } else {
        assert(rest.take(block_size as int) =~= data.subrange(start, end));
        assert(rest.skip(block_size as int) =~= data.skip(end));
    }
}

/// The pieces of `data`, put together again, are `data`.
pub proof fn lemma_split_flatten(data: Seq<u8>, block_size: nat)
    requires
        block_size > 0,
    ensures
        split(data, block_size).flatten() == data,
    decreases data.len(),
{
    if data.len() == 0 {
        assert(data =~= Seq::<u8>::empty());
        assert(split(data, block_size).flatten() =~= Seq::<u8>::empty());
    } else if data.len() <= block_size {
        seq![data].lemma_flatten_singleton();
    } else {
        let head = data.take(block_size as int);
        let tail = data.skip(block_size as int);
        lemma_split_flatten(tail, block_size);
        vstd::seq_lib::lemma_flatten_concat(seq![head], split(tail, block_size));
        seq![head].lemma_flatten_singleton();
        assert(head + tail =~= data);
    }
}

/// Every piece of `data` but the last is `block_size` bytes long, and the
/// last holds between one and `block_size` bytes.
pub proof fn lemma_split_shape(data: Seq<u8>, block_size: nat, i: int)
    requires
        block_size > 0,
        0 <= i < split(data, block_size).len(),
    ensures
        1 <= split(data, block_size)[i].len() <= block_size,
        i + 1 < split(data, block_size).len() ==> split(data, block_size)[i].len() == block_size,
    decreases data.len(),
{
    if data.len() > block_size && i > 0 {
        lemma_split_shape(data.skip(block_size as int), block_size, i - 1);
    }
}

} // verus!
