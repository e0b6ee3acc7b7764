//! What holds of every chain that the store builds.

use vstd::prelude::*;
use crate::lemmas::{
    lemma_blocks_up_to_first, lemma_blocks_up_to_grows, lemma_blocks_up_to_single, lemma_carries,
    lemma_earlier_versions_kept, lemma_extension, lemma_first_identified,
    lemma_first_identified_push, lemma_growth, lemma_new_index, lemma_record_within,
    lemma_selected_from_part, lemma_selected_total, lemma_volume_filter, lemma_within_inherits,
};
use crate::error::StoreError;
use crate::reconstruct::decoded;
use crate::model::{
    absent_from, appended, blocks_up_to, carrying, contents, each_brings_blocks, extended,
    first_record, fresh, fresh_blocks, holds, identified, lemma_first_where_is,
    lemma_split_flatten, lemma_split_shape, next_number, next_record, numbered, pool_at, rebuilt,
    replayed, resolves, selected, split, volume, well_formed, DeltaView,
};

verus! {

/// A chain that holds the first record of a content alone is well formed.
pub proof fn lemma_first_record_well_formed(content: Seq<u8>, block_size: nat, interval: nat)
    requires
        interval > 0,
    ensures
        well_formed(seq![first_record(content, block_size)], interval),
{
    let record = first_record(content, block_size);
    let chain = seq![record];
    let blocks = record.blocks;
    lemma_blocks_up_to_single(record, 0);
    lemma_blocks_up_to_single(record, 1);
    assert forall|i: int| 0 <= i < record.index.len() implies crate::model::carries(
        blocks,
        #[trigger] record.index[i],
    ) by {
        lemma_carries(blocks, record.index[i], i);
    }
    assert(resolves(record.index, blocks));
    assert(chain[0] == record);
}

/// Round trip: the first version of a chain is the content that the chain
/// was started with.
pub proof fn lemma_first_version_round_trip(content: Seq<u8>, block_size: nat, interval: nat)
    requires
        block_size > 0,
        interval > 0,
    ensures
        rebuilt(seq![first_record(content, block_size)], 0, interval) == Some(content),
{
    let record = first_record(content, block_size);
    let chain = seq![record];
    let pieces = split(content, block_size);
    let blocks = record.blocks;
    lemma_first_record_well_formed(content, block_size, interval);
    lemma_first_where_is(chain, identified(0), 0);
    lemma_blocks_up_to_single(record, 0);
    lemma_selected_total(record.index, blocks);
    assert forall|i: int| 0 <= i < pieces.len() implies #[trigger] selected(
        record.index,
        blocks,
    )[i] == blocks[i] by {
        lemma_first_where_is(blocks, carrying(i as nat), i);
    }
    assert(contents(selected(record.index, blocks)) =~= pieces);
    lemma_split_flatten(content, block_size);
}

/// Round trip, for text: the bytes that encode a text are read back as
/// that text, and never refused.
pub proof fn lemma_text_round_trip(text: Seq<char>, res: Result<String, StoreError>)
    requires
        decoded(res, vstd::utf8::encode_utf8(text)),
    ensures
        res is Ok,
        res->Ok_0@ == text,
{
    vstd::utf8::encode_utf8_valid_utf8(text);
    vstd::utf8::encode_utf8_decode_utf8(text);
}

/// Storing a content behind a well-formed chain gives a well-formed chain.
pub proof fn lemma_append_well_formed(
    content: Seq<u8>,
    chain: Seq<DeltaView>,
    force: bool,
    block_size: nat,
    interval: nat,
)
    requires
        block_size > 0,
        interval > 0,
        chain.len() > 0,
        well_formed(chain, interval),
    ensures
        well_formed(appended(content, chain, force, block_size, interval), interval),
{
    if fresh_blocks(content, chain, block_size, interval).len() > 0 {
        let record = next_record(content, chain, force, block_size, interval);
        let longer = chain.push(record);
        lemma_growth(content, chain, force, block_size, interval);
        lemma_new_index(content, chain, force, block_size, interval);
        assert forall|i: int| 0 <= i < longer.len() implies resolves(
            (#[trigger] longer[i]).index,
            pool_at(longer, i as nat, interval),
        ) by {
            if i < chain.len() {
                assert(longer[i] == chain[i]);
                lemma_earlier_versions_kept(chain, record, i as nat, interval);
            }
        }
        assert forall|i: int| 0 <= i < longer.len() && (#[trigger] longer[i]).snapshot implies resolves(
            longer[i].index,
            longer[i].blocks,
        ) by {
            if i < chain.len() {
                assert(longer[i] == chain[i]);
            }
        }
        assert forall|i: int| 0 <= i < longer.len() && (i as nat) % interval == 0 implies (
        #[trigger] longer[i]).snapshot by {
            if i < chain.len() {
                assert(longer[i] == chain[i]);
            }
        }
        assert forall|i: int| 0 <= i < longer.len() implies (#[trigger] longer[i]).id == i by {
            if i < chain.len() {
                assert(longer[i] == chain[i]);
            }
        }
    }
}

/// Incremental round trip, the step for the new version: a content that
/// brings at least one new block becomes the last version of the chain.
pub proof fn lemma_append_round_trip(
    content: Seq<u8>,
    chain: Seq<DeltaView>,
    force: bool,
    block_size: nat,
    interval: nat,
)
    requires
        block_size > 0,
        interval > 0,
        chain.len() > 0,
        well_formed(chain, interval),
        fresh_blocks(content, chain, block_size, interval).len() > 0,
    ensures
        appended(content, chain, force, block_size, interval).len() == chain.len() + 1,
        rebuilt(appended(content, chain, force, block_size, interval), chain.len(), interval)
            == Some(content),
{
    let record = next_record(content, chain, force, block_size, interval);
    lemma_growth(content, chain, force, block_size, interval);
    lemma_new_index(content, chain, force, block_size, interval);
    lemma_first_identified(chain, chain.len() as int);
    lemma_first_identified_push(chain, record, chain.len());
    lemma_split_flatten(content, block_size);
}

/// Incremental round trip, the step for the earlier versions: storing a
/// content changes no record of the chain and no version that it held.
pub proof fn lemma_append_keeps_versions(
    content: Seq<u8>,
    chain: Seq<DeltaView>,
    force: bool,
    block_size: nat,
    interval: nat,
    id: nat,
)
    requires
        interval > 0,
        chain.len() > 0,
        well_formed(chain, interval),
        id < chain.len(),
    ensures
        appended(content, chain, force, block_size, interval).take(chain.len() as int) == chain,
        rebuilt(appended(content, chain, force, block_size, interval), id, interval) == rebuilt(
            chain,
            id,
            interval,
        ),
{
    let after = appended(content, chain, force, block_size, interval);
    assert(after.take(chain.len() as int) =~= chain);
    if fresh_blocks(content, chain, block_size, interval).len() > 0 {
        let record = next_record(content, chain, force, block_size, interval);
        assert(chain.last() == chain[chain.len() - 1]);
        lemma_earlier_versions_kept(chain, record, id, interval);
    }
}

/// Replaying contents gives a well-formed chain, with one record for each
/// content where each brings a block.
pub proof fn lemma_replay_well_formed(contents: Seq<Seq<u8>>, block_size: nat, interval: nat)
    requires
        block_size > 0,
        interval > 0,
    ensures
        well_formed(replayed(contents, block_size, interval), interval),
        contents.len() > 0 ==> 0 < replayed(contents, block_size, interval).len()
            <= contents.len(),
        each_brings_blocks(contents, block_size, interval) ==> replayed(
            contents,
            block_size,
            interval,
        ).len() == contents.len(),
    decreases contents.len(),
{
    if contents.len() == 0 {
    } else if contents.len() == 1 {
        lemma_first_record_well_formed(contents[0], block_size, interval);
    } else {
        let front = contents.drop_last();
        let chain = replayed(front, block_size, interval);
        lemma_replay_well_formed(front, block_size, interval);
        lemma_append_well_formed(contents.last(), chain, false, block_size, interval);
        if each_brings_blocks(contents, block_size, interval) {
            lemma_brings_blocks_front(contents, block_size, interval);
        }
    }
}

/// Where each of `contents` brings a block, so does each of them but the
/// last behind those before it, and the last behind them all.
proof fn lemma_brings_blocks_front(contents: Seq<Seq<u8>>, block_size: nat, interval: nat)
    requires
        contents.len() > 1,
        each_brings_blocks(contents, block_size, interval),
    ensures
        each_brings_blocks(contents.drop_last(), block_size, interval),
        fresh_blocks(
            contents.last(),
            replayed(contents.drop_last(), block_size, interval),
            block_size,
            interval,
        ).len() > 0,
{
    reveal(each_brings_blocks);
    let front = contents.drop_last();
    assert(contents.take(contents.len() - 1) =~= front);
    assert(contents[contents.len() - 1] == contents.last());
    assert forall|n: int| 0 < n < front.len() implies fresh_blocks(
        #[trigger] front[n],
        replayed(front.take(n), block_size, interval),
        block_size,
        interval,
    ).len() > 0 by {
        assert(front.take(n) =~= contents.take(n));
        assert(front[n] == contents[n]);
    }
}

/// Incremental round trip: where each content brings a block, version `id`
/// of the replayed chain is the content `id`, for every `id`.
pub proof fn lemma_replay_round_trip(
    contents: Seq<Seq<u8>>,
    block_size: nat,
    interval: nat,
    id: int,
)
    requires
        block_size > 0,
        interval > 0,
        each_brings_blocks(contents, block_size, interval),
        0 <= id < contents.len(),
    ensures
        rebuilt(replayed(contents, block_size, interval), id as nat, interval) == Some(
            contents[id],
        ),
    decreases contents.len(),
{
    if contents.len() == 1 {
        lemma_first_version_round_trip(contents[0], block_size, interval);
    } else {
        let front = contents.drop_last();
        let chain = replayed(front, block_size, interval);
        lemma_brings_blocks_front(contents, block_size, interval);
        lemma_replay_well_formed(front, block_size, interval);
        if id < front.len() {
            lemma_replay_round_trip(front, block_size, interval, id);
            lemma_append_keeps_versions(
                contents.last(),
                chain,
                false,
                block_size,
                interval,
                id as nat,
            );
            assert(front[id] == contents[id]);
        } else {
            lemma_append_round_trip(contents.last(), chain, false, block_size, interval);
        }
    }
}

/// Determinism: two chains replayed from the same contents are the same
/// chain, and give the same bytes at every id.
pub proof fn lemma_replay_deterministic(
    contents: Seq<Seq<u8>>,
    block_size: nat,
    interval: nat,
    one: Seq<DeltaView>,
    two: Seq<DeltaView>,
    id: nat,
)
    requires
        one == replayed(contents, block_size, interval),
        two == replayed(contents, block_size, interval),
    ensures
        one == two,
        rebuilt(one, id, interval) == rebuilt(two, id, interval),
{
}

/// Boundary: a well-formed chain has a version for each id under its
/// length and for no other, so that an id beyond the last record is an
/// unknown version.
pub proof fn lemma_versions_are_positions(chain: Seq<DeltaView>, interval: nat, id: nat)
    requires
        well_formed(chain, interval),
    ensures
        rebuilt(chain, id, interval) is Some <==> id < chain.len(),
{
    lemma_first_identified(chain, id as int);
}

/// Dedup invariant: the record that stores a content holds, behind the
/// pool where it is a snapshot, only blocks whose bytes the pool of the
/// record before it lacks. These blocks hold no more bytes than the
/// content, and fewer where the pool already holds a block of the content.
pub proof fn lemma_append_adds_only_new(
    content: Seq<u8>,
    chain: Seq<DeltaView>,
    force: bool,
    block_size: nat,
    interval: nat,
)
    requires
        block_size > 0,
        chain.len() > 0,
    ensures
        ({
            let prior = pool_at(chain, chain.last().id, interval);
            let current = numbered(split(content, block_size), 0);
            let record = next_record(content, chain, force, block_size, interval);
            let new = numbered(contents(fresh(prior, current)), next_number(prior));
            &&& record.blocks == if record.snapshot {
                prior + new
            } else {
                new
            }
            &&& forall|t: int| 0 <= t < new.len() ==> !holds(prior, (#[trigger] new[t]).data)
            &&& volume(new) <= content.len()
            &&& forall|i: int|
                0 <= i < current.len() && holds(prior, (#[trigger] current[i]).data) ==> volume(
                    new,
                ) < content.len()
        }),
{
    let prior = pool_at(chain, chain.last().id, interval);
    let pieces = split(content, block_size);
    let current = numbered(pieces, 0);
    let found = fresh(prior, current);
    let new = numbered(contents(found), next_number(prior));
    let records = extended(prior, found);
    assert(records.skip(prior.len() as int) =~= new);
    lemma_extension(prior, current);
    assert forall|t: int| 0 <= t < new.len() implies !holds(prior, (#[trigger] new[t]).data) by {
        assert(new[t].data == found[t].data);
    }
    lemma_volume_filter(current, absent_from(prior));
    assert(contents(new) =~= contents(found));
    assert(contents(current) =~= pieces);
    lemma_split_flatten(content, block_size);
    assert forall|i: int|
        0 <= i < current.len() && holds(prior, (#[trigger] current[i]).data) implies volume(new)
        < content.len() by {
        lemma_split_shape(content, block_size, i);
        assert(!absent_from(prior)(current[i]));
    }
}

/// Snapshot self-containment: the version of a snapshot is rebuilt from
/// the blocks of the snapshot alone, and stays what it is when all records
/// before the snapshot are taken off the chain.
pub proof fn lemma_snapshot_self_contained(chain: Seq<DeltaView>, interval: nat, at: int)
    requires
        interval > 0,
        well_formed(chain, interval),
        0 <= at < chain.len(),
        chain[at].snapshot,
    ensures
        rebuilt(chain, at as nat, interval) == Some(
            contents(selected(chain[at].index, chain[at].blocks)).flatten(),
        ),
        rebuilt(chain.skip(at), at as nat, interval) == rebuilt(chain, at as nat, interval),
{
    let id = at as nat;
    let record = chain[at];
    let rest = chain.skip(at);
    lemma_first_identified(chain, at);
    assert(rest[0] == record);
    lemma_first_where_is(rest, identified(id), 0);
    if id != 0 && id % interval == 0 {
        assert(crate::model::nearest_snapshot(id, interval) == id);
    } else {
        let pool = blocks_up_to(chain, id);
        lemma_record_within(chain, at, id);
        lemma_blocks_up_to_grows(chain, id, chain.len());
        lemma_within_inherits(pool, blocks_up_to(chain, chain.len()), 0);
        lemma_selected_from_part(record.index, record.blocks, pool);
        assert forall|j: int| 1 <= j < rest.len() implies (#[trigger] rest[j]).id > id by {
            assert(rest[j] == chain[at + j]);
        }
        lemma_blocks_up_to_first(rest, id);
    }
}

} // verus!
