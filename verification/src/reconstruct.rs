//! Rebuilding the text of a recorded version from a chain.

use vstd::prelude::*;
use vstd::slice::slice_to_vec;
use vstd::utf8::{decode_utf8, encode_utf8, valid_utf8};
use crate::block::{blocks_view, extend_with_copies, numbers_view, position_carrying, DataBlock};
use crate::config::{Config, DEFAULT_SNAPSHOT_INTERVAL};
use crate::delta::{chain_view, Delta};
use crate::error::StoreError;
use crate::model::{
    blocks_up_to, contents, first_where, identified, lemma_first_where_is, nearest_snapshot,
    pool_at, rebuilt, selected, BlockView, DeltaView,
};

verus! {

/// The index of the first record of `delta_list` whose id is `id`.
pub fn find_index_by_id(id: usize, delta_list: &[Delta]) -> (found: Option<Vec<usize>>)
    ensures
        ({
            let chain = chain_view(delta_list@);
            let at = first_where(chain, identified(id as nat));
            match found {
                Some(index) => at < chain.len() && numbers_view(index@) == chain[at].index,
                None => at >= chain.len(),
            }
        }),
{
    let ghost chain = chain_view(delta_list@);
    let mut i: usize = 0;
    while i < delta_list.len()
        invariant
            i <= delta_list@.len(),
            chain == chain_view(delta_list@),
            forall|j: int| 0 <= j < i ==> !identified(id as nat)(#[trigger] chain[j]),
        decreases delta_list@.len() - i,
    {
        if delta_list[i].id == id {
            proof {
                lemma_first_where_is(chain, identified(id as nat), i as int);
            }
            return Some(slice_to_vec(delta_list[i].index.as_slice()));
        }
        i = i + 1;
    }
    proof {
        lemma_first_where_is(chain, identified(id as nat), i as int);
    }
    None
}

/// The largest multiple of `snapshot_interval` that is at most `n`: the id
/// of the last record at or before `n` that the interval makes a snapshot.
pub fn nearest_multiple_of_snapshot(n: usize, snapshot_interval: usize) -> (nearest: usize)
    requires
        snapshot_interval > 0,
    ensures
        nearest == nearest_snapshot(n as nat, snapshot_interval as nat),
        nearest <= n < nearest + snapshot_interval,
        nearest % snapshot_interval == 0,
{
    let rest: usize = n % snapshot_interval;
    proof {
        vstd::arithmetic::div_mod::lemma_mod_decreases(n as nat, snapshot_interval as nat);
    }
    let nearest: usize = n - rest;
    proof {
        vstd::arithmetic::div_mod::lemma_fundamental_div_mod(n as int, snapshot_interval as int);
        vstd::arithmetic::div_mod::lemma_mod_multiples_basic(
            (n as int) / (snapshot_interval as int),
            snapshot_interval as int,
        );
        assert((snapshot_interval as int) * ((n as int) / (snapshot_interval as int))
            == ((n as int) / (snapshot_interval as int)) * (snapshot_interval as int))
            by (nonlinear_arith);
    }
    nearest
}

/// The pool of blocks against which the index of the record `id` is
/// resolved. Where `id` is a positive multiple of `snapshot_interval`, the
/// blocks of that record alone; else the blocks of all records up to `id`,
/// in the order of the chain.
pub fn get_data_blocks_up_to_id(id: usize, delta_list: &Vec<Delta>, snapshot_interval: usize) -> (pool:
    Vec<DataBlock>)
    requires
        snapshot_interval > 0,
    ensures
        blocks_view(pool@) == pool_at(
            chain_view(delta_list@),
            id as nat,
            snapshot_interval as nat,
        ),
{
    let ghost chain = chain_view(delta_list@);
    let mut data_blocks: Vec<DataBlock> = Vec::new();
    let mut i: usize = 0;
    if id % snapshot_interval == 0 && id != 0 {
        let find_id = nearest_multiple_of_snapshot(id, snapshot_interval);
        while i < delta_list.len()
            invariant
                i <= delta_list@.len(),
                chain == chain_view(delta_list@),
                data_blocks@.len() == 0,
                id != 0 && id % snapshot_interval == 0,
                find_id == nearest_snapshot(id as nat, snapshot_interval as nat),
                forall|j: int| 0 <= j < i ==> !identified(find_id as nat)(#[trigger] chain[j]),
            decreases delta_list@.len() - i,
        {
            if delta_list[i].id == find_id {
                extend_with_copies(&mut data_blocks, &delta_list[i].blocks);
                proof {
                    lemma_first_where_is(chain, identified(find_id as nat), i as int);
                    assert(chain[i as int].blocks == blocks_view(delta_list@[i as int].blocks@));
                    assert(blocks_view(data_blocks@) =~= chain[i as int].blocks);
                }
                return data_blocks;
            }
            i = i + 1;
        }
        proof {
            lemma_first_where_is(chain, identified(find_id as nat), i as int);
            assert(blocks_view(data_blocks@) =~= Seq::<BlockView>::empty());
        }
    } else {
        proof {
            assert(blocks_view(data_blocks@) =~= blocks_up_to(chain.take(0), id as nat));
        }
        while i < delta_list.len()
            invariant
                i <= delta_list@.len(),
                chain == chain_view(delta_list@),
                blocks_view(data_blocks@) == blocks_up_to(chain.take(i as int), id as nat),
            decreases delta_list@.len() - i,
        {
            proof {
                assert(chain.take(i + 1).drop_last() =~= chain.take(i as int));
            }
            if delta_list[i].id <= id {
                extend_with_copies(&mut data_blocks, &delta_list[i].blocks);
            }
            i = i + 1;
        }
        proof {
            assert(chain.take(i as int) =~= chain);
        }
    }
    data_blocks
}

/// For each number of `index` that some block of `data_blocks` carries, a
/// copy of the first such block, in the order of `index`.
pub fn get_data_blocks_by_index(index: &Vec<usize>, data_blocks: &[DataBlock]) -> (chosen: Vec<
    DataBlock,
>)
    ensures
        blocks_view(chosen@) == selected(numbers_view(index@), blocks_view(data_blocks@)),
{
    let ghost numbers = numbers_view(index@);
    let ghost pool = blocks_view(data_blocks@);
    let mut result_blocks: Vec<DataBlock> = Vec::new();
    let mut i: usize = 0;
    proof {
        assert(blocks_view(result_blocks@) =~= selected(numbers.take(0), pool));
    }
    while i < index.len()
        invariant
            i <= index@.len(),
            numbers == numbers_view(index@),
            pool == blocks_view(data_blocks@),
            blocks_view(result_blocks@) == selected(numbers.take(i as int), pool),
        decreases index@.len() - i,
    {
        proof {
            assert(numbers.take(i + 1).drop_last() =~= numbers.take(i as int));
        }
        match position_carrying(data_blocks, index[i]) {
            Some(at) => {
                let copy = data_blocks[at].clone();
                proof {
                    assert(blocks_view(result_blocks@.push(copy)) =~= blocks_view(
                        result_blocks@,
                    ).push(pool[at as int]));
                }
                result_blocks.push(copy);
            },
            None => {},
        }
        i = i + 1;
    }
    proof {
        assert(numbers.take(i as int) =~= numbers);
    }
    result_blocks
}

/// `String::from_utf8` of std: the text whose UTF-8 encoding is `bytes`.
/// The contract claims what std documents: the call succeeds where `bytes`
/// are valid UTF-8, and only there, and the text it gives is encoded by
/// exactly these bytes.
#[verifier::external_body]
fn text_from_utf8(bytes: Vec<u8>) -> (text: Option<String>)
    ensures
        text.is_some() == valid_utf8(bytes@),
        text.is_some() ==> encode_utf8(text.unwrap()@) == bytes@,
{
    match String::from_utf8(bytes) {
        Ok(text) => Some(text),
        Err(_) => None,
    }
}

/// Whether `res` is the outcome of reading `bytes` as text: the text that
/// they encode, or `InvalidTextEncoding` where they are not valid UTF-8.
pub open spec fn decoded(res: Result<String, StoreError>, bytes: Seq<u8>) -> bool {
    match res {
        Ok(text) => valid_utf8(bytes) && text@ == decode_utf8(bytes),
        Err(e) => !valid_utf8(bytes) && e == StoreError::InvalidTextEncoding,
    }
}

/// The bytes of the blocks `data_blocks`, put together in order and read as
/// text.
pub fn combine_data_blocks_to_text(data_blocks: &Vec<DataBlock>) -> (res: Result<
    String,
    StoreError,
>)
    ensures
        decoded(res, contents(blocks_view(data_blocks@)).flatten()),
{
    let ghost pieces = contents(blocks_view(data_blocks@));
    let mut bytes: Vec<u8> = Vec::new();
    let mut i: usize = 0;
    proof {
        assert(pieces.take(0).flatten() =~= Seq::<u8>::empty());
    }
    while i < data_blocks.len()
        invariant
            i <= data_blocks@.len(),
            pieces == contents(blocks_view(data_blocks@)),
            bytes@ == pieces.take(i as int).flatten(),
        decreases data_blocks@.len() - i,
    {
        let mut piece = slice_to_vec(data_blocks[i].data.as_slice());
        proof {
            assert(pieces.take(i + 1) =~= pieces.take(i as int).push(piece@));
            pieces.take(i as int).lemma_flatten_push(piece@);
        }
        bytes.append(&mut piece);
        i = i + 1;
    }
    proof {
        assert(pieces.take(i as int) =~= pieces);
    }
    match text_from_utf8(bytes) {
        Some(text) => {
            proof {
                vstd::utf8::encode_utf8_decode_utf8(text@);
            }
            Ok(text)
        },
        None => Err(StoreError::InvalidTextEncoding),
    }
}

/// Whether `res` is the outcome of rebuilding version `id` of `chain`
/// under the options `cfg`. Options that are not valid give
/// `InvalidConfiguration`; an id that no record has gives
/// `UnknownVersion`; else the bytes of the version are read as text.
pub open spec fn reconstructed(
    res: Result<String, StoreError>,
    id: nat,
    chain: Seq<DeltaView>,
    cfg: Config,
) -> bool {
    if !cfg.valid() {
        res == Err::<String, StoreError>(StoreError::InvalidConfiguration)
    } else {
        match rebuilt(chain, id, cfg.snapshot_interval as nat) {
            None => res == Err::<String, StoreError>(StoreError::UnknownVersion),
            Some(bytes) => decoded(res, bytes),
        }
    }
}

/// The text of version `id` of `chain`, under the options `cfg`.
pub fn reconstruct(id: usize, chain: &Vec<Delta>, cfg: &Config) -> (res: Result<
    String,
    StoreError,
>)
    ensures
        reconstructed(res, id as nat, chain_view(chain@), *cfg),
{
    if !cfg.is_valid() {
        return Err(StoreError::InvalidConfiguration);
    }
    match find_index_by_id(id, chain.as_slice()) {
        Some(index) => {
            let data_blocks = get_data_blocks_up_to_id(id, chain, cfg.snapshot_interval);
            let selected_blocks = get_data_blocks_by_index(&index, data_blocks.as_slice());
            combine_data_blocks_to_text(&selected_blocks)
        },
        None => Err(StoreError::UnknownVersion),
    }
}

/// The text of version `id` of the chain `deltas`, for blocks and
/// snapshots as `Config::default` sets them.
pub fn get_content(id: usize, deltas: Vec<Delta>) -> (res: Result<String, StoreError>)
    ensures
        match rebuilt(chain_view(deltas@), id as nat, DEFAULT_SNAPSHOT_INTERVAL as nat) {
            None => res == Err::<String, StoreError>(StoreError::UnknownVersion),
            Some(bytes) => decoded(res, bytes),
        },
{
    let cfg = Config::default();
    reconstruct(id, &deltas, &cfg)
}

} // verus!
