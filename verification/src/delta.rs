//! Deltas, the records of a chain, and the track that owns a chain.

use vstd::prelude::*;
use vstd::slice::slice_to_vec;
use vstd::string::StringSliceAdditionalSpecFns;
use crate::block::{blocks_view, numbers_view, DataBlock};
use crate::config::{Config, DEFAULT_BLOCK_SIZE, DEFAULT_SNAPSHOT_INTERVAL};
use crate::error::StoreError;
use crate::laws::lemma_first_record_well_formed;
use crate::model::{appended, first_record, well_formed, DeltaView};
use crate::store::{append, append_outcome, first_chain};

verus! {

/// One record of a chain: how to rebuild one version of the content.
#[derive(Debug)]
pub struct Delta {
    /// Position of the record in its chain.
    pub id: usize,
    /// The numbers of the blocks that make up the content, in order.
    pub index: Vec<usize>,
    /// The blocks that the record holds.
    pub blocks: Vec<DataBlock>,
    /// Whether the record holds every block that its index names.
    pub snapshot: bool,
}

impl View for Delta {
    type V = DeltaView;

    open spec fn view(&self) -> DeltaView {
        DeltaView {
            id: self.id as nat,
            index: numbers_view(self.index@),
            blocks: blocks_view(self.blocks@),
            snapshot: self.snapshot,
        }
    }
}

/// A chain of records as values.
pub open spec fn chain_view(chain: Seq<Delta>) -> Seq<DeltaView> {
    Seq::new(chain.len(), |i: int| chain[i]@)
}

/// A copy of the block list `blocks`.
pub fn copy_blocks(blocks: &Vec<DataBlock>) -> (copy: Vec<DataBlock>)
    ensures
        blocks_view(copy@) == blocks_view(blocks@),
{
    let mut copy: Vec<DataBlock> = Vec::new();
    crate::block::extend_with_copies(&mut copy, blocks);
    proof {
        assert(blocks_view(Seq::<DataBlock>::empty()) + blocks_view(blocks@) =~= blocks_view(
            blocks@,
        ));
    }
    copy
}

impl Clone for Delta {
    fn clone(&self) -> (copy: Delta)
        ensures
            copy@ == self@,
    {
        Delta {
            id: self.id,
            index: slice_to_vec(self.index.as_slice()),
            blocks: copy_blocks(&self.blocks),
            snapshot: self.snapshot,
        }
    }
}

impl Delta {
    /// The record `id` with the index `index` and the blocks `blocks`.
    pub fn new(id: usize, index: Vec<usize>, blocks: Vec<DataBlock>, snapshot: bool) -> (delta:
        Delta)
        ensures
            delta@ == (DeltaView {
                id: id as nat,
                index: numbers_view(index@),
                blocks: blocks_view(blocks@),
                snapshot,
            }),
    {
        Delta { id, index, blocks, snapshot }
    }

    /// The track that holds `content` as its first version, with blocks
    /// and snapshots as `Config::default` sets them.
    pub fn init(content: &str) -> (track: Track)
        ensures
            track@ == seq![first_record(content.spec_bytes(), DEFAULT_BLOCK_SIZE as nat)],
            track.well_formed(),
    {
        proof {
            lemma_first_record_well_formed(
                content.spec_bytes(),
                DEFAULT_BLOCK_SIZE as nat,
                DEFAULT_SNAPSHOT_INTERVAL as nat,
            );
        }
        Track { track: first_chain(content.as_bytes(), DEFAULT_BLOCK_SIZE) }
    }

    /// Stores `content` as the next version of the chain `record_table`,
    /// with blocks and snapshots as `Config::default` sets them. The new
    /// record is a snapshot where `snapshot` is set or its id is a
    /// multiple of the snapshot interval. An empty chain is refused; a
    /// content that brings no new block leaves the chain as it is.
    pub fn add(content: &str, record_table: Vec<Delta>, snapshot: bool) -> (res: Result<
        Vec<Delta>,
        StoreError,
    >)
        requires
            well_formed(chain_view(record_table@), DEFAULT_SNAPSHOT_INTERVAL as nat),
        ensures
            append_outcome(
                res,
                content.spec_bytes(),
                chain_view(record_table@),
                snapshot,
                (Config {
                    block_size: DEFAULT_BLOCK_SIZE,
                    snapshot_interval: DEFAULT_SNAPSHOT_INTERVAL,
                }),
            ),
    {
        let cfg = Config::default();
        append(content.as_bytes(), record_table, snapshot, &cfg)
    }
}

/// A chain of deltas that records the versions of one text.
#[derive(Debug)]
pub struct Track {
    /// The records, in the order of their ids.
    pub track: Vec<Delta>,
}

impl View for Track {
    type V = Seq<DeltaView>;

    open spec fn view(&self) -> Seq<DeltaView> {
        chain_view(self.track@)
    }
}

impl Clone for Track {
    fn clone(&self) -> (copy: Track)
        ensures
            copy@ == self@,
    {
        Track { track: copy_chain(&self.track) }
    }
}

impl Track {
    /// The chain is well formed for the snapshot interval of
    /// `Config::default`.
    pub open spec fn well_formed(&self) -> bool {
        well_formed(self@, DEFAULT_SNAPSHOT_INTERVAL as nat)
    }

    /// The track that holds `context` as its first version.
    pub fn create(context: &str) -> (track: Track)
        ensures
            track@ == seq![first_record(context.spec_bytes(), DEFAULT_BLOCK_SIZE as nat)],
            track.well_formed(),
    {
        Delta::init(context)
    }

    /// Stores `content` as the next version of the track. The new record
    /// is a snapshot where its id is a multiple of the snapshot interval.
    /// A track without a record is refused and stays as it is; a content
    /// that brings no new block leaves the track as it is.
    pub fn modify(&mut self, content: &str) -> (res: Result<(), StoreError>)
        requires
            old(self).well_formed(),
        ensures
            final(self).well_formed(),
            match res {
                Ok(_) => old(self)@.len() > 0 && final(self)@ == appended(
                    content.spec_bytes(),
                    old(self)@,
                    false,
                    DEFAULT_BLOCK_SIZE as nat,
                    DEFAULT_SNAPSHOT_INTERVAL as nat,
                ),
                Err(e) => old(self)@.len() == 0 && e == StoreError::EmptyChain && final(self)@
                    == old(self)@,
            },
    {
        match Delta::add(content, copy_chain(&self.track), false) {
            Ok(track) => {
                self.track = track;
                Ok(())
            },
            Err(e) => Err(e),
        }
    }
}

/// A copy of the chain `chain`.
pub fn copy_chain(chain: &Vec<Delta>) -> (copy: Vec<Delta>)
    ensures
        chain_view(copy@) == chain_view(chain@),
{
    let mut copy: Vec<Delta> = Vec::new();
    let mut i: usize = 0;
    while i < chain.len()
        invariant
            i <= chain@.len(),
            chain_view(copy@) == chain_view(chain@).take(i as int),
        decreases chain@.len() - i,
    {
        let delta = chain[i].clone();
        proof {
            assert(chain_view(copy@.push(delta)) =~= chain_view(copy@).push(delta@));
            assert(chain_view(chain@).take(i + 1) =~= chain_view(chain@).take(i as int).push(
                chain@[i as int]@,
            ));
        }
        copy.push(delta);
        i = i + 1;
    }
    proof {
        assert(chain_view(chain@).take(i as int) =~= chain_view(chain@));
    }
    copy
}

} // verus!
