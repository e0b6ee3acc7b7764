use track_rs::block::DataBlock;
use track_rs::config::Config;
use track_rs::delta::{Delta, Track};
use track_rs::store::{append, initialize};
use track_rs::validate::{
    all_blocks, are_records_well_formed, index_resolves, is_consistent, is_well_formed,
    numbers_are_below,
};

fn block(number: usize, data: &str) -> DataBlock {
    DataBlock::new(number, data.as_bytes().to_vec())
}

fn chain_of(count: usize) -> Vec<Delta> {
    let contents = [
        "Hello, I am a rust developer.",
        "Hello, I am a Java developer.",
        "Hello, I am a Python developer.",
        "Hello, I am a Go developer.",
        "Hello, I am a Solidity developer.",
    ];
    let mut track = Track::create(contents[0]);
    for content in &contents[1..count] {
        track.modify(content).unwrap();
    }
    track.track
}

#[test]
fn chains_of_the_store_are_well_formed() {
    assert!(is_well_formed(&Vec::new(), 3));
    for count in 1..=5 {
        let chain = chain_of(count);
        assert!(are_records_well_formed(&chain, 3));
        assert!(is_well_formed(&chain, 3));
    }
    assert!(is_well_formed(&Track::create("").track, 3));
    let mut track = Track::create("");
    track.modify("abc").unwrap();
    assert!(is_well_formed(&track.track, 3));

    for (size, interval) in [(1usize, 1usize), (2, 1), (3, 2), (4, 5), (100, 4)] {
        let cfg = Config::new(size, interval).unwrap();
        let mut chain = initialize(b"the first of the texts", &cfg).unwrap();
        assert!(is_well_formed(&chain, interval));
        for (at, content) in
            ["the second of the texts", "a third", "the first of the texts", "", "the last one"]
                .iter()
                .enumerate()
        {
            chain = append(content.as_bytes(), chain, at % 2 == 1, &cfg).unwrap();
            assert!(is_well_formed(&chain, interval));
        }
    }
}

#[test]
fn chain_of_another_interval_is_refused() {
    let chain = chain_of(5);
    // the records two and four are no snapshots
    assert!(!is_well_formed(&chain, 2));
    assert!(!are_records_well_formed(&chain, 2));
    assert!(!is_well_formed(&chain, 1));
    // with the interval five the fourth record resolves in all records
    assert!(is_well_formed(&chain_of(3), 5));
}

#[test]
fn ids_must_count_from_zero() {
    let mut chain = chain_of(3);
    chain[1].id = 2;
    assert!(!are_records_well_formed(&chain, 3));
    assert!(!is_well_formed(&chain, 3));
    let mut chain = chain_of(3);
    chain.remove(0);
    assert!(!is_well_formed(&chain, 3));
    let mut chain = chain_of(3);
    chain.remove(1);
    assert!(!is_well_formed(&chain, 3));
}

#[test]
fn first_record_must_be_a_snapshot() {
    let mut chain = chain_of(2);
    chain[0].snapshot = false;
    assert!(!are_records_well_formed(&chain, 3));
    assert!(!is_well_formed(&chain, 3));
    let mut chain = chain_of(4);
    chain[3].snapshot = false;
    assert!(!is_well_formed(&chain, 3));
}

#[test]
fn snapshot_must_hold_its_blocks() {
    // the second record names blocks of the first
    let mut chain = chain_of(2);
    chain[1].snapshot = true;
    assert!(!are_records_well_formed(&chain, 3));
    assert!(!is_well_formed(&chain, 3));
}

#[test]
fn index_must_resolve() {
    let mut chain = chain_of(2);
    chain[1].index.push(9);
    assert!(!are_records_well_formed(&chain, 3));
    assert!(!is_well_formed(&chain, 3));
    // a block of a later record
    let mut chain = chain_of(3);
    chain[1].index.push(4);
    assert!(!is_well_formed(&chain, 3));
}

#[test]
fn number_must_stand_for_one_content() {
    let mut chain = chain_of(2);
    chain[1].blocks[0].block_number = 1;
    chain[1].index = vec![0, 1, 2];
    assert!(are_records_well_formed(&chain, 3));
    assert!(!is_well_formed(&chain, 3));
}

#[test]
fn last_number_must_be_the_highest() {
    let mut chain = chain_of(2);
    chain[0].blocks.swap(1, 2);
    chain[1].blocks[0].block_number = 1;
    chain[1].blocks[0].data = chain[0].blocks[2].data.clone();
    chain[1].index = vec![0, 1, 2];
    assert!(are_records_well_formed(&chain, 3));
    assert!(is_consistent(&all_blocks(&chain)));
    assert!(!is_well_formed(&chain, 3));

    // a number that is not less than the count of the blocks
    let mut chain = chain_of(1);
    chain[0].blocks[2].block_number = 3;
    chain[0].index = vec![0, 1, 3];
    assert!(are_records_well_formed(&chain, 3));
    assert!(!is_well_formed(&chain, 3));
    let mut chain = chain_of(1);
    chain[0].blocks[2].block_number = usize::MAX;
    chain[0].index = vec![0, 1, usize::MAX];
    assert!(!is_well_formed(&chain, 3));
}

#[test]
fn parts_of_the_test() {
    let pool = vec![block(0, "aa"), block(1, "bb"), block(0, "aa"), block(3, "dd")];
    assert!(index_resolves(&vec![], &pool));
    assert!(index_resolves(&vec![3, 0, 0, 1], &pool));
    assert!(!index_resolves(&vec![3, 2], &pool));
    assert!(!index_resolves(&vec![0], &[]));
    assert!(is_consistent(&pool));
    assert!(is_consistent(&[]));
    assert!(!is_consistent(&[block(0, "aa"), block(1, "bb"), block(0, "ab")]));
    assert!(numbers_are_below(&pool, 4));
    assert!(!numbers_are_below(&pool, 3));
    assert!(numbers_are_below(&[], 0));
    assert!(!numbers_are_below(&pool, 0));

    let chain = chain_of(4);
    let blocks = all_blocks(&chain);
    let numbers: Vec<usize> = blocks.iter().map(|b| b.block_number).collect();
    assert_eq!(numbers, vec![0, 1, 2, 3, 4, 5, 6, 0, 1, 2, 3, 4, 5, 6, 7, 8]);
    assert!(all_blocks(&Vec::new()).is_empty());
}
