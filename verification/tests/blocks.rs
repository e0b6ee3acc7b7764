use track_rs::block::{
    extend_with_copies, position_carrying, position_holding, same_bytes, split_data_into_blocks,
    DataBlock,
};
use track_rs::config::Config;
use track_rs::delta::{copy_chain, Delta, Track};
use track_rs::error::StoreError;
use track_rs::reconstruct::{
    combine_data_blocks_to_text, find_index_by_id, get_content, get_data_blocks_by_index,
    get_data_blocks_up_to_id, nearest_multiple_of_snapshot, reconstruct,
};
use track_rs::store::{
    add_to_block_list, append, copy_blocks_from, extract_index, find_different_blocks,
    first_chain, initialize,
};

fn block(number: usize, data: &str) -> DataBlock {
    DataBlock::new(number, data.as_bytes().to_vec())
}

fn data_of(blocks: &[DataBlock]) -> Vec<String> {
    blocks.iter().map(|b| String::from_utf8(b.data.clone()).unwrap()).collect()
}

fn numbers_of(blocks: &[DataBlock]) -> Vec<usize> {
    blocks.iter().map(|b| b.block_number).collect()
}

#[test]
fn split_cuts_at_the_block_size() {
    let (blocks, numbers) = split_data_into_blocks(b"abcdefghijklmnopqrstuvwxy", 10);
    assert_eq!(numbers, vec![0, 1, 2]);
    assert_eq!(blocks, vec![block(0, "abcdefghij"), block(1, "klmnopqrst"), block(2, "uvwxy")]);

    let (blocks, numbers) = split_data_into_blocks(b"abcdefghijklmnopqrst", 10);
    assert_eq!(numbers, vec![0, 1]);
    assert_eq!(blocks, vec![block(0, "abcdefghij"), block(1, "klmnopqrst")]);

    let (blocks, numbers) = split_data_into_blocks(b"abc", 10);
    assert_eq!(numbers, vec![0]);
    assert_eq!(blocks, vec![block(0, "abc")]);

    let (blocks, numbers) = split_data_into_blocks(b"abc", 1);
    assert_eq!(numbers, vec![0, 1, 2]);
    assert_eq!(blocks, vec![block(0, "a"), block(1, "b"), block(2, "c")]);

    let (blocks, numbers) = split_data_into_blocks(b"abc", usize::MAX);
    assert_eq!(numbers, vec![0]);
    assert_eq!(blocks, vec![block(0, "abc")]);
}

#[test]
fn split_of_nothing_is_nothing() {
    let (blocks, numbers) = split_data_into_blocks(b"", 10);
    assert!(blocks.is_empty());
    assert!(numbers.is_empty());
}

#[test]
fn split_blocks_join_to_the_data() {
    let data: Vec<u8> = (0..=255u8).cycle().take(1000).collect();
    for size in [1usize, 2, 3, 7, 10, 64, 999, 1000, 1001] {
        let (blocks, numbers) = split_data_into_blocks(&data, size);
        let count = (data.len() + size - 1) / size;
        assert_eq!(blocks.len(), count);
        assert_eq!(numbers, (0..count).collect::<Vec<usize>>());
        let mut joined = Vec::new();
        for (at, b) in blocks.iter().enumerate() {
            assert_eq!(b.block_number, at);
            if at + 1 < count {
                assert_eq!(b.data.len(), size);
            } else {
                assert!(1 <= b.data.len() && b.data.len() <= size);
            }
            joined.extend_from_slice(&b.data);
        }
        assert_eq!(joined, data);
    }
}

#[test]
fn bytes_are_compared_whole() {
    assert!(same_bytes(b"", b""));
    assert!(same_bytes(b"abc", b"abc"));
    assert!(!same_bytes(b"abc", b"abd"));
    assert!(!same_bytes(b"abc", b"ab"));
    assert!(!same_bytes(b"ab", b"abc"));
    assert!(!same_bytes(b"", b"a"));
}

#[test]
fn first_block_is_found() {
    let pool = vec![block(4, "aa"), block(7, "bb"), block(4, "cc"), block(9, "bb")];
    assert_eq!(position_holding(&pool, b"bb"), Some(1));
    assert_eq!(position_holding(&pool, b"aa"), Some(0));
    assert_eq!(position_holding(&pool, b"cc"), Some(2));
    assert_eq!(position_holding(&pool, b"b"), None);
    assert_eq!(position_holding(&[], b"bb"), None);
    assert_eq!(position_carrying(&pool, 4), Some(0));
    assert_eq!(position_carrying(&pool, 9), Some(3));
    assert_eq!(position_carrying(&pool, 0), None);
    assert_eq!(position_carrying(&[], 4), None);
}

#[test]
fn copies_keep_numbers_and_bytes() {
    let pool = vec![block(4, "aa"), block(7, "bb"), block(5, "cc")];
    let mut target = vec![block(1, "x")];
    extend_with_copies(&mut target, &pool);
    assert_eq!(target, vec![block(1, "x"), block(4, "aa"), block(7, "bb"), block(5, "cc")]);
    assert_eq!(copy_blocks_from(&pool, 0), pool);
    assert_eq!(copy_blocks_from(&pool, 1), vec![block(7, "bb"), block(5, "cc")]);
    assert_eq!(copy_blocks_from(&pool, 3), Vec::new());
    assert_eq!(pool[1].clone(), block(7, "bb"));

    let track = Track::create("Hello, I am a rust developer.");
    let copy = copy_chain(&track.track);
    assert_eq!(copy.len(), 1);
    assert_eq!(copy[0].id, 0);
    assert_eq!(copy[0].index, track.track[0].index);
    assert_eq!(copy[0].blocks, track.track[0].blocks);
    assert_eq!(copy[0].snapshot, track.track[0].snapshot);
    let again = track.clone();
    assert_eq!(again.track[0].blocks, track.track[0].blocks);
}

#[test]
fn only_blocks_that_the_pool_lacks_are_different() {
    let pool = vec![block(0, "Hello, I a"), block(1, "m a rust d"), block(2, "eveloper.")];
    let different = find_different_blocks(&pool, b"Hello, I am a Java developer.", 10);
    assert_eq!(different, vec![block(1, "m a Java d")]);

    // one byte changed makes a block new
    let different = find_different_blocks(&pool, b"Hello, I am a rust developer!", 10);
    assert_eq!(different, vec![block(2, "eveloper!")]);

    let different = find_different_blocks(&pool, b"Hello, I am a rust developer.", 10);
    assert!(different.is_empty());

    let different = find_different_blocks(&pool, b"", 10);
    assert!(different.is_empty());

    let different = find_different_blocks(&[], b"abcdef", 4);
    assert_eq!(different, vec![block(0, "abcd"), block(1, "ef")]);

    // a block that comes twice in one content is different twice
    let different = find_different_blocks(&pool, b"xxxxxxxxxxxxxxxxxxxx", 10);
    assert_eq!(different, vec![block(0, "xxxxxxxxxx"), block(1, "xxxxxxxxxx")]);
}

#[test]
fn new_blocks_are_numbered_after_the_last() {
    let pool = vec![block(0, "aa"), block(1, "bb"), block(2, "cc")];
    let (list, numbers) = add_to_block_list(pool, vec![block(0, "dd"), block(5, "ee")]);
    assert_eq!(numbers, vec![3, 4]);
    assert_eq!(
        list,
        vec![block(0, "aa"), block(1, "bb"), block(2, "cc"), block(3, "dd"), block(4, "ee")]
    );

    let (list, numbers) = add_to_block_list(Vec::new(), vec![block(7, "dd"), block(7, "ee")]);
    assert_eq!(numbers, vec![0, 1]);
    assert_eq!(list, vec![block(0, "dd"), block(1, "ee")]);

    let (list, numbers) = add_to_block_list(vec![block(0, "aa")], Vec::new());
    assert!(numbers.is_empty());
    assert_eq!(list, vec![block(0, "aa")]);

    // the pool of a record behind a snapshot repeats numbers; the last is the highest
    let pool = vec![block(0, "aa"), block(1, "bb"), block(0, "aa"), block(1, "bb"), block(2, "cc")];
    let (list, numbers) = add_to_block_list(pool, vec![block(0, "dd")]);
    assert_eq!(numbers, vec![3]);
    assert_eq!(list[5], block(3, "dd"));
}

#[test]
fn index_names_the_first_block_with_the_bytes() {
    let current = vec![block(0, "aa"), block(1, "zz"), block(2, "bb"), block(3, "aa")];
    let records = vec![block(5, "bb"), block(6, "aa"), block(7, "bb")];
    assert_eq!(extract_index(&current, &records), vec![6, 5, 6]);
    assert_eq!(extract_index(&current, &[]), Vec::<usize>::new());
    assert_eq!(extract_index(&Vec::new(), &records), Vec::<usize>::new());
}

#[test]
fn blocks_are_chosen_by_number() {
    let pool = vec![block(0, "aa"), block(1, "bb"), block(0, "cc"), block(2, "dd")];
    let chosen = get_data_blocks_by_index(&vec![2, 0, 9, 1, 0], &pool);
    assert_eq!(chosen, vec![block(2, "dd"), block(0, "aa"), block(1, "bb"), block(0, "aa")]);
    assert!(get_data_blocks_by_index(&vec![], &pool).is_empty());
    assert!(get_data_blocks_by_index(&vec![0, 1], &[]).is_empty());
}

#[test]
fn nearest_snapshot_is_the_multiple_below() {
    assert_eq!(nearest_multiple_of_snapshot(0, 3), 0);
    assert_eq!(nearest_multiple_of_snapshot(1, 3), 0);
    assert_eq!(nearest_multiple_of_snapshot(2, 3), 0);
    assert_eq!(nearest_multiple_of_snapshot(3, 3), 3);
    assert_eq!(nearest_multiple_of_snapshot(4, 3), 3);
    assert_eq!(nearest_multiple_of_snapshot(5, 3), 3);
    assert_eq!(nearest_multiple_of_snapshot(6, 3), 6);
    assert_eq!(nearest_multiple_of_snapshot(7, 1), 7);
    assert_eq!(nearest_multiple_of_snapshot(7, 10), 0);
    assert_eq!(nearest_multiple_of_snapshot(usize::MAX, 2), usize::MAX - 1);
    assert_eq!(nearest_multiple_of_snapshot(usize::MAX, usize::MAX), usize::MAX);
}

#[test]
fn blocks_are_joined_before_they_are_read() {
    assert_eq!(combine_data_blocks_to_text(&Vec::new()), Ok(String::new()));
    let blocks = vec![block(0, "Hello, "), block(1, "world")];
    assert_eq!(combine_data_blocks_to_text(&blocks), Ok("Hello, world".to_string()));
    // one character in two blocks
    let blocks = vec![DataBlock::new(0, vec![0x61, 0xc3]), DataBlock::new(1, vec![0xa9, 0x62])];
    assert_eq!(combine_data_blocks_to_text(&blocks), Ok("a\u{e9}b".to_string()));
    let blocks = vec![DataBlock::new(0, vec![0x61, 0xc3]), DataBlock::new(1, vec![0x62])];
    assert_eq!(combine_data_blocks_to_text(&blocks), Err(StoreError::InvalidTextEncoding));
    let blocks = vec![DataBlock::new(0, vec![0xff])];
    assert_eq!(combine_data_blocks_to_text(&blocks), Err(StoreError::InvalidTextEncoding));
}

#[test]
fn errors_describe_themselves() {
    assert_eq!(StoreError::EmptyChain.message(), "the chain holds no record");
    assert_eq!(StoreError::UnknownVersion.message(), "no record has the requested id");
    assert_eq!(
        StoreError::InvalidTextEncoding.message(),
        "the stored bytes are not valid UTF-8"
    );
    assert_eq!(
        StoreError::InvalidConfiguration.message(),
        "block size and snapshot interval must be positive"
    );
}

fn developers() -> Track {
    let mut track = Track::create("Hello, I am a rust developer.");
    track.modify("Hello, I am a Java developer.").unwrap();
    track.modify("Hello, I am a Python developer.").unwrap();
    track
}

#[test]
fn developers_share_their_blocks() {
    let track = developers();
    let chain = &track.track;
    assert_eq!(chain.len(), 3);
    assert_eq!(
        get_content(0, chain.clone()),
        Ok("Hello, I am a rust developer.".to_string())
    );
    assert_eq!(
        get_content(1, chain.clone()),
        Ok("Hello, I am a Java developer.".to_string())
    );
    assert_eq!(
        get_content(2, chain.clone()),
        Ok("Hello, I am a Python developer.".to_string())
    );

    assert_eq!(chain[0].id, 0);
    assert!(chain[0].snapshot);
    assert_eq!(chain[0].index, vec![0, 1, 2]);
    assert_eq!(
        chain[0].blocks,
        vec![block(0, "Hello, I a"), block(1, "m a rust d"), block(2, "eveloper.")]
    );

    assert_eq!(chain[1].id, 1);
    assert!(!chain[1].snapshot);
    assert_eq!(chain[1].index, vec![0, 3, 2]);
    assert_eq!(chain[1].blocks, vec![block(3, "m a Java d")]);

    assert_eq!(chain[2].id, 2);
    assert!(!chain[2].snapshot);
    assert_eq!(chain[2].index, vec![0, 4, 5, 6]);
    assert_eq!(
        chain[2].blocks,
        vec![block(4, "m a Python"), block(5, " developer"), block(6, ".")]
    );

    // fewer bytes are stored than were handed in
    let stored: usize = chain.iter().flat_map(|d| d.blocks.iter()).map(|b| b.data.len()).sum();
    assert_eq!(stored, 29 + 10 + 21);
    assert!(stored < 29 + 29 + 31);
}

#[test]
fn third_record_is_a_snapshot_of_the_pool() {
    let mut track = developers();
    track.modify("Hello, I am a Go developer.").unwrap();
    track.modify("Hello, I am a Solidity developer.").unwrap();
    let chain = &track.track;
    assert_eq!(chain.len(), 5);

    assert_eq!(chain[3].id, 3);
    assert!(chain[3].snapshot);
    assert_eq!(chain[3].index, vec![0, 7, 8]);
    assert_eq!(numbers_of(&chain[3].blocks), vec![0, 1, 2, 3, 4, 5, 6, 7, 8]);
    assert_eq!(
        data_of(&chain[3].blocks),
        vec![
            "Hello, I a",
            "m a rust d",
            "eveloper.",
            "m a Java d",
            "m a Python",
            " developer",
            ".",
            "m a Go dev",
            "eloper."
        ]
    );

    // the record behind a snapshot starts from the pool of the snapshot
    assert_eq!(chain[4].id, 4);
    assert!(!chain[4].snapshot);
    assert_eq!(chain[4].index, vec![0, 9, 10, 11]);
    assert_eq!(
        chain[4].blocks,
        vec![block(9, "m a Solidi"), block(10, "ty develop"), block(11, "er.")]
    );
    assert_eq!(
        get_content(4, chain.clone()),
        Ok("Hello, I am a Solidity developer.".to_string())
    );
}

#[test]
fn snapshot_needs_no_earlier_record() {
    let mut track = developers();
    track.modify("Hello, I am a Go developer.").unwrap();
    track.modify("Hello, I am a Solidity developer.").unwrap();
    let chain = track.track;
    let whole = get_content(3, chain.clone());
    assert_eq!(whole, Ok("Hello, I am a Go developer.".to_string()));
    let rest: Vec<Delta> = chain[3..].to_vec();
    assert_eq!(rest.len(), 2);
    assert_eq!(get_content(3, rest), whole);
    let alone: Vec<Delta> = chain[3..4].to_vec();
    assert_eq!(get_content(3, alone), whole);
    // the first record is a snapshot too
    let first: Vec<Delta> = chain[..1].to_vec();
    assert_eq!(get_content(0, first), get_content(0, chain.clone()));
}

#[test]
fn forced_snapshot_holds_the_pool() {
    let chain = Track::create("Hello, I am a rust developer.").track;
    let chain = Delta::add("Hello, I am a Java developer.", chain, true).unwrap();
    assert_eq!(chain.len(), 2);
    assert!(chain[1].snapshot);
    assert_eq!(chain[1].index, vec![0, 3, 2]);
    assert_eq!(
        chain[1].blocks,
        vec![
            block(0, "Hello, I a"),
            block(1, "m a rust d"),
            block(2, "eveloper."),
            block(3, "m a Java d")
        ]
    );
    let whole = get_content(1, chain.clone());
    assert_eq!(whole, Ok("Hello, I am a Java developer.".to_string()));
    assert_eq!(get_content(1, chain[1..].to_vec()), whole);

    let chain = Delta::add("Hello, I am a Python developer.", chain, false).unwrap();
    assert!(!chain[2].snapshot);
    assert_eq!(chain[2].index, vec![0, 4, 5, 6]);
    assert_eq!(numbers_of(&chain[2].blocks), vec![4, 5, 6]);
    for (id, text) in [
        "Hello, I am a rust developer.",
        "Hello, I am a Java developer.",
        "Hello, I am a Python developer.",
    ]
    .iter()
    .enumerate()
    {
        assert_eq!(get_content(id, chain.clone()), Ok(text.to_string()));
    }
}

#[test]
fn content_without_new_blocks_adds_no_record() {
    let mut track = Track::create("0123456789abcdefghij");
    assert_eq!(track.modify("0123456789abcdefghij"), Ok(()));
    assert_eq!(track.track.len(), 1);
    // the blocks in another order
    assert_eq!(track.modify("abcdefghij0123456789"), Ok(()));
    assert_eq!(track.track.len(), 1);
    assert_eq!(track.modify(""), Ok(()));
    assert_eq!(track.track.len(), 1);
    let chain = Delta::add("0123456789", track.track.clone(), true).unwrap();
    assert_eq!(chain.len(), 1);
    assert_eq!(get_content(0, chain), Ok("0123456789abcdefghij".to_string()));
    assert_eq!(get_content(1, track.track.clone()), Err(StoreError::UnknownVersion));

    assert_eq!(track.modify("0123456789abcdefghiJ"), Ok(()));
    assert_eq!(track.track.len(), 2);
    assert_eq!(track.track[1].index, vec![0, 2]);
    assert_eq!(track.track[1].blocks, vec![block(2, "abcdefghiJ")]);
}

#[test]
fn chain_of_an_empty_text_numbers_from_zero() {
    let mut track = Track::create("");
    assert_eq!(track.track.len(), 1);
    assert!(track.track[0].index.is_empty());
    assert!(track.track[0].blocks.is_empty());
    assert!(track.track[0].snapshot);
    assert_eq!(get_content(0, track.track.clone()), Ok(String::new()));
    track.modify("abc").unwrap();
    assert_eq!(track.track[1].index, vec![0]);
    assert_eq!(track.track[1].blocks, vec![block(0, "abc")]);
    assert_eq!(get_content(1, track.track.clone()), Ok("abc".to_string()));
    assert_eq!(get_content(0, track.track.clone()), Ok(String::new()));
}

#[test]
fn block_that_comes_twice_is_stored_twice_and_named_once() {
    let mut track = Track::create("start");
    track.modify("xxxxxxxxxxxxxxxxxxxxstart").unwrap();
    assert_eq!(track.track[1].index, vec![1, 1, 0]);
    assert_eq!(track.track[1].blocks, vec![block(1, "xxxxxxxxxx"), block(2, "xxxxxxxxxx")]);
    assert_eq!(
        get_content(1, track.track.clone()),
        Ok("xxxxxxxxxxxxxxxxxxxxstart".to_string())
    );
}

#[test]
fn pool_of_a_record() {
    let mut track = developers();
    track.modify("Hello, I am a Go developer.").unwrap();
    track.modify("Hello, I am a Solidity developer.").unwrap();
    let chain = &track.track;
    assert_eq!(numbers_of(&get_data_blocks_up_to_id(0, chain, 3)), vec![0, 1, 2]);
    assert_eq!(numbers_of(&get_data_blocks_up_to_id(1, chain, 3)), vec![0, 1, 2, 3]);
    assert_eq!(numbers_of(&get_data_blocks_up_to_id(2, chain, 3)), vec![0, 1, 2, 3, 4, 5, 6]);
    assert_eq!(
        numbers_of(&get_data_blocks_up_to_id(3, chain, 3)),
        vec![0, 1, 2, 3, 4, 5, 6, 7, 8]
    );
    assert_eq!(
        numbers_of(&get_data_blocks_up_to_id(4, chain, 3)),
        vec![0, 1, 2, 3, 4, 5, 6, 0, 1, 2, 3, 4, 5, 6, 7, 8, 9, 10, 11]
    );
    // no record has the id six
    assert!(get_data_blocks_up_to_id(6, chain, 3).is_empty());
    assert_eq!(get_data_blocks_up_to_id(7, chain, 3).len(), 19);
    assert!(get_data_blocks_up_to_id(0, &Vec::new(), 3).is_empty());

    assert_eq!(find_index_by_id(1, chain), Some(vec![0, 3, 2]));
    assert_eq!(find_index_by_id(4, chain), Some(vec![0, 9, 10, 11]));
    assert_eq!(find_index_by_id(5, chain), None);
    assert_eq!(find_index_by_id(0, &[]), None);
}

#[test]
fn first_chain_holds_one_snapshot() {
    let chain = first_chain(b"abcdefg", 3);
    assert_eq!(chain.len(), 1);
    assert_eq!(chain[0].id, 0);
    assert!(chain[0].snapshot);
    assert_eq!(chain[0].index, vec![0, 1, 2]);
    assert_eq!(chain[0].blocks, vec![block(0, "abc"), block(1, "def"), block(2, "g")]);
    let cfg = Config::new(3, 5).unwrap();
    let same = initialize(b"abcdefg", &cfg).unwrap();
    assert_eq!(same.len(), 1);
    assert_eq!(same[0].index, chain[0].index);
    assert_eq!(same[0].blocks, chain[0].blocks);
    assert_eq!(reconstruct(0, &same, &cfg), Ok("abcdefg".to_string()));

    let made = Delta::new(4, vec![1, 2], vec![block(1, "a"), block(2, "b")], false);
    assert_eq!(made.id, 4);
    assert_eq!(made.index, vec![1, 2]);
    assert_eq!(made.blocks, vec![block(1, "a"), block(2, "b")]);
    assert!(!made.snapshot);
    let track = Delta::init("abcdefg");
    assert_eq!(track.track.len(), 1);
    assert_eq!(track.track[0].blocks, vec![block(0, "abcdefg")]);
}

#[test]
fn interval_of_one_makes_every_record_a_snapshot() {
    let cfg = Config::new(2, 1).unwrap();
    let contents = ["abcd", "abXd", "XdXdabz", "q"];
    let mut chain = initialize(contents[0].as_bytes(), &cfg).unwrap();
    for content in &contents[1..] {
        chain = append(content.as_bytes(), chain, false, &cfg).unwrap();
    }
    assert_eq!(chain.len(), 4);
    for (id, content) in contents.iter().enumerate() {
        assert!(chain[id].snapshot);
        assert_eq!(reconstruct(id, &chain, &cfg), Ok(content.to_string()));
        assert_eq!(reconstruct(id, &chain[id..].to_vec(), &cfg), Ok(content.to_string()));
    }
    assert_eq!(numbers_of(&chain[3].blocks), vec![0, 1, 2, 3, 4]);
    assert_eq!(chain[2].index, vec![2, 2, 0, 3]);
}
