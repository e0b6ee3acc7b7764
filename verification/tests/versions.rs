use track_rs::config::Config;
use track_rs::delta::{Delta, Track};
use track_rs::error::StoreError;
use track_rs::reconstruct::{get_content, reconstruct};
use track_rs::store::{append, initialize};

fn texts() -> Vec<&'static str> {
    vec![
        "Hello, I am a rust developer.",
        "Hello, I am a Java developer.",
        "Hello, I am a Python developer.",
        "Hello, I am a Go developer.",
        "Hello, I am a Solidity developer.",
    ]
}

fn track_of(contents: &[&str]) -> Track {
    let mut track = Track::create(contents[0]);
    for content in &contents[1..] {
        track.modify(content).unwrap();
    }
    track
}

#[test]
fn test() {
    // Write data
    let mut track = Track::create("Hello, I am a rust developer.");

    // First modify
    track.modify("Hello, I am a Java developer.").unwrap();

    // Second modify
    track.modify("Hello, I am a Python developer.").unwrap();

    // Third modify
    track.modify("Hello, I am a Go developer.").unwrap();

    track.modify("Hello, I am a Solidity developer.").unwrap();

    // print the data block and the content
    let expected = texts();
    assert_eq!(track.track.len(), 5);
    for item in &track.track {
        let text = get_content(item.id, track.track.clone()).unwrap();
        println!("The text in {} time is '{}'", item.id, text);
        println!("{:?}\n", item);
        assert_eq!(text, expected[item.id]);
    }
}

#[test]
fn first_version_is_the_content() {
    for content in [
        "",
        "a",
        "0123456789",
        "01234567890",
        "Hello, I am a rust developer.",
        "twenty bytes exactly",
    ] {
        let track = Track::create(content);
        assert_eq!(track.track.len(), 1);
        assert_eq!(get_content(0, track.track.clone()), Ok(content.to_string()));
    }
}

#[test]
fn text_cut_inside_a_character_comes_back_whole() {
    // the ninth to eleventh bytes encode one character
    let content = "12345678\u{20ac}90 and \u{1f600} more \u{e9}\u{e9}\u{e9}\u{e9}\u{e9}\u{e9}";
    let mut track = Track::create(content);
    assert_eq!(get_content(0, track.track.clone()), Ok(content.to_string()));
    let next = "\u{e9}12345678\u{20ac}90 and \u{1f600} more";
    track.modify(next).unwrap();
    assert_eq!(get_content(1, track.track.clone()), Ok(next.to_string()));
    assert_eq!(get_content(0, track.track.clone()), Ok(content.to_string()));
}

#[test]
fn every_version_is_its_content() {
    let contents = texts();
    for count in 1..=contents.len() {
        let track = track_of(&contents[..count]);
        assert_eq!(track.track.len(), count);
        for id in 0..count {
            assert_eq!(get_content(id, track.track.clone()), Ok(contents[id].to_string()));
        }
    }
}

#[test]
fn a_long_chain_keeps_every_version() {
    let contents: Vec<String> =
        (0..20).map(|i| format!("version {} of a text that grows: {}", i, "x".repeat(i))).collect();
    let mut track = Track::create(&contents[0]);
    for content in &contents[1..] {
        track.modify(content).unwrap();
    }
    assert_eq!(track.track.len(), 20);
    for (id, content) in contents.iter().enumerate() {
        assert_eq!(track.track[id].id, id);
        assert_eq!(track.track[id].snapshot, id % 3 == 0);
        assert_eq!(get_content(id, track.track.clone()), Ok(content.clone()));
    }
}

#[test]
fn same_calls_give_same_chains() {
    let contents = texts();
    let one = track_of(&contents);
    let two = track_of(&contents);
    assert_eq!(one.track.len(), two.track.len());
    for id in 0..one.track.len() {
        assert_eq!(one.track[id].id, two.track[id].id);
        assert_eq!(one.track[id].index, two.track[id].index);
        assert_eq!(one.track[id].blocks, two.track[id].blocks);
        assert_eq!(one.track[id].snapshot, two.track[id].snapshot);
        assert_eq!(
            get_content(id, one.track.clone()),
            get_content(id, two.track.clone())
        );
    }
}

#[test]
fn unknown_version_is_an_error() {
    let track = track_of(&texts()[..3]);
    assert_eq!(get_content(3, track.track.clone()), Err(StoreError::UnknownVersion));
    assert_eq!(get_content(4, track.track.clone()), Err(StoreError::UnknownVersion));
    assert_eq!(get_content(usize::MAX, track.track.clone()), Err(StoreError::UnknownVersion));
    assert_eq!(get_content(0, Vec::new()), Err(StoreError::UnknownVersion));
    assert_eq!(get_content(2, track.track.clone()), Ok(texts()[2].to_string()));
}

#[test]
fn empty_chain_takes_no_delta() {
    let res = Delta::add("Hello", Vec::new(), false);
    assert!(matches!(res, Err(StoreError::EmptyChain)));
    let cfg = Config::default();
    assert!(matches!(append(b"Hello", Vec::new(), true, &cfg), Err(StoreError::EmptyChain)));
    let mut track = Track { track: Vec::new() };
    assert_eq!(track.modify("Hello"), Err(StoreError::EmptyChain));
    assert_eq!(track.track.len(), 0);
}

#[test]
fn options_must_be_positive() {
    assert_eq!(Config::new(0, 3), Err(StoreError::InvalidConfiguration));
    assert_eq!(Config::new(10, 0), Err(StoreError::InvalidConfiguration));
    assert_eq!(Config::new(0, 0), Err(StoreError::InvalidConfiguration));
    assert_eq!(Config::new(4, 2), Ok(Config { block_size: 4, snapshot_interval: 2 }));
    assert_eq!(Config::default(), Config { block_size: 10, snapshot_interval: 3 });
    assert!(Config::default().is_valid());

    let no_blocks = Config { block_size: 0, snapshot_interval: 3 };
    let no_interval = Config { block_size: 10, snapshot_interval: 0 };
    assert!(!no_blocks.is_valid());
    assert!(!no_interval.is_valid());
    let chain = Track::create("Hello").track;
    for cfg in [no_blocks, no_interval] {
        assert!(matches!(initialize(b"Hello", &cfg), Err(StoreError::InvalidConfiguration)));
        assert!(matches!(
            append(b"Hello", chain.clone(), false, &cfg),
            Err(StoreError::InvalidConfiguration)
        ));
        // the options are looked at before the chain
        assert!(matches!(
            append(b"Hello", Vec::new(), false, &cfg),
            Err(StoreError::InvalidConfiguration)
        ));
        assert_eq!(reconstruct(0, &chain, &cfg), Err(StoreError::InvalidConfiguration));
        assert_eq!(reconstruct(9, &chain, &cfg), Err(StoreError::InvalidConfiguration));
    }
}

#[test]
fn bytes_that_are_no_text_are_an_error() {
    let cfg = Config::new(2, 3).unwrap();
    let chain = initialize(&[0x61, 0xff, 0xfe, 0x62], &cfg).unwrap();
    assert_eq!(reconstruct(0, &chain, &cfg), Err(StoreError::InvalidTextEncoding));
    // a character cut short
    let chain = initialize(&[0xe2, 0x82], &cfg).unwrap();
    assert_eq!(reconstruct(0, &chain, &cfg), Err(StoreError::InvalidTextEncoding));
    let chain = initialize(&[0xe2, 0x82, 0xac], &cfg).unwrap();
    assert_eq!(reconstruct(0, &chain, &cfg), Ok("\u{20ac}".to_string()));
}

#[test]
fn other_options_give_other_blocks() {
    let cfg = Config::new(4, 2).unwrap();
    let contents = ["abcdefghij", "abcdXXXXij", "abcdefghijkl", "ijabcd", "zz"];
    let mut chain = initialize(contents[0].as_bytes(), &cfg).unwrap();
    for content in &contents[1..] {
        chain = append(content.as_bytes(), chain, false, &cfg).unwrap();
    }
    // "ijabcd" brings the blocks "ijab" and "cd"
    assert_eq!(chain.len(), 5);
    for (id, content) in contents.iter().enumerate() {
        assert_eq!(reconstruct(id, &chain, &cfg), Ok(content.to_string()));
        assert_eq!(chain[id].snapshot, id % 2 == 0);
    }
    assert_eq!(chain[0].index, vec![0, 1, 2]);
    assert_eq!(chain[1].index, vec![0, 3, 2]);
    assert_eq!(chain[1].blocks.len(), 1);
    assert_eq!(chain[1].blocks[0].block_number, 3);
    assert_eq!(chain[1].blocks[0].data, b"XXXX".to_vec());
    assert_eq!(chain[2].index, vec![0, 1, 4]);
    let numbers: Vec<usize> = chain[2].blocks.iter().map(|b| b.block_number).collect();
    assert_eq!(numbers, vec![0, 1, 2, 3, 4]);
}
