use blockstore::block::{Block, BlockShard};
use blockstore::chain::{ChainCursor, ReadRequest};
use blockstore::compare::{compare_windows, WindowVerdict, WINDOW};
use blockstore::digest::{bytes_equal, digest_matches, digest_of};
use blockstore::naming::{digest_from_names, fan_out_path, hex_name, join_path, NameError};
use blockstore::store::{scanned_block, BlockStore, InsertPlan};

const HELLO_SHA256: &str = "2cf24dba5fb0a30e26e83b2ac5b9e29e1b161e5c1fa7425e73043362938b9824";

fn plan_paths(plan: InsertPlan) -> (String, String) {
    match plan {
        InsertPlan::Persist { dir, file } => (dir, file),
        InsertPlan::CompareWithStored => panic!("expected a fresh digest"),
    }
}

#[test]
fn hex_name_is_lowercase_pairs() {
    assert_eq!(hex_name(&[0xab, 0x12, 0x34, 0xcd]), "ab1234cd");
    assert_eq!(hex_name(&[0x00, 0x0f, 0xf0]), "000ff0");
    assert_eq!(hex_name(&[]), "");
}

#[test]
fn fan_out_path_splits_after_two_digits() {
    let (dir, file) = fan_out_path("root", &[0xab, 0x12, 0x34, 0xcd]);
    assert_eq!(dir, "root/ab");
    assert_eq!(file, "root/ab/1234cd");
}

#[test]
fn fan_out_path_with_trailing_separator_and_empty_root() {
    let (dir, file) = fan_out_path("root/", &[0xab, 0x12]);
    assert_eq!(dir, "root/ab");
    assert_eq!(file, "root/ab/12");
    let (dir, file) = fan_out_path("", &[0x01]);
    assert_eq!(dir, "01");
    assert_eq!(file, "01/");
}

#[test]
fn join_path_adds_one_separator() {
    assert_eq!(join_path("a", "b"), "a/b");
    assert_eq!(join_path("a/", "b"), "a/b");
    assert_eq!(join_path("", "b"), "b");
}

#[test]
fn names_decode_to_digest() {
    assert_eq!(digest_from_names("ab", "1234cd"), Ok(vec![0xab, 0x12, 0x34, 0xcd]));
    assert_eq!(digest_from_names("AB", "12"), Ok(vec![0xab, 0x12]));
}

#[test]
fn names_that_are_not_hex_are_refused() {
    assert_eq!(digest_from_names("ab", "123"), Err(NameError::NotHex));
    assert_eq!(digest_from_names("zz", "12"), Err(NameError::NotHex));
}

#[test]
fn names_of_a_stored_digest_decode_back() {
    let d = digest_of(b"some content");
    let h = hex_name(&d);
    assert_eq!(digest_from_names(&h[0..2], &h[2..]), Ok(d));
}

#[test]
fn digest_of_hello() {
    let d = digest_of(b"hello");
    assert_eq!(d.len(), 32);
    assert_eq!(hex_name(&d), HELLO_SHA256);
}

#[test]
fn digest_matches_only_its_content() {
    let d = digest_of(b"hello");
    assert!(digest_matches(&d, b"hello"));
    assert!(!digest_matches(&d, b"hellp"));
    assert!(!digest_matches(&d[1..], b"hello"));
}

#[test]
fn bytes_equal_compares_all_bytes() {
    assert!(bytes_equal(b"abc", b"abc"));
    assert!(!bytes_equal(b"abc", b"abd"));
    assert!(!bytes_equal(b"abc", b"ab"));
    assert!(bytes_equal(b"", b""));
}

#[test]
fn window_verdicts() {
    assert_eq!(compare_windows(b"hello", b"hello"), WindowVerdict::Continue);
    assert_eq!(compare_windows(b"", b""), WindowVerdict::Identical);
    assert_eq!(compare_windows(b"hello", b"hellp"), WindowVerdict::Collision);
    assert_eq!(compare_windows(b"hello", b""), WindowVerdict::Collision);
    assert_eq!(WINDOW, 4096);
}

#[test]
fn different_contents_collide_in_some_window() {
    let a = vec![7u8; WINDOW * 2 + 5];
    let mut b = a.clone();
    b[WINDOW + 3] = 8;
    assert_eq!(compare_windows(&a[..WINDOW], &b[..WINDOW]), WindowVerdict::Continue);
    assert_eq!(
        compare_windows(&a[WINDOW..2 * WINDOW], &b[WINDOW..2 * WINDOW]),
        WindowVerdict::Collision
    );
}

#[test]
fn whole_file_block_has_one_shard() {
    let b = Block::whole_file("x/y".to_string(), 5);
    assert_eq!(b.size, 5);
    assert_eq!(b.shards.len(), 1);
    assert_eq!(b.shards[0].file, "x/y");
    assert_eq!(b.shards[0].offset, 0);
    assert_eq!(b.shards[0].size, 5);
}

#[test]
fn block_from_shards_sums_sizes() {
    let shards = vec![
        BlockShard { file: "a".to_string(), offset: 0, size: 3 },
        BlockShard { file: "b".to_string(), offset: 10, size: 4 },
        BlockShard { file: "a".to_string(), offset: 3, size: 0 },
    ];
    let b = Block::from_shards(shards).unwrap();
    assert_eq!(b.size, 7);
    assert_eq!(b.shards.len(), 3);
    assert_eq!(b.shards[1].file, "b");
    assert_eq!(Block::from_shards(vec![]).unwrap().size, 0);
}

#[test]
fn block_from_shards_refuses_overflow() {
    let shards = vec![
        BlockShard { file: "a".to_string(), offset: 0, size: usize::MAX },
        BlockShard { file: "b".to_string(), offset: 0, size: 1 },
    ];
    assert!(Block::from_shards(shards).is_none());
}

#[test]
fn empty_store_has_nothing() {
    let s = BlockStore::empty("root".to_string());
    assert!(s.get(&[1, 2]).is_none());
    assert!(!s.contains(&[1, 2]));
    assert_eq!(s.path, "root");
}

#[test]
fn fresh_digest_is_persisted_at_fan_out_path() {
    let s = BlockStore::empty("root".to_string());
    let (dir, file) = plan_paths(s.plan_insert(&[0xab, 0x12, 0x34, 0xcd]));
    assert_eq!(dir, "root/ab");
    assert_eq!(file, "root/ab/1234cd");
}

#[test]
fn hello_scenario() {
    let mut s = BlockStore::empty("root".to_string());
    let d1 = digest_of(b"hello");
    let (dir, file) = plan_paths(s.plan_insert(&d1));
    assert_eq!(dir, format!("root/{}", &HELLO_SHA256[0..2]));
    assert_eq!(file, format!("root/{}/{}", &HELLO_SHA256[0..2], &HELLO_SHA256[2..]));
    assert!(s.register(d1.clone(), 5));
    let b = s.get(&d1).unwrap();
    assert_eq!(b.size, 5);
    assert_eq!(b.shards.len(), 1);
    assert_eq!(b.shards[0].file, file);
    assert_eq!(b.shards[0].offset, 0);
    assert_eq!(b.shards[0].size, 5);
    // A second insertion compares and stores nothing.
    assert!(matches!(s.plan_insert(&d1), InsertPlan::CompareWithStored));
    assert_eq!(compare_windows(b"hello", b"hello"), WindowVerdict::Continue);
    assert_eq!(compare_windows(b"", b""), WindowVerdict::Identical);
    assert!(!s.register(d1.clone(), 5));
    assert_eq!(s.get(&d1).unwrap().shards[0].file, file);
}

#[test]
fn register_keeps_other_digests() {
    let mut s = BlockStore::empty("r".to_string());
    assert!(s.register(vec![1, 2], 3));
    assert!(s.register(vec![3, 4], 9));
    assert!(!s.register(vec![1, 2], 100));
    assert_eq!(s.get(&[1, 2]).unwrap().size, 3);
    assert_eq!(s.get(&[1, 2]).unwrap().shards[0].file, "r/01/02");
    assert_eq!(s.get(&[3, 4]).unwrap().size, 9);
    assert_eq!(s.get(&[3, 4]).unwrap().shards[0].file, "r/03/04");
    assert!(s.get(&[5, 6]).is_none());
}

#[test]
fn collision_under_forced_equal_digest_is_detected() {
    let mut s = BlockStore::empty("r".to_string());
    let forced = vec![0x11, 0x22];
    assert!(s.register(forced.clone(), 5));
    assert!(matches!(s.plan_insert(&forced), InsertPlan::CompareWithStored));
    assert_eq!(compare_windows(b"hello", b"world"), WindowVerdict::Collision);
}

#[test]
fn restart_restores_all_digests() {
    let digests: Vec<Vec<u8>> = vec![digest_of(b"a"), digest_of(b"bb"), digest_of(b"ccc")];
    let mut first = BlockStore::empty("root".to_string());
    let mut stored = Vec::new();
    for (i, d) in digests.iter().enumerate() {
        let (_, file) = plan_paths(first.plan_insert(d));
        assert!(first.register(d.clone(), i + 1));
        stored.push(file);
    }
    let mut second = BlockStore::empty("root".to_string());
    for (i, file) in stored.iter().enumerate() {
        let parts: Vec<&str> = file.split('/').collect();
        let (d, b) = scanned_block(parts[1], parts[2], file.clone(), i + 1).unwrap();
        assert_eq!(d, digests[i]);
        assert!(second.register(d, b.size));
    }
    for d in digests.iter() {
        let a = first.get(d).unwrap();
        let b = second.get(d).unwrap();
        assert_eq!(a.size, b.size);
        assert_eq!(a.shards[0].file, b.shards[0].file);
    }
}

#[test]
fn scanned_block_refuses_bad_names() {
    assert_eq!(
        scanned_block("ab", "xyz", "root/ab/xyz".to_string(), 1).err(),
        Some(NameError::NotHex)
    );
}

fn shard(file: &str, offset: usize, size: usize) -> BlockShard {
    BlockShard { file: file.to_string(), offset, size }
}

#[test]
fn cursor_walks_shards_in_order_skipping_empty_ones() {
    let b = Block::from_shards(vec![shard("a", 2, 3), shard("b", 0, 0), shard("c", 5, 2)]).unwrap();
    let mut c = ChainCursor::start(&b);
    assert_eq!(c.next_read(&b, 2), Some(ReadRequest { shard: 0, start: 0, len: 2 }));
    c.advance(&b, 2);
    assert_eq!(c.next_read(&b, 10), Some(ReadRequest { shard: 0, start: 2, len: 1 }));
    c.advance(&b, 1);
    assert_eq!(c.next_read(&b, 10), Some(ReadRequest { shard: 2, start: 0, len: 2 }));
    c.advance(&b, 1);
    assert_eq!(c.next_read(&b, 10), Some(ReadRequest { shard: 2, start: 1, len: 1 }));
    c.advance(&b, 1);
    assert_eq!(c.next_read(&b, 10), None);
}

#[test]
fn cursor_concatenates_ranges_of_one_file() {
    let data: Vec<u8> = (0u8..20).collect();
    let b = Block::from_shards(vec![shard("f", 10, 4), shard("f", 0, 3), shard("f", 15, 5)]).unwrap();
    let mut out = Vec::new();
    let mut c = ChainCursor::start(&b);
    while let Some(r) = c.next_read(&b, 3) {
        let sh = &b.shards[r.shard];
        let from = sh.offset + r.start;
        out.extend_from_slice(&data[from..from + r.len]);
        c.advance(&b, r.len);
    }
    assert_eq!(out, vec![10, 11, 12, 13, 0, 1, 2, 15, 16, 17, 18, 19]);
    assert_eq!(out.len(), b.size);
}

#[test]
fn cursor_on_empty_block_ends_at_once() {
    let b = Block::from_shards(vec![shard("a", 0, 0)]).unwrap();
    let c = ChainCursor::start(&b);
    assert_eq!(c.next_read(&b, 4), None);
}

#[test]
fn sizes_agree_checks_the_sum() {
    let b = Block::from_shards(vec![shard("a", 0, 3), shard("b", 1, 4)]).unwrap();
    assert!(b.sizes_agree());
    let wrong = Block { shards: vec![shard("a", 0, 3)], size: 4 };
    assert!(!wrong.sizes_agree());
    let overflow = Block { shards: vec![shard("a", 0, usize::MAX), shard("b", 0, 2)], size: 1 };
    assert!(!overflow.sizes_agree());
}
