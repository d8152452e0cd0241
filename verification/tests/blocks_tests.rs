use nodecore::blocks::{BlockCollection, BlockData, BlockRangeState};

fn is_empty(bc: &BlockCollection<u64>) -> bool {
    bc.is_empty()
}

fn generate_blocks(n: usize) -> Vec<u64> {
    (0..n).map(|i| i as u64).collect()
}

fn tag(blocks: &[u64], origin: u64) -> Vec<BlockData<u64>> {
    blocks.iter().map(|b| BlockData { block: *b, origin: Some(origin) }).collect()
}

#[test]
fn create_clear() {
    let mut bc: BlockCollection<u64> = BlockCollection::new();
    assert!(is_empty(&bc));
    bc.insert(1, generate_blocks(100), 7);
    assert!(!is_empty(&bc));
    bc.clear();
    assert!(is_empty(&bc));
}

#[test]
fn insert_blocks() {
    let mut bc: BlockCollection<u64> = BlockCollection::new();
    assert!(is_empty(&bc));
    let peer0: u64 = 0;
    let peer1: u64 = 1;
    let peer2: u64 = 2;

    let blocks = generate_blocks(150);
    assert_eq!(bc.needed_blocks(peer0, 40, 150, 0, 1), Some(1..41));
    assert_eq!(bc.needed_blocks(peer1, 40, 150, 0, 1), Some(41..81));
    assert_eq!(bc.needed_blocks(peer2, 40, 150, 0, 1), Some(81..121));

    bc.clear_peer_download(peer1);
    bc.insert(41, blocks[41..81].to_vec(), peer1);
    assert_eq!(bc.drain(1), vec![]);
    assert_eq!(bc.needed_blocks(peer1, 40, 150, 0, 1), Some(121..151));
    bc.clear_peer_download(peer0);
    bc.insert(1, blocks[1..11].to_vec(), peer0);

    assert_eq!(bc.needed_blocks(peer0, 40, 150, 0, 1), Some(11..41));
    assert_eq!(bc.drain(1), tag(&blocks[1..11], peer0));

    bc.clear_peer_download(peer0);
    bc.insert(11, blocks[11..41].to_vec(), peer0);

    let drained = bc.drain(12);
    assert_eq!(drained.len(), 70);
    assert_eq!(drained[..30], tag(&blocks[11..41], peer0)[..]);
    assert_eq!(drained[30..], tag(&blocks[41..81], peer1)[..]);

    bc.clear_peer_download(peer2);
    assert_eq!(bc.needed_blocks(peer2, 40, 150, 80, 1), Some(81..121));
    bc.clear_peer_download(peer2);
    bc.insert(81, blocks[81..121].to_vec(), peer2);
    bc.clear_peer_download(peer1);
    bc.insert(121, blocks[121..150].to_vec(), peer1);

    assert_eq!(bc.drain(80), vec![]);
    let drained = bc.drain(81);
    assert_eq!(drained.len(), 69);
    assert_eq!(drained[..40], tag(&blocks[81..121], peer2)[..]);
    assert_eq!(drained[40..], tag(&blocks[121..150], peer1)[..]);
}

#[test]
fn large_gap() {
    let mut bc: BlockCollection<u64> = BlockCollection::new();
    bc.blocks.push((100, BlockRangeState::Downloading { len: 128, downloading: 1 }));
    let blocks: Vec<BlockData<u64>> =
        generate_blocks(10).into_iter().map(|b| BlockData { block: b, origin: None }).collect();
    bc.blocks.push((114305, BlockRangeState::Complete(blocks)));

    let peer0: u64 = 0;
    assert_eq!(bc.needed_blocks(peer0, 128, 10000, 000, 1), Some(1..100));
    assert_eq!(bc.needed_blocks(peer0, 128, 10000, 600, 1), Some(100 + 128..100 + 128 + 128));
}

#[test]
fn drain_merges_early_window() {
    // a window starting below `from` still merges with the expected head
    let mut bc: BlockCollection<u64> = BlockCollection::new();
    bc.insert(11, (11..41).collect(), 3);
    bc.insert(41, (41..81).collect(), 4);
    let drained = bc.drain(12);
    assert_eq!(drained.len(), 70);
    assert!(drained.windows(2).all(|w| w[0].block + 1 == w[1].block));
    assert!(bc.is_empty());
}

#[test]
fn needed_blocks_clamps_to_peer_best() {
    let mut bc: BlockCollection<u64> = BlockCollection::new();
    // the peer advertises nothing past height 9: the window ends at 10
    assert_eq!(bc.needed_blocks(5, 40, 9, 0, 1), Some(1..10));
    // a peer whose best is below the next needed height gets nothing
    let mut bc2: BlockCollection<u64> = BlockCollection::new();
    assert_eq!(bc2.needed_blocks(6, 40, 9, 20, 1), None);
}

#[test]
fn needed_blocks_joins_undersubscribed_range() {
    let mut bc: BlockCollection<u64> = BlockCollection::new();
    assert_eq!(bc.needed_blocks(0, 40, 150, 0, 2), Some(1..41));
    // with two peers allowed per range, the second peer joins the same window
    assert_eq!(bc.needed_blocks(1, 40, 150, 0, 2), Some(1..41));
    // the third may not: the range is saturated, so it opens the next window
    assert_eq!(bc.needed_blocks(2, 40, 150, 0, 2), Some(41..81));
}

#[test]
fn clear_peer_download_keeps_shared_range() {
    let mut bc: BlockCollection<u64> = BlockCollection::new();
    assert_eq!(bc.needed_blocks(0, 40, 150, 0, 2), Some(1..41));
    assert_eq!(bc.needed_blocks(1, 40, 150, 0, 2), Some(1..41));
    // one of the two peers leaves: the range stays for the other
    bc.clear_peer_download(0);
    assert!(!bc.is_empty());
    // the last peer leaves: the range is dropped and re-chosen later
    bc.clear_peer_download(1);
    assert!(bc.is_empty());
    assert_eq!(bc.needed_blocks(2, 40, 150, 0, 2), Some(1..41));
}

/// The bookkeeping invariant on concrete runs: ranges are sorted and
/// non-overlapping, every reservation names the start of a downloading
/// range, and each range's peer count equals its reservations.
fn check_invariant(bc: &BlockCollection<u64>) {
    for w in bc.blocks.windows(2) {
        let (start_a, state_a) = (&w[0].0, &w[0].1);
        let len_a = match state_a {
            BlockRangeState::Downloading { len, .. } => *len,
            BlockRangeState::Complete(v) => v.len() as u64,
        };
        assert!(start_a + len_a <= w[1].0);
    }
    for (_, start) in &bc.peer_requests {
        let state = bc.blocks.iter().find(|e| e.0 == *start).map(|e| &e.1);
        assert!(matches!(state, Some(BlockRangeState::Downloading { .. })));
    }
    for (start, state) in &bc.blocks {
        if let BlockRangeState::Downloading { downloading, .. } = state {
            let reserved = bc.peer_requests.iter().filter(|p| p.1 == *start).count();
            assert_eq!(reserved as u32, *downloading);
        }
    }
}

#[test]
fn operations_preserve_the_reservation_invariant() {
    let mut bc: BlockCollection<u64> = BlockCollection::new();
    check_invariant(&bc);
    bc.needed_blocks(0, 40, 150, 0, 2);
    check_invariant(&bc);
    bc.needed_blocks(1, 40, 150, 0, 2);
    check_invariant(&bc);
    bc.needed_blocks(2, 40, 150, 0, 2);
    check_invariant(&bc);
    bc.clear_peer_download(0);
    check_invariant(&bc);
    bc.clear_peer_download(1);
    check_invariant(&bc);
    bc.insert(1, (1..41).collect(), 1);
    check_invariant(&bc);
    bc.drain(1);
    check_invariant(&bc);
    bc.clear_peer_download(2);
    check_invariant(&bc);
    bc.clear();
    check_invariant(&bc);
}

#[test]
fn needed_blocks_starts_past_common_on_fresh_state() {
    let mut bc: BlockCollection<u64> = BlockCollection::new();
    // with every live range past `common`, the window starts past it too
    assert_eq!(bc.needed_blocks(0, 10, 150, 5, 1), Some(6..16));
    assert_eq!(bc.needed_blocks(1, 10, 150, 5, 1), Some(16..26));
}

#[test]
fn insert_ignores_empty_and_shorter_duplicates() {
    let mut bc: BlockCollection<u64> = BlockCollection::new();
    bc.insert(1, vec![], 0);
    assert!(bc.is_empty());
    bc.insert(1, vec![1, 2, 3], 0);
    // a shorter duplicate of an already complete range is ignored
    bc.insert(1, vec![1, 2], 9);
    let drained = bc.drain(1);
    assert_eq!(drained, tag(&[1, 2, 3], 0));
}
