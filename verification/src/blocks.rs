//! Collection of block ranges being downloaded from peers.
//!
//! `BlockCollection` maps a start height to the state of a contiguous window
//! of block heights: either still being fetched by some number of peers, or
//! complete with its blocks in ascending height order.  The collection picks
//! the next window a peer should fetch, deposits received blocks, hands a
//! contiguous completed prefix to the importer, and releases a peer's
//! reservation when it disconnects or times out.

use vstd::prelude::*;

verus! {

/// Identifier of a peer, as the surrounding node assigns them.
pub type PeerId = u64;

/// Block data with origin.
#[derive(Debug, Clone, PartialEq, Eq)]
pub struct BlockData<B> {
    /// The block payload received from the wire.
    pub block: B,
    /// The peer we received this block from, if any.
    pub origin: Option<PeerId>,
}

/// State of one contiguous window of block heights.
#[derive(Debug)]
pub enum BlockRangeState<B> {
    /// `downloading` peers have outstanding requests for this window of
    /// `len` heights.
    Downloading { len: u64, downloading: u32 },
    /// Every block of the window has arrived, in ascending height order.
    Complete(Vec<BlockData<B>>),
}

impl<B> BlockRangeState<B> {
    /// Number of heights the window spans.
    pub open spec fn spec_len(&self) -> int {
        match self {
            BlockRangeState::Downloading { len, .. } => *len as int,
            BlockRangeState::Complete(blocks) => blocks@.len() as int,
        }
    }

    /// Number of heights the window spans.
    pub fn len(&self) -> (r: u64)
        requires
            self is Complete ==> self.spec_len() <= u32::MAX,
        ensures
            r == self.spec_len(),
    {
        match self {
            BlockRangeState::Downloading { len, .. } => *len,
            BlockRangeState::Complete(blocks) => blocks.len() as u32 as u64,
        }
    }
}

/// A collection of blocks being downloaded.
pub struct BlockCollection<B> {
    /// Live ranges as (start height, state) pairs, sorted by start height.
    pub blocks: Vec<(u64, BlockRangeState<B>)>,
    /// The start height each peer is currently assigned, at most one per peer.
    pub peer_requests: Vec<(PeerId, u64)>,
}

/// A single range entry is internally consistent: it spans at least one
/// height, its end fits in a height, and a complete range's length fits the
/// word the collection counts blocks with.  A window still downloading is
/// wanted by at least one peer.
pub open spec fn entry_wf<B>(e: (u64, BlockRangeState<B>)) -> bool {
    &&& e.1.spec_len() >= 1
    &&& e.0 + e.1.spec_len() <= u64::MAX
    &&& (e.1 is Complete ==> e.1.spec_len() <= u32::MAX)
    &&& (e.1 matches BlockRangeState::Downloading { downloading, .. } ==> downloading >= 1)
}

/// The ranges are sorted by start height and pairwise non-overlapping.
pub open spec fn blocks_wf<B>(s: Seq<(u64, BlockRangeState<B>)>) -> bool {
    &&& forall|i: int| 0 <= i < s.len() ==> entry_wf(#[trigger] s[i])
    &&& forall|i: int|
        0 <= i < s.len() - 1 ==> (#[trigger] s[i].0) + s[i].1.spec_len() <= s[i + 1].0
}

/// No peer holds two reservations.
pub open spec fn peers_wf(p: Seq<(PeerId, u64)>) -> bool {
    forall|i: int, j: int| 0 <= i < j < p.len() ==> (#[trigger] p[i]).0 != (#[trigger] p[j]).0
}

/// There is an entry keyed `k`.
pub open spec fn has_key<B>(s: Seq<(u64, BlockRangeState<B>)>, k: u64) -> bool {
    exists|i: int| 0 <= i < s.len() && (#[trigger] s[i]).0 == k
}

/// Index of the entry keyed `k` (unique when the ranges are sorted).
pub open spec fn key_index<B>(s: Seq<(u64, BlockRangeState<B>)>, k: u64) -> int {
    choose|i: int| 0 <= i < s.len() && (#[trigger] s[i]).0 == k
}

/// The state of the range keyed `k`.
pub open spec fn at_key<B>(s: Seq<(u64, BlockRangeState<B>)>, k: u64) -> BlockRangeState<B> {
    s[key_index(s, k)].1
}

/// The peer has an outstanding reservation.
pub open spec fn peers_has(p: Seq<(PeerId, u64)>, who: PeerId) -> bool {
    exists|i: int| 0 <= i < p.len() && (#[trigger] p[i]).0 == who
}

/// The start height the peer is assigned.
pub open spec fn peers_at(p: Seq<(PeerId, u64)>, who: PeerId) -> u64 {
    p[choose|i: int| 0 <= i < p.len() && (#[trigger] p[i]).0 == who].1
}

/// `new_s` holds exactly the ranges of `old_s` plus one keyed `k`, every other
/// range unchanged.
pub open spec fn upserted_except<B>(
    old_s: Seq<(u64, BlockRangeState<B>)>,
    new_s: Seq<(u64, BlockRangeState<B>)>,
    k: u64,
) -> bool {
    &&& forall|k2: u64| has_key(new_s, k2) <==> (has_key(old_s, k2) || k2 == k)
    &&& forall|k2: u64| has_key(old_s, k2) && k2 != k ==> at_key(new_s, k2) == at_key(old_s, k2)
    &&& new_s.len() == old_s.len() + (if has_key(old_s, k) { 0int } else { 1int })
}

/// `new_p` records `who -> start` and keeps every other reservation.
pub open spec fn peers_upserted(
    old_p: Seq<(PeerId, u64)>,
    new_p: Seq<(PeerId, u64)>,
    who: PeerId,
    start: u64,
) -> bool {
    &&& forall|w: PeerId| peers_has(new_p, w) <==> (peers_has(old_p, w) || w == who)
    &&& peers_at(new_p, who) == start
    &&& forall|w: PeerId| peers_has(old_p, w) && w != who ==> peers_at(new_p, w) == peers_at(old_p, w)
    &&& new_p.len() == old_p.len() + (if peers_has(old_p, who) { 0int } else { 1int })
}

/// `new_s` holds exactly the ranges of `old_s` but the one keyed `k`.
pub open spec fn removed_key<B>(
    old_s: Seq<(u64, BlockRangeState<B>)>,
    new_s: Seq<(u64, BlockRangeState<B>)>,
    k: u64,
) -> bool {
    &&& forall|k2: u64| has_key(new_s, k2) <==> (has_key(old_s, k2) && k2 != k)
    &&& forall|k2: u64| has_key(old_s, k2) && k2 != k ==> at_key(new_s, k2) == at_key(old_s, k2)
    &&& new_s.len() == old_s.len() - 1
}

/// `new_p` holds every reservation of `old_p` but the one of `who`.
pub open spec fn peers_removed(
    old_p: Seq<(PeerId, u64)>,
    new_p: Seq<(PeerId, u64)>,
    who: PeerId,
) -> bool {
    &&& forall|w: PeerId| peers_has(new_p, w) <==> (peers_has(old_p, w) && w != who)
    &&& forall|w: PeerId| peers_has(old_p, w) && w != who ==> peers_at(new_p, w) == peers_at(old_p, w)
    &&& new_p.len() == old_p.len() - 1
}

/// A window still downloading that another peer may join.
pub open spec fn is_joinable<B>(st: BlockRangeState<B>, max_parallel: u32) -> bool {
    st matches BlockRangeState::Downloading { downloading, .. } && downloading < max_parallel
}

/// How many peers are fetching the window (zero for a complete one).
pub open spec fn dl_count<B>(st: BlockRangeState<B>) -> u32 {
    match st {
        BlockRangeState::Downloading { downloading, .. } => downloading,
        BlockRangeState::Complete(_) => 0u32,
    }
}

/// The window `needed_blocks` selects before clamping to the peer's best
/// height, as (start, end, prior peer count), found by walking the ranges in
/// ascending order from position `i`.  The boundary considered at position
/// `i` lies between entry `i - 1` and entry `i`: first join an undersubscribed
/// window, else fill the gap that follows entry `i - 1`, else extend past the
/// last entry; with no entry before `i`, start at `first` or before the first
/// entry.
pub open spec fn pick_from<B>(
    s: Seq<(u64, BlockRangeState<B>)>,
    i: int,
    first: int,
    count: int,
    max_parallel: u32,
) -> (int, int, u32)
    decreases s.len() - i,
{
    if i <= 0 {
        if s.len() == 0 {
            (first, first + count, 0u32)
        } else if s[0].0 > first {
            (first, if first + count < s[0].0 { first + count } else { s[0].0 as int }, 0u32)
        } else {
            pick_from(s, 1, first, count, max_parallel)
        }
    } else {
        let prev_start = s[i - 1].0 as int;
        let prev_end = s[i - 1].0 + s[i - 1].1.spec_len();
        if is_joinable(s[i - 1].1, max_parallel) {
            (prev_start, prev_end, dl_count(s[i - 1].1))
        } else if i < s.len() && prev_end < s[i].0 {
            (prev_end, if prev_end + count < s[i].0 { prev_end + count } else { s[i].0 as int }, 0u32)
        } else if i >= s.len() {
            (prev_end, prev_end + count, 0u32)
        } else {
            pick_from(s, i + 1, first, count, max_parallel)
        }
    }
}

/// How many leading entries `drain` consumes when it starts walking at entry
/// `i` expecting the next wanted height to be at most `prev`: a complete
/// entry whose start is at most `prev` is consumed and `prev` moves to its
/// end; the walk stops at the first entry that is not complete or starts past
/// `prev`.
pub open spec fn drain_count<B>(s: Seq<(u64, BlockRangeState<B>)>, i: int, prev: int) -> int
    decreases s.len() - i,
{
    if 0 <= i < s.len() && s[i].1 is Complete && s[i].0 <= prev {
        drain_count(s, i + 1, s[i].0 + s[i].1.spec_len())
    } else {
        i
    }
}

/// The blocks of the entries `drain` consumes, in walk order.
pub open spec fn drained_seq<B>(s: Seq<(u64, BlockRangeState<B>)>, i: int, prev: int) -> Seq<
    BlockData<B>,
>
    decreases s.len() - i,
{
    if 0 <= i < s.len() && s[i].1 is Complete && s[i].0 <= prev {
        (match s[i].1 {
            BlockRangeState::Complete(v) => v@,
            BlockRangeState::Downloading { .. } => Seq::empty(),
        }) + drained_seq(s, i + 1, s[i].0 + s[i].1.spec_len())
    } else {
        Seq::empty()
    }
}

/// Ranges at distinct positions do not overlap, and their keys grow strictly.
pub proof fn lemma_blocks_sorted<B>(s: Seq<(u64, BlockRangeState<B>)>, i: int, j: int)
    requires
        blocks_wf(s),
        0 <= i < j < s.len(),
    ensures
        s[i].0 + s[i].1.spec_len() <= s[j].0,
        s[i].0 < s[j].0,
    decreases j - i,
{
    if i + 1 < j {
        lemma_blocks_sorted(s, i + 1, j);
    }
}

/// In a well-formed collection the entry keyed `s[i].0` is entry `i` itself.
pub proof fn lemma_at_key<B>(s: Seq<(u64, BlockRangeState<B>)>, i: int)
    requires
        blocks_wf(s),
        0 <= i < s.len(),
    ensures
        has_key(s, s[i].0),
        key_index(s, s[i].0) == i,
        at_key(s, s[i].0) == s[i].1,
{
    assert(has_key(s, s[i].0));
    let j = key_index(s, s[i].0);
    if j != i {
        if j < i {
            lemma_blocks_sorted(s, j, i);
        } else {
            lemma_blocks_sorted(s, i, j);
        }
    }
}

/// What the selection promises: the window is non-degenerate, and either it
/// joins an existing undersubscribed download keyed at its start, or it is
/// fresh and no existing range overlaps it.
pub proof fn lemma_pick_from_props<B>(
    s: Seq<(u64, BlockRangeState<B>)>,
    i: int,
    first: int,
    count: int,
    max_parallel: u32,
)
    requires
        blocks_wf(s),
        0 <= i <= s.len(),
        count >= 1,
        1 <= first,
        first + count <= u64::MAX,
        forall|j: int|
            0 <= j < s.len() ==> (#[trigger] s[j].0) + s[j].1.spec_len() + count <= u64::MAX,
    ensures
        ({
            let (st, en, d) = pick_from(s, i, first, count, max_parallel);
            &&& 0 <= st < en <= u64::MAX
            &&& if has_key(s, st as u64) {
                &&& at_key(s, st as u64) == s[key_index(s, st as u64)].1
                &&& is_joinable(s[key_index(s, st as u64)].1, max_parallel)
                &&& d == dl_count(s[key_index(s, st as u64)].1)
                &&& en == st + s[key_index(s, st as u64)].1.spec_len()
            } else {
                &&& d == 0
                &&& forall|j: int|
                    0 <= j < s.len() ==> ((#[trigger] s[j].0) + s[j].1.spec_len() <= st || en <= s[j].0)
            }
        }),
    decreases s.len() - i,
{
    let (st, en, d) = pick_from(s, i, first, count, max_parallel);
    if i <= 0 {
        if s.len() == 0 {
        } else if s[0].0 > first {
            assert forall|j: int| 0 <= j < s.len() implies (#[trigger] s[j].0) + s[j].1.spec_len()
                <= st || en <= s[j].0 by {
                if j > 0 {
                    lemma_blocks_sorted(s, 0, j);
                }
            }
            assert(!has_key(s, st as u64)) by {
                if has_key(s, st as u64) {
                    let j = choose|j: int| 0 <= j < s.len() && (#[trigger] s[j]).0 == st as u64;
                    if j > 0 {
                        lemma_blocks_sorted(s, 0, j);
                    }
                }
            }
        } else {
            lemma_pick_from_props(s, 1, first, count, max_parallel);
        }
    } else {
        let prev_end = s[i - 1].0 + s[i - 1].1.spec_len();
        if is_joinable(s[i - 1].1, max_parallel) {
            lemma_at_key(s, i - 1);
        } else if (i < s.len() && prev_end < s[i].0) || i >= s.len() {
            assert forall|j: int| 0 <= j < s.len() implies (#[trigger] s[j].0) + s[j].1.spec_len()
                <= st || en <= s[j].0 by {
                if j < i - 1 {
                    lemma_blocks_sorted(s, j, i - 1);
                } else if j > i {
                    lemma_blocks_sorted(s, i, j);
                }
            }
            assert(!has_key(s, st as u64)) by {
                if has_key(s, st as u64) {
                    let j = choose|j: int| 0 <= j < s.len() && (#[trigger] s[j]).0 == st as u64;
                    if j < i - 1 {
                        lemma_blocks_sorted(s, j, i - 1);
                    } else if j > i {
                        lemma_blocks_sorted(s, i, j);
                    } else if j == i {
                        assert(s[j].0 >= en);
                    }
                }
            }
        } else {
            lemma_pick_from_props(s, i + 1, first, count, max_parallel);
        }
    }
}

/// How many reservations name start height `k`.
pub open spec fn count_peers_at(p: Seq<(PeerId, u64)>, k: u64) -> int
    decreases p.len(),
{
    if p.len() == 0 {
        0
    } else {
        count_peers_at(p.drop_last(), k) + (if p.last().1 == k {
            1int
        } else {
            0int
        })
    }
}

/// The reservation bookkeeping invariant, on top of `wf`: every reservation
/// names the start of a window still downloading, and each window's peer
/// count equals the number of reservations naming it (none for a complete
/// window).
pub open spec fn reservations_wf<B>(
    s: Seq<(u64, BlockRangeState<B>)>,
    p: Seq<(PeerId, u64)>,
) -> bool {
    &&& forall|w: PeerId| #[trigger]
        peers_has(p, w) ==> has_key(s, peers_at(p, w)) && at_key(s, peers_at(p, w)) is Downloading
    &&& forall|i: int|
        0 <= i < s.len() ==> count_peers_at(p, (#[trigger] s[i]).0) == dl_count(s[i].1)
}

proof fn lemma_count_nonneg(p: Seq<(PeerId, u64)>, k: u64)
    ensures
        count_peers_at(p, k) >= 0,
    decreases p.len(),
{
    if p.len() > 0 {
        lemma_count_nonneg(p.drop_last(), k);
    }
}

proof fn lemma_count_remove(p: Seq<(PeerId, u64)>, j: int, k: u64)
    requires
        0 <= j < p.len(),
    ensures
        count_peers_at(p.remove(j), k) == count_peers_at(p, k) - (if p[j].1 == k {
            1int
        } else {
            0int
        }),
    decreases p.len(),
{
    if j == p.len() - 1 {
        assert(p.remove(j) =~= p.drop_last());
    } else {
        lemma_count_remove(p.drop_last(), j, k);
        assert(p.remove(j).drop_last() =~= p.drop_last().remove(j));
        assert(p.remove(j).last() == p.last());
    }
}

proof fn lemma_count_zero(p: Seq<(PeerId, u64)>, k: u64)
    requires
        forall|i: int| 0 <= i < p.len() ==> (#[trigger] p[i]).1 != k,
    ensures
        count_peers_at(p, k) == 0,
    decreases p.len(),
{
    if p.len() > 0 {
        assert(forall|i: int| 0 <= i < p.len() - 1 ==> p.drop_last()[i] == p[i]);
        lemma_count_zero(p.drop_last(), k);
    }
}

proof fn lemma_count_at_index(p: Seq<(PeerId, u64)>, i: int)
    requires
        0 <= i < p.len(),
    ensures
        count_peers_at(p, p[i].1) >= 1,
    decreases p.len(),
{
    lemma_count_nonneg(p.drop_last(), p[i].1);
    if i < p.len() - 1 {
        lemma_count_at_index(p.drop_last(), i);
    }
}

/// Reserving the selected window for a peer without an outstanding request
/// keeps the reservation bookkeeping sound: every reservation still names a
/// live download, and every window's peer count still matches.
pub proof fn lemma_needed_blocks_preserves_reservations<B>(
    s0: Seq<(u64, BlockRangeState<B>)>,
    p0: Seq<(PeerId, u64)>,
    s1: Seq<(u64, BlockRangeState<B>)>,
    p1: Seq<(PeerId, u64)>,
    who: PeerId,
    count: int,
    peer_best: u64,
    common: u64,
    max_parallel: u32,
)
    requires
        blocks_wf(s0),
        peers_wf(p0),
        reservations_wf(s0, p0),
        !peers_has(p0, who),
        count >= 1,
        common < u64::MAX,
        common + 1 + count <= u64::MAX,
        peer_best < u64::MAX,
        forall|i: int|
            0 <= i < s0.len() ==> (#[trigger] s0[i]).0 + s0[i].1.spec_len() + count <= u64::MAX,
        pick_from(s0, 0, common + 1, count, max_parallel).0 <= peer_best,
        blocks_wf(s1),
        peers_wf(p1),
        upserted_except(s0, s1, pick_from(s0, 0, common + 1, count, max_parallel).0 as u64),
        ({
            let sel = pick_from(s0, 0, common + 1, count, max_parallel);
            let end = if peer_best + 1 < sel.1 {
                peer_best + 1
            } else {
                sel.1
            };
            &&& at_key(s1, sel.0 as u64) == (BlockRangeState::<B>::Downloading {
                len: (end - sel.0) as u64,
                downloading: (sel.2 + 1) as u32,
            })
            &&& p1 == p0.push((who, sel.0 as u64))
        }),
    ensures
        reservations_wf(s1, p1),
{
    let sel = pick_from(s0, 0, common + 1, count, max_parallel);
    let st = sel.0 as u64;
    lemma_pick_from_props(s0, 0, common + 1, count, max_parallel);
    assert(p1.drop_last() =~= p0);
    assert(p1.last() == (who, st));
    assert forall|w: PeerId| #[trigger] peers_has(p1, w) implies has_key(s1, peers_at(p1, w))
        && at_key(s1, peers_at(p1, w)) is Downloading by {
        if w == who {
            lemma_peers_at(p1, p1.len() - 1);
        } else {
            let i = choose|i: int| 0 <= i < p1.len() && (#[trigger] p1[i]).0 == w;
            assert(i < p1.len() - 1);
            assert(p0[i].0 == w);
            assert(peers_has(p0, w));
            lemma_peers_at(p0, i);
            lemma_peers_at(p1, i);
            let kw = p0[i].1;
            assert(has_key(s0, kw) && at_key(s0, kw) is Downloading);
            if kw != st {
                assert(has_key(s1, kw));
                assert(at_key(s1, kw) == at_key(s0, kw));
            }
        }
    }
    assert forall|i: int| 0 <= i < s1.len() implies count_peers_at(p1, (#[trigger] s1[i]).0)
        == dl_count(s1[i].1) by {
        let k = s1[i].0;
        lemma_at_key(s1, i);
        assert(count_peers_at(p1, k) == count_peers_at(p0, k) + (if st == k {
            1int
        } else {
            0int
        }));
        if k == st {
            if has_key(s0, st) {
                let j = key_index(s0, st);
                lemma_at_key(s0, j);
                assert(count_peers_at(p0, st) == dl_count(s0[j].1));
            } else {
                assert forall|i2: int| 0 <= i2 < p0.len() implies (#[trigger] p0[i2]).1 != st by {
                    lemma_peers_at(p0, i2);
                    assert(peers_has(p0, p0[i2].0));
                    if p0[i2].1 == st {
                        assert(has_key(s0, st));
                    }
                }
                lemma_count_zero(p0, st);
            }
        } else {
            assert(has_key(s0, k));
            assert(at_key(s1, k) == at_key(s0, k));
            let j = key_index(s0, k);
            lemma_at_key(s0, j);
            assert(count_peers_at(p0, k) == dl_count(s0[j].1));
        }
    }
}

/// Depositing blocks for a window no peer has reserved keeps the
/// reservation bookkeeping sound.  The caller clears the delivering peer's
/// reservation around the deposit; a deposit for a window somebody still
/// has reserved would break the count below.
pub proof fn lemma_insert_preserves_reservations<B>(
    s0: Seq<(u64, BlockRangeState<B>)>,
    p0: Seq<(PeerId, u64)>,
    s1: Seq<(u64, BlockRangeState<B>)>,
    start: u64,
)
    requires
        blocks_wf(s0),
        peers_wf(p0),
        reservations_wf(s0, p0),
        forall|i: int| 0 <= i < p0.len() ==> (#[trigger] p0[i]).1 != start,
        blocks_wf(s1),
        s1 == s0 || (upserted_except(s0, s1, start) && at_key(s1, start) is Complete),
    ensures
        reservations_wf(s1, p0),
{
    if s1 == s0 {
    } else {
        assert forall|w: PeerId| #[trigger] peers_has(p0, w) implies has_key(s1, peers_at(p0, w))
            && at_key(s1, peers_at(p0, w)) is Downloading by {
            let i = choose|i: int| 0 <= i < p0.len() && (#[trigger] p0[i]).0 == w;
            lemma_peers_at(p0, i);
            let kw = p0[i].1;
            assert(kw != start);
            assert(has_key(s0, kw) && at_key(s0, kw) is Downloading);
            assert(has_key(s1, kw));
            assert(at_key(s1, kw) == at_key(s0, kw));
        }
        assert forall|i: int| 0 <= i < s1.len() implies count_peers_at(p0, (#[trigger] s1[i]).0)
            == dl_count(s1[i].1) by {
            let k = s1[i].0;
            lemma_at_key(s1, i);
            if k == start {
                lemma_count_zero(p0, start);
            } else {
                assert(has_key(s0, k));
                assert(at_key(s1, k) == at_key(s0, k));
                let j = key_index(s0, k);
                lemma_at_key(s0, j);
                assert(count_peers_at(p0, k) == dl_count(s0[j].1));
            }
        }
    }
}

/// Releasing a peer's reservation keeps the reservation bookkeeping sound:
/// the window it named loses one count, or disappears with its last one.
pub proof fn lemma_clear_peer_preserves_reservations<B>(
    s0: Seq<(u64, BlockRangeState<B>)>,
    p0: Seq<(PeerId, u64)>,
    s1: Seq<(u64, BlockRangeState<B>)>,
    p1: Seq<(PeerId, u64)>,
    who: PeerId,
    j: int,
)
    requires
        blocks_wf(s0),
        peers_wf(p0),
        reservations_wf(s0, p0),
        0 <= j < p0.len(),
        p0[j].0 == who,
        p1 == p0.remove(j),
        blocks_wf(s1),
        ({
            let st = p0[j].1;
            if dl_count(at_key(s0, st)) > 1 {
                &&& upserted_except(s0, s1, st)
                &&& at_key(s1, st) == (BlockRangeState::<B>::Downloading {
                    len: at_key(s0, st).spec_len() as u64,
                    downloading: (dl_count(at_key(s0, st)) - 1) as u32,
                })
            } else {
                removed_key(s0, s1, st)
            }
        }),
    ensures
        reservations_wf(s1, p1),
{
    let st = p0[j].1;
    lemma_peers_at(p0, j);
    assert(peers_has(p0, who));
    assert(has_key(s0, st) && at_key(s0, st) is Downloading);
    let jk = key_index(s0, st);
    lemma_at_key(s0, jk);
    assert(count_peers_at(p0, st) == dl_count(at_key(s0, st)));
    let d = dl_count(at_key(s0, st));
    assert forall|w: PeerId| #[trigger] peers_has(p1, w) implies has_key(s1, peers_at(p1, w))
        && at_key(s1, peers_at(p1, w)) is Downloading by {
        let i = choose|i: int| 0 <= i < p1.len() && (#[trigger] p1[i]).0 == w;
        let i0: int = if i < j {
            i
        } else {
            i + 1
        };
        assert(p1[i] == p0[i0]);
        assert(peers_has(p0, w));
        lemma_peers_at(p0, i0);
        lemma_peers_at(p1, i);
        let kw = p0[i0].1;
        assert(has_key(s0, kw) && at_key(s0, kw) is Downloading);
        if kw == st {
            assert(i0 != j);
            if d <= 1 {
                lemma_count_remove(p0, j, st);
                lemma_count_at_index(p1, i);
                assert(false);
            }
        } else {
            assert(has_key(s1, kw));
            assert(at_key(s1, kw) == at_key(s0, kw));
        }
    }
    assert forall|i: int| 0 <= i < s1.len() implies count_peers_at(p1, (#[trigger] s1[i]).0)
        == dl_count(s1[i].1) by {
        let k = s1[i].0;
        lemma_at_key(s1, i);
        lemma_count_remove(p0, j, k);
        if k == st {
            assert(d > 1);
        } else {
            assert(has_key(s0, k));
            assert(at_key(s1, k) == at_key(s0, k));
            let j2 = key_index(s0, k);
            lemma_at_key(s0, j2);
            assert(count_peers_at(p0, k) == dl_count(s0[j2].1));
        }
    }
}

/// Draining the completed prefix keeps the reservation bookkeeping sound:
/// reservations name downloading windows only, and those all survive.
pub proof fn lemma_drain_preserves_reservations<B>(
    s0: Seq<(u64, BlockRangeState<B>)>,
    p0: Seq<(PeerId, u64)>,
    from: u64,
)
    requires
        blocks_wf(s0),
        peers_wf(p0),
        reservations_wf(s0, p0),
    ensures
        reservations_wf(s0.skip(drain_count(s0, 0, from as int)), p0),
{
    let dc = drain_count(s0, 0, from as int);
    lemma_drain_contiguous(s0, 0, from as int);
    let s1 = s0.skip(dc);
    assert(forall|i: int| 0 <= i < s1.len() ==> #[trigger] s1[i] == s0[i + dc]);
    assert(blocks_wf(s1)) by {
        assert forall|i: int| 0 <= i < s1.len() - 1 implies (#[trigger] s1[i].0)
            + s1[i].1.spec_len() <= s1[i + 1].0 by {
            assert(s1[i] == s0[i + dc] && s1[i + 1] == s0[i + dc + 1]);
        }
    }
    assert forall|w: PeerId| #[trigger] peers_has(p0, w) implies has_key(s1, peers_at(p0, w))
        && at_key(s1, peers_at(p0, w)) is Downloading by {
        let kw = peers_at(p0, w);
        assert(has_key(s0, kw) && at_key(s0, kw) is Downloading);
        let j = key_index(s0, kw);
        lemma_at_key(s0, j);
        assert(j >= dc);
        assert(s1[j - dc] == s0[j]);
        lemma_at_key(s1, j - dc);
    }
    assert forall|i: int| 0 <= i < s1.len() implies count_peers_at(p0, (#[trigger] s1[i]).0)
        == dl_count(s1[i].1) by {
        assert(s1[i] == s0[i + dc]);
    }
}

/// The selected window never starts at or below `common` as long as every
/// live range lies past it: every candidate start is either `first`
/// (`common + 1`) itself, an existing start, or an existing range's end, and
/// all of those are at least `first`.  With ranges below `common` in the
/// collection the bound does not hold: a gap below `common` may be selected.
pub proof fn lemma_selection_starts_past_common<B>(
    s: Seq<(u64, BlockRangeState<B>)>,
    i: int,
    first: int,
    count: int,
    max_parallel: u32,
)
    requires
        blocks_wf(s),
        0 <= i <= s.len(),
        count >= 1,
        forall|j: int| 0 <= j < s.len() ==> (#[trigger] s[j].0) >= first,
    ensures
        pick_from(s, i, first, count, max_parallel).0 >= first,
    decreases s.len() - i,
{
    if i <= 0 {
        if s.len() == 0 {
        } else if s[0].0 > first {
        } else {
            lemma_selection_starts_past_common(s, 1, first, count, max_parallel);
        }
    } else {
        let prev_end = s[i - 1].0 + s[i - 1].1.spec_len();
        if is_joinable(s[i - 1].1, max_parallel) {
        } else if (i < s.len() && prev_end < s[i].0) || i >= s.len() {
        } else {
            lemma_selection_starts_past_common(s, i + 1, first, count, max_parallel);
        }
    }
}

/// What `drain` walks over, seen from position `i` with the next wanted
/// height at most `prev`: every consumed entry is complete, consecutive
/// consumed entries are exactly contiguous, the drained blocks are one block
/// per covered height, and the first remaining entry (if any was consumed)
/// starts strictly past the last drained height.
pub proof fn lemma_drain_contiguous<B>(s: Seq<(u64, BlockRangeState<B>)>, i: int, prev: int)
    requires
        blocks_wf(s),
        0 <= i <= s.len(),
    ensures
        i <= drain_count(s, i, prev) <= s.len(),
        forall|j: int| i <= j < drain_count(s, i, prev) ==> (#[trigger] s[j].1) is Complete,
        forall|j: int|
            i < j < drain_count(s, i, prev) ==> (#[trigger] s[j].0) == s[j - 1].0 + s[j
                - 1].1.spec_len(),
        drain_count(s, i, prev) > i ==> s[i].0 <= prev,
        drained_seq(s, i, prev).len() == (if drain_count(s, i, prev) > i {
            let last = drain_count(s, i, prev) - 1;
            s[last].0 + s[last].1.spec_len() - s[i].0
        } else {
            0
        }),
        (drain_count(s, i, prev) > i && drain_count(s, i, prev) < s.len()) ==> s[drain_count(
            s,
            i,
            prev,
        )].0 >= s[drain_count(s, i, prev) - 1].0 + s[drain_count(s, i, prev) - 1].1.spec_len(),
    decreases s.len() - i,
{
    if 0 <= i < s.len() && s[i].1 is Complete && s[i].0 <= prev {
        let prev2 = s[i].0 + s[i].1.spec_len();
        lemma_drain_contiguous(s, i + 1, prev2);
        let dc = drain_count(s, i, prev);
        assert(dc == drain_count(s, i + 1, prev2));
        if dc > i + 1 {
            assert(s[i + 1].0 <= prev2);
            assert(s[i].0 + s[i].1.spec_len() <= s[i + 1].0);
            assert(s[i + 1].0 == s[i].0 + s[i].1.spec_len());
        }
    }
}

impl<B> BlockCollection<B> {
    /// The collection's invariant: ranges sorted and non-overlapping, every
    /// range well formed, and at most one reservation per peer.
    pub open spec fn wf(&self) -> bool {
        &&& blocks_wf(self.blocks@)
        &&& peers_wf(self.peer_requests@)
    }

    /// Create a new instance.
    pub fn new() -> (r: BlockCollection<B>)
        ensures
            r.blocks@.len() == 0,
            r.peer_requests@.len() == 0,
            r.wf(),
            reservations_wf(r.blocks@, r.peer_requests@),
    {
        BlockCollection { blocks: Vec::new(), peer_requests: Vec::new() }
    }

    /// Clear everything.
    pub fn clear(&mut self)
        ensures
            final(self).blocks@.len() == 0,
            final(self).peer_requests@.len() == 0,
            final(self).wf(),
            reservations_wf(final(self).blocks@, final(self).peer_requests@),
    {
        self.blocks.clear();
        self.peer_requests.clear();
    }

    /// True when no range and no reservation is held.
    pub fn is_empty(&self) -> (r: bool)
        ensures
            r == (self.blocks@.len() == 0 && self.peer_requests@.len() == 0),
    {
        self.blocks.len() == 0 && self.peer_requests.len() == 0
    }

    /// Index of the first range whose start is at least `k`.
    fn find_key_position(&self, k: u64) -> (pos: usize)
        requires
            blocks_wf(self.blocks@),
        ensures
            pos <= self.blocks@.len(),
            forall|j: int| 0 <= j < pos ==> (#[trigger] self.blocks@[j]).0 < k,
            forall|j: int| pos <= j < self.blocks@.len() ==> (#[trigger] self.blocks@[j]).0 >= k,
    {
        let mut pos: usize = 0;
        while pos < self.blocks.len() && self.blocks[pos].0 < k
            invariant
                pos <= self.blocks@.len(),
                blocks_wf(self.blocks@),
                forall|j: int| 0 <= j < pos ==> (#[trigger] self.blocks@[j]).0 < k,
            decreases self.blocks@.len() - pos,
        {
            pos = pos + 1;
        }
        proof {
            assert forall|j: int| pos <= j < self.blocks@.len() implies (#[trigger] self.blocks@[j]).0 >= k by {
                if (pos as int) < j {
                    lemma_blocks_sorted(self.blocks@, pos as int, j);
                }
            }
        }
        pos
    }

    /// Store `state` under key `start`, replacing the range keyed there if
    /// any.  The new range must not overlap any other range.
    fn put_range(&mut self, start: u64, state: BlockRangeState<B>)
        requires
            blocks_wf(old(self).blocks@),
            entry_wf((start, state)),
            forall|i: int|
                0 <= i < old(self).blocks@.len() && (#[trigger] old(self).blocks@[i]).0 != start
                    ==> (old(self).blocks@[i].0 + old(self).blocks@[i].1.spec_len() <= start
                    || start + state.spec_len() <= old(self).blocks@[i].0),
        ensures
            upserted_except(old(self).blocks@, final(self).blocks@, start),
            has_key(final(self).blocks@, start),
            at_key(final(self).blocks@, start) == state,
            blocks_wf(final(self).blocks@),
            final(self).peer_requests@ == old(self).peer_requests@,
    {
        let ghost s0 = self.blocks@;
        let pos = self.find_key_position(start);
        let replacing = pos < self.blocks.len() && self.blocks[pos].0 == start;
        if replacing {
            self.blocks.set(pos, (start, state));
        } else {
            self.blocks.insert(pos, (start, state));
        }
        proof {
            lemma_put_range(s0, self.blocks@, pos as int, start, state, replacing);
        }
    }

    /// Select the next contiguous window of heights `who` should fetch and
    /// reserve it: join an undersubscribed window, else fill the first gap,
    /// else extend past the last window, starting no earlier than
    /// `common + 1`.  The window is clamped to `peer_best + 1`; `None` when
    /// the selection starts past `peer_best`.
    pub fn needed_blocks(
        &mut self,
        who: PeerId,
        count: usize,
        peer_best: u64,
        common: u64,
        max_parallel: u32,
    ) -> (r: Option<core::ops::Range<u64>>)
        requires
            old(self).wf(),
            1 <= count <= u32::MAX,
            common < u64::MAX,
            common + 1 + count <= u64::MAX,
            peer_best < u64::MAX,
            forall|i: int|
                0 <= i < old(self).blocks@.len() ==> (#[trigger] old(self).blocks@[i]).0 + old(
                    self,
                ).blocks@[i].1.spec_len() + count <= u64::MAX,
        ensures
            ({
                let sel = pick_from(old(self).blocks@, 0, common + 1, count as int, max_parallel);
                if sel.0 > peer_best {
                    &&& r is None
                    &&& final(self).blocks@ == old(self).blocks@
                    &&& final(self).peer_requests@ == old(self).peer_requests@
                } else {
                    let end = if peer_best + 1 < sel.1 {
                        peer_best + 1
                    } else {
                        sel.1
                    };
                    &&& r matches Some(rg) && rg.start == sel.0 && rg.end == end
                    &&& sel.0 < end <= peer_best + 1
                    &&& upserted_except(old(self).blocks@, final(self).blocks@, sel.0 as u64)
                    &&& at_key(final(self).blocks@, sel.0 as u64)
                        == (BlockRangeState::<B>::Downloading {
                        len: (end - sel.0) as u64,
                        downloading: (sel.2 + 1) as u32,
                    })
                    &&& peers_upserted(
                        old(self).peer_requests@,
                        final(self).peer_requests@,
                        who,
                        sel.0 as u64,
                    )
                    &&& (!peers_has(old(self).peer_requests@, who) ==> final(self).peer_requests@
                        == old(self).peer_requests@.push((who, sel.0 as u64)))
                    &&& final(self).wf()
                }
            }),
    {
        let first: u64 = common + 1;
        let count64: u64 = count as u64;
        let ghost s0 = self.blocks@;
        let ghost target = pick_from(s0, 0, first as int, count64 as int, max_parallel);
        let n: usize = self.blocks.len();
        let mut i: usize = 0;
        let mut sel_start: u64 = 0;
        let mut sel_end: u64 = 0;
        let mut prior: u32 = 0;
        loop
            invariant_except_break
                self.blocks@ == s0,
                self.peer_requests@ == old(self).peer_requests@,
                blocks_wf(s0),
                n == s0.len(),
                i <= n,
                first == common + 1,
                count64 == count,
                1 <= count64 <= u32::MAX,
                first + count64 <= u64::MAX,
                forall|j: int|
                    0 <= j < s0.len() ==> (#[trigger] s0[j]).0 + s0[j].1.spec_len() + count64
                        <= u64::MAX,
                pick_from(s0, i as int, first as int, count64 as int, max_parallel) == target,
            ensures
                self.blocks@ == s0,
                self.peer_requests@ == old(self).peer_requests@,
                (sel_start as int, sel_end as int, prior) == target,
            decreases n - i,
        {
            if i == 0 {
                if n == 0 {
                    sel_start = first;
                    sel_end = first + count64;
                    prior = 0;
                    break ;
                } else if self.blocks[0].0 > first {
                    let k0 = self.blocks[0].0;
                    sel_start = first;
                    sel_end = if first + count64 < k0 {
                        first + count64
                    } else {
                        k0
                    };
                    prior = 0;
                    break ;
                } else {
                    i = 1;
                }
            } else {
                let prev_start = self.blocks[i - 1].0;
                let mut joined = false;
                match &self.blocks[i - 1].1 {
                    BlockRangeState::Downloading { len, downloading } => {
                        if *downloading < max_parallel {
                            sel_start = prev_start;
                            sel_end = prev_start + *len;
                            prior = *downloading;
                            joined = true;
                        }
                    },
                    BlockRangeState::Complete(_) => {},
                }
                if joined {
                    break ;
                }
                let prev_len = self.blocks[i - 1].1.len();
                let prev_end = prev_start + prev_len;
                if i < n && prev_end < self.blocks[i].0 {
                    let nk = self.blocks[i].0;
                    sel_start = prev_end;
                    sel_end = if prev_end + count64 < nk {
                        prev_end + count64
                    } else {
                        nk
                    };
                    prior = 0;
                    break ;
                } else if i >= n {
                    sel_start = prev_end;
                    sel_end = prev_end + count64;
                    prior = 0;
                    break ;
                } else {
                    i = i + 1;
                }
            }
        }
        proof {
            lemma_pick_from_props(s0, 0, first as int, count64 as int, max_parallel);
        }
        // crop to the peer's best height
        if sel_start > peer_best {
            return None;
        }
        let end2: u64 = if peer_best + 1 < sel_end {
            peer_best + 1
        } else {
            sel_end
        };
        proof {
            if has_key(s0, sel_start) {
                let j = key_index(s0, sel_start);
                assert forall|i2: int| 0 <= i2 < s0.len() && (#[trigger] s0[i2]).0 != sel_start
                    implies (s0[i2].0 + s0[i2].1.spec_len() <= sel_start || sel_start + (end2
                    - sel_start) <= s0[i2].0) by {
                    if i2 < j {
                        lemma_blocks_sorted(s0, i2, j);
                    } else if i2 > j {
                        lemma_blocks_sorted(s0, j, i2);
                    }
                }
            }
        }
        self.put_range(
            sel_start,
            BlockRangeState::Downloading { len: end2 - sel_start, downloading: prior + 1 },
        );
        self.put_peer(who, sel_start);
        Some(sel_start..end2)
    }

    /// Deposit a set of received blocks as the complete range starting at
    /// `start`, each tagged with origin `who`.  Empty input is ignored, and
    /// so is input for a range already complete with at least as many blocks;
    /// a range still marked as downloading is overwritten (the delivery is
    /// considered to fulfil it).  The reservation bookkeeping is left to
    /// `clear_peer_download`, which the caller invokes around this.
    pub fn insert(&mut self, start: u64, blocks: Vec<B>, who: PeerId)
        requires
            old(self).wf(),
            blocks@.len() <= u32::MAX,
            start + blocks@.len() <= u64::MAX,
            // the caller enforces contiguity: the deposited window overlaps
            // no other live range
            blocks@.len() >= 1 ==> forall|i: int|
                0 <= i < old(self).blocks@.len() && (#[trigger] old(self).blocks@[i]).0 != start
                    ==> (old(self).blocks@[i].0 + old(self).blocks@[i].1.spec_len() <= start
                    || start + blocks@.len() <= old(self).blocks@[i].0),
        ensures
            ({
                let n = blocks@.len();
                if n == 0 || (has_key(old(self).blocks@, start) && (at_key(
                    old(self).blocks@,
                    start,
                ) matches BlockRangeState::Complete(ex) && ex@.len() >= n)) {
                    &&& final(self).blocks@ == old(self).blocks@
                    &&& final(self).peer_requests@ == old(self).peer_requests@
                } else {
                    &&& upserted_except(old(self).blocks@, final(self).blocks@, start)
                    &&& (at_key(final(self).blocks@, start) matches BlockRangeState::Complete(v)
                        && v@ == blocks@.map_values(
                        |b: B| (BlockData { block: b, origin: Some(who) }),
                    ))
                    &&& final(self).peer_requests@ == old(self).peer_requests@
                    &&& final(self).wf()
                }
            }),
    {
        let ghost s0 = self.blocks@;
        let n = blocks.len();
        if n == 0 {
            return ;
        }
        let pos = self.find_key_position(start);
        if pos < self.blocks.len() && self.blocks[pos].0 == start {
            proof {
                lemma_at_key(s0, pos as int);
            }
            match &self.blocks[pos].1 {
                BlockRangeState::Complete(existing) => {
                    if existing.len() >= n {
                        // already downloaded with at least as many blocks
                        return ;
                    }
                },
                BlockRangeState::Downloading { .. } => {
                    // still marked as being downloaded; the delivery wins
                },
            }
        } else {
            proof {
                assert(!has_key(s0, start)) by {
                    if has_key(s0, start) {
                        let j = choose|j: int|
                            0 <= j < s0.len() && (#[trigger] s0[j]).0 == start;
                        if (pos as int) < j {
                            lemma_blocks_sorted(s0, pos as int, j);
                        }
                    }
                }
            }
        }
        let mut wrapped: Vec<BlockData<B>> = Vec::new();
        let mut rest = blocks;
        let ghost orig = rest@;
        while rest.len() > 0
            invariant
                wrapped@.len() + rest@.len() == orig.len(),
                rest@ == orig.skip(wrapped@.len() as int),
                forall|k: int|
                    0 <= k < wrapped@.len() ==> #[trigger] wrapped@[k] == (BlockData {
                        block: orig[k],
                        origin: Some(who),
                    }),
            decreases rest@.len(),
        {
            let ghost m = wrapped@.len() as int;
            let b = rest.remove(0);
            proof {
                assert(b == orig[m]);
                assert(orig.skip(m).remove(0) =~= orig.skip(m + 1));
            }
            wrapped.push(BlockData { block: b, origin: Some(who) });
        }
        proof {
            assert(wrapped@ =~= orig.map_values(
                |b: B| (BlockData { block: b, origin: Some(who) }),
            ));
        }
        self.put_range(start, BlockRangeState::Complete(wrapped));
    }

    /// Remove the contiguous prefix of complete ranges whose first range
    /// starts at or before `from`, and return their blocks in ascending
    /// height order, ready for importing.
    pub fn drain(&mut self, from: u64) -> (r: Vec<BlockData<B>>)
        requires
            old(self).wf(),
        ensures
            final(self).blocks@ == old(self).blocks@.skip(
                drain_count(old(self).blocks@, 0, from as int),
            ),
            final(self).peer_requests@ == old(self).peer_requests@,
            r@ == drained_seq(old(self).blocks@, 0, from as int),
            final(self).wf(),
    {
        let mut drained: Vec<BlockData<B>> = Vec::new();
        let ghost s0 = self.blocks@;
        let mut prev: u64 = from;
        let ghost cnt: int = 0;
        loop
            invariant_except_break
                blocks_wf(s0),
                0 <= cnt <= s0.len(),
                self.blocks@ == s0.skip(cnt),
                self.peer_requests@ == old(self).peer_requests@,
                drain_count(s0, 0, from as int) == drain_count(s0, cnt, prev as int),
                drained_seq(s0, 0, from as int) == drained@ + drained_seq(s0, cnt, prev as int),
            ensures
                0 <= drain_count(s0, 0, from as int) <= s0.len(),
                self.blocks@ == s0.skip(drain_count(s0, 0, from as int)),
                self.peer_requests@ == old(self).peer_requests@,
                drained@ == drained_seq(s0, 0, from as int),
            decreases s0.len() - cnt,
        {
            let ghost prev0 = prev as int;
            if self.blocks.len() == 0 {
                proof {
                    assert(drained@ + Seq::<BlockData<B>>::empty() =~= drained@);
                }
                break ;
            }
            let take = match &self.blocks[0].1 {
                BlockRangeState::Complete(_) => self.blocks[0].0 <= prev,
                BlockRangeState::Downloading { .. } => false,
            };
            if !take {
                proof {
                    assert(drained@ + Seq::<BlockData<B>>::empty() =~= drained@);
                }
                break ;
            }
            proof {
                assert(s0.skip(cnt)[0] == s0[cnt]);
            }
            let entry = self.blocks.remove(0);
            let key = entry.0;
            match entry.1 {
                BlockRangeState::Complete(mut v) => {
                    prev = key + v.len() as u64;
                    proof {
                        assert(drain_count(s0, cnt, prev0) == drain_count(s0, cnt + 1, prev as int));
                        assert(drained_seq(s0, cnt, prev0) == v@ + drained_seq(
                            s0,
                            cnt + 1,
                            prev as int,
                        ));
                        assert(drained@ + (v@ + drained_seq(s0, cnt + 1, prev as int)) =~= (
                        drained@ + v@) + drained_seq(s0, cnt + 1, prev as int));
                        assert(s0.skip(cnt).remove(0) =~= s0.skip(cnt + 1));
                    }
                    drained.append(&mut v);
                    proof {
                        cnt = cnt + 1;
                    }
                },
                BlockRangeState::Downloading { .. } => {
                    proof {
                        assert(false);
                    }
                },
            }
        }
        proof {
            assert forall|i: int|
                0 <= i < self.blocks@.len() - 1 implies (#[trigger] self.blocks@[i].0)
                + self.blocks@[i].1.spec_len() <= self.blocks@[i + 1].0 by {
                let k = drain_count(s0, 0, from as int);
                assert(self.blocks@[i] == s0[k + i]);
                assert(self.blocks@[i + 1] == s0[k + i + 1]);
            }
        }
        drained
    }

    /// Release the reservation of `who`: decrement the peer count of the
    /// window it was assigned, removing the window entirely when `who` was
    /// its last downloader.  A window already complete, or absent, is left
    /// alone.  Unknown peers are a no-op.
    pub fn clear_peer_download(&mut self, who: PeerId)
        requires
            old(self).wf(),
        ensures
            ({
                if !peers_has(old(self).peer_requests@, who) {
                    &&& final(self).blocks@ == old(self).blocks@
                    &&& final(self).peer_requests@ == old(self).peer_requests@
                } else {
                    let start = peers_at(old(self).peer_requests@, who);
                    &&& peers_removed(
                        old(self).peer_requests@,
                        final(self).peer_requests@,
                        who,
                    )
                    &&& exists|j: int|
                        0 <= j < old(self).peer_requests@.len() && (#[trigger] old(
                            self,
                        ).peer_requests@[j]).0 == who && final(self).peer_requests@ == old(
                            self,
                        ).peer_requests@.remove(j)
                    &&& if has_key(old(self).blocks@, start) && at_key(old(self).blocks@, start)
                        is Downloading {
                        if dl_count(at_key(old(self).blocks@, start)) > 1 {
                            &&& upserted_except(old(self).blocks@, final(self).blocks@, start)
                            &&& at_key(final(self).blocks@, start)
                                == (BlockRangeState::<B>::Downloading {
                                len: at_key(old(self).blocks@, start).spec_len() as u64,
                                downloading: (dl_count(at_key(old(self).blocks@, start))
                                    - 1) as u32,
                            })
                        } else {
                            removed_key(old(self).blocks@, final(self).blocks@, start)
                        }
                    } else {
                        final(self).blocks@ == old(self).blocks@
                    }
                    &&& final(self).wf()
                }
            }),
    {
        let ghost p0 = self.peer_requests@;
        let ghost s0 = self.blocks@;
        let mut j: usize = 0;
        while j < self.peer_requests.len() && self.peer_requests[j].0 != who
            invariant
                j <= p0.len(),
                self.peer_requests@ == p0,
                self.blocks@ == s0,
                forall|i: int| 0 <= i < j ==> (#[trigger] p0[i]).0 != who,
            decreases p0.len() - j,
        {
            j = j + 1;
        }
        if j >= self.peer_requests.len() {
            proof {
                assert(!peers_has(p0, who));
            }
            return ;
        }
        let start = self.peer_requests[j].1;
        self.peer_requests.remove(j);
        proof {
            lemma_remove_peer(p0, self.peer_requests@, j as int);
            lemma_peers_at(p0, j as int);
        }
        let pos = self.find_key_position(start);
        if pos < self.blocks.len() && self.blocks[pos].0 == start {
            proof {
                lemma_at_key(s0, pos as int);
            }
            let mut decrement_to: u32 = 0;
            let mut action: u32 = 0;  // 0: leave, 1: decrement, 2: remove
            let mut kept_len: u64 = 0;
            match &self.blocks[pos].1 {
                BlockRangeState::Downloading { len, downloading } => {
                    if *downloading > 1 {
                        action = 1;
                        decrement_to = *downloading - 1;
                        kept_len = *len;
                    } else {
                        action = 2;
                    }
                },
                BlockRangeState::Complete(_) => {},
            }
            if action == 1 {
                proof {
                    assert forall|i2: int|
                        0 <= i2 < s0.len() && (#[trigger] s0[i2]).0 != start implies (s0[i2].0
                        + s0[i2].1.spec_len() <= start || start + kept_len <= s0[i2].0) by {
                        if i2 < pos as int {
                            lemma_blocks_sorted(s0, i2, pos as int);
                        } else {
                            lemma_blocks_sorted(s0, pos as int, i2);
                        }
                    }
                }
                let ghost before = self.blocks@;
                self.blocks.set(
                    pos,
                    (start, BlockRangeState::Downloading {
                        len: kept_len,
                        downloading: decrement_to,
                    }),
                );
                proof {
                    lemma_put_range(
                        s0,
                        self.blocks@,
                        pos as int,
                        start,
                        BlockRangeState::Downloading {
                            len: kept_len,
                            downloading: decrement_to,
                        },
                        true,
                    );
                }
            } else if action == 2 {
                self.blocks.remove(pos);
                proof {
                    lemma_remove_range(s0, self.blocks@, pos as int);
                }
            }
        } else {
            proof {
                assert(!has_key(s0, start)) by {
                    if has_key(s0, start) {
                        let j2 = choose|j2: int|
                            0 <= j2 < s0.len() && (#[trigger] s0[j2]).0 == start;
                        if (pos as int) < j2 {
                            lemma_blocks_sorted(s0, pos as int, j2);
                        }
                    }
                }
            }
        }
    }

    /// Record that `who` is assigned the range starting at `start`.
    fn put_peer(&mut self, who: PeerId, start: u64)
        requires
            peers_wf(old(self).peer_requests@),
        ensures
            peers_upserted(old(self).peer_requests@, final(self).peer_requests@, who, start),
            peers_wf(final(self).peer_requests@),
            final(self).blocks@ == old(self).blocks@,
            !peers_has(old(self).peer_requests@, who) ==> final(self).peer_requests@ == old(
                self,
            ).peer_requests@.push((who, start)),
    {
        let ghost p0 = self.peer_requests@;
        let mut j: usize = 0;
        while j < self.peer_requests.len() && self.peer_requests[j].0 != who
            invariant
                j <= self.peer_requests@.len(),
                self.peer_requests@ == p0,
                forall|i: int| 0 <= i < j ==> (#[trigger] p0[i]).0 != who,
            decreases p0.len() - j,
        {
            j = j + 1;
        }
        let found = j < self.peer_requests.len();
        if found {
            self.peer_requests.remove(j);
        }
        self.peer_requests.push((who, start));
        proof {
            let p1 = self.peer_requests@;
            let jj = j as int;
            assert(p1.last() == (who, start));
            if found {
                assert(p0[jj].0 == who);
                assert(forall|i: int| 0 <= i < jj ==> p1[i] == p0[i]);
                assert(forall|i: int| jj <= i < p1.len() - 1 ==> p1[i] == p0[i + 1]);
            } else {
                assert(forall|i: int| 0 <= i < p1.len() - 1 ==> p1[i] == p0[i]);
                assert(!peers_has(p0, who));
            }
            assert(peers_wf(p1)) by {
                assert forall|a: int, b: int| 0 <= a < b < p1.len() implies (#[trigger] p1[a]).0
                    != (#[trigger] p1[b]).0 by {
                    if b < p1.len() - 1 {
                        // both are old entries at their old positions
                    } else {
                        // b is the new entry for `who`; a maps to an old entry
                        // that is not `who`
                        if found {
                            if a >= jj {
                                assert(p1[a] == p0[a + 1]);
                                assert(p0[a + 1].0 != p0[jj].0);
                            }
                        }
                    }
                }
            }
            assert(peers_has(p1, who));
            assert forall|w: PeerId| #[trigger] peers_has(p1, w) && w != who implies peers_has(
                p0,
                w,
            ) by {
                let i = choose|i: int| 0 <= i < p1.len() && (#[trigger] p1[i]).0 == w;
                if found && i >= jj {
                    assert(p0[i + 1].0 == w);
                }
            }
            assert forall|w: PeerId| #[trigger] peers_has(p0, w) implies peers_has(p1, w) by {
                let i = choose|i: int| 0 <= i < p0.len() && (#[trigger] p0[i]).0 == w;
                if w != who {
                    if found && i > jj {
                        assert(p1[i - 1].0 == w);
                    } else if found && i == jj {
                        assert(false);
                    } else {
                        assert(p1[i].0 == w);
                    }
                }
            }
            lemma_peers_at(p1, p1.len() - 1);
            assert forall|w: PeerId| peers_has(p0, w) && w != who implies peers_at(p1, w)
                == peers_at(p0, w) by {
                let i = choose|i: int| 0 <= i < p0.len() && (#[trigger] p0[i]).0 == w;
                lemma_peers_at(p0, i);
                if found && i > jj {
                    lemma_peers_at(p1, i - 1);
                } else {
                    lemma_peers_at(p1, i);
                }
            }
        }
    }
}

/// Replacing the entry at `pos` (when its key is `start`) or inserting a new
/// entry there (when position `pos` is where `start` sorts to) updates the
/// key-to-state mapping pointwise and keeps the ranges sorted.
#[verifier::spinoff_prover]
#[verifier::rlimit(100)]
proof fn lemma_put_range<B>(
    s0: Seq<(u64, BlockRangeState<B>)>,
    s1: Seq<(u64, BlockRangeState<B>)>,
    p: int,
    start: u64,
    state: BlockRangeState<B>,
    replacing: bool,
)
    requires
        blocks_wf(s0),
        entry_wf((start, state)),
        forall|i: int|
            0 <= i < s0.len() && (#[trigger] s0[i]).0 != start ==> (s0[i].0 + s0[i].1.spec_len()
                <= start || start + state.spec_len() <= s0[i].0),
        0 <= p <= s0.len(),
        forall|j: int| 0 <= j < p ==> (#[trigger] s0[j]).0 < start,
        forall|j: int| p <= j < s0.len() ==> (#[trigger] s0[j]).0 >= start,
        replacing == (p < s0.len() && s0[p].0 == start),
        s1 == if replacing {
            s0.update(p, (start, state))
        } else {
            s0.insert(p, (start, state))
        },
    ensures
        upserted_except(s0, s1, start),
        has_key(s1, start),
        at_key(s1, start) == state,
        blocks_wf(s1),
{
    assert(forall|j: int| 0 <= j < p ==> s1[j] == s0[j]);
    assert(s1[p] == (start, state));
    if replacing {
        assert(forall|j: int| p < j < s1.len() ==> s1[j] == s0[j]);
    } else {
        assert(forall|j: int| p < j < s1.len() ==> s1[j] == s0[j - 1]);
    }
    assert(blocks_wf(s1)) by {
        assert forall|i: int| 0 <= i < s1.len() - 1 implies (#[trigger] s1[i].0)
            + s1[i].1.spec_len() <= s1[i + 1].0 by {
            if i + 1 < p {
                assert(s0[i].0 + s0[i].1.spec_len() <= s0[i + 1].0);
            } else if i + 1 == p {
                assert(s1[i] == s0[i]);
                assert(s0[i].0 < start);
                assert(s0[i].0 + s0[i].1.spec_len() <= start);
            } else if i == p {
                if replacing {
                    if i + 1 < s1.len() {
                        assert(s1[i + 1] == s0[i + 1]);
                        assert(s0[i + 1].0 != start) by {
                            lemma_blocks_sorted(s0, i, i + 1);
                        }
                    }
                } else {
                    assert(s1[i + 1] == s0[i]);
                    assert(s0[i].0 >= start);
                    assert(s0[i].0 != start ==> start + state.spec_len() <= s0[i].0);
                }
            } else {
                if replacing {
                    assert(s1[i] == s0[i] && s1[i + 1] == s0[i + 1]);
                } else {
                    assert(s1[i] == s0[i - 1] && s1[i + 1] == s0[i]);
                    assert(s0[i - 1].0 + s0[i - 1].1.spec_len() <= s0[i].0);
                }
            }
        }
    }
    lemma_at_key(s1, p);
    assert forall|k2: u64| #[trigger] has_key(s1, k2) implies (has_key(s0, k2) || k2 == start) by {
        let j = choose|j: int| 0 <= j < s1.len() && (#[trigger] s1[j]).0 == k2;
        if j < p {
            assert(s0[j].0 == k2);
        } else if j > p {
            if replacing {
                assert(s0[j].0 == k2);
            } else {
                assert(s0[j - 1].0 == k2);
            }
        }
    }
    assert forall|k2: u64| has_key(s0, k2) implies #[trigger] has_key(s1, k2) by {
        let j = choose|j: int| 0 <= j < s0.len() && (#[trigger] s0[j]).0 == k2;
        if j < p {
            assert(s1[j].0 == k2);
        } else if j == p && replacing {
            assert(s1[p].0 == start && k2 == start);
        } else {
            if replacing {
                assert(s1[j].0 == k2);
            } else {
                assert(s1[j + 1].0 == k2);
            }
        }
    }
    assert forall|k2: u64| has_key(s0, k2) && k2 != start implies at_key(s1, k2) == at_key(
        s0,
        k2,
    ) by {
        let j = choose|j: int| 0 <= j < s0.len() && (#[trigger] s0[j]).0 == k2;
        lemma_at_key(s0, j);
        if j < p {
            lemma_at_key(s1, j);
            assert(s1[j].1 == s0[j].1);
        } else if j == p && replacing {
            assert(false);
        } else {
            if replacing {
                lemma_at_key(s1, j);
            } else {
                lemma_at_key(s1, j + 1);
            }
        }
    }
    if has_key(s0, start) {
        let j = key_index(s0, start);
        lemma_at_key(s0, j);
        if j != p {
            if j < p {
                assert(s0[j].0 < start);
            }
            assert(false);
        }
        assert(replacing);
        assert(s1.len() == s0.len());
    } else {
        assert(!replacing) by {
            if replacing {
                assert(has_key(s0, start));
            }
        }
        assert(s1.len() == s0.len() + 1);
    }
}

/// Dropping the entry at position `p` removes exactly its key from the
/// mapping and keeps the ranges sorted.
#[verifier::spinoff_prover]
proof fn lemma_remove_range<B>(
    s0: Seq<(u64, BlockRangeState<B>)>,
    s1: Seq<(u64, BlockRangeState<B>)>,
    p: int,
)
    requires
        blocks_wf(s0),
        0 <= p < s0.len(),
        s1 == s0.remove(p),
    ensures
        removed_key(s0, s1, s0[p].0),
        blocks_wf(s1),
{
    let k = s0[p].0;
    assert(forall|j: int| 0 <= j < p ==> s1[j] == s0[j]);
    assert(forall|j: int| p <= j < s1.len() ==> s1[j] == s0[j + 1]);
    assert(blocks_wf(s1)) by {
        assert forall|i: int| 0 <= i < s1.len() - 1 implies (#[trigger] s1[i].0)
            + s1[i].1.spec_len() <= s1[i + 1].0 by {
            if i + 1 < p {
            } else if i + 1 == p {
                lemma_blocks_sorted(s0, i, i + 2);
            } else {
            }
        }
    }
    assert forall|k2: u64| #[trigger] has_key(s1, k2) implies (has_key(s0, k2) && k2 != k) by {
        let j = choose|j: int| 0 <= j < s1.len() && (#[trigger] s1[j]).0 == k2;
        if j < p {
            assert(s0[j].0 == k2);
            if k2 == k {
                lemma_blocks_sorted(s0, j, p);
            }
        } else {
            assert(s0[j + 1].0 == k2);
            if k2 == k {
                lemma_blocks_sorted(s0, p, j + 1);
            }
        }
    }
    assert forall|k2: u64| has_key(s0, k2) && k2 != k implies #[trigger] has_key(s1, k2) by {
        let j = choose|j: int| 0 <= j < s0.len() && (#[trigger] s0[j]).0 == k2;
        if j < p {
            assert(s1[j].0 == k2);
        } else {
            assert(j != p);
            assert(s1[j - 1].0 == k2);
        }
    }
    assert forall|k2: u64| has_key(s0, k2) && k2 != k implies at_key(s1, k2) == at_key(s0, k2) by {
        let j = choose|j: int| 0 <= j < s0.len() && (#[trigger] s0[j]).0 == k2;
        lemma_at_key(s0, j);
        if j < p {
            lemma_at_key(s1, j);
        } else {
            assert(j != p);
            lemma_at_key(s1, j - 1);
        }
    }
}

/// Dropping the reservation at position `j` removes exactly that peer's
/// reservation.
#[verifier::spinoff_prover]
proof fn lemma_remove_peer(p0: Seq<(PeerId, u64)>, p1: Seq<(PeerId, u64)>, j: int)
    requires
        peers_wf(p0),
        0 <= j < p0.len(),
        p1 == p0.remove(j),
    ensures
        peers_removed(p0, p1, p0[j].0),
        peers_wf(p1),
{
    let who = p0[j].0;
    assert(forall|i: int| 0 <= i < j ==> p1[i] == p0[i]);
    assert(forall|i: int| j <= i < p1.len() ==> p1[i] == p0[i + 1]);
    assert forall|w: PeerId| #[trigger] peers_has(p1, w) implies (peers_has(p0, w) && w != who) by {
        let i = choose|i: int| 0 <= i < p1.len() && (#[trigger] p1[i]).0 == w;
        if i < j {
            assert(p0[i].0 == w);
        } else {
            assert(p0[i + 1].0 == w);
        }
    }
    assert forall|w: PeerId| peers_has(p0, w) && w != who implies #[trigger] peers_has(p1, w) by {
        let i = choose|i: int| 0 <= i < p0.len() && (#[trigger] p0[i]).0 == w;
        if i < j {
            assert(p1[i].0 == w);
        } else {
            assert(i != j);
            assert(p1[i - 1].0 == w);
        }
    }
    assert forall|w: PeerId| peers_has(p0, w) && w != who implies peers_at(p1, w) == peers_at(
        p0,
        w,
    ) by {
        let i = choose|i: int| 0 <= i < p0.len() && (#[trigger] p0[i]).0 == w;
        lemma_peers_at(p0, i);
        if i < j {
            lemma_peers_at(p1, i);
        } else {
            assert(i != j);
            lemma_peers_at(p1, i - 1);
        }
    }
}

/// In a duplicate-free reservation list the reservation of `p[i].0` is
/// entry `i` itself.
pub proof fn lemma_peers_at(p: Seq<(PeerId, u64)>, i: int)
    requires
        peers_wf(p),
        0 <= i < p.len(),
    ensures
        peers_has(p, p[i].0),
        peers_at(p, p[i].0) == p[i].1,
{
    assert(peers_has(p, p[i].0));
    let j = choose|j: int| 0 <= j < p.len() && (#[trigger] p[j]).0 == p[i].0;
    if j != i {
        assert(p[i].0 != p[j].0);
    }
}

} // verus!
