//! Which peers of a sequence are its oldest.
//!
//! A peer is taken before another when its age is larger. Among peers of the
//! same age the position decides, and the caller says which way: the
//! earlier position first, or the later one.

use vstd::prelude::*;
use vstd::set_lib::lemma_int_range;
use vstd::set_lib::lemma_len_subset;
use vstd::set_lib::set_int_range;
use crate::peer::PeerModel;
use crate::selection::ascending_below;
use crate::selection::lemma_positions_split;
use crate::selection::lemma_positions_where;
use crate::selection::lemma_split_rearranges;
use crate::selection::peers_where;
use crate::selection::positions_where;

verus! {

/// Whether the peer at `j` is taken before the peer at `i`: it is older, or
/// as old and on the side that `earlier_first` favours.
pub open spec fn outranks(peers: Seq<PeerModel>, j: int, i: int, earlier_first: bool) -> bool {
    peers[j].age > peers[i].age || (peers[j].age == peers[i].age && if earlier_first {
        j < i
    } else {
        j > i
    })
}

/// How many of the first `n` peers are taken before the peer at `i`.
pub open spec fn outranking_among(peers: Seq<PeerModel>, i: int, n: int, earlier_first: bool) -> nat
    decreases n,
{
    if n <= 0 {
        0
    } else if outranks(peers, n - 1, i, earlier_first) {
        outranking_among(peers, i, n - 1, earlier_first) + 1
    } else {
        outranking_among(peers, i, n - 1, earlier_first)
    }
}

/// How many peers are taken before the peer at `i`: 0 for the oldest.
pub open spec fn rank(peers: Seq<PeerModel>, i: int, earlier_first: bool) -> nat {
    outranking_among(peers, i, peers.len() as int, earlier_first)
}

/// The condition that fewer than `k` peers are taken before the peer at a
/// position: that it is one of the `k` oldest.
pub open spec fn ranked_below(peers: Seq<PeerModel>, k: nat, earlier_first: bool) -> spec_fn(
    int,
) -> bool {
    |i: int| rank(peers, i, earlier_first) < k
}

/// The condition that a position holds none of the `k` oldest peers.
pub open spec fn ranked_from(peers: Seq<PeerModel>, k: nat, earlier_first: bool) -> spec_fn(
    int,
) -> bool {
    |i: int| rank(peers, i, earlier_first) >= k
}

/// The `k` oldest peers, in the order in which they stand.
pub open spec fn oldest(peers: Seq<PeerModel>, k: nat, earlier_first: bool) -> Seq<PeerModel> {
    peers_where(peers, ranked_below(peers, k, earlier_first))
}

/// The peers without the `k` oldest, in the order in which they stand.
pub open spec fn all_but_oldest(peers: Seq<PeerModel>, k: nat, earlier_first: bool) -> Seq<
    PeerModel,
> {
    peers_where(peers, ranked_from(peers, k, earlier_first))
}

/// The peers with the `h` oldest moved to the end, where there are more than
/// `h` peers. Of equally old peers the earlier counts as the older. Both
/// parts keep their order.
pub open spec fn oldest_last(peers: Seq<PeerModel>, h: nat) -> Seq<PeerModel> {
    if peers.len() > h {
        all_but_oldest(peers, h, true) + oldest(peers, h, true)
    } else {
        peers
    }
}

/// At most `n` of the first `n` peers are taken before a peer, and the peer
/// itself is none of them.
pub proof fn lemma_outranking_bound(peers: Seq<PeerModel>, i: int, n: int, earlier_first: bool)
    requires
        0 <= n,
    ensures
        outranking_among(peers, i, n, earlier_first) <= n,
        0 <= i < n ==> outranking_among(peers, i, n, earlier_first) < n,
    decreases n,
{
    if n > 0 {
        lemma_outranking_bound(peers, i, n - 1, earlier_first);
    }
}

/// Where the peer at `j` is taken before the peer at `i`, whatever is taken
/// before `j` is taken before `i`, and so is `j`.
pub proof fn lemma_outranking_grows(
    peers: Seq<PeerModel>,
    j: int,
    i: int,
    n: int,
    earlier_first: bool,
)
    requires
        0 <= j,
        0 <= n,
        outranks(peers, j, i, earlier_first),
    ensures
        outranking_among(peers, j, n, earlier_first) <= outranking_among(
            peers,
            i,
            n,
            earlier_first,
        ),
        j < n ==> outranking_among(peers, j, n, earlier_first) < outranking_among(
            peers,
            i,
            n,
            earlier_first,
        ),
    decreases n,
{
    if n > 0 {
        lemma_outranking_grows(peers, j, i, n - 1, earlier_first);
    }
}

/// No two peers have the same rank, and the older of two has the lower.
pub proof fn lemma_ranks_differ(peers: Seq<PeerModel>, i: int, j: int, earlier_first: bool)
    requires
        0 <= i < peers.len(),
        0 <= j < peers.len(),
        i != j,
    ensures
        rank(peers, i, earlier_first) != rank(peers, j, earlier_first),
        rank(peers, j, earlier_first) < rank(peers, i, earlier_first) <==> outranks(
            peers,
            j,
            i,
            earlier_first,
        ),
{
    let n = peers.len() as int;
    if outranks(peers, j, i, earlier_first) {
        lemma_outranking_grows(peers, j, i, n, earlier_first);
    } else {
        assert(outranks(peers, i, j, earlier_first));
        lemma_outranking_grows(peers, i, j, n, earlier_first);
    }
}

/// Where a condition holds at every position below `n`, the positions at
/// which it holds are all of them.
pub proof fn lemma_positions_all(keep: spec_fn(int) -> bool, n: int)
    requires
        0 <= n,
        forall|i: int| 0 <= i < n ==> #[trigger] keep(i),
    ensures
        positions_where(keep, n) == Seq::new(n as nat, |i: int| i),
    decreases n,
{
    if n > 0 {
        lemma_positions_all(keep, n - 1);
        assert(keep(n - 1));
        assert(positions_where(keep, n) =~= Seq::new(n as nat, |i: int| i));
    } else {
        assert(positions_where(keep, n) =~= Seq::new(n as nat, |i: int| i));
    }
}

/// Without the 0 oldest peers, the peers are as they were.
pub proof fn lemma_none_oldest(peers: Seq<PeerModel>, earlier_first: bool)
    ensures
        all_but_oldest(peers, 0, earlier_first) == peers,
{
    let keep = ranked_from(peers, 0, earlier_first);
    assert forall|i: int| 0 <= i < peers.len() implies #[trigger] keep(i) by {}
    lemma_positions_all(keep, peers.len() as int);
    assert(all_but_oldest(peers, 0, earlier_first) =~= peers);
}

/// Positions whose ranks all lie in one range are no more than the range is
/// wide.
proof fn lemma_ranks_fill(
    peers: Seq<PeerModel>,
    positions: Seq<int>,
    low: int,
    high: int,
    earlier_first: bool,
)
    requires
        ascending_below(positions, peers.len() as int),
        0 <= low <= high,
        forall|k: int|
            0 <= k < positions.len() ==> low <= rank(peers, #[trigger] positions[k], earlier_first)
                < high,
    ensures
        positions.len() <= high - low,
{
    let ranks = Seq::new(positions.len(), |k: int| rank(peers, positions[k], earlier_first) as int);
    assert(ranks.no_duplicates()) by {
        assert forall|k: int, l: int| 0 <= k < ranks.len() && 0 <= l < ranks.len() && k != l implies ranks[k]
            != ranks[l] by {
            if k < l {
                assert(positions[k] < positions[l]);
            } else {
                assert(positions[l] < positions[k]);
            }
            lemma_ranks_differ(peers, positions[k], positions[l], earlier_first);
        }
    }
    ranks.unique_seq_to_set();
    lemma_int_range(low, high);
    assert(ranks.to_set().subset_of(set_int_range(low, high))) by {
        assert forall|r: int| ranks.to_set().contains(r) implies set_int_range(low, high).contains(
            r,
        ) by {
            let k = choose|k: int| 0 <= k < ranks.len() && ranks[k] == r;
            assert(low <= rank(peers, positions[k], earlier_first) < high);
        }
    }
    lemma_len_subset(ranks.to_set(), set_int_range(low, high));
}

/// Of at least `k` peers exactly `k` are among the `k` oldest.
pub proof fn lemma_oldest_count(peers: Seq<PeerModel>, k: nat, earlier_first: bool)
    requires
        k <= peers.len(),
    ensures
        oldest(peers, k, earlier_first).len() == k,
        all_but_oldest(peers, k, earlier_first).len() == peers.len() - k,
{
    let n = peers.len() as int;
    let below = ranked_below(peers, k, earlier_first);
    let from = ranked_from(peers, k, earlier_first);
    lemma_positions_where(below, n);
    lemma_positions_where(from, n);
    lemma_positions_split(below, from, n);
    assert forall|l: int| 0 <= l < positions_where(from, n).len() implies k <= rank(
        peers,
        #[trigger] positions_where(from, n)[l],
        earlier_first,
    ) < n by {
        let i = positions_where(from, n)[l];
        assert(from(i));
        lemma_outranking_bound(peers, i, n, earlier_first);
    }
    assert forall|l: int| 0 <= l < positions_where(below, n).len() implies 0 <= rank(
        peers,
        #[trigger] positions_where(below, n)[l],
        earlier_first,
    ) < k by {
        let i = positions_where(below, n)[l];
        assert(below(i));
    }
    lemma_ranks_fill(peers, positions_where(below, n), 0, k as int, earlier_first);
    lemma_ranks_fill(peers, positions_where(from, n), k as int, n, earlier_first);
}

/// None of the `k` oldest peers is younger than a peer that is not among
/// them.
pub proof fn lemma_oldest_are_older(
    peers: Seq<PeerModel>,
    k: nat,
    i: int,
    j: int,
    earlier_first: bool,
)
    requires
        0 <= i < peers.len(),
        0 <= j < peers.len(),
        rank(peers, i, earlier_first) < k,
        rank(peers, j, earlier_first) >= k,
    ensures
        peers[i].age >= peers[j].age,
{
    lemma_ranks_differ(peers, j, i, earlier_first);
}

/// Moving the oldest peers to the end puts the peers in another order, with
/// no peer among the last `h` younger than one before them.
pub proof fn lemma_oldest_last(peers: Seq<PeerModel>, h: nat)
    ensures
        oldest_last(peers, h).to_multiset() == peers.to_multiset(),
        oldest_last(peers, h).len() == peers.len(),
        peers.len() > h ==> forall|i: int, j: int|
            0 <= i < peers.len() - h <= j < peers.len() ==> (#[trigger] oldest_last(
                peers,
                h,
            )[i]).age <= (#[trigger] oldest_last(peers, h)[j]).age,
{
    if peers.len() > h {
        let n = peers.len() as int;
        let below = ranked_below(peers, h, true);
        let from = ranked_from(peers, h, true);
        let moved = oldest_last(peers, h);
        lemma_split_rearranges(peers, from, below, n);
        assert(peers.take(n) =~= peers);
        lemma_oldest_count(peers, h, true);
        lemma_positions_where(below, n);
        lemma_positions_where(from, n);
        assert forall|i: int, j: int| 0 <= i < peers.len() - h <= j < peers.len() implies (
        #[trigger] moved[i]).age <= (#[trigger] moved[j]).age by {
            let young = positions_where(from, n)[i];
            let old = positions_where(below, n)[j - (n - h)];
            assert(from(young));
            assert(below(old));
            lemma_oldest_are_older(peers, h, old, young, true);
        }
    }
}

} // verus!
