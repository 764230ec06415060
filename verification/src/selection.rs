//! Sequences of peers as the view's operations see them: which addresses a
//! sequence holds, and what it means to keep some of its peers in order.

use vstd::prelude::*;
use vstd::seq_lib::to_multiset_build;
use vstd::seq_lib::to_multiset_contains;
use vstd::seq_lib::to_multiset_insert;
use vstd::seq_lib::to_multiset_len;
use vstd::seq_lib::to_multiset_remove;
use crate::peer::PeerModel;

verus! {

/// Whether one of the peers has the given address.
pub open spec fn holds_address(peers: Seq<PeerModel>, address: Seq<char>) -> bool {
    exists|i: int| 0 <= i < peers.len() && (#[trigger] peers[i]).address == address
}

/// Whether no two of the peers share an address.
pub open spec fn distinct_addresses(peers: Seq<PeerModel>) -> bool {
    forall|i: int, j: int|
        0 <= i < j < peers.len() ==> (#[trigger] peers[i]).address != (#[trigger] peers[j]).address
}

/// Whether every address of `inner` is an address of `outer`.
pub open spec fn addresses_within(inner: Seq<PeerModel>, outer: Seq<PeerModel>) -> bool {
    forall|i: int| 0 <= i < inner.len() ==> holds_address(outer, (#[trigger] inner[i]).address)
}

/// The positions below `n` at which `keep` holds, in ascending order.
pub open spec fn positions_where(keep: spec_fn(int) -> bool, n: int) -> Seq<int>
    decreases n,
{
    if n <= 0 {
        Seq::empty()
    } else if keep(n - 1) {
        positions_where(keep, n - 1).push(n - 1)
    } else {
        positions_where(keep, n - 1)
    }
}

/// The peers that stand at the given positions, in the order of the positions.
pub open spec fn peers_at(peers: Seq<PeerModel>, positions: Seq<int>) -> Seq<PeerModel> {
    Seq::new(positions.len(), |k: int| peers[positions[k]])
}

/// The peers at whose position `keep` holds, in their order.
pub open spec fn peers_where(peers: Seq<PeerModel>, keep: spec_fn(int) -> bool) -> Seq<PeerModel> {
    peers_at(peers, positions_where(keep, peers.len() as int))
}

/// Whether the positions lie below `n` and strictly ascend.
pub open spec fn ascending_below(positions: Seq<int>, n: int) -> bool {
    &&& forall|k: int| 0 <= k < positions.len() ==> 0 <= #[trigger] positions[k] < n
    &&& forall|k: int, l: int|
        0 <= k < l < positions.len() ==> #[trigger] positions[k] < #[trigger] positions[l]
}

/// Whether `kept` is `from` with some peers taken out and the others left in
/// their order.
pub open spec fn is_thinning(kept: Seq<PeerModel>, from: Seq<PeerModel>) -> bool {
    exists|positions: Seq<int>| #[trigger]
        ascending_below(positions, from.len() as int) && kept == peers_at(from, positions)
}

/// `positions_where` lists exactly the positions below `n` at which `keep`
/// holds, each once and in ascending order.
pub proof fn lemma_positions_where(keep: spec_fn(int) -> bool, n: int)
    ensures
        ascending_below(positions_where(keep, n), n),
        positions_where(keep, n).len() <= if n < 0 { 0 } else { n },
        forall|k: int|
            0 <= k < positions_where(keep, n).len() ==> keep(#[trigger] positions_where(keep, n)[k]),
        forall|i: int| 0 <= i < n && keep(i) ==> #[trigger] positions_where(keep, n).contains(i),
    decreases n,
{
    if n > 0 {
        lemma_positions_where(keep, n - 1);
        let before = positions_where(keep, n - 1);
        let all = positions_where(keep, n);
        assert forall|i: int| 0 <= i < n && keep(i) implies #[trigger] all.contains(i) by {
            if i < n - 1 {
                assert(before.contains(i));
                let k = choose|k: int| 0 <= k < before.len() && before[k] == i;
                assert(all[k] == i);
            } else {
                assert(all[all.len() - 1] == i);
            }
        }
    }
}

/// The positions at which a condition holds and those at which it does not
/// are `n` together.
pub proof fn lemma_positions_split(keep: spec_fn(int) -> bool, other: spec_fn(int) -> bool, n: int)
    requires
        n >= 0,
        forall|i: int| 0 <= i < n ==> #[trigger] other(i) == !keep(i),
    ensures
        positions_where(keep, n).len() + positions_where(other, n).len() == n,
    decreases n,
{
    if n > 0 {
        lemma_positions_split(keep, other, n - 1);
        assert(other(n - 1) == !keep(n - 1));
    }
}

/// Keeping the peers at which a condition holds is a thinning.
pub proof fn lemma_peers_where_thins(peers: Seq<PeerModel>, keep: spec_fn(int) -> bool)
    ensures
        is_thinning(peers_where(peers, keep), peers),
{
    lemma_positions_where(keep, peers.len() as int);
    assert(ascending_below(positions_where(keep, peers.len() as int), peers.len() as int));
}

/// A thinning holds only addresses of what it was made from, and is no
/// longer.
pub proof fn lemma_thinning_within(kept: Seq<PeerModel>, from: Seq<PeerModel>)
    requires
        is_thinning(kept, from),
    ensures
        addresses_within(kept, from),
        kept.len() <= from.len(),
        forall|k: int| 0 <= k < kept.len() ==> from.contains(#[trigger] kept[k]),
{
    let positions = choose|positions: Seq<int>| #[trigger]
        ascending_below(positions, from.len() as int) && kept == peers_at(from, positions);
    assert forall|k: int| 0 <= k < kept.len() implies from.contains(#[trigger] kept[k])
        && holds_address(from, kept[k].address) by {
        assert(from[positions[k]] == kept[k]);
    }
    lemma_ascending_length(positions, from.len() as int);
}

/// Strictly ascending positions below `n` are at most `n`.
pub proof fn lemma_ascending_length(positions: Seq<int>, n: int)
    requires
        n >= 0,
        ascending_below(positions, n),
    ensures
        positions.len() <= n,
    decreases positions.len(),
{
    if positions.len() > 0 {
        let shorter = positions.drop_last();
        let last = positions.last();
        assert(ascending_below(shorter, last)) by {
            assert forall|k: int| 0 <= k < shorter.len() implies 0 <= #[trigger] shorter[k]
                < last by {
                assert(positions[k] < positions[positions.len() - 1]);
            }
            assert forall|k: int, l: int| 0 <= k < l < shorter.len() implies #[trigger] shorter[k]
                < #[trigger] shorter[l] by {
                assert(positions[k] < positions[l]);
            }
        }
        lemma_ascending_length(shorter, last);
    }
}

/// A thinning of peers with distinct addresses has distinct addresses.
pub proof fn lemma_thinning_distinct(kept: Seq<PeerModel>, from: Seq<PeerModel>)
    requires
        is_thinning(kept, from),
        distinct_addresses(from),
    ensures
        distinct_addresses(kept),
{
    let positions = choose|positions: Seq<int>| #[trigger]
        ascending_below(positions, from.len() as int) && kept == peers_at(from, positions);
    assert forall|i: int, j: int| 0 <= i < j < kept.len() implies (#[trigger] kept[i]).address != (
    #[trigger] kept[j]).address by {
        assert(positions[i] < positions[j]);
        assert(from[positions[i]].address != from[positions[j]].address);
    }
}

/// What is left after the first `k` peers is a thinning.
pub proof fn lemma_skip_thins(peers: Seq<PeerModel>, k: int)
    requires
        0 <= k <= peers.len(),
    ensures
        is_thinning(peers.skip(k), peers),
{
    let positions = Seq::new((peers.len() - k) as nat, |i: int| i + k);
    assert(ascending_below(positions, peers.len() as int));
    assert(peers.skip(k) =~= peers_at(peers, positions));
}

/// Whatever is a thinning of a thinning is a thinning.
pub proof fn lemma_thinning_chain(a: Seq<PeerModel>, b: Seq<PeerModel>, c: Seq<PeerModel>)
    requires
        is_thinning(a, b),
        is_thinning(b, c),
    ensures
        is_thinning(a, c),
{
    let inner = choose|positions: Seq<int>| #[trigger]
        ascending_below(positions, b.len() as int) && a == peers_at(b, positions);
    let outer = choose|positions: Seq<int>| #[trigger]
        ascending_below(positions, c.len() as int) && b == peers_at(c, positions);
    let both = Seq::new(inner.len(), |k: int| outer[inner[k]]);
    assert(ascending_below(both, c.len() as int)) by {
        assert forall|k: int, l: int| 0 <= k < l < both.len() implies #[trigger] both[k]
            < #[trigger] both[l] by {
            assert(inner[k] < inner[l]);
        }
    }
    assert(a =~= peers_at(c, both));
}

/// Taking one peer out is a thinning.
pub proof fn lemma_remove_thins(peers: Seq<PeerModel>, index: int)
    requires
        0 <= index < peers.len(),
    ensures
        is_thinning(peers.remove(index), peers),
{
    let positions = Seq::new((peers.len() - 1) as nat, |i: int| if i < index { i } else { i + 1 });
    assert(ascending_below(positions, peers.len() as int));
    assert(peers.remove(index) =~= peers_at(peers, positions));
}

/// Every sequence is a thinning of itself.
pub proof fn lemma_thinning_of_itself(peers: Seq<PeerModel>)
    ensures
        is_thinning(peers, peers),
{
    lemma_skip_thins(peers, 0);
    assert(peers.skip(0) =~= peers);
}

/// Peers in another order are as many and have the same addresses.
pub proof fn lemma_rearranged(a: Seq<PeerModel>, b: Seq<PeerModel>)
    requires
        a.to_multiset() == b.to_multiset(),
    ensures
        a.len() == b.len(),
        addresses_within(a, b),
        forall|k: int| 0 <= k < a.len() ==> b.contains(#[trigger] a[k]),
{
    to_multiset_len(a);
    to_multiset_len(b);
    assert forall|k: int| 0 <= k < a.len() implies b.contains(#[trigger] a[k]) && holds_address(
        b,
        a[k].address,
    ) by {
        assert(a.contains(a[k]));
        to_multiset_contains(a, a[k]);
        to_multiset_contains(b, a[k]);
        let i = choose|i: int| 0 <= i < b.len() && b[i] == a[k];
        assert(b[i].address == a[k].address);
    }
}

/// Peers with distinct addresses have distinct addresses in any order.
pub proof fn lemma_rearranged_distinct(a: Seq<PeerModel>, b: Seq<PeerModel>)
    requires
        a.to_multiset() == b.to_multiset(),
        distinct_addresses(b),
    ensures
        distinct_addresses(a),
    decreases a.len(),
{
    if a.len() > 0 {
        let last = a.last();
        let shorter = a.drop_last();
        lemma_rearranged(a, b);
        assert(b.contains(last));
        let i = choose|i: int| 0 <= i < b.len() && b[i] == last;
        let others = b.remove(i);
        assert(shorter.to_multiset() =~= others.to_multiset()) by {
            assert(shorter.push(last) =~= a);
            to_multiset_build(shorter, last);
            to_multiset_remove(b, i);
            assert(shorter.to_multiset() =~= a.to_multiset().remove(last));
        }
        lemma_remove_thins(b, i);
        lemma_thinning_distinct(others, b);
        lemma_rearranged_distinct(shorter, others);
        lemma_rearranged(shorter, others);
        assert forall|k: int, l: int| 0 <= k < l < a.len() implies (#[trigger] a[k]).address != (
        #[trigger] a[l]).address by {
            if l < shorter.len() {
                assert(shorter[k].address != shorter[l].address);
            } else {
                assert(others.contains(shorter[k]));
                let m = choose|m: int| 0 <= m < others.len() && others[m] == shorter[k];
                if m < i {
                    assert(b[m].address != b[i].address);
                } else {
                    assert(b[i].address != b[m + 1].address);
                }
            }
        }
    }
}

/// The peers at which a condition holds, followed by those at which it does
/// not, are the peers in another order.
pub proof fn lemma_split_rearranges(
    peers: Seq<PeerModel>,
    keep: spec_fn(int) -> bool,
    other: spec_fn(int) -> bool,
    n: int,
)
    requires
        0 <= n <= peers.len(),
        forall|i: int| 0 <= i < n ==> #[trigger] other(i) == !keep(i),
    ensures
        (peers_at(peers, positions_where(keep, n)) + peers_at(
            peers,
            positions_where(other, n),
        )).to_multiset() == peers.take(n).to_multiset(),
    decreases n,
{
    let kept = peers_at(peers, positions_where(keep, n));
    let rest = peers_at(peers, positions_where(other, n));
    if n > 0 {
        let kept_before = peers_at(peers, positions_where(keep, n - 1));
        let rest_before = peers_at(peers, positions_where(other, n - 1));
        let x = peers[n - 1];
        lemma_split_rearranges(peers, keep, other, n - 1);
        assert(peers.take(n - 1).push(x) =~= peers.take(n));
        to_multiset_build(peers.take(n - 1), x);
        assert(other(n - 1) == !keep(n - 1));
        if keep(n - 1) {
            assert(kept =~= kept_before.push(x));
            assert(rest == rest_before);
            assert(kept + rest =~= (kept_before + rest_before).insert(
                kept_before.len() as int,
                x,
            ));
            to_multiset_insert(kept_before + rest_before, kept_before.len() as int, x);
        } else {
            assert(rest =~= rest_before.push(x));
            assert(kept == kept_before);
            assert(kept + rest =~= (kept_before + rest_before).push(x));
            to_multiset_build(kept_before + rest_before, x);
        }
    } else {
        assert(kept + rest =~= peers.take(n));
    }
}

} // verus!
