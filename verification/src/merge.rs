//! What the merge of a received view into the local one computes, phase by
//! phase, and what holds of the result.

use vstd::prelude::*;
use crate::oldest::all_but_oldest;
use crate::oldest::lemma_oldest_count;
use crate::oldest::ranked_from;
use crate::peer::PeerModel;
use crate::selection::addresses_within;
use crate::selection::distinct_addresses;
use crate::selection::holds_address;
use crate::selection::is_thinning;
use crate::selection::lemma_peers_where_thins;
use crate::selection::lemma_positions_where;
use crate::selection::lemma_skip_thins;
use crate::selection::lemma_thinning_chain;
use crate::selection::lemma_thinning_distinct;
use crate::selection::lemma_thinning_within;
use crate::selection::peers_where;
use crate::selection::positions_where;

verus! {

/// The condition that the peer at a position has another address than the
/// given one.
pub open spec fn not_at(peers: Seq<PeerModel>, address: Seq<char>) -> spec_fn(int) -> bool {
    |i: int| peers[i].address != address
}

/// The peers whose address is not the given one, in their order.
pub open spec fn without_address(peers: Seq<PeerModel>, address: Seq<char>) -> Seq<PeerModel> {
    peers_where(peers, not_at(peers, address))
}

/// Peers with distinct addresses after one more peer is taken in: a peer
/// with a new address goes to the end; one with a known address takes the
/// place of the entry with that address if it is younger, and is dropped
/// otherwise.
pub open spec fn absorbed(peers: Seq<PeerModel>, p: PeerModel) -> Seq<PeerModel> {
    if holds_address(peers, p.address) {
        let i = choose|i: int| 0 <= i < peers.len() && (#[trigger] peers[i]).address == p.address;
        if p.age < peers[i].age {
            peers.update(i, p)
        } else {
            peers
        }
    } else {
        peers.push(p)
    }
}

/// The peers with one entry for each address: the youngest of those with
/// that address, at the place where the address first occurs.
pub open spec fn deduplicated(peers: Seq<PeerModel>) -> Seq<PeerModel>
    decreases peers.len(),
{
    if peers.len() == 0 {
        peers
    } else {
        absorbed(deduplicated(peers.drop_last()), peers.last())
    }
}

/// By how many peers a view of `len` peers exceeds the size `c`.
pub open spec fn excess(len: nat, c: nat) -> nat {
    if len > c {
        (len - c) as nat
    } else {
        0
    }
}

/// The smaller of two numbers.
pub open spec fn smaller(a: nat, b: nat) -> nat {
    if a < b {
        a
    } else {
        b
    }
}

/// The healing phase: of the peers beyond the size `c`, up to `h` leave, the
/// oldest first and of equally old ones the later first.
pub open spec fn healed(peers: Seq<PeerModel>, c: nat, h: nat) -> Seq<PeerModel> {
    all_but_oldest(peers, smaller(h, excess(peers.len(), c)), false)
}

/// The swap phase: of the peers beyond the size `c`, up to `s` leave, from
/// the head.
pub open spec fn swapped(peers: Seq<PeerModel>, c: nat, s: nat) -> Seq<PeerModel> {
    peers.skip(smaller(s, excess(peers.len(), c)) as int)
}

/// The local peers followed by the received ones that are not the host.
pub open spec fn combined(peers: Seq<PeerModel>, host: Seq<char>, buffer: Seq<PeerModel>) -> Seq<
    PeerModel,
> {
    peers + without_address(buffer, host)
}

/// What the merge leaves before peers are removed at random: the local and
/// the received peers without duplicates, after the healing and the swap
/// phase.
pub open spec fn merge_candidates(
    peers: Seq<PeerModel>,
    host: Seq<char>,
    buffer: Seq<PeerModel>,
    c: nat,
    h: nat,
    s: nat,
) -> Seq<PeerModel> {
    swapped(healed(deduplicated(combined(peers, host, buffer)), c, h), c, s)
}

/// The condition that the address of the queue's entry at a position is
/// still in the view.
pub open spec fn still_in_view(queue: Seq<PeerModel>, peers: Seq<PeerModel>) -> spec_fn(
    int,
) -> bool {
    |i: int| holds_address(peers, queue[i].address)
}

/// The condition that the address of the view's peer at a position is not
/// in the queue.
pub open spec fn new_to_queue(peers: Seq<PeerModel>, queue: Seq<PeerModel>) -> spec_fn(int) -> bool {
    |i: int| !holds_address(queue, peers[i].address)
}

/// The queue after a merge: its entries that are still in the view, then the
/// peers of the view that it did not hold.
pub open spec fn refreshed_queue(queue: Seq<PeerModel>, peers: Seq<PeerModel>) -> Seq<PeerModel> {
    peers_where(queue, still_in_view(queue, peers)) + peers_where(peers, new_to_queue(peers, queue))
}

/// Whether `d` holds one entry for each address of `peers`, each of them the
/// youngest peer with its address.
pub open spec fn resolves_duplicates(d: Seq<PeerModel>, peers: Seq<PeerModel>) -> bool {
    &&& distinct_addresses(d)
    &&& forall|k: int| 0 <= k < d.len() ==> peers.contains(#[trigger] d[k])
    &&& addresses_within(peers, d)
    &&& forall|k: int, i: int|
        0 <= k < d.len() && 0 <= i < peers.len() && (#[trigger] d[k]).address == (
        #[trigger] peers[i]).address ==> d[k].age <= peers[i].age
}

/// The peers whose address is not the given one do not hold it.
pub proof fn lemma_without_address(peers: Seq<PeerModel>, address: Seq<char>)
    ensures
        !holds_address(without_address(peers, address), address),
        is_thinning(without_address(peers, address), peers),
{
    lemma_positions_where(not_at(peers, address), peers.len() as int);
    lemma_peers_where_thins(peers, not_at(peers, address));
    let kept = without_address(peers, address);
    let positions = positions_where(not_at(peers, address), peers.len() as int);
    assert forall|k: int| 0 <= k < kept.len() implies (#[trigger] kept[k]).address != address by {
        assert(not_at(peers, address)(positions[k]));
    }
}

/// Taking one more peer in keeps the addresses distinct, adds the peer's
/// address, and leaves for that address the younger of the two.
pub proof fn lemma_absorbed(peers: Seq<PeerModel>, p: PeerModel)
    requires
        distinct_addresses(peers),
    ensures
        distinct_addresses(absorbed(peers, p)),
        holds_address(absorbed(peers, p), p.address),
        addresses_within(peers, absorbed(peers, p)),
        forall|k: int|
            0 <= k < absorbed(peers, p).len() ==> {
                let e = #[trigger] absorbed(peers, p)[k];
                (e == p || peers.contains(e)) && (e.address == p.address ==> e.age <= p.age)
            },
        forall|k: int, i: int|
            0 <= k < absorbed(peers, p).len() && 0 <= i < peers.len() && (#[trigger] absorbed(
                peers,
                p,
            )[k]).address == (#[trigger] peers[i]).address ==> absorbed(peers, p)[k].age
                <= peers[i].age,
        absorbed(peers, p).len() <= peers.len() + 1,
        !holds_address(peers, p.address) ==> absorbed(peers, p) == peers.push(p),
{
    let after = absorbed(peers, p);
    if holds_address(peers, p.address) {
        let i = choose|i: int| 0 <= i < peers.len() && (#[trigger] peers[i]).address == p.address;
        assert forall|k: int| 0 <= k < peers.len() implies holds_address(
            after,
            (#[trigger] peers[k]).address,
        ) by {
            assert(after[k].address == peers[k].address);
        }
        assert(after[i].address == p.address);
        assert forall|k: int| 0 <= k < after.len() implies {
            let e = #[trigger] after[k];
            (e == p || peers.contains(e)) && (e.address == p.address ==> e.age <= p.age)
        } by {
            if k != i {
                assert(peers[k] == after[k]);
                if k < i {
                    assert(peers[k].address != peers[i].address);
                } else {
                    assert(peers[i].address != peers[k].address);
                }
            } else {
                if !(p.age < peers[i].age) {
                    assert(peers[i] == after[i]);
                }
            }
        }
        assert forall|k: int, j: int|
            0 <= k < after.len() && 0 <= j < peers.len() && (#[trigger] after[k]).address == (
            #[trigger] peers[j]).address implies after[k].age <= peers[j].age by {
            assert(after[k].address == peers[k].address);
            if k < j {
                assert(peers[k].address != peers[j].address);
            } else if j < k {
                assert(peers[j].address != peers[k].address);
            }
        }
        assert forall|k: int, l: int| 0 <= k < l < after.len() implies (#[trigger] after[k]).address
            != (#[trigger] after[l]).address by {
            assert(after[k].address == peers[k].address);
            assert(after[l].address == peers[l].address);
        }
    } else {
        assert(after[peers.len() as int] == p);
        assert forall|k: int| 0 <= k < peers.len() implies holds_address(
            after,
            (#[trigger] peers[k]).address,
        ) by {
            assert(after[k] == peers[k]);
        }
        assert forall|k: int| 0 <= k < after.len() implies {
            let e = #[trigger] after[k];
            (e == p || peers.contains(e)) && (e.address == p.address ==> e.age <= p.age)
        } by {
            if k < peers.len() {
                assert(peers[k] == after[k]);
            }
        }
        assert forall|k: int, j: int|
            0 <= k < after.len() && 0 <= j < peers.len() && (#[trigger] after[k]).address == (
            #[trigger] peers[j]).address implies after[k].age <= peers[j].age by {
            if k < peers.len() {
                assert(after[k] == peers[k]);
                if k < j {
                    assert(peers[k].address != peers[j].address);
                } else if j < k {
                    assert(peers[j].address != peers[k].address);
                }
            }
        }
        assert forall|k: int, l: int| 0 <= k < l < after.len() implies (#[trigger] after[k]).address
            != (#[trigger] after[l]).address by {
            assert(after[k] == peers[k]);
            if l < peers.len() {
                assert(after[l] == peers[l]);
            }
        }
    }
}

/// Duplicates are resolved as they should: the result holds each address
/// once, with the lowest age that the address has among the peers.
pub proof fn lemma_deduplicated(peers: Seq<PeerModel>)
    ensures
        resolves_duplicates(deduplicated(peers), peers),
        deduplicated(peers).len() <= peers.len(),
    decreases peers.len(),
{
    if peers.len() > 0 {
        let shorter = peers.drop_last();
        let last = peers.last();
        let before = deduplicated(shorter);
        let d = deduplicated(peers);
        lemma_deduplicated(shorter);
        lemma_absorbed(before, last);
        assert forall|k: int| 0 <= k < d.len() implies peers.contains(#[trigger] d[k]) by {
            if d[k] == last {
                assert(peers[peers.len() - 1] == last);
            } else {
                assert(before.contains(d[k]));
                assert(shorter.contains(d[k]));
                let i = choose|i: int| 0 <= i < shorter.len() && shorter[i] == d[k];
                assert(peers[i] == d[k]);
            }
        }
        assert forall|i: int| 0 <= i < peers.len() implies holds_address(
            d,
            (#[trigger] peers[i]).address,
        ) by {
            if i < shorter.len() {
                assert(shorter[i] == peers[i]);
                assert(holds_address(before, shorter[i].address));
                let k = choose|k: int|
                    0 <= k < before.len() && (#[trigger] before[k]).address == peers[i].address;
                assert(holds_address(d, before[k].address));
            }
        }
        assert forall|k: int, i: int|
            0 <= k < d.len() && 0 <= i < peers.len() && (#[trigger] d[k]).address == (
            #[trigger] peers[i]).address implies d[k].age <= peers[i].age by {
            if i < shorter.len() {
                assert(shorter[i] == peers[i]);
                assert(holds_address(before, shorter[i].address));
                let l = choose|l: int|
                    0 <= l < before.len() && (#[trigger] before[l]).address == peers[i].address;
                assert(before[l].age <= shorter[i].age);
                assert(d[k].age <= before[l].age);
            }
        }
    }
}

/// The healing phase is a thinning that takes out as many peers as its
/// budget and the excess allow.
pub proof fn lemma_healed(peers: Seq<PeerModel>, c: nat, h: nat)
    ensures
        is_thinning(healed(peers, c, h), peers),
        healed(peers, c, h).len() == peers.len() - smaller(h, excess(peers.len(), c)),
{
    let k = smaller(h, excess(peers.len(), c));
    lemma_peers_where_thins(peers, ranked_from(peers, k, false));
    lemma_oldest_count(peers, k, false);
}

/// The swap phase is a thinning that takes out as many peers as its budget
/// and the excess allow.
pub proof fn lemma_swapped(peers: Seq<PeerModel>, c: nat, s: nat)
    ensures
        is_thinning(swapped(peers, c, s), peers),
        swapped(peers, c, s).len() == peers.len() - smaller(s, excess(peers.len(), c)),
{
    lemma_skip_thins(peers, smaller(s, excess(peers.len(), c)) as int);
}

/// What holds of the candidates of a merge: they have distinct addresses,
/// each is one of the local or received peers and the youngest with its
/// address, and the host is not among them unless it was among the local
/// peers.
pub proof fn lemma_merge_candidates(
    peers: Seq<PeerModel>,
    host: Seq<char>,
    buffer: Seq<PeerModel>,
    c: nat,
    h: nat,
    s: nat,
)
    ensures
        is_thinning(
            merge_candidates(peers, host, buffer, c, h, s),
            deduplicated(combined(peers, host, buffer)),
        ),
        distinct_addresses(merge_candidates(peers, host, buffer, c, h, s)),
        !holds_address(peers, host) ==> !holds_address(
            deduplicated(combined(peers, host, buffer)),
            host,
        ),
{
    let all = combined(peers, host, buffer);
    let d = deduplicated(all);
    let healthy = healed(d, c, h);
    let candidates = swapped(healthy, c, s);
    lemma_deduplicated(all);
    lemma_healed(d, c, h);
    lemma_swapped(healthy, c, s);
    lemma_thinning_chain(candidates, healthy, d);
    lemma_thinning_distinct(candidates, d);
    if !holds_address(peers, host) && holds_address(d, host) {
        let k = choose|k: int| 0 <= k < d.len() && (#[trigger] d[k]).address == host;
        assert(all.contains(d[k]));
        let i = choose|i: int| 0 <= i < all.len() && all[i] == d[k];
        lemma_without_address(buffer, host);
        if i < peers.len() {
            assert(peers[i].address == host);
        } else {
            assert(without_address(buffer, host)[i - peers.len()].address == host);
        }
    }
}

/// A queue refreshed against a view with distinct addresses has distinct
/// addresses, all of them in the view.
pub proof fn lemma_refreshed_queue(queue: Seq<PeerModel>, peers: Seq<PeerModel>)
    requires
        distinct_addresses(queue),
        distinct_addresses(peers),
    ensures
        distinct_addresses(refreshed_queue(queue, peers)),
        addresses_within(refreshed_queue(queue, peers), peers),
        addresses_within(peers, refreshed_queue(queue, peers)),
{
    let stay = still_in_view(queue, peers);
    let come = new_to_queue(peers, queue);
    let stayed = peers_where(queue, stay);
    let came = peers_where(peers, come);
    let stay_at = positions_where(stay, queue.len() as int);
    let come_at = positions_where(come, peers.len() as int);
    let all = refreshed_queue(queue, peers);
    lemma_positions_where(stay, queue.len() as int);
    lemma_positions_where(come, peers.len() as int);
    lemma_peers_where_thins(queue, stay);
    lemma_peers_where_thins(peers, come);
    lemma_thinning_distinct(stayed, queue);
    lemma_thinning_distinct(came, peers);
    lemma_thinning_within(came, peers);
    assert forall|k: int| 0 <= k < all.len() implies holds_address(
        peers,
        (#[trigger] all[k]).address,
    ) by {
        if k < stayed.len() {
            assert(stay(stay_at[k]));
        } else {
            assert(all[k] == came[k - stayed.len()]);
        }
    }
    assert forall|k: int, l: int| 0 <= k < l < all.len() implies (#[trigger] all[k]).address != (
    #[trigger] all[l]).address by {
        if l < stayed.len() {
            assert(stayed[k].address != stayed[l].address);
        } else if k >= stayed.len() {
            assert(came[k - stayed.len()].address != came[l - stayed.len()].address);
        } else {
            assert(come(come_at[l - stayed.len()]));
            assert(queue[stay_at[k]] == all[k]);
        }
    }
    assert forall|i: int| 0 <= i < peers.len() implies holds_address(
        all,
        (#[trigger] peers[i]).address,
    ) by {
        if come(i) {
            assert(come_at.contains(i));
            let k = choose|k: int| 0 <= k < come_at.len() && come_at[k] == i;
            assert(all[stayed.len() + k] == peers[i]);
        } else {
            let j = choose|j: int|
                0 <= j < queue.len() && (#[trigger] queue[j]).address == peers[i].address;
            assert(stay(j));
            assert(stay_at.contains(j));
            let k = choose|k: int| 0 <= k < stay_at.len() && stay_at[k] == j;
            assert(all[k] == queue[j]);
        }
    }
}

} // verus!
