//! The view of a node: the bounded sample of the overlay that it holds, and
//! the queue of peers that are new to it.

use std::collections::VecDeque;
use vstd::prelude::*;
use crate::config::Config;
use crate::merge::combined;
use crate::merge::deduplicated;
use crate::merge::excess;
use crate::merge::healed;
use crate::merge::lemma_absorbed;
use crate::merge::lemma_deduplicated;
use crate::merge::lemma_healed;
use crate::merge::lemma_merge_candidates;
use crate::merge::lemma_refreshed_queue;
use crate::merge::lemma_swapped;
use crate::merge::merge_candidates;
use crate::merge::new_to_queue;
use crate::merge::not_at;
use crate::merge::refreshed_queue;
use crate::merge::resolves_duplicates;
use crate::merge::smaller;
use crate::merge::still_in_view;
use crate::merge::swapped;
use crate::oldest::all_but_oldest;
use crate::oldest::lemma_none_oldest;
use crate::oldest::lemma_oldest_last;
use crate::oldest::oldest;
use crate::oldest::oldest_last;
use crate::oldest::outranking_among;
use crate::oldest::rank;
use crate::oldest::ranked_below;
use crate::oldest::ranked_from;
use crate::peer::next_age;
use crate::peer::Peer;
use crate::peer::PeerModel;
use crate::random::random_below;
use crate::random::shuffle;
use crate::selection::addresses_within;
use crate::selection::distinct_addresses;
use crate::selection::holds_address;
use crate::selection::is_thinning;
use crate::selection::lemma_peers_where_thins;
use crate::selection::lemma_positions_where;
use crate::selection::lemma_rearranged;
use crate::selection::lemma_rearranged_distinct;
use crate::selection::lemma_remove_thins;
use crate::selection::lemma_thinning_chain;
use crate::selection::lemma_thinning_distinct;
use crate::selection::lemma_thinning_of_itself;
use crate::selection::lemma_thinning_within;
use crate::selection::peers_at;
use crate::selection::peers_where;
use crate::selection::positions_where;

verus! {

/// What a view is: the address of the node that owns it, its peers in their
/// order, and the queue of peers that appeared in it and were not handed
/// out yet.
pub struct PartialViewModel {
    pub host: Seq<char>,
    pub peers: Seq<PeerModel>,
    pub queue: Seq<PeerModel>,
}

/// The view at each node.
pub struct PartialView {
    host_address: String,
    peers: Vec<Peer>,
    queue: VecDeque<Peer>,
}

impl View for PartialView {
    type V = PartialViewModel;

    closed spec fn view(&self) -> PartialViewModel {
        PartialViewModel {
            host: self.host_address@,
            peers: self.peers.deep_view(),
            queue: self.queue.deep_view(),
        }
    }
}

/// A peer one protocol event later.
pub open spec fn aged(p: PeerModel) -> PeerModel {
    PeerModel { address: p.address, age: next_age(p.age) }
}

/// How many peers a node with a view of size `c` sends besides itself.
pub open spec fn head_length(c: nat, len: nat) -> nat {
    smaller((c / 2 - 1) as nat, len)
}

/// The queue holds no address twice, and only addresses of the view.
pub open spec fn queue_consistent(v: PartialViewModel) -> bool {
    distinct_addresses(v.queue) && addresses_within(v.queue, v.peers)
}

/// The view is a sample of size `c`: the host is not in it, no address is
/// in it twice, and it holds at most `c` peers.
pub open spec fn is_sample(v: PartialViewModel, c: nat) -> bool {
    &&& !holds_address(v.peers, v.host)
    &&& distinct_addresses(v.peers)
    &&& v.peers.len() <= c
}

/// The place of a peer with the address of `peer` among `peers`, if there is
/// one.
fn find_address(peers: &Vec<Peer>, peer: &Peer) -> (place: Option<usize>)
    ensures
        match place {
            Some(i) => i < peers.len() && peers.deep_view()[i as int].address == peer@.address,
            None => !holds_address(peers.deep_view(), peer@.address),
        },
{
    let mut i: usize = 0;
    while i < peers.len()
        invariant
            i <= peers.len(),
            forall|k: int| 0 <= k < i ==> (#[trigger] peers.deep_view()[k]).address != peer@.address,
        decreases peers.len() - i,
    {
        if peers[i] == *peer {
            return Some(i);
        }
        i += 1;
    }
    None
}

/// Whether the queue holds a peer with the address of `peer`.
fn queue_holds(queue: &VecDeque<Peer>, peer: &Peer) -> (found: bool)
    ensures
        found == holds_address(queue.deep_view(), peer@.address),
{
    let mut i: usize = 0;
    while i < queue.len()
        invariant
            i <= queue.len(),
            forall|k: int| 0 <= k < i ==> (#[trigger] queue.deep_view()[k]).address != peer@.address,
        decreases queue.len() - i,
    {
        if queue[i] == *peer {
            assert(queue.deep_view()[i as int].address == peer@.address);
            return true;
        }
        i += 1;
    }
    false
}

/// How many of the peers are taken before the peer at `i`.
fn rank_of(peers: &Vec<Peer>, i: usize, earlier_first: bool) -> (r: usize)
    requires
        i < peers.len(),
    ensures
        r == rank(peers.deep_view(), i as int, earlier_first),
{
    let age = peers[i].age();
    let mut count: usize = 0;
    let mut j: usize = 0;
    while j < peers.len()
        invariant
            j <= peers.len(),
            i < peers.len(),
            age == peers.deep_view()[i as int].age,
            count <= j,
            count == outranking_among(peers.deep_view(), i as int, j as int, earlier_first),
        decreases peers.len() - j,
    {
        let other = peers[j].age();
        let first = if earlier_first {
            j < i
        } else {
            j > i
        };
        if other > age || (other == age && first) {
            count += 1;
        }
        j += 1;
    }
    count
}

/// Copies of the peers in two parts: the `k` oldest, and the others. Both
/// keep their order.
fn split_by_rank(peers: &Vec<Peer>, k: usize, earlier_first: bool) -> (parts: (Vec<Peer>, Vec<Peer>))
    ensures
        parts.0.deep_view() == all_but_oldest(peers.deep_view(), k as nat, earlier_first),
        parts.1.deep_view() == oldest(peers.deep_view(), k as nat, earlier_first),
{
    let ghost models = peers.deep_view();
    let ghost below = ranked_below(models, k as nat, earlier_first);
    let ghost from = ranked_from(models, k as nat, earlier_first);
    let mut others: Vec<Peer> = Vec::new();
    let mut oldest: Vec<Peer> = Vec::new();
    let mut i: usize = 0;
    while i < peers.len()
        invariant
            i <= peers.len(),
            models == peers.deep_view(),
            below == ranked_below(models, k as nat, earlier_first),
            from == ranked_from(models, k as nat, earlier_first),
            others.deep_view() == peers_at(models, positions_where(from, i as int)),
            oldest.deep_view() == peers_at(models, positions_where(below, i as int)),
        decreases peers.len() - i,
    {
        let r = rank_of(peers, i, earlier_first);
        let ghost others_before = others.deep_view();
        let ghost oldest_before = oldest.deep_view();
        if r < k {
            oldest.push(peers[i].clone());
            proof {
                assert(below(i as int));
                assert(!from(i as int));
                assert(oldest.deep_view() =~= oldest_before.push(models[i as int]));
                assert(oldest.deep_view() =~= peers_at(models, positions_where(below, i + 1)));
            }
        } else {
            others.push(peers[i].clone());
            proof {
                assert(!below(i as int));
                assert(from(i as int));
                assert(others.deep_view() =~= others_before.push(models[i as int]));
                assert(others.deep_view() =~= peers_at(models, positions_where(from, i + 1)));
            }
        }
        i += 1;
    }
    (others, oldest)
}

/// A view one protocol event later: each of its peers has aged.
pub open spec fn aged_view(v: PartialViewModel) -> PartialViewModel {
    PartialViewModel { peers: v.peers.map_values(|p: PeerModel| aged(p)), ..v }
}

/// Whether `after` is `before` with the view `buffer` merged into it, under
/// the view size `c`, the healing factor `h` and the swapping factor `s`:
/// the peers are the candidates of the merge, thinned down to `c` where
/// they are more, and the queue is brought in line with them.
pub open spec fn is_merge(
    before: PartialViewModel,
    after: PartialViewModel,
    buffer: Seq<PeerModel>,
    c: nat,
    h: nat,
    s: nat,
) -> bool {
    let candidates = merge_candidates(before.peers, before.host, buffer, c, h, s);
    &&& after.host == before.host
    &&& is_thinning(after.peers, candidates)
    &&& after.peers.len() == smaller(candidates.len(), c)
    &&& after.queue == refreshed_queue(before.queue, after.peers)
}

/// Whether `after` and `buffer` are what building a buffer makes of
/// `before`: the peers were shuffled and the `h` oldest moved to the end,
/// and the buffer holds the node itself at age 0, then the head of the view.
pub open spec fn is_buffer_exchange(
    before: PartialViewModel,
    after: PartialViewModel,
    buffer: Seq<PeerModel>,
    me: Seq<char>,
    c: nat,
    h: nat,
) -> bool {
    &&& after.host == before.host
    &&& after.queue == before.queue
    &&& exists|shuffled: Seq<PeerModel>| #[trigger]
        shuffled.to_multiset() == before.peers.to_multiset() && after.peers == oldest_last(
            shuffled,
            h,
        )
    &&& buffer == seq![PeerModel { address: me, age: 0 }] + after.peers.take(
        head_length(c, after.peers.len()) as int,
    )
}

/// What a merge guarantees, whatever was removed at random: the view holds
/// at most `c` peers and no address twice; the host is not in it unless it
/// was before; each of its peers is one of the local or received peers, and
/// the youngest with its address; every address in the queue is in the
/// view, and none is there twice if none was.
pub proof fn lemma_merge(
    before: PartialViewModel,
    after: PartialViewModel,
    buffer: Seq<PeerModel>,
    c: nat,
    h: nat,
    s: nat,
)
    requires
        is_merge(before, after, buffer, c, h, s),
    ensures
        after.peers.len() <= c,
        distinct_addresses(after.peers),
        !holds_address(before.peers, before.host) ==> !holds_address(after.peers, after.host),
        !holds_address(before.peers, before.host) ==> is_sample(after, c),
        forall|k: int|
            0 <= k < after.peers.len() ==> combined(before.peers, before.host, buffer).contains(
                #[trigger] after.peers[k],
            ),
        forall|k: int, i: int|
            #![trigger after.peers[k], combined(before.peers, before.host, buffer)[i]]
            0 <= k < after.peers.len() && 0 <= i < combined(before.peers, before.host, buffer).len()
                && after.peers[k].address == combined(before.peers, before.host, buffer)[i].address
                ==> after.peers[k].age <= combined(before.peers, before.host, buffer)[i].age,
        addresses_within(after.queue, after.peers),
        distinct_addresses(before.queue) ==> queue_consistent(after),
{
    let all = combined(before.peers, before.host, buffer);
    let merged = deduplicated(all);
    let candidates = merge_candidates(before.peers, before.host, buffer, c, h, s);
    let left = after.peers;
    lemma_merge_candidates(before.peers, before.host, buffer, c, h, s);
    lemma_thinning_distinct(left, candidates);
    lemma_thinning_chain(left, candidates, merged);
    lemma_thinning_within(left, merged);
    lemma_deduplicated(all);
    assert forall|k: int| 0 <= k < left.len() implies all.contains(#[trigger] left[k]) by {
        assert(merged.contains(left[k]));
        let m = choose|m: int| 0 <= m < merged.len() && merged[m] == left[k];
        assert(all.contains(merged[m]));
    }
    assert forall|k: int, i: int|
        0 <= k < left.len() && 0 <= i < all.len() && left[k].address
            == all[i].address implies left[k].age <= all[i].age by {
        assert(merged.contains(left[k]));
        let m = choose|m: int| 0 <= m < merged.len() && merged[m] == left[k];
        assert(merged[m].address == all[i].address);
    }
    if !holds_address(before.peers, before.host) && holds_address(left, before.host) {
        let k = choose|k: int| 0 <= k < left.len() && (#[trigger] left[k]).address == before.host;
        assert(holds_address(merged, left[k].address));
    }
    lemma_queue_within(before.queue, left);
    if distinct_addresses(before.queue) {
        lemma_refreshed_queue(before.queue, left);
    }
}

/// A refreshed queue holds only addresses of the view.
pub proof fn lemma_queue_within(queue: Seq<PeerModel>, peers: Seq<PeerModel>)
    ensures
        addresses_within(refreshed_queue(queue, peers), peers),
{
    let stay = still_in_view(queue, peers);
    let come = new_to_queue(peers, queue);
    let refreshed = refreshed_queue(queue, peers);
    let stay_at = positions_where(stay, queue.len() as int);
    lemma_positions_where(stay, queue.len() as int);
    lemma_peers_where_thins(peers, come);
    lemma_thinning_within(peers_where(peers, come), peers);
    assert forall|k: int| 0 <= k < refreshed.len() implies holds_address(
        peers,
        (#[trigger] refreshed[k]).address,
    ) by {
        if k < stay_at.len() {
            assert(stay(stay_at[k]));
        } else {
            assert(refreshed[k] == peers_where(peers, come)[k - stay_at.len()]);
        }
    }
}

/// Aging keeps a view as consistent and as much of a sample as it was.
pub proof fn lemma_aged_view(v: PartialViewModel)
    ensures
        queue_consistent(v) ==> queue_consistent(aged_view(v)),
        forall|c: nat| is_sample(v, c) ==> is_sample(aged_view(v), c),
{
    let before = v.peers;
    let after = aged_view(v).peers;
    assert forall|k: int| 0 <= k < before.len() implies holds_address(
        after,
        (#[trigger] before[k]).address,
    ) by {
        assert(after[k].address == before[k].address);
    }
    assert forall|k: int| 0 <= k < after.len() implies holds_address(
        before,
        (#[trigger] after[k]).address,
    ) by {
        assert(after[k].address == before[k].address);
    }
    if distinct_addresses(before) {
        assert forall|k: int, l: int| 0 <= k < l < after.len() implies (#[trigger] after[k]).address
            != (#[trigger] after[l]).address by {
            assert(before[k].address != before[l].address);
        }
    }
    lemma_same_addresses(v, aged_view(v));
}

/// Building a buffer keeps a view as consistent and as much of a sample as
/// it was.
pub proof fn lemma_buffer_exchange(
    before: PartialViewModel,
    after: PartialViewModel,
    buffer: Seq<PeerModel>,
    me: Seq<char>,
    c: nat,
    h: nat,
)
    requires
        is_buffer_exchange(before, after, buffer, me, c, h),
    ensures
        after.peers.to_multiset() == before.peers.to_multiset(),
        queue_consistent(before) ==> queue_consistent(after),
        forall|size: nat| is_sample(before, size) ==> is_sample(after, size),
{
    let shuffled = choose|shuffled: Seq<PeerModel>| #[trigger]
        shuffled.to_multiset() == before.peers.to_multiset() && after.peers == oldest_last(
            shuffled,
            h,
        );
    lemma_oldest_last(shuffled, h);
    lemma_same_peers(before, after);
}

impl PartialView {
    /// Creates the empty view of the node at `host_address`.
    pub fn new(host_address: String) -> (view: PartialView)
        ensures
            view@ == (PartialViewModel {
                host: host_address@,
                peers: Seq::empty(),
                queue: Seq::empty(),
            }),
            queue_consistent(view@),
            forall|c: nat| is_sample(view@, c),
    {
        let view = PartialView { host_address, peers: Vec::new(), queue: VecDeque::new() };
        assert(view@.peers =~= Seq::empty());
        assert(view@.queue =~= Seq::empty());
        view
    }

    /// The address of the node that owns the view.
    pub fn host_address(&self) -> (address: &str)
        ensures
            address@ == self@.host,
    {
        self.host_address.as_str()
    }

    /// The peers of the view, in their order.
    pub fn peers(&self) -> (peers: &Vec<Peer>)
        ensures
            peers.deep_view() == self@.peers,
    {
        &self.peers
    }

    /// The peers that appeared in the view and were not handed out yet,
    /// the one that waited longest first.
    pub fn queue(&self) -> (queue: &VecDeque<Peer>)
        ensures
            queue.deep_view() == self@.queue,
    {
        &self.queue
    }

    /// The number of peers that wait in the queue.
    pub fn queue_len(&self) -> (len: usize)
        ensures
            len == self@.queue.len(),
    {
        self.queue.len()
    }

    /// Puts the first contacts of the node at the end of the view, as they
    /// are.
    pub fn seed(&mut self, initial_peers: Vec<Peer>)
        ensures
            final(self)@ == (PartialViewModel {
                peers: old(self)@.peers + initial_peers.deep_view(),
                ..old(self)@
            }),
            queue_consistent(old(self)@) ==> queue_consistent(final(self)@),
    {
        let mut initial_peers = initial_peers;
        let ghost before = self.peers.deep_view();
        let ghost added = initial_peers.deep_view();
        self.peers.append(&mut initial_peers);
        proof {
            assert(self.peers.deep_view() =~= before + added);
            if queue_consistent(old(self)@) {
                assert forall|i: int| 0 <= i < self@.queue.len() implies holds_address(
                    self@.peers,
                    (#[trigger] self@.queue[i]).address,
                ) by {
                    let k = choose|k: int|
                        0 <= k < before.len() && (#[trigger] before[k]).address
                            == self@.queue[i].address;
                    assert(self@.peers[k] == before[k]);
                }
            }
        }
    }

    /// The peer at the given place of the view, if there is one.
    pub fn peer_at(&self, index: usize) -> (peer: Option<Peer>)
        ensures
            peer.deep_view() == if index < self@.peers.len() {
                Some(self@.peers[index as int])
            } else {
                None
            },
    {
        if index < self.peers.len() {
            Some(self.peers[index].clone())
        } else {
            None
        }
    }

    /// Picks a peer of the view at random: the partner of the next exchange.
    /// An empty view gives none.
    pub fn select_peer(&self) -> (peer: Option<Peer>)
        ensures
            peer is None <==> self@.peers.len() == 0,
            peer is Some ==> self@.peers.contains(peer->0@),
    {
        if self.peers.len() == 0 {
            None
        } else {
            let index = random_below(self.peers.len() as u64) as usize;
            self.peer_at(index)
        }
    }

    /// Puts the peers of the view in a random order.
    pub fn permute(&mut self)
        ensures
            final(self)@.peers.to_multiset() == old(self)@.peers.to_multiset(),
            final(self)@.host == old(self)@.host,
            final(self)@.queue == old(self)@.queue,
            queue_consistent(old(self)@) ==> queue_consistent(final(self)@),
            forall|c: nat| is_sample(old(self)@, c) ==> is_sample(final(self)@, c),
    {
        shuffle(&mut self.peers);
        proof {
            lemma_same_peers(old(self)@, self@);
        }
    }

    /// Increases by one the age of each peer in the view; the largest age
    /// stays.
    pub fn increase_age(&mut self)
        ensures
            final(self)@ == aged_view(old(self)@),
            queue_consistent(old(self)@) ==> queue_consistent(final(self)@),
            forall|c: nat| is_sample(old(self)@, c) ==> is_sample(final(self)@, c),
    {
        let ghost before = self.peers.deep_view();
        let n = self.peers.len();
        let mut i: usize = 0;
        while i < n
            invariant
                i <= n,
                n == before.len(),
                self.peers.deep_view().len() == n,
                self.host_address == old(self).host_address,
                self.queue == old(self).queue,
                forall|k: int| 0 <= k < i ==> #[trigger] self.peers.deep_view()[k] == aged(before[k]),
                forall|k: int| i <= k < n ==> #[trigger] self.peers.deep_view()[k] == before[k],
            decreases n - i,
        {
            let ghost so_far = self.peers.deep_view();
            assert(so_far[i as int] == before[i as int]);
            let mut peer = self.peers[i].clone();
            peer.increment_age();
            self.peers.set(i, peer);
            assert(self.peers.deep_view() =~= so_far.update(i as int, aged(before[i as int])));
            i += 1;
        }
        proof {
            let after = before.map_values(|p: PeerModel| aged(p));
            assert(self@.peers =~= after);
            lemma_aged_view(old(self)@);
        }
    }

    /// Returns copies of the peers at the beginning of the view: one less
    /// than half the view size `c`, or all if there are fewer. The size must
    /// be at least 2.
    pub fn head(&self, c: usize) -> (head: Vec<Peer>)
        requires
            c >= 2,
        ensures
            head.deep_view() == self@.peers.take(
                head_length(c as nat, self@.peers.len()) as int,
            ),
    {
        let wanted = c / 2 - 1;
        let count = if wanted < self.peers.len() {
            wanted
        } else {
            self.peers.len()
        };
        let mut head: Vec<Peer> = Vec::new();
        let mut i: usize = 0;
        while i < count
            invariant
                i <= count <= self.peers.len(),
                head.deep_view() == self.peers.deep_view().take(i as int),
            decreases count - i,
        {
            let ghost so_far = head.deep_view();
            head.push(self.peers[i].clone());
            assert(head.deep_view() =~= so_far.push(self.peers@[i as int]@));
            assert(head.deep_view() =~= self.peers.deep_view().take(i + 1));
            i += 1;
        }
        head
    }

    /// Moves the `h` oldest peers to the end of the view, where the view
    /// holds more than `h` peers. Of equally old peers the earlier counts as
    /// the older. The peers that move keep their order, and so do the
    /// others.
    pub fn move_oldest_to_end(&mut self, h: usize)
        ensures
            final(self)@ == (PartialViewModel {
                peers: oldest_last(old(self)@.peers, h as nat),
                ..old(self)@
            }),
            final(self)@.peers.to_multiset() == old(self)@.peers.to_multiset(),
            queue_consistent(old(self)@) ==> queue_consistent(final(self)@),
            forall|c: nat| is_sample(old(self)@, c) ==> is_sample(final(self)@, c),
    {
        if self.peers.len() > h {
            let (mut others, mut oldest) = split_by_rank(&self.peers, h, true);
            let ghost first = others.deep_view();
            let ghost second = oldest.deep_view();
            others.append(&mut oldest);
            assert(others.deep_view() =~= first + second);
            self.peers = others;
        }
        proof {
            lemma_oldest_last(old(self)@.peers, h as nat);
            lemma_same_peers(old(self)@, self@);
        }
    }

    /// Puts the received peers that are not the host at the end of the view.
    pub fn append_received(&mut self, buffer: &Vec<Peer>)
        ensures
            final(self)@ == (PartialViewModel {
                peers: combined(old(self)@.peers, old(self)@.host, buffer.deep_view()),
                ..old(self)@
            }),
    {
        let ghost received = buffer.deep_view();
        let ghost local = self.peers.deep_view();
        let ghost keep = not_at(received, self.host_address@);
        let mut i: usize = 0;
        while i < buffer.len()
            invariant
                i <= buffer.len(),
                received == buffer.deep_view(),
                local == old(self)@.peers,
                keep == not_at(received, self.host_address@),
                self.host_address == old(self).host_address,
                self.queue == old(self).queue,
                self.peers.deep_view() == local + peers_at(
                    received,
                    positions_where(keep, i as int),
                ),
            decreases buffer.len() - i,
        {
            let ghost so_far = self.peers.deep_view();
            if !buffer[i].has_address(&self.host_address) {
                self.peers.push(buffer[i].clone());
                proof {
                    assert(keep(i as int));
                    assert(self.peers.deep_view() =~= so_far.push(received[i as int]));
                    assert(self.peers.deep_view() =~= local + peers_at(
                        received,
                        positions_where(keep, i + 1),
                    ));
                }
            } else {
                assert(!keep(i as int));
            }
            i += 1;
        }
    }

    /// Removes duplicate peers from the view: of the peers with one address
    /// the youngest stays, at the place where the address first stood.
    pub fn remove_duplicates(&mut self)
        ensures
            final(self)@ == (PartialViewModel {
                peers: deduplicated(old(self)@.peers),
                ..old(self)@
            }),
            resolves_duplicates(final(self)@.peers, old(self)@.peers),
            queue_consistent(old(self)@) ==> queue_consistent(final(self)@),
    {
        let ghost models = self.peers.deep_view();
        let mut unique: Vec<Peer> = Vec::new();
        let mut i: usize = 0;
        assert(models.take(0) =~= Seq::empty());
        while i < self.peers.len()
            invariant
                i <= self.peers.len(),
                models == self.peers.deep_view(),
                self.host_address == old(self).host_address,
                self.queue == old(self).queue,
                self.peers == old(self).peers,
                distinct_addresses(unique.deep_view()),
                unique.deep_view() == deduplicated(models.take(i as int)),
            decreases self.peers.len() - i,
        {
            let ghost so_far = unique.deep_view();
            let ghost p = models[i as int];
            proof {
                assert(models.take(i + 1).drop_last() =~= models.take(i as int));
                assert(models.take(i + 1).last() == p);
                lemma_absorbed(so_far, p);
            }
            match find_address(&unique, &self.peers[i]) {
                Some(j) => {
                    proof {
                        let chosen = choose|l: int|
                            0 <= l < so_far.len() && (#[trigger] so_far[l]).address == p.address;
                        assert(so_far[j as int].address == p.address);
                        if chosen < j {
                            assert(so_far[chosen].address != so_far[j as int].address);
                        } else if j < chosen {
                            assert(so_far[j as int].address != so_far[chosen].address);
                        }
                    }
                    if self.peers[i].age() < unique[j].age() {
                        unique.set(j, self.peers[i].clone());
                        assert(unique.deep_view() =~= so_far.update(j as int, p));
                    }
                },
                None => {
                    unique.push(self.peers[i].clone());
                    assert(unique.deep_view() =~= so_far.push(p));
                },
            }
            i += 1;
        }
        assert(models.take(i as int) =~= models);
        self.peers = unique;
        proof {
            lemma_deduplicated(models);
            let before = old(self)@;
            let after = self@;
            if queue_consistent(before) {
                assert forall|k: int| 0 <= k < after.queue.len() implies holds_address(
                    after.peers,
                    (#[trigger] after.queue[k]).address,
                ) by {
                    let l = choose|l: int|
                        0 <= l < before.peers.len() && (#[trigger] before.peers[l]).address
                            == before.queue[k].address;
                    assert(holds_address(after.peers, before.peers[l].address));
                }
            }
        }
    }

    /// The healing phase of a merge: of the peers beyond the size `c`, up to
    /// `h` are removed, the oldest first and of equally old ones the later
    /// first. The others keep their order.
    pub fn remove_old_items(&mut self, c: usize, h: usize)
        ensures
            final(self)@ == (PartialViewModel {
                peers: healed(old(self)@.peers, c as nat, h as nat),
                ..old(self)@
            }),
            final(self)@.peers.len() == old(self)@.peers.len() - smaller(
                h as nat,
                excess(old(self)@.peers.len(), c as nat),
            ),
            is_thinning(final(self)@.peers, old(self)@.peers),
    {
        let over = if self.peers.len() > c {
            self.peers.len() - c
        } else {
            0
        };
        let removal_count = if h < over {
            h
        } else {
            over
        };
        if removal_count > 0 {
            let (others, _) = split_by_rank(&self.peers, removal_count, false);
            self.peers = others;
        } else {
            proof {
                lemma_none_oldest(self@.peers, false);
            }
        }
        proof {
            lemma_healed(old(self)@.peers, c as nat, h as nat);
        }
    }

    /// The swap phase of a merge: of the peers beyond the size `c`, up to `s`
    /// are removed from the head of the view.
    pub fn remove_head(&mut self, c: usize, s: usize)
        ensures
            final(self)@ == (PartialViewModel {
                peers: swapped(old(self)@.peers, c as nat, s as nat),
                ..old(self)@
            }),
            final(self)@.peers.len() == old(self)@.peers.len() - smaller(
                s as nat,
                excess(old(self)@.peers.len(), c as nat),
            ),
            is_thinning(final(self)@.peers, old(self)@.peers),
    {
        let over = if self.peers.len() > c {
            self.peers.len() - c
        } else {
            0
        };
        let removal_count = if s < over {
            s
        } else {
            over
        };
        let ghost before = self.peers.deep_view();
        let rest = self.peers.split_off(removal_count);
        assert(rest.deep_view() =~= before.skip(removal_count as int));
        self.peers = rest;
        proof {
            lemma_swapped(before, c as nat, s as nat);
        }
    }

    /// Removes the peer at the given place, if there is one.
    pub fn remove_at(&mut self, index: usize)
        ensures
            final(self)@ == (PartialViewModel {
                peers: if index < old(self)@.peers.len() {
                    old(self)@.peers.remove(index as int)
                } else {
                    old(self)@.peers
                },
                ..old(self)@
            }),
    {
        if index < self.peers.len() {
            let ghost before = self.peers.deep_view();
            self.peers.remove(index);
            assert(self.peers.deep_view() =~= before.remove(index as int));
        }
    }

    /// Removes peers at random until the view holds at most `c` peers.
    pub fn remove_at_random(&mut self, c: usize)
        ensures
            final(self)@.host == old(self)@.host,
            final(self)@.queue == old(self)@.queue,
            is_thinning(final(self)@.peers, old(self)@.peers),
            final(self)@.peers.len() == smaller(old(self)@.peers.len(), c as nat),
    {
        proof {
            lemma_thinning_of_itself(self@.peers);
        }
        while self.peers.len() > c
            invariant
                self@.host == old(self)@.host,
                self@.queue == old(self)@.queue,
                is_thinning(self@.peers, old(self)@.peers),
                self@.peers.len() <= old(self)@.peers.len(),
                self@.peers.len() >= smaller(old(self)@.peers.len(), c as nat),
            decreases self.peers.len(),
        {
            let ghost before = self@.peers;
            let index = random_below(self.peers.len() as u64) as usize;
            self.remove_at(index);
            proof {
                lemma_remove_thins(before, index as int);
                lemma_thinning_chain(self@.peers, before, old(self)@.peers);
            }
        }
    }

    /// Brings the queue in line with the view: entries whose address left
    /// the view are removed, and the peers of the view whose address the
    /// queue did not hold are put at its end.
    pub fn update_queue(&mut self)
        ensures
            final(self)@ == (PartialViewModel {
                queue: refreshed_queue(old(self)@.queue, old(self)@.peers),
                ..old(self)@
            }),
            addresses_within(final(self)@.queue, final(self)@.peers),
            distinct_addresses(old(self)@.queue) && distinct_addresses(old(self)@.peers)
                ==> queue_consistent(final(self)@),
    {
        let ghost waiting = self.queue.deep_view();
        let ghost models = self.peers.deep_view();
        let ghost stay = still_in_view(waiting, models);
        let ghost come = new_to_queue(models, waiting);
        let mut queue: VecDeque<Peer> = VecDeque::new();
        let mut i: usize = 0;
        assert(queue.deep_view() =~= peers_at(waiting, positions_where(stay, 0)));
        while i < self.queue.len()
            invariant
                i <= self.queue.len(),
                waiting == self.queue.deep_view(),
                models == self.peers.deep_view(),
                stay == still_in_view(waiting, models),
                queue.deep_view() == peers_at(waiting, positions_where(stay, i as int)),
            decreases self.queue.len() - i,
        {
            let ghost so_far = queue.deep_view();
            if find_address(&self.peers, &self.queue[i]).is_some() {
                queue.push_back(self.queue[i].clone());
                proof {
                    assert(stay(i as int));
                    assert(queue.deep_view() =~= so_far.push(waiting[i as int]));
                    assert(queue.deep_view() =~= peers_at(waiting, positions_where(stay, i + 1)));
                }
            } else {
                assert(!stay(i as int));
            }
            i += 1;
        }
        let ghost stayed = queue.deep_view();
        let mut j: usize = 0;
        assert(queue.deep_view() =~= stayed + peers_at(models, positions_where(come, 0)));
        while j < self.peers.len()
            invariant
                j <= self.peers.len(),
                waiting == self.queue.deep_view(),
                models == self.peers.deep_view(),
                come == new_to_queue(models, waiting),
                queue.deep_view() == stayed + peers_at(models, positions_where(come, j as int)),
            decreases self.peers.len() - j,
        {
            let ghost so_far = queue.deep_view();
            if !queue_holds(&self.queue, &self.peers[j]) {
                queue.push_back(self.peers[j].clone());
                proof {
                    assert(come(j as int));
                    assert(queue.deep_view() =~= so_far.push(models[j as int]));
                    assert(queue.deep_view() =~= stayed + peers_at(
                        models,
                        positions_where(come, j + 1),
                    ));
                }
            } else {
                assert(!come(j as int));
            }
            j += 1;
        }
        self.queue = queue;
        proof {
            lemma_queue_within(waiting, models);
            if distinct_addresses(waiting) && distinct_addresses(models) {
                lemma_refreshed_queue(waiting, models);
            }
        }
    }

    /// Merges a view received from a peer into this view.
    ///
    /// The received peers that are not the host are put at the end of the
    /// view. Duplicates are resolved in favour of the youngest. While the
    /// view holds more than `c` peers, up to `h` of the oldest are removed,
    /// then up to `s` from the head, then peers picked at random. At last
    /// the queue is brought in line with the view.
    pub fn select(&mut self, c: usize, h: usize, s: usize, buffer: &Vec<Peer>)
        ensures
            is_merge(old(self)@, final(self)@, buffer.deep_view(), c as nat, h as nat, s as nat),
            final(self)@.peers.len() <= c,
            distinct_addresses(final(self)@.peers),
            !holds_address(old(self)@.peers, old(self)@.host) ==> !holds_address(
                final(self)@.peers,
                final(self)@.host,
            ),
            forall|k: int|
                0 <= k < final(self)@.peers.len() ==> combined(
                    old(self)@.peers,
                    old(self)@.host,
                    buffer.deep_view(),
                ).contains(#[trigger] final(self)@.peers[k]),
            forall|k: int, i: int|
                #![trigger final(self)@.peers[k], combined(old(self)@.peers, old(self)@.host, buffer.deep_view())[i]]
                0 <= k < final(self)@.peers.len() && 0 <= i < combined(
                    old(self)@.peers,
                    old(self)@.host,
                    buffer.deep_view(),
                ).len() && final(self)@.peers[k].address == combined(
                    old(self)@.peers,
                    old(self)@.host,
                    buffer.deep_view(),
                )[i].address ==> final(self)@.peers[k].age <= combined(
                    old(self)@.peers,
                    old(self)@.host,
                    buffer.deep_view(),
                )[i].age,
            addresses_within(final(self)@.queue, final(self)@.peers),
            distinct_addresses(old(self)@.queue) ==> queue_consistent(final(self)@),
    {
        self.append_received(buffer);
        self.remove_duplicates();
        self.remove_old_items(c, h);
        self.remove_head(c, s);
        self.remove_at_random(c);
        self.update_queue();
        proof {
            lemma_merge(old(self)@, self@, buffer.deep_view(), c as nat, h as nat, s as nat);
        }
    }

    /// Builds the view to be exchanged with another peer: the node itself
    /// at age 0, then the head of the view, after the view was shuffled and
    /// its oldest peers moved to the end.
    pub fn build_buffer(&mut self, config: &Config) -> (buffer: Vec<Peer>)
        ensures
            is_buffer_exchange(
                old(self)@,
                final(self)@,
                buffer.deep_view(),
                config@.address,
                config@.view_size as nat,
                config@.healing_factor as nat,
            ),
            final(self)@.peers.to_multiset() == old(self)@.peers.to_multiset(),
            queue_consistent(old(self)@) ==> queue_consistent(final(self)@),
            forall|c: nat| is_sample(old(self)@, c) ==> is_sample(final(self)@, c),
    {
        let mut buffer: Vec<Peer> = Vec::new();
        buffer.push(Peer::new(config.address().to_owned()));
        self.permute();
        let ghost shuffled = self@.peers;
        self.move_oldest_to_end(config.healing_factor());
        let mut head = self.head(config.view_size());
        let ghost first = buffer.deep_view();
        let ghost rest = head.deep_view();
        buffer.append(&mut head);
        proof {
            assert(buffer.deep_view() =~= first + rest);
            assert(first =~= seq![PeerModel { address: config@.address, age: 0 }]);
            assert(shuffled.to_multiset() == old(self)@.peers.to_multiset());
            lemma_buffer_exchange(
                old(self)@,
                self@,
                buffer.deep_view(),
                config@.address,
                config@.view_size as nat,
                config@.healing_factor as nat,
            );
        }
        buffer
    }

    /// The addresses of the peers of the view, in their order.
    pub fn addresses(&self) -> (addresses: Vec<String>)
        ensures
            addresses.deep_view() == self@.peers.map_values(|p: PeerModel| p.address),
    {
        let mut addresses: Vec<String> = Vec::new();
        let mut i: usize = 0;
        while i < self.peers.len()
            invariant
                i <= self.peers.len(),
                addresses.deep_view() == self@.peers.take(i as int).map_values(
                    |p: PeerModel| p.address,
                ),
            decreases self.peers.len() - i,
        {
            let ghost so_far = addresses.deep_view();
            addresses.push(self.peers[i].address().to_owned());
            assert(addresses.deep_view() =~= so_far.push(self@.peers[i as int].address));
            assert(addresses.deep_view() =~= self@.peers.take(i + 1).map_values(
                |p: PeerModel| p.address,
            ));
            i += 1;
        }
        assert(self@.peers.take(i as int) =~= self@.peers);
        addresses
    }

    /// Returns a peer for the application: the one that has waited longest
    /// in the queue of new peers, or, where the queue is empty, a peer of
    /// the view picked at random.
    pub fn get_peer(&mut self) -> (peer: Option<Peer>)
        ensures
            final(self)@.host == old(self)@.host,
            final(self)@.peers == old(self)@.peers,
            old(self)@.queue.len() > 0 ==> peer.deep_view() == Some(old(self)@.queue[0])
                && final(self)@.queue == old(self)@.queue.skip(1),
            old(self)@.queue.len() == 0 ==> final(self)@.queue == old(self)@.queue && (peer is None
                <==> old(self)@.peers.len() == 0) && (peer is Some ==> old(self)@.peers.contains(
                peer->0@,
            )),
            queue_consistent(old(self)@) ==> queue_consistent(final(self)@),
            forall|c: nat| is_sample(old(self)@, c) ==> is_sample(final(self)@, c),
    {
        if let Some(peer) = self.queue.pop_front() {
            proof {
                let before = old(self)@.queue;
                assert(self@.queue =~= before.skip(1));
                if queue_consistent(old(self)@) {
                    assert forall|i: int, j: int| 0 <= i < j < self@.queue.len() implies (
                    #[trigger] self@.queue[i]).address != (#[trigger] self@.queue[j]).address by {
                        assert(before[i + 1].address != before[j + 1].address);
                    }
                    assert forall|i: int| 0 <= i < self@.queue.len() implies holds_address(
                        self@.peers,
                        (#[trigger] self@.queue[i]).address,
                    ) by {
                        assert(self@.queue[i] == before[i + 1]);
                    }
                }
            }
            Some(peer)
        } else {
            assert(self@.queue =~= old(self)@.queue);
            self.select_peer()
        }
    }
}

/// A view whose peers were put in another order is as consistent and as
/// much of a sample as before.
proof fn lemma_same_peers(before: PartialViewModel, after: PartialViewModel)
    requires
        after.peers.to_multiset() == before.peers.to_multiset(),
        after.host == before.host,
        after.queue == before.queue,
    ensures
        queue_consistent(before) ==> queue_consistent(after),
        forall|c: nat| is_sample(before, c) ==> is_sample(after, c),
{
    lemma_rearranged(after.peers, before.peers);
    lemma_rearranged(before.peers, after.peers);
    if distinct_addresses(before.peers) {
        lemma_rearranged_distinct(after.peers, before.peers);
    }
    lemma_same_addresses(before, after);
}

/// A view whose peers have the addresses they had, place by place or in
/// another order, is as consistent and as much of a sample as before.
proof fn lemma_same_addresses(before: PartialViewModel, after: PartialViewModel)
    requires
        after.host == before.host,
        after.queue == before.queue,
        after.peers.len() == before.peers.len(),
        addresses_within(before.peers, after.peers),
        addresses_within(after.peers, before.peers),
        distinct_addresses(before.peers) ==> distinct_addresses(after.peers),
    ensures
        queue_consistent(before) ==> queue_consistent(after),
        forall|c: nat| is_sample(before, c) ==> is_sample(after, c),
{
    if queue_consistent(before) {
        assert forall|i: int| 0 <= i < after.queue.len() implies holds_address(
            after.peers,
            (#[trigger] after.queue[i]).address,
        ) by {
            let k = choose|k: int|
                0 <= k < before.peers.len() && (#[trigger] before.peers[k]).address
                    == before.queue[i].address;
            assert(holds_address(after.peers, before.peers[k].address));
        }
    }
    if holds_address(after.peers, after.host) {
        let k = choose|k: int|
            0 <= k < after.peers.len() && (#[trigger] after.peers[k]).address == after.host;
        assert(holds_address(before.peers, after.peers[k].address));
    }
}

} // verus!
