//! What a node decides: when its sampler wakes up, when a message comes
//! in, and when it shuts down. Each decision updates the view and hands
//! back what is to be sent; sending it is left to the caller.

use vstd::prelude::*;
use crate::config::Config;
use crate::config::ConfigModel;
use crate::message::Message;
use crate::message::MessageModel;
use crate::message::MessageType;
use crate::peer::Peer;
use crate::peer::PeerModel;
use crate::random::random_below;
use crate::selection::holds_address;
use crate::selection::lemma_rearranged;
use crate::view::aged_view;
use crate::view::is_buffer_exchange;
use crate::view::is_merge;
use crate::view::is_sample;
use crate::view::PartialView;
use crate::view::PartialViewModel;
use crate::view::queue_consistent;

verus! {

/// What a message on its way is: the address it goes to, and the message.
pub struct OutgoingModel {
    pub to: Seq<char>,
    pub message: MessageModel,
}

/// A message and the address it is to be sent to.
#[derive(Debug)]
pub struct Outgoing {
    pub to: String,
    pub message: Message,
}

impl DeepView for Outgoing {
    type V = OutgoingModel;

    open spec fn deep_view(&self) -> OutgoingModel {
        OutgoingModel { to: self.to@, message: self.message.deep_view() }
    }
}

/// What a node does about a message it received: the response to send, if
/// any, and the addresses of the view to report, if any.
#[derive(Debug)]
pub struct Reaction {
    pub response: Option<Outgoing>,
    pub snapshot: Option<Vec<String>>,
}

/// The addresses of some peers, in their order.
pub open spec fn addresses_of(peers: Seq<PeerModel>) -> Seq<Seq<char>> {
    peers.map_values(|p: PeerModel| p.address)
}

/// Whether sending `request` is what a sampling cycle makes of the view
/// `before`, and `after` the view it leaves. The partner is a peer of the
/// view. A node that pushes sends the buffer it builds; another sends no
/// view. The view ages by one event.
pub open spec fn is_sampling(
    config: ConfigModel,
    before: PartialViewModel,
    after: PartialViewModel,
    request: OutgoingModel,
) -> bool {
    &&& holds_address(before.peers, request.to)
    &&& request.message.sender == config.address
    &&& request.message.message_type == MessageType::Request
    &&& if config.push {
        &&& request.message.view is Some
        &&& exists|sent: PartialViewModel| #[trigger]
            is_buffer_exchange(
                before,
                sent,
                request.message.view->0,
                config.address,
                config.view_size as nat,
                config.healing_factor as nat,
            ) && after == aged_view(sent)
    } else {
        &&& request.message.view is None
        &&& after == aged_view(before)
    }
}

/// Whether `response` and `snapshot` are what receiving `message` makes of
/// the view `before`, and `after` the view it leaves.
///
/// A node that pulls answers a request with the buffer it builds, to the
/// sender of the request; `replied` is the view once the buffer is built.
/// A view that the message carries is merged; `merged` is the view after
/// that, and its addresses are reported where monitoring is enabled. The
/// view ages by one event.
pub open spec fn is_reaction(
    config: ConfigModel,
    before: PartialViewModel,
    replied: PartialViewModel,
    merged: PartialViewModel,
    after: PartialViewModel,
    message: MessageModel,
    response: Option<OutgoingModel>,
    snapshot: Option<Seq<Seq<char>>>,
) -> bool {
    &&& if message.message_type == MessageType::Request && config.pull {
        &&& response is Some
        &&& response->0.to == message.sender
        &&& response->0.message.sender == config.address
        &&& response->0.message.message_type == MessageType::Response
        &&& response->0.message.view is Some
        &&& is_buffer_exchange(
            before,
            replied,
            response->0.message.view->0,
            config.address,
            config.view_size as nat,
            config.healing_factor as nat,
        )
    } else {
        &&& response is None
        &&& replied == before
    }
    &&& match message.view {
        Some(buffer) => {
            &&& is_merge(
                replied,
                merged,
                buffer,
                config.view_size as nat,
                config.healing_factor as nat,
                config.swapping_factor as nat,
            )
            &&& snapshot == if config.monitoring.enabled {
                Some(addresses_of(merged.peers))
            } else {
                None
            }
        },
        None => {
            &&& merged == replied
            &&& snapshot is None
        },
    }
    &&& after == aged_view(merged)
}

/// The view with which a node starts: empty but for its first contacts, if
/// it has any.
pub fn initial_view(config: &Config, initial_peers: Option<Vec<Peer>>) -> (view: PartialView)
    ensures
        view@ == (PartialViewModel {
            host: config@.address,
            peers: match initial_peers {
                Some(peers) => peers.deep_view(),
                None => Seq::empty(),
            },
            queue: Seq::empty(),
        }),
        queue_consistent(view@),
{
    let mut view = PartialView::new(config.address().to_owned());
    if let Some(peers) = initial_peers {
        let ghost added = peers.deep_view();
        view.seed(peers);
        assert(Seq::<PeerModel>::empty() + added =~= added);
    }
    view
}

/// The time to wait before the next sampling cycle, in milliseconds: the
/// sampling period, and a random part below the deviation.
pub fn cycle_delay(config: &Config) -> (delay: u64)
    ensures
        config@.sampling_period * 1000 <= delay,
        config@.sampling_deviation == 0 ==> delay == config@.sampling_period * 1000,
        config@.sampling_deviation > 0 ==> delay < config@.sampling_period * 1000
            + config@.sampling_deviation * 1000,
{
    let period = config.sampling_period();
    let deviation = if config.sampling_deviation() == 0 {
        0
    } else {
        random_below(config.sampling_deviation() * 1000)
    };
    period * 1000 + deviation
}

/// One cycle of the sampler. With an empty view nothing happens. Else a
/// partner is picked at random from the view and a request for it is handed
/// back: with the buffer of the node if it pushes, without a view if not.
/// The view ages by one event.
pub fn sample(config: &Config, view: &mut PartialView) -> (request: Option<Outgoing>)
    ensures
        match request {
            None => old(view)@.peers.len() == 0 && final(view)@ == old(view)@,
            Some(outgoing) => old(view)@.peers.len() > 0 && is_sampling(
                config@,
                old(view)@,
                final(view)@,
                outgoing.deep_view(),
            ),
        },
        queue_consistent(old(view)@) ==> queue_consistent(final(view)@),
        forall|c: nat| is_sample(old(view)@, c) ==> is_sample(final(view)@, c),
{
    match view.select_peer() {
        None => None,
        Some(peer) => {
            let ghost i = choose|i: int| 0 <= i < view@.peers.len() && view@.peers[i] == peer@;
            assert(view@.peers[i].address == peer@.address);
            let buffer = if config.is_push() {
                Some(view.build_buffer(config))
            } else {
                None
            };
            let ghost sent = view@;
            view.increase_age();
            proof {
                if config@.push {
                    assert(is_buffer_exchange(
                        old(view)@,
                        sent,
                        buffer.deep_view()->0,
                        config@.address,
                        config@.view_size as nat,
                        config@.healing_factor as nat,
                    ) && view@ == aged_view(sent));
                }
            }
            Some(
                Outgoing {
                    to: peer.address().to_owned(),
                    message: Message::new_request(config.address().to_owned(), buffer),
                },
            )
        },
    }
}

/// What a node does about a message: it answers a request with its buffer
/// if it pulls, merges the view that the message carries if there is one,
/// and ages its view by one event.
pub fn react(config: &Config, view: &mut PartialView, message: &Message) -> (reaction: Reaction)
    ensures
        exists|replied: PartialViewModel, merged: PartialViewModel| #[trigger]
            is_reaction(
                config@,
                old(view)@,
                replied,
                merged,
                final(view)@,
                message.deep_view(),
                reaction.response.deep_view(),
                reaction.snapshot.deep_view(),
            ),
        queue_consistent(old(view)@) ==> queue_consistent(final(view)@),
        is_sample(old(view)@, config@.view_size as nat) ==> is_sample(
            final(view)@,
            config@.view_size as nat,
        ),
        message.deep_view().view is Some && !holds_address(old(view)@.peers, old(view)@.host)
            ==> is_sample(final(view)@, config@.view_size as nat),
{
    let replies = match message.message_type() {
        MessageType::Request => config.is_pull(),
        MessageType::Response => false,
    };
    let response = if replies {
        let buffer = view.build_buffer(config);
        Some(
            Outgoing {
                to: message.sender().to_owned(),
                message: Message::new_response(config.address().to_owned(), Some(buffer)),
            },
        )
    } else {
        None
    };
    let ghost replied = view@;
    proof {
        if holds_address(replied.peers, replied.host) && !holds_address(
            old(view)@.peers,
            old(view)@.host,
        ) {
            lemma_rearranged(replied.peers, old(view)@.peers);
            let k = choose|k: int|
                0 <= k < replied.peers.len() && (#[trigger] replied.peers[k]).address
                    == replied.host;
            assert(holds_address(old(view)@.peers, replied.peers[k].address));
        }
    }
    let snapshot = match message.view() {
        Some(buffer) => {
            view.select(
                config.view_size(),
                config.healing_factor(),
                config.swapping_factor(),
                buffer,
            );
            if config.monitoring().enabled() {
                Some(view.addresses())
            } else {
                None
            }
        },
        None => None,
    };
    let ghost merged = view@;
    view.increase_age();
    proof {
        assert(is_reaction(
            config@,
            old(view)@,
            replied,
            merged,
            view@,
            message.deep_view(),
            response.deep_view(),
            snapshot.deep_view(),
        ));
    }
    Reaction { response, snapshot }
}

/// The message with which a node wakes its own listener when it shuts
/// down: a response without a view, sent to its own address.
pub fn shutdown_message(config: &Config) -> (outgoing: Outgoing)
    ensures
        outgoing.deep_view() == (OutgoingModel {
            to: config@.address,
            message: MessageModel {
                sender: config@.address,
                message_type: MessageType::Response,
                view: None,
            },
        }),
{
    Outgoing {
        to: config.address().to_owned(),
        message: Message::new_response(config.address().to_owned(), None),
    }
}

} // verus!
