use gbps::exchange::cycle_delay;
use gbps::exchange::initial_view;
use gbps::exchange::react;
use gbps::exchange::sample;
use gbps::exchange::shutdown_message;
use gbps::Config;
use gbps::Message;
use gbps::MessageType;
use gbps::MonitoringConfig;
use gbps::PartialView;
use gbps::Peer;

fn aged(address: &str, age: u16) -> Peer {
    let mut bytes = address.as_bytes().to_vec();
    bytes.push(b',');
    bytes.push((age >> 8) as u8);
    bytes.push((age & 0xFF) as u8);
    Peer::from_bytes(&bytes).unwrap()
}

fn node(address: &str, push: bool, pull: bool) -> Config {
    Config::new(address.to_owned(), push, pull, 1, 0, 4, 1, 2, None).unwrap()
}

fn listed(view: &PartialView) -> Vec<(String, u16)> {
    view.peers().iter().map(|p| (p.address().to_owned(), p.age())).collect()
}

fn sorted(mut peers: Vec<(String, u16)>) -> Vec<(String, u16)> {
    peers.sort();
    peers
}

#[test]
fn initial_view_holds_the_first_contacts() {
    let config = node("127.0.0.1:9001", true, true);
    let view = initial_view(&config, None);
    assert_eq!(view.host_address(), "127.0.0.1:9001");
    assert!(view.peers().is_empty());
    let view = initial_view(&config, Some(vec![Peer::new("127.0.0.1:9000".to_owned())]));
    assert_eq!(listed(&view), vec![("127.0.0.1:9000".to_owned(), 0)]);
    assert_eq!(view.queue_len(), 0);
}

#[test]
fn delay_without_deviation_is_the_period() {
    let config = Config::new("a:1".to_owned(), true, true, 1, 0, 4, 1, 2, None).unwrap();
    assert_eq!(cycle_delay(&config), 1000);
    let config = Config::new("a:1".to_owned(), true, true, 0, 0, 4, 1, 2, None).unwrap();
    assert_eq!(cycle_delay(&config), 0);
}

#[test]
fn delay_with_deviation_stays_below_their_sum() {
    let config = Config::new("a:1".to_owned(), true, true, 5, 5, 4, 1, 2, None).unwrap();
    for _ in 0..100 {
        let delay = cycle_delay(&config);
        assert!(5000 <= delay && delay < 10000);
    }
}

#[test]
fn sampler_with_an_empty_view_does_nothing() {
    let config = node("127.0.0.1:9000", true, true);
    let mut view = initial_view(&config, None);
    assert!(sample(&config, &mut view).is_none());
    assert!(view.peers().is_empty());
}

#[test]
fn sampler_that_pushes_sends_its_buffer() {
    let config = Config::new("127.0.0.1:9000".to_owned(), true, true, 1, 0, 6, 1, 2, None).unwrap();
    let seeds = vec![aged("a", 1), aged("b", 7), aged("c", 3), aged("d", 2)];
    let mut view = initial_view(&config, Some(seeds));
    let outgoing = sample(&config, &mut view).unwrap();
    assert!(["a", "b", "c", "d"].contains(&outgoing.to.as_str()));
    assert_eq!(outgoing.message.sender(), "127.0.0.1:9000");
    assert_eq!(*outgoing.message.message_type(), MessageType::Request);
    let buffer = outgoing.message.view().as_ref().unwrap();
    // the node itself, then 6 / 2 - 1 peers from the head
    assert_eq!(buffer.len(), 3);
    assert_eq!((buffer[0].address(), buffer[0].age()), ("127.0.0.1:9000", 0));
    // the oldest peer went to the end of the view, and every peer aged
    let after = listed(&view);
    assert_eq!(after[3], ("b".to_owned(), 8));
    assert_eq!(
        sorted(after.to_vec()),
        vec![("a".to_owned(), 2), ("b".to_owned(), 8), ("c".to_owned(), 4), ("d".to_owned(), 3)]
    );
    // the buffer holds the head as it stood before aging
    assert_eq!((buffer[1].address(), buffer[1].age() + 1), (after[0].0.as_str(), after[0].1));
    assert_eq!((buffer[2].address(), buffer[2].age() + 1), (after[1].0.as_str(), after[1].1));
}

#[test]
fn sampler_that_does_not_push_sends_a_probe() {
    let config = node("127.0.0.1:9000", false, true);
    let mut view = initial_view(&config, Some(vec![aged("a", 1), aged("b", 7)]));
    let outgoing = sample(&config, &mut view).unwrap();
    assert!(["a", "b"].contains(&outgoing.to.as_str()));
    assert_eq!(outgoing.message.sender(), "127.0.0.1:9000");
    assert_eq!(*outgoing.message.message_type(), MessageType::Request);
    assert!(outgoing.message.view().is_none());
    assert_eq!(listed(&view), vec![("a".to_owned(), 2), ("b".to_owned(), 8)]);
}

#[test]
fn request_is_answered_by_a_node_that_pulls() {
    let config = node("127.0.0.1:9000", true, true);
    let mut view = initial_view(&config, Some(vec![aged("a", 1)]));
    let request = Message::new_request("127.0.0.1:9001".to_owned(), Some(vec![aged("b", 0)]));
    let reaction = react(&config, &mut view, &request);
    let response = reaction.response.unwrap();
    assert_eq!(response.to, "127.0.0.1:9001");
    assert_eq!(response.message.sender(), "127.0.0.1:9000");
    assert_eq!(*response.message.message_type(), MessageType::Response);
    let buffer = response.message.view().as_ref().unwrap();
    // the view size is 4: the node itself and one peer
    assert_eq!(buffer.len(), 2);
    assert_eq!((buffer[0].address(), buffer[0].age()), ("127.0.0.1:9000", 0));
    assert_eq!((buffer[1].address(), buffer[1].age()), ("a", 1));
    assert_eq!(listed(&view), vec![("a".to_owned(), 2), ("b".to_owned(), 1)]);
    assert!(reaction.snapshot.is_none());
}

#[test]
fn request_is_not_answered_by_a_node_that_does_not_pull() {
    let config = node("127.0.0.1:9000", true, false);
    let mut view = initial_view(&config, Some(vec![aged("a", 1)]));
    let request = Message::new_request("127.0.0.1:9001".to_owned(), Some(vec![aged("b", 0)]));
    let reaction = react(&config, &mut view, &request);
    assert!(reaction.response.is_none());
    assert_eq!(listed(&view), vec![("a".to_owned(), 2), ("b".to_owned(), 1)]);
}

#[test]
fn response_is_merged_and_not_answered() {
    let config = node("127.0.0.1:9000", true, true);
    let mut view = initial_view(&config, Some(vec![aged("a", 5)]));
    let response = Message::new_response(
        "127.0.0.1:9001".to_owned(),
        Some(vec![aged("127.0.0.1:9001", 0), aged("a", 1), aged("127.0.0.1:9000", 3)]),
    );
    let reaction = react(&config, &mut view, &response);
    assert!(reaction.response.is_none());
    assert_eq!(listed(&view), vec![("a".to_owned(), 2), ("127.0.0.1:9001".to_owned(), 1)]);
    assert_eq!(view.get_peer().unwrap().address(), "a");
    assert_eq!(view.get_peer().unwrap().address(), "127.0.0.1:9001");
}

#[test]
fn probe_is_answered_and_only_ages_the_view() {
    let config = node("127.0.0.1:9000", false, true);
    let mut view = initial_view(&config, Some(vec![aged("a", 1)]));
    let probe = Message::new_request("127.0.0.1:9001".to_owned(), None);
    let reaction = react(&config, &mut view, &probe);
    let response = reaction.response.unwrap();
    assert_eq!(response.to, "127.0.0.1:9001");
    assert_eq!(response.message.view().as_ref().unwrap().len(), 2);
    assert!(reaction.snapshot.is_none());
    assert_eq!(listed(&view), vec![("a".to_owned(), 2)]);
    assert_eq!(view.queue_len(), 0);
}

#[test]
fn merged_view_is_reported_where_monitoring_is_enabled() {
    let monitoring = MonitoringConfig::new(true, "127.0.0.1:8080");
    let config =
        Config::new("127.0.0.1:9000".to_owned(), true, true, 1, 0, 4, 1, 2, Some(monitoring))
            .unwrap();
    let mut view = initial_view(&config, Some(vec![aged("a", 1)]));
    let response = Message::new_response("b".to_owned(), Some(vec![aged("b", 0)]));
    let reaction = react(&config, &mut view, &response);
    assert_eq!(reaction.snapshot.unwrap(), vec!["a", "b"]);
    let empty = Message::new_response("b".to_owned(), None);
    let reaction = react(&config, &mut view, &empty);
    assert!(reaction.snapshot.is_none());
}

#[test]
fn two_nodes_come_to_know_each_other() {
    let a = node("127.0.0.1:9000", true, true);
    let b = node("127.0.0.1:9001", true, true);
    let mut view_a = initial_view(&a, None);
    let mut view_b = initial_view(&b, Some(vec![Peer::new("127.0.0.1:9000".to_owned())]));
    assert!(sample(&a, &mut view_a).is_none());
    let request = sample(&b, &mut view_b).unwrap();
    assert_eq!(request.to, "127.0.0.1:9000");
    let wire = request.message.as_bytes();
    let reaction = react(&a, &mut view_a, &Message::from_bytes(&wire).unwrap());
    let response = reaction.response.unwrap();
    assert_eq!(response.to, "127.0.0.1:9001");
    let wire = response.message.as_bytes();
    let reaction = react(&b, &mut view_b, &Message::from_bytes(&wire).unwrap());
    assert!(reaction.response.is_none());
    assert!(view_a.peers().iter().any(|p| p.address() == "127.0.0.1:9001"));
    assert!(view_b.peers().iter().any(|p| p.address() == "127.0.0.1:9000"));
    assert!(view_a.peers().iter().all(|p| p.address() != "127.0.0.1:9000"));
    assert!(view_b.peers().iter().all(|p| p.address() != "127.0.0.1:9001"));
    assert_eq!(view_a.get_peer().unwrap().address(), "127.0.0.1:9001");
}

#[test]
fn probing_node_comes_to_know_its_partner() {
    let a = node("127.0.0.1:9000", false, true);
    let b = node("127.0.0.1:9001", true, true);
    let mut view_a = initial_view(&a, None);
    let mut view_b = initial_view(&b, Some(vec![Peer::new("127.0.0.1:9000".to_owned())]));
    let request = sample(&b, &mut view_b).unwrap();
    let reaction = react(&a, &mut view_a, &Message::from_bytes(&request.message.as_bytes()).unwrap());
    let response = reaction.response.unwrap();
    react(&b, &mut view_b, &Message::from_bytes(&response.message.as_bytes()).unwrap());
    assert!(view_a.peers().iter().any(|p| p.address() == "127.0.0.1:9001"));
    assert!(view_b.peers().iter().any(|p| p.address() == "127.0.0.1:9000"));
    // now a probes b
    let probe = sample(&a, &mut view_a).unwrap();
    assert_eq!(probe.to, "127.0.0.1:9001");
    assert!(probe.message.view().is_none());
    let reaction = react(&b, &mut view_b, &Message::from_bytes(&probe.message.as_bytes()).unwrap());
    assert_eq!(reaction.response.unwrap().to, "127.0.0.1:9000");
}

#[test]
fn shutdown_message_goes_to_the_node_itself() {
    let config = node("127.0.0.1:9000", true, true);
    let outgoing = shutdown_message(&config);
    assert_eq!(outgoing.to, "127.0.0.1:9000");
    assert_eq!(outgoing.message.sender(), "127.0.0.1:9000");
    assert_eq!(*outgoing.message.message_type(), MessageType::Response);
    assert!(outgoing.message.view().is_none());
    assert_eq!(outgoing.message.as_bytes()[0], 0x00);
}

#[test]
fn one_stray_byte_is_no_message() {
    for byte in [0x00u8, 0x80, 0x2C, 0xFF] {
        assert!(Message::from_bytes(&[byte]).is_err());
    }
    let config = node("127.0.0.1:9000", true, true);
    let mut view = initial_view(&config, None);
    let good = Message::new_response("b".to_owned(), Some(vec![aged("b", 0)])).as_bytes();
    react(&config, &mut view, &Message::from_bytes(&good).unwrap());
    assert_eq!(listed(&view), vec![("b".to_owned(), 1)]);
}
