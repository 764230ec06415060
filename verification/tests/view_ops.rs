use gbps::PartialView;
use gbps::Peer;

fn aged(address: &str, age: u16) -> Peer {
    let mut bytes = address.as_bytes().to_vec();
    bytes.push(b',');
    bytes.push((age >> 8) as u8);
    bytes.push((age & 0xFF) as u8);
    Peer::from_bytes(&bytes).unwrap()
}

fn view_of(host: &str, peers: &[(&str, u16)]) -> PartialView {
    let mut view = PartialView::new(host.to_owned());
    view.seed(peers.iter().map(|(address, age)| aged(address, *age)).collect());
    view
}

fn listed(view: &PartialView) -> Vec<(String, u16)> {
    view.peers().iter().map(|p| (p.address().to_owned(), p.age())).collect()
}

fn pairs(peers: &[(&str, u16)]) -> Vec<(String, u16)> {
    peers.iter().map(|(address, age)| (address.to_string(), *age)).collect()
}

fn sorted(mut peers: Vec<(String, u16)>) -> Vec<(String, u16)> {
    peers.sort();
    peers
}

#[test]
fn new_view_is_empty() {
    let mut view = PartialView::new("host:1".to_owned());
    assert_eq!(view.host_address(), "host:1");
    assert!(view.peers().is_empty());
    assert_eq!(view.queue_len(), 0);
    assert!(view.select_peer().is_none());
    assert!(view.get_peer().is_none());
    assert!(view.peer_at(0).is_none());
    assert!(view.addresses().is_empty());
}

#[test]
fn seed_appends_as_is() {
    let mut view = view_of("host:1", &[("a", 1), ("a", 2)]);
    view.seed(vec![aged("host:1", 3)]);
    assert_eq!(listed(&view), pairs(&[("a", 1), ("a", 2), ("host:1", 3)]));
    assert_eq!(view.queue_len(), 0);
}

#[test]
fn peer_at_gives_the_peer_of_the_place() {
    let view = view_of("host:1", &[("a", 1), ("b", 2)]);
    let second = view.peer_at(1).unwrap();
    assert_eq!((second.address(), second.age()), ("b", 2));
    assert!(view.peer_at(2).is_none());
}

#[test]
fn select_peer_gives_a_peer_of_the_view() {
    let single = view_of("host:1", &[("a", 4)]);
    for _ in 0..20 {
        let peer = single.select_peer().unwrap();
        assert_eq!((peer.address(), peer.age()), ("a", 4));
    }
    let view = view_of("host:1", &[("a", 1), ("b", 2), ("c", 3)]);
    for _ in 0..50 {
        let peer = view.select_peer().unwrap();
        assert!(listed(&view).contains(&(peer.address().to_owned(), peer.age())));
    }
}

#[test]
fn permute_keeps_the_peers() {
    let all = [("a", 1), ("b", 2), ("c", 3), ("d", 4), ("e", 5), ("f", 6)];
    let mut view = view_of("host:1", &all);
    for _ in 0..20 {
        view.permute();
        assert_eq!(sorted(listed(&view)), pairs(&all));
    }
}

#[test]
fn move_oldest_to_end_moves_the_oldest() {
    let all = [("a", 1), ("b", 5), ("c", 3), ("d", 6), ("e", 2)];
    let mut view = view_of("host:1", &all);
    view.move_oldest_to_end(2);
    assert_eq!(listed(&view), pairs(&[("a", 1), ("c", 3), ("e", 2), ("b", 5), ("d", 6)]));
    let mut view = view_of("host:1", &all);
    view.move_oldest_to_end(1);
    assert_eq!(listed(&view), pairs(&[("a", 1), ("b", 5), ("c", 3), ("e", 2), ("d", 6)]));
    let mut view = view_of("host:1", &all);
    view.move_oldest_to_end(4);
    assert_eq!(listed(&view), pairs(&[("a", 1), ("b", 5), ("c", 3), ("d", 6), ("e", 2)]));
    let mut view = view_of("host:1", &all);
    view.move_oldest_to_end(0);
    assert_eq!(listed(&view), pairs(&all));
}

#[test]
fn move_oldest_to_end_needs_more_peers_than_it_moves() {
    let all = [("a", 9), ("b", 5), ("c", 7)];
    let mut view = view_of("host:1", &all);
    view.move_oldest_to_end(3);
    assert_eq!(listed(&view), pairs(&all));
    view.move_oldest_to_end(7);
    assert_eq!(listed(&view), pairs(&all));
    view.move_oldest_to_end(2);
    assert_eq!(listed(&view), pairs(&[("b", 5), ("a", 9), ("c", 7)]));
}

#[test]
fn move_oldest_to_end_takes_the_earlier_of_equals() {
    let mut view = view_of("host:1", &[("a", 1), ("b", 5), ("c", 3), ("d", 5), ("e", 2)]);
    view.move_oldest_to_end(1);
    assert_eq!(listed(&view), pairs(&[("a", 1), ("c", 3), ("d", 5), ("e", 2), ("b", 5)]));
}

#[test]
fn move_oldest_to_end_goes_by_place_not_by_address() {
    let mut view = view_of("host:1", &[("a", 9), ("b", 1), ("a", 0), ("c", 2)]);
    view.move_oldest_to_end(1);
    assert_eq!(listed(&view), pairs(&[("b", 1), ("a", 0), ("c", 2), ("a", 9)]));
}

#[test]
fn head_is_one_less_than_half_the_view_size() {
    let all = [("a", 1), ("b", 2), ("c", 3), ("d", 4), ("e", 5)];
    let view = view_of("host:1", &all);
    let length = |c: usize| view.head(c).len();
    assert_eq!(length(2), 0);
    assert_eq!(length(3), 0);
    assert_eq!(length(4), 1);
    assert_eq!(length(5), 1);
    assert_eq!(length(6), 2);
    assert_eq!(length(10), 4);
    assert_eq!(length(12), 5);
    assert_eq!(length(20), 5);
    let head = view.head(8);
    let copied: Vec<(&str, u16)> = head.iter().map(|p| (p.address(), p.age())).collect();
    assert_eq!(copied, vec![("a", 1), ("b", 2), ("c", 3)]);
    assert_eq!(listed(&view), pairs(&all));
}

#[test]
fn increase_age_adds_one_to_each() {
    let mut view = view_of("host:1", &[("a", 0), ("b", 41), ("c", 65534), ("d", 65535)]);
    view.increase_age();
    assert_eq!(listed(&view), pairs(&[("a", 1), ("b", 42), ("c", 65535), ("d", 65535)]));
    view.increase_age();
    assert_eq!(listed(&view), pairs(&[("a", 2), ("b", 43), ("c", 65535), ("d", 65535)]));
}

#[test]
fn append_received_leaves_the_host_out() {
    let mut view = view_of("host:1", &[("a", 1)]);
    view.append_received(&vec![aged("b", 2), aged("host:1", 0), aged("a", 0), aged("host:1", 9)]);
    assert_eq!(listed(&view), pairs(&[("a", 1), ("b", 2), ("a", 0)]));
}

#[test]
fn remove_duplicates_keeps_the_youngest() {
    let mut view = view_of("host:1", &[("a", 5), ("b", 1), ("a", 2), ("c", 3), ("b", 4), ("a", 2)]);
    view.remove_duplicates();
    assert_eq!(listed(&view), pairs(&[("a", 2), ("b", 1), ("c", 3)]));
    view.remove_duplicates();
    assert_eq!(listed(&view), pairs(&[("a", 2), ("b", 1), ("c", 3)]));
}

#[test]
fn remove_old_items_removes_the_oldest_of_the_excess() {
    let all = [("a", 1), ("b", 5), ("c", 3), ("d", 6), ("e", 2)];
    let mut view = view_of("host:1", &all);
    view.remove_old_items(3, 1);
    assert_eq!(listed(&view), pairs(&[("a", 1), ("b", 5), ("c", 3), ("e", 2)]));
    let mut view = view_of("host:1", &all);
    view.remove_old_items(3, 2);
    assert_eq!(listed(&view), pairs(&[("a", 1), ("c", 3), ("e", 2)]));
    let mut view = view_of("host:1", &all);
    view.remove_old_items(3, 5);
    assert_eq!(listed(&view), pairs(&[("a", 1), ("c", 3), ("e", 2)]));
    let mut view = view_of("host:1", &all);
    view.remove_old_items(5, 2);
    assert_eq!(listed(&view), pairs(&all));
    let mut view = view_of("host:1", &all);
    view.remove_old_items(3, 0);
    assert_eq!(listed(&view), pairs(&all));
    let mut view = view_of("host:1", &all);
    view.remove_old_items(0, 9);
    assert!(listed(&view).is_empty());
}

#[test]
fn remove_old_items_takes_the_later_of_equals() {
    let mut view = view_of("host:1", &[("a", 1), ("b", 5), ("c", 3), ("d", 5), ("e", 2)]);
    view.remove_old_items(4, 3);
    assert_eq!(listed(&view), pairs(&[("a", 1), ("b", 5), ("c", 3), ("e", 2)]));
}

#[test]
fn remove_head_removes_from_the_head() {
    let all = [("a", 1), ("b", 5), ("c", 3), ("d", 6), ("e", 2)];
    let mut view = view_of("host:1", &all);
    view.remove_head(3, 1);
    assert_eq!(listed(&view), pairs(&[("b", 5), ("c", 3), ("d", 6), ("e", 2)]));
    let mut view = view_of("host:1", &all);
    view.remove_head(3, 4);
    assert_eq!(listed(&view), pairs(&[("c", 3), ("d", 6), ("e", 2)]));
    let mut view = view_of("host:1", &all);
    view.remove_head(5, 4);
    assert_eq!(listed(&view), pairs(&all));
    let mut view = view_of("host:1", &all);
    view.remove_head(2, 0);
    assert_eq!(listed(&view), pairs(&all));
}

#[test]
fn remove_at_takes_one_peer_out() {
    let mut view = view_of("host:1", &[("a", 1), ("b", 5), ("c", 3)]);
    view.remove_at(1);
    assert_eq!(listed(&view), pairs(&[("a", 1), ("c", 3)]));
    view.remove_at(2);
    assert_eq!(listed(&view), pairs(&[("a", 1), ("c", 3)]));
    view.remove_at(0);
    assert_eq!(listed(&view), pairs(&[("c", 3)]));
}

#[test]
fn remove_at_random_leaves_the_view_size() {
    let all = [("a", 1), ("b", 5), ("c", 3), ("d", 6), ("e", 2), ("f", 0)];
    for c in 0..8usize {
        let mut view = view_of("host:1", &all);
        view.remove_at_random(c);
        let left = listed(&view);
        assert_eq!(left.len(), c.min(6));
        let mut last = 0;
        for peer in &left {
            let place = pairs(&all).iter().position(|p| p == peer).unwrap();
            assert!(left[0] == *peer || place > last);
            last = place;
        }
    }
}

#[test]
fn update_queue_follows_the_view() {
    let mut view = view_of("host:1", &[("a", 1), ("b", 2), ("c", 3)]);
    view.update_queue();
    assert_eq!(view.queue_len(), 3);
    view.remove_at(0);
    view.seed(vec![aged("d", 4)]);
    view.update_queue();
    assert_eq!(view.queue_len(), 3);
    let handed: Vec<String> =
        (0..3).map(|_| view.get_peer().unwrap().address().to_owned()).collect();
    assert_eq!(handed, vec!["b", "c", "d"]);
    assert_eq!(view.queue_len(), 0);
    view.update_queue();
    assert_eq!(view.queue_len(), 3);
}

#[test]
fn update_queue_keeps_what_the_queue_held() {
    let mut view = view_of("host:1", &[("a", 1)]);
    view.update_queue();
    view.increase_age();
    view.update_queue();
    assert_eq!(view.queue_len(), 1);
    let peer = view.get_peer().unwrap();
    assert_eq!((peer.address(), peer.age()), ("a", 1));
}

#[test]
fn get_peer_takes_from_the_queue_first() {
    let mut view = view_of("host:1", &[("a", 1), ("b", 2)]);
    view.select(4, 1, 2, &vec![aged("c", 0)]);
    assert_eq!(view.queue_len(), 3);
    assert_eq!(view.get_peer().unwrap().address(), "a");
    assert_eq!(view.get_peer().unwrap().address(), "b");
    assert_eq!(view.get_peer().unwrap().address(), "c");
    assert_eq!(view.queue_len(), 0);
    for _ in 0..10 {
        let peer = view.get_peer().unwrap();
        assert!(["a", "b", "c"].contains(&peer.address()));
        assert_eq!(view.peers().len(), 3);
    }
}

#[test]
fn merge_keeps_the_bound() {
    let mut view = view_of("127.0.0.1:9000", &[("u1", 3), ("u2", 1), ("u3", 2)]);
    let incoming = vec![aged("q1", 0), aged("q2", 0), aged("q3", 0), aged("q4", 0)];
    view.select(4, 1, 2, &incoming);
    assert_eq!(view.peers().len(), 4);
    assert!(view.peers().iter().all(|p| p.address() != "127.0.0.1:9000"));
    assert_eq!(listed(&view), pairs(&[("q1", 0), ("q2", 0), ("q3", 0), ("q4", 0)]));
    assert_eq!(view.queue_len(), 4);
}

#[test]
fn merge_leaves_the_host_out() {
    let mut view = view_of("127.0.0.1:9000", &[("u1", 3)]);
    view.select(4, 1, 2, &vec![aged("127.0.0.1:9000", 0), aged("q1", 0)]);
    assert_eq!(listed(&view), pairs(&[("u1", 3), ("q1", 0)]));
}

#[test]
fn merge_keeps_the_fresher_duplicate() {
    let mut view = view_of("host:1", &[("X", 5)]);
    view.select(4, 1, 2, &vec![aged("X", 1)]);
    assert_eq!(listed(&view), pairs(&[("X", 1)]));
    let mut view = view_of("host:1", &[("X", 1)]);
    view.select(4, 1, 2, &vec![aged("X", 5)]);
    assert_eq!(listed(&view), pairs(&[("X", 1)]));
}

#[test]
fn merge_goes_through_its_phases() {
    let mut view = view_of("h", &[("a", 4), ("b", 9), ("c", 1), ("d", 9)]);
    let incoming = vec![aged("e", 0), aged("a", 2), aged("h", 0), aged("f", 7), aged("g", 3)];
    // together: a2 b9 c1 d9 e0 f7 g3; the oldest, d, leaves; then a and b from the head
    view.select(4, 1, 2, &incoming);
    assert_eq!(listed(&view), pairs(&[("c", 1), ("e", 0), ("f", 7), ("g", 3)]));
    assert_eq!(view.queue_len(), 4);
}

#[test]
fn merge_with_random_removal_keeps_the_invariants() {
    for _ in 0..30 {
        let mut view = view_of("h", &[("a", 4), ("b", 9), ("c", 1), ("d", 9)]);
        let incoming = vec![
            aged("e", 0),
            aged("a", 2),
            aged("h", 0),
            aged("f", 7),
            aged("g", 3),
            aged("i", 3),
            aged("j", 3),
            aged("e", 3),
        ];
        view.select(3, 1, 1, &incoming);
        let left = listed(&view);
        assert_eq!(left.len(), 3);
        let mut addresses: Vec<&str> = left.iter().map(|p| p.0.as_str()).collect();
        addresses.sort();
        addresses.dedup();
        assert_eq!(addresses.len(), 3);
        assert!(!addresses.contains(&"h"));
        // a2 b9 c1 d9 e0 f7 g3 i3 j3: d leaves for its age, a from the head
        assert!(!addresses.contains(&"a") && !addresses.contains(&"d"));
        for peer in &left {
            if peer.0 == "e" {
                assert_eq!(peer.1, 0);
            }
        }
        assert_eq!(view.queue_len(), 3);
        for _ in 0..3 {
            let handed = view.get_peer().unwrap();
            assert!(addresses.contains(&handed.address()));
        }
    }
}

#[test]
fn merges_in_a_row_keep_the_invariants() {
    let mut view = PartialView::new("n0".to_owned());
    for round in 0..40u16 {
        let incoming: Vec<Peer> =
            (0..6).map(|i| aged(&format!("n{}", (round * 3 + i) % 11), i)).collect();
        view.select(5, 2, 2, &incoming);
        view.increase_age();
        let left = listed(&view);
        assert!(left.len() <= 5);
        let mut addresses: Vec<&str> = left.iter().map(|p| p.0.as_str()).collect();
        addresses.sort();
        addresses.dedup();
        assert_eq!(addresses.len(), left.len());
        assert!(!addresses.contains(&"n0"));
        assert!(view.queue_len() <= left.len());
    }
}

#[test]
fn addresses_lists_the_view() {
    let view = view_of("host:1", &[("a", 1), ("b", 5), ("a", 3)]);
    assert_eq!(view.addresses(), vec!["a", "b", "a"]);
}
