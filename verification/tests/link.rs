use blockgame::net::link::{Links, MAX_INBOUND_LINKS, SEND_QUEUE_BYTES, Target, claim, queue_after};
use blockgame::session::PlayerId;

fn id(n: u64) -> PlayerId {
    PlayerId(n)
}

#[test]
fn a_link_that_never_drains_is_bounded() {
    let frame = 1024 * 1024;
    let mut queued = 0;
    while let Some(now) = queue_after(queued, frame) {
        queued = now;
        assert!(queued <= SEND_QUEUE_BYTES, "queue outgrew its bound");
    }
    assert!(queued > SEND_QUEUE_BYTES / 2, "gave up far too early");
}

#[test]
fn a_second_connection_does_not_evict_the_first() {
    let mut links = Links::new();
    let peer = id(1);
    let (first, arrived) = links.insert(peer);
    let (second, again) = links.insert(peer);
    assert!(arrived, "the first link is the player arriving");
    assert!(!again, "a second link is not a second player");
    assert_ne!(first, second, "each connection gets its own key");
    assert_eq!(links.targets(Target::One(peer)).len(), 2);
    assert_eq!(links.remove(first), Some((peer, false)), "the older link ending leaves the player here");
    assert_eq!(links.remove(second), Some((peer, true)), "the last link ending is the departure");
    assert!(links.remove(second).is_none(), "a link leaves only once");
}

#[test]
fn a_send_to_one_player_reaches_only_their_links() {
    let mut links = Links::new();
    let (a, b) = (id(1), id(2));
    links.insert(a);
    let (lb, _) = links.insert(b);
    assert_eq!(links.targets(Target::One(b)), vec![lb]);
    assert_eq!(links.targets(Target::All).len(), 2);
    assert_eq!(links.sender(lb), Some(b));
}

#[test]
fn a_stranger_can_hold_only_so_many_slots() {
    let mut held = 0;
    while let Some(n) = claim(held) {
        held = n;
    }
    assert_eq!(held, MAX_INBOUND_LINKS);
    assert_eq!(queue_after(SEND_QUEUE_BYTES, 0), Some(SEND_QUEUE_BYTES));
    assert_eq!(queue_after(SEND_QUEUE_BYTES, 1), None);
}
