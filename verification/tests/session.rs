use blockgame::inventory::Inventory;
use blockgame::game::vouched;
use blockgame::pause::{Choice, choices, label};
use blockgame::registry::Item;
use blockgame::session::{
    Event, Heard, PlayerId, Presence, Reaction, Role, after, authorized, live, present, react,
};

fn id(n: u64) -> PlayerId {
    PlayerId(n)
}

#[test]
fn a_peer_believes_only_the_host() {
    let (host, stranger) = (id(1), id(2));
    let role = Role::Peer { host };
    assert!(authorized(role, host, Heard::Edit));
    assert!(!authorized(role, stranger, Heard::Edit));
    assert!(!authorized(role, stranger, Heard::Pose { id: stranger }), "not the host");
    assert!(authorized(role, host, Heard::Pose { id: stranger }), "the host relays everyone's pose");
}

#[test]
fn a_host_lets_a_peer_speak_only_for_itself() {
    let (peer, other) = (id(3), id(4));
    assert!(authorized(Role::Host, peer, Heard::Pose { id: peer }));
    assert!(!authorized(Role::Host, peer, Heard::Pose { id: other }), "spoofed pose");
    assert!(!authorized(Role::Host, peer, Heard::Present));
    assert!(!authorized(Role::Host, peer, Heard::Welcome));
    assert!(!authorized(Role::Host, peer, Heard::WorldPart));
}

#[test]
fn inventory_only_travels_from_the_host_and_crafts_only_towards_it() {
    let (host, peer) = (id(5), id(6));
    assert!(!authorized(Role::Host, peer, Heard::Inventory), "peer stated a pile");
    assert!(authorized(Role::Host, peer, Heard::Craft), "peers may ask");
    assert!(authorized(Role::Peer { host }, host, Heard::Inventory));
    assert!(!authorized(Role::Peer { host }, host, Heard::Craft), "a host does not ask a peer to make things");
}

#[test]
fn a_peer_is_offered_no_ticket_and_both_can_leave() {
    let peer = Role::Peer { host: id(1) };
    assert_eq!(choices(Role::Host), vec![Choice::ShareTicket, Choice::Resume, Choice::Quit]);
    assert_eq!(choices(peer), vec![Choice::Resume, Choice::Quit]);
    for role in [Role::Host, peer] {
        assert!(choices(role).contains(&Choice::Quit));
    }
    assert_eq!(label(Choice::ShareTicket), "Share the join ticket");
    assert_eq!(label(Choice::Resume), "Back to the world");
    assert_eq!(label(Choice::Quit), "Quit");
}

#[test]
fn a_statement_of_who_is_here_is_applied_whole() {
    let me = id(9);
    let known = vec![id(1), id(2)];
    let (declare, forget) = present(&known, me, &[id(2), id(3), me, id(3)]);
    assert_eq!(declare, vec![id(3)]);
    assert_eq!(forget, vec![id(1)]);
    let now = vec![id(2), id(3)];
    let (declare, forget) = present(&now, me, &[id(2), id(3), me]);
    assert!(declare.is_empty() && forget.is_empty(), "the same statement twice changes nothing");
}

#[test]
fn arrivals_and_departures_restate_everybody() {
    let ids = live(&[id(1), id(2)], id(9));
    assert_eq!(ids, vec![id(1), id(2), id(9)]);
    assert_eq!(after(ids.clone(), Presence::Joined(id(3))), vec![id(1), id(2), id(9), id(3)]);
    assert_eq!(after(ids, Presence::Left(id(2))), vec![id(1), id(9)]);
}

#[test]
fn a_car_nobody_built_is_not_relayed() {
    let claimed: Option<([f32; 3], f32)> = Some(([10.0, 40.0, 10.0], 1.0));
    let empty = Inventory::default();
    assert_eq!(vouched(claimed, &empty), None, "a car out of thin air");
    let mut owner = Inventory::default();
    owner.add(Item::Car, 1);
    assert_eq!(vouched(claimed, &owner), claimed, "he built it, he drives it");
    assert_eq!(vouched::<([f32; 3], f32)>(None, &owner), None);
}

#[test]
fn a_hello_is_answered_once_until_the_link_ends() {
    let (me, peer) = (id(9), id(4));
    let mut welcomed = Vec::new();
    assert_eq!(react(Role::Host, me, Event::Message(peer, Heard::Hello), &mut welcomed), Reaction::SendWorld(peer));
    assert_eq!(react(Role::Host, me, Event::Message(peer, Heard::Hello), &mut welcomed), Reaction::Ignore);
    assert_eq!(react(Role::Host, me, Event::Left(peer), &mut welcomed), Reaction::Departed(peer));
    assert!(welcomed.is_empty());
    assert_eq!(react(Role::Host, me, Event::Message(peer, Heard::Hello), &mut welcomed), Reaction::SendWorld(peer));
}

#[test]
fn what_each_side_does_with_what_it_hears() {
    let (me, host, other) = (id(9), id(1), id(2));
    let peer = Role::Peer { host };
    let mut welcomed = Vec::new();
    assert_eq!(react(peer, me, Event::Message(host, Heard::Edit), &mut welcomed), Reaction::ApplyEdit);
    assert_eq!(react(peer, me, Event::Message(other, Heard::Edit), &mut welcomed), Reaction::Ignore);
    assert_eq!(react(Role::Host, me, Event::Message(other, Heard::Edit), &mut welcomed), Reaction::CheckEdit(other));
    assert_eq!(
        react(Role::Host, me, Event::Message(other, Heard::Pose { id: other }), &mut welcomed),
        Reaction::Pose { id: other, vouch: true, relay: true, moves: true }
    );
    assert_eq!(
        react(peer, me, Event::Message(host, Heard::Pose { id: me }), &mut welcomed),
        Reaction::Pose { id: me, vouch: false, relay: false, moves: false }
    );
    assert_eq!(react(peer, me, Event::Left(other), &mut welcomed), Reaction::Ignore, "not the host leaving");
    assert_eq!(react(peer, me, Event::Left(host), &mut welcomed), Reaction::Quit);
    assert_eq!(react(Role::Host, me, Event::Joined(other), &mut welcomed), Reaction::Arrived(other));
    assert_eq!(react(peer, me, Event::Joined(host), &mut welcomed), Reaction::Ignore);
}
