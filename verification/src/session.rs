//! Who may say what, and who is here: the host-authoritative rules of a shared world.
//!
//! The host is the one whose word decides. A peer believes its host and nobody else; the
//! host lets each peer speak for itself and for nothing more. Presence is stated whole,
//! never as a delta, so a message that arrives twice or late cannot bring back somebody
//! who has left.
use vstd::prelude::*;

verus! {

/// A player, as the session names them.
#[derive(Clone, Copy, PartialEq, Eq, Hash, Debug, Structural)]
pub struct PlayerId(pub u64);

/// Which side of the host-authoritative relationship this process is on. A peer carries
/// its host's id: every peer-side trust decision is "is this the host?".
#[derive(Clone, Copy, PartialEq, Eq, Debug, Structural)]
pub enum Role {
    Host,
    Peer { host: PlayerId },
}

/// What a message is, as far as trust is concerned. A pose names whose pose it is.
#[derive(Clone, Copy, PartialEq, Eq, Debug, Structural)]
pub enum Heard {
    /// A peer asking for the world.
    Hello,
    /// The host saying which world this is.
    Welcome,
    /// One chunk's worth of the world's edits.
    WorldPart,
    /// A block change: a request from a peer, an announcement from the host.
    Edit,
    /// Where a player is.
    Pose { id: PlayerId },
    /// The host's word on who is here.
    Present,
    /// The host's word on what this player has.
    Inventory,
    /// A peer asking to be made something.
    Craft,
}

/// Is `from` entitled to say this? The whole trust boundary, in one function.
pub open spec fn authorized_spec(role: Role, from: PlayerId, msg: Heard) -> bool {
    match role {
        Role::Peer { host } => from == host && !(msg is Hello || msg is Craft),
        Role::Host => match msg {
            Heard::Welcome | Heard::WorldPart | Heard::Present | Heard::Inventory => false,
            Heard::Pose { id } => id == from,
            _ => true,
        },
    }
}

/// Is `from` entitled to say this?
///
/// A peer has exactly one link, to the host, so it believes that endpoint and nobody else.
/// The host talks to many peers, and a peer may only ever speak for itself: ask for an edit
/// or a craft, report its own pose, say hello. Everything else is the host's word, and a
/// peer sending one is claiming to be the host.
pub fn authorized(role: Role, from: PlayerId, msg: Heard) -> (r: bool)
    ensures
        r == authorized_spec(role, from, msg),
{
    match role {
        Role::Peer { host } => from == host && match msg {
            Heard::Welcome | Heard::WorldPart | Heard::Edit | Heard::Pose { .. } | Heard::Present
            | Heard::Inventory => true,
            Heard::Hello | Heard::Craft => false,
        },
        Role::Host => match msg {
            Heard::Welcome | Heard::WorldPart | Heard::Present | Heard::Inventory => false,
            Heard::Pose { id } => id == from,
            Heard::Hello | Heard::Edit | Heard::Craft => true,
        },
    }
}

/// Does the list hold this id?
pub fn holds(ids: &[PlayerId], id: PlayerId) -> (r: bool)
    ensures
        r == ids@.contains(id),
{
    let mut i: usize = 0;
    while i < ids.len()
        invariant
            i <= ids@.len(),
            forall|k: int| 0 <= k < i ==> ids@[k] != id,
        decreases ids@.len() - i,
    {
        if ids[i] == id {
            assert(ids@[i as int] == id);
            return true;
        }
        i = i + 1;
    }
    false
}

/// Who is here, once the host's statement `ids` is applied by a player who is `me`:
/// everybody it names but oneself.
pub open spec fn here_spec(ids: Seq<PlayerId>, me: PlayerId) -> Set<PlayerId> {
    ids.to_set().remove(me)
}

/// A host's statement of who is here, applied whole: the players to declare, because the
/// statement names them and they were not known, and the players to forget, because they
/// were known and it does not name them.
///
/// Absolute, so it can be applied twice to the same statement and needs no order against
/// itself: a departure cannot be overtaken by anything that would bring the player back.
pub fn present(known: &[PlayerId], me: PlayerId, ids: &[PlayerId]) -> (r: (Vec<PlayerId>, Vec<PlayerId>))
    ensures
        r.0@.no_duplicates(),
        r.1@.no_duplicates() || !known@.no_duplicates(),
        r.0@.to_set() == here_spec(ids@, me).difference(known@.to_set()),
        r.1@.to_set() == known@.to_set().difference(here_spec(ids@, me)),
{
    let mut declare: Vec<PlayerId> = Vec::new();
    let mut i: usize = 0;
    while i < ids.len()
        invariant
            i <= ids@.len(),
            declare@.no_duplicates(),
            declare@.to_set() == here_spec(ids@.take(i as int), me).difference(known@.to_set()),
        decreases ids@.len() - i,
    {
        let id = ids[i];
        assert(ids@.take(i + 1) =~= ids@.take(i as int).push(id));
        proof {
            ids@.take(i as int).lemma_push_to_set_commute(id);
        }
        if id != me && !holds(known, id) && !holds(declare.as_slice(), id) {
            let ghost before = declare@;
            declare.push(id);
            proof {
                before.lemma_push_to_set_commute(id);
            }
            assert(declare@.to_set() =~= here_spec(ids@.take(i + 1), me).difference(known@.to_set()));
        } else {
            assert(declare@.to_set() =~= here_spec(ids@.take(i + 1), me).difference(known@.to_set()));
        }
        i = i + 1;
    }
    assert(ids@.take(ids@.len() as int) =~= ids@);
    let mut forget: Vec<PlayerId> = Vec::new();
    let mut j: usize = 0;
    while j < known.len()
        invariant
            j <= known@.len(),
            forget@.to_set() == known@.take(j as int).to_set().difference(here_spec(ids@, me)),
            known@.no_duplicates() ==> forget@.no_duplicates(),
            known@.no_duplicates() ==> forall|k: int| 0 <= k < forget@.len() ==> known@.take(j as int).contains(#[trigger] forget@[k]),
        decreases known@.len() - j,
    {
        let id = known[j];
        assert(known@.take(j + 1) =~= known@.take(j as int).push(id));
        proof {
            known@.take(j as int).lemma_push_to_set_commute(id);
        }
        let stays = id != me && holds(ids, id);
        if !stays {
            proof {
                if known@.no_duplicates() {
                    assert(!known@.take(j as int).contains(id)) by {
                        if known@.take(j as int).contains(id) {
                            let k = choose|k: int| 0 <= k < j && known@.take(j as int)[k] == id;
                            assert(known@[k] == known@[j as int]);
                        }
                    }
                }
            }
            let ghost before = forget@;
            forget.push(id);
            proof {
                before.lemma_push_to_set_commute(id);
            }
            assert(forget@.to_set() =~= known@.take(j + 1).to_set().difference(here_spec(ids@, me)));
        } else {
            assert(forget@.to_set() =~= known@.take(j + 1).to_set().difference(here_spec(ids@, me)));
        }
        proof {
            if known@.no_duplicates() {
                assert forall|k: int| 0 <= k < forget@.len() implies known@.take(j + 1).contains(#[trigger] forget@[k]) by {
                    if k < forget@.len() - 1 || stays {
                        assert(known@.take(j as int).contains(forget@[k]));
                        let w = choose|w: int| 0 <= w < j && known@.take(j as int)[w] == forget@[k];
                        assert(known@.take(j + 1)[w] == forget@[k]);
                    } else {
                        assert(known@.take(j + 1)[j as int] == id);
                    }
                }
            }
        }
        j = j + 1;
    }
    assert(known@.take(known@.len() as int) =~= known@);
    (declare, forget)
}

/// The same ids, in a list of their own.
fn copy_ids(known: &[PlayerId]) -> (r: Vec<PlayerId>)
    ensures
        r@ == known@,
{
    let mut r: Vec<PlayerId> = Vec::new();
    let mut i: usize = 0;
    while i < known.len()
        invariant
            i <= known@.len(),
            r@ == known@.take(i as int),
        decreases known@.len() - i,
    {
        r.push(known[i]);
        i = i + 1;
        assert(r@ =~= known@.take(i as int));
    }
    assert(known@.take(known@.len() as int) =~= known@);
    r
}

/// Presence is absolute: once a statement has been applied, exactly the players it names
/// (oneself aside) are known, whatever was known before; and applying the same statement
/// again declares nobody and forgets nobody.
pub proof fn lemma_presence_absolute(known: Set<PlayerId>, ids: Seq<PlayerId>, me: PlayerId)
    ensures
        known.union(here_spec(ids, me).difference(known)).difference(
            known.difference(here_spec(ids, me)),
        ) == here_spec(ids, me),
        !here_spec(ids, me).contains(me),
        here_spec(ids, me).difference(here_spec(ids, me)) == Set::<PlayerId>::empty(),
{
    let here = here_spec(ids, me);
    assert(known.union(here.difference(known)).difference(known.difference(here)) =~= here);
    assert(here.difference(here) =~= Set::<PlayerId>::empty());
}

/// Everybody in this world as the host has it: the players it holds links to, and itself.
pub fn live(known: &[PlayerId], me: PlayerId) -> (r: Vec<PlayerId>)
    ensures
        r@ == known@.push(me),
{
    let mut r = copy_ids(known);
    r.push(me);
    r
}

/// Somebody's test for "not this player".
pub open spec fn not_id(id: PlayerId) -> spec_fn(PlayerId) -> bool {
    |here: PlayerId| here != id
}

/// What just happened to the host's set of links: the only thing that changes who is in
/// the world.
#[derive(Clone, Copy, PartialEq, Eq, Debug, Structural)]
pub enum Presence {
    Joined(PlayerId),
    Left(PlayerId),
}

/// The statement the host sends when somebody arrives or leaves: everybody it had, with
/// the newcomer added or every link of the leaver taken out.
pub fn after(ids: Vec<PlayerId>, change: Presence) -> (r: Vec<PlayerId>)
    ensures
        r@ == (match change {
            Presence::Joined(id) => ids@.push(id),
            Presence::Left(id) => ids@.filter(not_id(id)),
        }),
{
    match change {
        Presence::Joined(id) => {
            let mut ids = ids;
            ids.push(id);
            ids
        },
        Presence::Left(id) => {
            let ghost pred = not_id(id);
            let mut r: Vec<PlayerId> = Vec::new();
            let mut i: usize = 0;
            while i < ids.len()
                invariant
                    i <= ids@.len(),
                    pred == not_id(id),
                    r@ == ids@.take(i as int).filter(pred),
                decreases ids@.len() - i,
            {
                let here = ids[i];
                proof {
                    reveal_with_fuel(Seq::filter, 1);
                    assert(ids@.take(i + 1).drop_last() =~= ids@.take(i as int));
                    assert(ids@.take(i + 1).last() == here);
                    assert(pred(here) == (here != id));
                }
                if here != id {
                    r.push(here);
                }
                i = i + 1;
            }
            assert(ids@.take(ids@.len() as int) =~= ids@);
            r
        },
    }
}

/// The trust boundary: a peer believes its host and nobody else, and never takes a request;
/// a host hears every peer's own requests and its own pose, and no peer's claim to speak
/// with the host's voice.
pub proof fn lemma_who_is_believed(host: PlayerId, from: PlayerId, msg: Heard)
    ensures
        authorized_spec(Role::Peer { host }, from, msg) ==> from == host,
        authorized_spec(Role::Peer { host }, host, msg) <==> !(msg is Hello || msg is Craft),
        msg is Hello || msg is Edit || msg is Craft ==> authorized_spec(Role::Host, from, msg),
        msg is Welcome || msg is WorldPart || msg is Present || msg is Inventory ==> !authorized_spec(
            Role::Host,
            from,
            msg,
        ),
        msg matches Heard::Pose { id } ==> (authorized_spec(Role::Host, from, msg) <==> id == from),
{
}

/// The host takes up every request a peer may make of it, for that peer: an edit to check,
/// a craft to pay for out of that peer's pile, and, the first time, the world. None of them
/// changes who has been sent the world, except the first hello.
pub proof fn lemma_host_takes_up_requests(me: PlayerId, p: PlayerId, welcomed: Set<PlayerId>)
    ensures
        react_spec(Role::Host, me, Event::Message(p, Heard::Craft), welcomed) == (Reaction::CheckCraft(p), welcomed),
        react_spec(Role::Host, me, Event::Message(p, Heard::Edit), welcomed) == (Reaction::CheckEdit(p), welcomed),
        !welcomed.contains(p) ==> react_spec(Role::Host, me, Event::Message(p, Heard::Hello), welcomed)
            == (Reaction::SendWorld(p), welcomed.insert(p)),
{
}

/// A peer takes nobody's request, not even its host's: a craft or an edit request is the
/// host's to answer, and an edit from the host is simply applied.
pub proof fn lemma_peer_takes_no_requests(me: PlayerId, host: PlayerId, p: PlayerId, welcomed: Set<PlayerId>)
    ensures
        react_spec(Role::Peer { host }, me, Event::Message(p, Heard::Craft), welcomed).0 == Reaction::Ignore,
        react_spec(Role::Peer { host }, me, Event::Message(p, Heard::Hello), welcomed).0 == Reaction::Ignore,
        react_spec(Role::Peer { host }, me, Event::Message(p, Heard::Edit), welcomed).0 == if p == host {
            Reaction::ApplyEdit
        } else {
            Reaction::Ignore
        },
{
}

/// One thing off the wire, as the game loop sees it.
#[derive(Clone, Copy, PartialEq, Eq, Debug, Structural)]
pub enum Event {
    Message(PlayerId, Heard),
    /// A player's first link arrived.
    Joined(PlayerId),
    /// A player's last link went away.
    Left(PlayerId),
}

/// What the game has to do about an event. Everything that needs the world, the clock or
/// the network is done by the game; which of these it is, is decided here.
#[derive(Clone, Copy, PartialEq, Eq, Debug, Structural)]
pub enum Reaction {
    /// Not this player's to say, or nothing left to do.
    Ignore,
    /// Send the world, then who is here, to a peer asking for the first time.
    SendWorld(PlayerId),
    /// A peer's edit request: check it against where they stand and what they may still
    /// ask for, and apply it if it passes.
    CheckEdit(PlayerId),
    /// The host's edit: apply it as it stands.
    ApplyEdit,
    /// A peer's craft request: pay for it out of their pile if they are known and may
    /// still ask.
    CheckCraft(PlayerId),
    /// The host's word on this player's pile: replace it.
    ReplacePile,
    /// A pose: vouch for its car (host), relay it to everybody (host), and move the player
    /// it names unless that is this player.
    Pose { id: PlayerId, vouch: bool, relay: bool, moves: bool },
    /// The host's statement of who is here: apply it whole.
    Present,
    /// A player arrived (host): tell everybody who is here now.
    Arrived(PlayerId),
    /// A player left (host): tell everybody who is here now.
    Departed(PlayerId),
    /// The host left: this game is over.
    Quit,
}

/// What an event asks of the game, and whether the peer it came from is now one the host
/// has sent the world to.
pub open spec fn react_spec(role: Role, me: PlayerId, event: Event, welcomed: Set<PlayerId>) -> (
    Reaction,
    Set<PlayerId>,
) {
    match event {
        Event::Message(from, msg) => {
            if !authorized_spec(role, from, msg) {
                (Reaction::Ignore, welcomed)
            } else {
                match msg {
                    Heard::Hello => if role is Host && !welcomed.contains(from) {
                        (Reaction::SendWorld(from), welcomed.insert(from))
                    } else {
                        (Reaction::Ignore, welcomed)
                    },
                    Heard::Edit => if role is Host {
                        (Reaction::CheckEdit(from), welcomed)
                    } else {
                        (Reaction::ApplyEdit, welcomed)
                    },
                    Heard::Craft => if role is Host {
                        (Reaction::CheckCraft(from), welcomed)
                    } else {
                        (Reaction::Ignore, welcomed)
                    },
                    Heard::Inventory => (Reaction::ReplacePile, welcomed),
                    Heard::Pose { id } => (
                        Reaction::Pose {
                            id,
                            vouch: role is Host,
                            relay: role is Host,
                            moves: id != me,
                        },
                        welcomed,
                    ),
                    Heard::Present => (Reaction::Present, welcomed),
                    Heard::Welcome | Heard::WorldPart => (Reaction::Ignore, welcomed),
                }
            }
        },
        Event::Joined(id) => if role is Host {
            (Reaction::Arrived(id), welcomed)
        } else {
            (Reaction::Ignore, welcomed)
        },
        Event::Left(id) => match role {
            Role::Host => (Reaction::Departed(id), welcomed.remove(id)),
            Role::Peer { host } => if id == host {
                (Reaction::Quit, welcomed)
            } else {
                (Reaction::Ignore, welcomed)
            },
        },
    }
}

/// What the game has to do about one event off the wire.
///
/// Answering a hello costs a copy of every edit in the world, so a peer that keeps asking
/// is answered once; their link ending forgets them, so a real reconnect is served again.
/// A departure that is not the host's must never end a peer's game.
pub fn react(role: Role, me: PlayerId, event: Event, welcomed: &mut Vec<PlayerId>) -> (r: Reaction)
    ensures
        r == react_spec(role, me, event, old(welcomed)@.to_set()).0,
        final(welcomed)@.to_set() == react_spec(role, me, event, old(welcomed)@.to_set()).1,
{
    let is_host = match role {
        Role::Host => true,
        Role::Peer { .. } => false,
    };
    match event {
        Event::Message(from, msg) => {
            if !authorized(role, from, msg) {
                return Reaction::Ignore;
            }
            match msg {
                Heard::Hello => {
                    if is_host && !holds(welcomed.as_slice(), from) {
                        welcomed.push(from);
                        proof {
                            old(welcomed)@.lemma_push_to_set_commute(from);
                        }
                        Reaction::SendWorld(from)
                    } else {
                        Reaction::Ignore
                    }
                },
                Heard::Edit => if is_host {
                    Reaction::CheckEdit(from)
                } else {
                    Reaction::ApplyEdit
                },
                Heard::Craft => if is_host {
                    Reaction::CheckCraft(from)
                } else {
                    Reaction::Ignore
                },
                Heard::Inventory => Reaction::ReplacePile,
                Heard::Pose { id } => Reaction::Pose {
                    id,
                    vouch: is_host,
                    relay: is_host,
                    moves: id != me,
                },
                Heard::Present => Reaction::Present,
                Heard::Welcome | Heard::WorldPart => Reaction::Ignore,
            }
        },
        Event::Joined(id) => if is_host {
            Reaction::Arrived(id)
        } else {
            Reaction::Ignore
        },
        Event::Left(id) => match role {
            Role::Host => {
                let kept = after(copy_ids(welcomed.as_slice()), Presence::Left(id));
                proof {
                    let pred = not_id(id);
                    assert forall|x: PlayerId| kept@.to_set().contains(x) <==> old(welcomed)@.to_set().remove(id).contains(x) by {
                        if kept@.contains(x) {
                            let k = choose|k: int| 0 <= k < kept@.len() && kept@[k] == x;
                            old(welcomed)@.lemma_filter_contains_rev(pred, x);
                            old(welcomed)@.lemma_filter_pred(pred, k);
                        }
                        if old(welcomed)@.contains(x) && x != id {
                            let k = choose|k: int| 0 <= k < old(welcomed)@.len() && old(welcomed)@[k] == x;
                            old(welcomed)@.lemma_filter_contains(pred, k);
                        }
                    }
                    assert(kept@.to_set() =~= old(welcomed)@.to_set().remove(id));
                }
                *welcomed = kept;
                Reaction::Departed(id)
            },
            Role::Peer { host } => if id == host {
                Reaction::Quit
            } else {
                Reaction::Ignore
            },
        },
    }
}

} // verus!
