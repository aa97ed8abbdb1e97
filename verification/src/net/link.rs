//! The bookkeeping of live connections: who is on which link, when a player arrives and
//! leaves, and how much a link or a stranger may make this machine hold.
//!
//! Links are keyed by connection rather than by player. Keying by player loses a reconnect
//! race: the new link overwrites the old entry, and when the old one's reader finally
//! exits it removes the live entry and announces a departure for a player who is still
//! here. A link can only remove its own id, and a player is gone exactly when their last
//! link is.
use vstd::prelude::*;
use crate::session::PlayerId;

verus! {

/// Bytes a link may have queued before it is considered wedged and dropped.
pub const SEND_QUEUE_BYTES: usize = 33554432;

/// Inbound connections a host will hold at once: the ceiling on what a stranger can make
/// a host allocate.
pub const MAX_INBOUND_LINKS: usize = 32;

/// Identifies one connection for its lifetime. Handed out by [`Links::insert`] and never
/// reused, so a stale link can only ever remove itself.
pub type LinkId = u64;

/// Who a message goes to.
#[derive(Debug, Clone, Copy, PartialEq, Eq, Structural)]
pub enum Target {
    All,
    One(PlayerId),
}

/// Does a link to `peer` receive a message sent to `to`?
pub open spec fn reaches(to: Target, peer: PlayerId) -> bool {
    match to {
        Target::All => true,
        Target::One(id) => peer == id,
    }
}

/// The live connections, each with the player on the far end of it.
pub struct Links {
    next: u64,
    by_id: Vec<(LinkId, PlayerId)>,
}

impl Links {
    /// Each link once, and every id below the next one to be handed out.
    pub closed spec fn sound(self) -> bool {
        &&& forall|i: int, j: int|
            0 <= i < j < self.by_id@.len() ==> #[trigger] self.by_id@[i].0 != #[trigger] self.by_id@[j].0
        &&& forall|i: int| 0 <= i < self.by_id@.len() ==> #[trigger] self.by_id@[i].0 < self.next
    }

    /// The live links, by id.
    pub closed spec fn view(&self) -> Map<LinkId, PlayerId> {
        Map::new(
            |id: LinkId| exists|i: int| 0 <= i < self.by_id@.len() && #[trigger] self.by_id@[i].0 == id,
            |id: LinkId|
                self.by_id@[choose|i: int| 0 <= i < self.by_id@.len() && #[trigger] self.by_id@[i].0 == id].1,
        )
    }

    /// How many ids have been handed out: every id ever given is below this.
    pub closed spec fn issued(&self) -> nat {
        self.next as nat
    }

    /// Does this player have a link?
    pub open spec fn present(&self, peer: PlayerId) -> bool {
        exists|id: LinkId| self@.dom().contains(id) && #[trigger] self@[id] == peer
    }

    proof fn lemma_entry(&self, i: int)
        requires
            self.sound(),
            0 <= i < self.by_id@.len(),
        ensures
            self@.dom().contains(self.by_id@[i].0),
            self@[self.by_id@[i].0] == self.by_id@[i].1,
    {
        let id = self.by_id@[i].0;
        let j = choose|j: int| 0 <= j < self.by_id@.len() && #[trigger] self.by_id@[j].0 == id;
        if j != i {
            if i < j {
                assert(self.by_id@[i].0 != self.by_id@[j].0);
            } else {
                assert(self.by_id@[j].0 != self.by_id@[i].0);
            }
        }
    }

    /// No links, and no id handed out yet.
    pub fn new() -> (r: Links)
        ensures
            r.sound(),
            r@ == Map::<LinkId, PlayerId>::empty(),
            r.issued() == 0,
    {
        let r = Links { next: 0, by_id: Vec::new() };
        assert(r@ =~= Map::<LinkId, PlayerId>::empty());
        r
    }

    /// Is anybody linked as this player?
    fn has(&self, peer: PlayerId) -> (r: bool)
        requires
            self.sound(),
        ensures
            r == self.present(peer),
    {
        let mut i: usize = 0;
        while i < self.by_id.len()
            invariant
                self.sound(),
                i <= self.by_id@.len(),
                forall|k: int| 0 <= k < i ==> self.by_id@[k].1 != peer,
            decreases self.by_id@.len() - i,
        {
            if self.by_id[i].1 == peer {
                proof {
                    self.lemma_entry(i as int);
                }
                return true;
            }
            i = i + 1;
        }
        proof {
            if self.present(peer) {
                let id = choose|id: LinkId| self@.dom().contains(id) && #[trigger] self@[id] == peer;
                let k = choose|k: int| 0 <= k < self.by_id@.len() && #[trigger] self.by_id@[k].0 == id;
                self.lemma_entry(k);
            }
        }
        false
    }

    /// Adds a link and reports its id and whether it was that player's first: a player
    /// arrives with their first link and is gone with their last, whatever happens in
    /// between.
    pub fn insert(&mut self, peer: PlayerId) -> (r: (LinkId, bool))
        requires
            old(self).sound(),
            old(self).issued() < u64::MAX,
        ensures
            final(self).sound(),
            r.0 == old(self).issued(),
            !old(self)@.dom().contains(r.0),
            final(self)@ == old(self)@.insert(r.0, peer),
            final(self).issued() == old(self).issued() + 1,
            r.1 == !old(self).present(peer),
    {
        let first = !self.has(peer);
        let id = self.next;
        let ghost before = *self;
        proof {
            if before@.dom().contains(id) {
                let k = choose|k: int| 0 <= k < before.by_id@.len() && #[trigger] before.by_id@[k].0 == id;
            }
        }
        self.by_id.push((id, peer));
        self.next = self.next + 1;
        proof {
            assert forall|k: LinkId| #[trigger] self@.dom().contains(k) <==> before@.insert(id, peer).dom().contains(k) by {
                if self@.dom().contains(k) {
                    let i = choose|i: int| 0 <= i < self.by_id@.len() && #[trigger] self.by_id@[i].0 == k;
                    if i < before.by_id@.len() {
                        assert(before.by_id@[i] == self.by_id@[i]);
                    }
                }
                if before@.dom().contains(k) {
                    let i = choose|i: int| 0 <= i < before.by_id@.len() && #[trigger] before.by_id@[i].0 == k;
                    assert(self.by_id@[i] == before.by_id@[i]);
                }
                if k == id {
                    assert(self.by_id@[before.by_id@.len() as int].0 == id);
                }
            }
            assert forall|k: LinkId| #[trigger] self@.dom().contains(k) implies self@[k] == before@.insert(id, peer)[k] by {
                let i = choose|i: int| 0 <= i < self.by_id@.len() && #[trigger] self.by_id@[i].0 == k;
                self.lemma_entry(i);
                if i < before.by_id@.len() {
                    assert(before.by_id@[i] == self.by_id@[i]);
                    before.lemma_entry(i);
                }
            }
            assert(self@ =~= before@.insert(id, peer));
        }
        (id, first)
    }

    /// Who is speaking on this link, or `None` if it is already gone.
    pub fn sender(&self, id: LinkId) -> (r: Option<PlayerId>)
        requires
            self.sound(),
        ensures
            r == (if self@.dom().contains(id) {
                Some(self@[id])
            } else {
                None
            }),
    {
        let mut i: usize = 0;
        while i < self.by_id.len()
            invariant
                self.sound(),
                i <= self.by_id@.len(),
                forall|k: int| 0 <= k < i ==> self.by_id@[k].0 != id,
            decreases self.by_id@.len() - i,
        {
            if self.by_id[i].0 == id {
                proof {
                    self.lemma_entry(i as int);
                }
                return Some(self.by_id[i].1);
            }
            i = i + 1;
        }
        None
    }

    /// Removes a link and reports whose it was and whether it was their last one. A link
    /// that is already gone removes nothing.
    pub fn remove(&mut self, id: LinkId) -> (r: Option<(PlayerId, bool)>)
        requires
            old(self).sound(),
        ensures
            final(self).sound(),
            final(self)@ == old(self)@.remove(id),
            final(self).issued() == old(self).issued(),
            r == (if old(self)@.dom().contains(id) {
                Some((old(self)@[id], !final(self).present(old(self)@[id])))
            } else {
                None
            }),
    {
        let ghost before = *self;
        let mut i: usize = 0;
        while i < self.by_id.len()
            invariant
                *self == before,
                before == *old(self),
                before.sound(),
                i <= self.by_id@.len(),
                forall|k: int| 0 <= k < i ==> self.by_id@[k].0 != id,
            decreases self.by_id@.len() - i,
        {
            if self.by_id[i].0 == id {
                proof {
                    before.lemma_entry(i as int);
                }
                let (_, peer) = self.by_id.remove(i);
                proof {
                    assert forall|k: LinkId| #[trigger] self@.dom().contains(k) <==> before@.remove(id).dom().contains(k) by {
                        if self@.dom().contains(k) {
                            let j = choose|j: int| 0 <= j < self.by_id@.len() && #[trigger] self.by_id@[j].0 == k;
                            if j < i {
                                assert(self.by_id@[j] == before.by_id@[j]);
                                assert(before.by_id@[j].0 != before.by_id@[i as int].0);
                            } else {
                                assert(self.by_id@[j] == before.by_id@[j + 1]);
                                assert(before.by_id@[i as int].0 != before.by_id@[j + 1].0);
                            }
                        }
                        if before@.remove(id).dom().contains(k) {
                            let j = choose|j: int| 0 <= j < before.by_id@.len() && #[trigger] before.by_id@[j].0 == k;
                            if j < i {
                                assert(self.by_id@[j] == before.by_id@[j]);
                            } else {
                                assert(j != i);
                                assert(self.by_id@[j - 1] == before.by_id@[j]);
                            }
                        }
                    }
                    assert forall|k: LinkId| #[trigger] self@.dom().contains(k) implies self@[k] == before@.remove(id)[k] by {
                        let j = choose|j: int| 0 <= j < self.by_id@.len() && #[trigger] self.by_id@[j].0 == k;
                        self.lemma_entry(j);
                        if j < i {
                            assert(self.by_id@[j] == before.by_id@[j]);
                            before.lemma_entry(j);
                        } else {
                            assert(self.by_id@[j] == before.by_id@[j + 1]);
                            before.lemma_entry(j + 1);
                        }
                    }
                    assert(self@ =~= before@.remove(id));
                }
                let still_here = self.has(peer);
                return Some((peer, !still_here));
            }
            i = i + 1;
        }
        proof {
            if before@.dom().contains(id) {
                let k = choose|k: int| 0 <= k < before.by_id@.len() && #[trigger] before.by_id@[k].0 == id;
            }
            assert(self@ =~= before@.remove(id));
        }
        None
    }

    /// The links a message sent to `to` goes out on: every link whose player it reaches,
    /// each once.
    pub fn targets(&self, to: Target) -> (r: Vec<LinkId>)
        requires
            self.sound(),
        ensures
            r@.no_duplicates(),
            forall|id: LinkId| r@.contains(id) <==> (self@.dom().contains(id) && reaches(to, self@[id])),
    {
        let mut r: Vec<LinkId> = Vec::new();
        let mut i: usize = 0;
        while i < self.by_id.len()
            invariant
                self.sound(),
                i <= self.by_id@.len(),
                r@.no_duplicates(),
                forall|k: int| 0 <= k < r@.len() ==> exists|j: int| 0 <= j < i && #[trigger] self.by_id@[j].0 == #[trigger] r@[k],
                forall|id: LinkId| r@.contains(id) <==> exists|j: int| 0 <= j < i && #[trigger] self.by_id@[j].0 == id && reaches(to, self.by_id@[j].1),
            decreases self.by_id@.len() - i,
        {
            let (id, peer) = self.by_id[i];
            let hit = match to {
                Target::All => true,
                Target::One(p) => peer == p,
            };
            if hit {
                proof {
                    assert forall|k: int| 0 <= k < r@.len() implies r@[k] != id by {
                        let j = choose|j: int| 0 <= j < i && #[trigger] self.by_id@[j].0 == r@[k];
                        assert(self.by_id@[j].0 != self.by_id@[i as int].0);
                    }
                }
                let ghost old_r = r@;
                r.push(id);
                proof {
                    assert(old_r == r@.drop_last());
                    assert forall|k: int| 0 <= k < r@.len() implies exists|j: int| 0 <= j < i + 1 && #[trigger] self.by_id@[j].0 == #[trigger] r@[k] by {
                        if k < r@.len() - 1 {
                            let j = choose|j: int| 0 <= j < i && #[trigger] self.by_id@[j].0 == r@[k];
                        } else {
                            assert(self.by_id@[i as int].0 == r@[k]);
                        }
                    }
                    assert forall|x: LinkId| r@.contains(x) <==> exists|j: int| 0 <= j < i + 1 && #[trigger] self.by_id@[j].0 == x && reaches(to, self.by_id@[j].1) by {
                        if x == id {
                            assert(self.by_id@[i as int].0 == x);
                            assert(r@[r@.len() - 1] == x);
                        } else {
                            if r@.contains(x) {
                                let k = choose|k: int| 0 <= k < r@.len() && r@[k] == x;
                                assert(r@.drop_last()[k] == x);
                                assert(r@.drop_last().contains(x));
                            }
                            if exists|j: int| 0 <= j < i + 1 && #[trigger] self.by_id@[j].0 == x && reaches(to, self.by_id@[j].1) {
                                let j = choose|j: int| 0 <= j < i + 1 && #[trigger] self.by_id@[j].0 == x && reaches(to, self.by_id@[j].1);
                                assert(j < i);
                                assert(old_r.contains(x));
                                let k = choose|k: int| 0 <= k < old_r.len() && old_r[k] == x;
                                assert(r@[k] == x);
                            }
                        }
                    }
                }
            } else {
                proof {
                    assert forall|x: LinkId| r@.contains(x) <==> exists|j: int| 0 <= j < i + 1 && #[trigger] self.by_id@[j].0 == x && reaches(to, self.by_id@[j].1) by {
                        if exists|j: int| 0 <= j < i + 1 && #[trigger] self.by_id@[j].0 == x && reaches(to, self.by_id@[j].1) {
                            let j = choose|j: int| 0 <= j < i + 1 && #[trigger] self.by_id@[j].0 == x && reaches(to, self.by_id@[j].1);
                            assert(j < i);
                        }
                    }
                }
            }
            i = i + 1;
        }
        proof {
            assert forall|id: LinkId| r@.contains(id) <==> (self@.dom().contains(id) && reaches(to, self@[id])) by {
                if r@.contains(id) {
                    let j = choose|j: int| 0 <= j < self.by_id@.len() && #[trigger] self.by_id@[j].0 == id && reaches(to, self.by_id@[j].1);
                    self.lemma_entry(j);
                }
                if self@.dom().contains(id) && reaches(to, self@[id]) {
                    let j = choose|j: int| 0 <= j < self.by_id@.len() && #[trigger] self.by_id@[j].0 == id;
                    self.lemma_entry(j);
                }
            }
        }
        r
    }
}

/// A link's send queue after a frame of `n` bytes is offered to it: the new total, or
/// `None` if that would put it past [`SEND_QUEUE_BYTES`] and the link is too far behind to
/// keep.
pub fn queue_after(queued: usize, n: usize) -> (r: Option<usize>)
    ensures
        r == (if queued + n > SEND_QUEUE_BYTES {
            None
        } else {
            Some((queued + n) as usize)
        }),
{
    if queued > SEND_QUEUE_BYTES || n > SEND_QUEUE_BYTES - queued {
        None
    } else {
        Some(queued + n)
    }
}

/// The inbound connections held after one more asks to be served: one more, or `None` once
/// [`MAX_INBOUND_LINKS`] are already held.
pub fn claim(held: usize) -> (r: Option<usize>)
    ensures
        r == (if held < MAX_INBOUND_LINKS {
            Some((held + 1) as usize)
        } else {
            None
        }),
{
    if held < MAX_INBOUND_LINKS {
        Some(held + 1)
    } else {
        None
    }
}

} // verus!
