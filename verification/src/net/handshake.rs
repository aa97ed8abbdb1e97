//! Joining a game: collecting the world a host sends, a `Welcome` saying how many parts to
//! expect, then that many parts.
//!
//! Everything the host says here is a claim, so the cost of believing it is bounded three
//! ways: one deadline for the whole handshake, one chunk's worth of edits per part, and a
//! ceiling over all of them. Only the endpoint that was dialled gets to say what world
//! this is. The clock is the caller's: it says what time each event is heard at.
use vstd::prelude::*;
use crate::registry::Block;
use crate::session::PlayerId;
use crate::world::{BlockPos, chunk_of};

verus! {

/// How long a whole join may take, in milliseconds of the caller's clock. One deadline for
/// the handshake: a host dribbling a part just inside every timeout would otherwise hold a
/// joiner on the loading screen for ever.
pub const JOIN_TIMEOUT_MS: u64 = 60000;

/// What a joining player hears about the world.
#[derive(Debug)]
pub enum JoinMsg {
    /// Which world, and how many parts of it are coming.
    Welcome { seed: u64, parts: u32 },
    /// One chunk's worth of the world's edits.
    WorldPart { edits: Vec<(BlockPos, Block)> },
    /// Anything else, which the world being collected has no use for.
    Other,
}

/// One thing off the wire while joining.
#[derive(Debug)]
pub enum JoinEvent {
    Message(PlayerId, JoinMsg),
    Joined(PlayerId),
    Left(PlayerId),
    /// The connection is gone.
    Closed,
    /// Nothing arrived; only the clock moved on.
    Quiet,
}

/// Why a join gave up.
#[derive(Debug, Clone, Copy, PartialEq, Eq, Structural)]
pub enum JoinError {
    /// The host hung up during the handshake.
    HostLeft,
    /// The host said twice which world this is.
    SecondWelcome,
    /// The host sent world before saying which world it is.
    PartBeforeWelcome,
    /// The host sent more parts than it promised.
    TooManyParts,
    /// A part holds more edits than a chunk has blocks.
    PartTooBig,
    /// A part spans more than one chunk.
    PartSpansChunks,
    /// The world sent is past what a joiner will keep.
    WorldTooBig,
    /// The handshake did not finish by its deadline.
    TimedOut,
}

/// Where a join stands after one event.
#[derive(Debug, Clone, Copy, PartialEq, Eq, Structural)]
pub enum Joining {
    /// Still collecting.
    Waiting,
    /// The whole world is in: build it from this seed and the edits collected.
    Done(u64),
    /// The join is over.
    Failed(JoinError),
}

/// Do all these edits lie in the chunk of the first one?
pub open spec fn one_chunk(edits: Seq<(BlockPos, Block)>) -> bool {
    forall|k: int|
        0 <= k < edits.len() ==> chunk_of((#[trigger] edits[k]).0.x as int) == chunk_of(edits[0].0.x as int)
            && chunk_of(edits[k].0.z as int) == chunk_of(edits[0].0.z as int)
}

/// A world being collected: the world it is, and how many parts are still owed, once the
/// host has said; and the edits so far.
pub struct Collect {
    world: Option<(u64, u32)>,
    edits: Vec<(BlockPos, Block)>,
    deadline: u64,
}

/// The deadline of a join that began at `started`: [`JOIN_TIMEOUT_MS`] later, or the end
/// of the clock where that is sooner.
pub open spec fn deadline_of(started: u64) -> u64 {
    if started + JOIN_TIMEOUT_MS > u64::MAX {
        u64::MAX
    } else {
        (started + JOIN_TIMEOUT_MS) as u64
    }
}

/// What one event, heard at `now`, does to a join whose deadline is `deadline`: the world
/// and parts owed afterwards, whether the edits of a part are taken in, and where the join
/// stands. Anything heard at or past the deadline ends the join.
pub open spec fn hear_spec(
    world: Option<(u64, u32)>,
    held: nat,
    host: PlayerId,
    event: JoinEvent,
    per_chunk: nat,
    most: nat,
    now: u64,
    deadline: u64,
) -> (Option<(u64, u32)>, bool, Joining) {
    if now >= deadline {
        (world, false, Joining::Failed(JoinError::TimedOut))
    } else {
        heard_in_time(world, held, host, event, per_chunk, most)
    }
}

/// What one event heard before the deadline does to a join.
pub open spec fn heard_in_time(
    world: Option<(u64, u32)>,
    held: nat,
    host: PlayerId,
    event: JoinEvent,
    per_chunk: nat,
    most: nat,
) -> (Option<(u64, u32)>, bool, Joining) {
    let settle = |w: Option<(u64, u32)>, took: bool|
        match w {
            Some((seed, 0)) => (w, took, Joining::Done(seed)),
            _ => (w, took, Joining::Waiting),
        };
    match event {
        JoinEvent::Message(from, msg) => if from != host {
            (world, false, Joining::Waiting)
        } else {
            match msg {
                JoinMsg::Welcome { seed, parts } => if world is Some {
                    (world, false, Joining::Failed(JoinError::SecondWelcome))
                } else {
                    settle(Some((seed, parts)), false)
                },
                JoinMsg::WorldPart { edits } => match world {
                    None => (world, false, Joining::Failed(JoinError::PartBeforeWelcome)),
                    Some((seed, left)) => if left == 0 {
                        (world, false, Joining::Failed(JoinError::TooManyParts))
                    } else if edits@.len() > 0 && edits@.len() > per_chunk {
                        (world, false, Joining::Failed(JoinError::PartTooBig))
                    } else if edits@.len() > 0 && !one_chunk(edits@) {
                        (world, false, Joining::Failed(JoinError::PartSpansChunks))
                    } else if held + edits@.len() > most {
                        (world, false, Joining::Failed(JoinError::WorldTooBig))
                    } else {
                        settle(Some((seed, (left - 1) as u32)), true)
                    },
                },
                JoinMsg::Other => settle(world, false),
            }
        },
        JoinEvent::Left(id) => if id == host {
            (world, false, Joining::Failed(JoinError::HostLeft))
        } else {
            (world, false, Joining::Waiting)
        },
        JoinEvent::Joined(_) => (world, false, Joining::Waiting),
        JoinEvent::Closed => (world, false, Joining::Failed(JoinError::HostLeft)),
        JoinEvent::Quiet => (world, false, Joining::Waiting),
    }
}

/// One deadline for the whole join, and what has run out stays run out: anything heard at
/// or past the deadline, at that time or any later one, ends the join and takes nothing
/// in, whatever the host says.
pub proof fn lemma_late_is_over(
    world: Option<(u64, u32)>,
    held: nat,
    host: PlayerId,
    event: JoinEvent,
    per_chunk: nat,
    most: nat,
    now: u64,
    later: u64,
    deadline: u64,
)
    requires
        now >= deadline,
        later >= now,
    ensures
        hear_spec(world, held, host, event, per_chunk, most, now, deadline) == (world, false, Joining::Failed(JoinError::TimedOut)),
        hear_spec(world, held, host, event, per_chunk, most, later, deadline) == (world, false, Joining::Failed(JoinError::TimedOut)),
{
}

/// What a join takes in is bounded whatever the host says: only a part from the host it
/// dialled, before the deadline, after a welcome and within the parts promised, of one
/// chunk, no bigger than a chunk holds, and keeping the whole within what the joiner will
/// hold. Anything heard from anyone else changes nothing.
pub proof fn lemma_only_bounded_parts_are_taken(
    world: Option<(u64, u32)>,
    held: nat,
    host: PlayerId,
    event: JoinEvent,
    per_chunk: nat,
    most: nat,
    now: u64,
    deadline: u64,
)
    ensures
        ({
            let (w, took, j) = hear_spec(world, held, host, event, per_chunk, most, now, deadline);
            &&& took ==> {
                &&& now < deadline
                &&& event matches JoinEvent::Message(from, JoinMsg::WorldPart { edits })
                &&& from == host
                &&& world matches Some((seed, left))
                &&& left > 0
                &&& w == Some((seed, (left - 1) as u32))
                &&& edits@.len() <= per_chunk || edits@.len() == 0
                &&& edits@.len() > 0 ==> one_chunk(edits@)
                &&& held + edits@.len() <= most
            }
            &&& (event matches JoinEvent::Message(from, _) && from != host && now < deadline) ==> (w == world && !took
                && j == Joining::Waiting)
        }),
{
}

impl Collect {
    /// Nothing heard yet, in a join that began at `started` on the caller's clock.
    pub fn new(started: u64) -> (r: Collect)
        ensures
            r.world_spec() is None,
            r.edits_spec() == Seq::<(BlockPos, Block)>::empty(),
            r.deadline_spec() == deadline_of(started),
    {
        let deadline = if started > u64::MAX - JOIN_TIMEOUT_MS {
            u64::MAX
        } else {
            started + JOIN_TIMEOUT_MS
        };
        Collect { world: None, edits: Vec::new(), deadline }
    }

    /// When the join runs out of time. Fixed when it begins: nothing the host sends moves it.
    pub closed spec fn deadline_spec(&self) -> u64 {
        self.deadline
    }

    /// The world being joined and the parts still owed, once the host has said.
    pub closed spec fn world_spec(&self) -> Option<(u64, u32)> {
        self.world
    }

    /// The edits collected so far.
    pub closed spec fn edits_spec(&self) -> Seq<(BlockPos, Block)> {
        self.edits@
    }

    /// The edits collected so far.
    pub fn edits(&self) -> (r: &Vec<(BlockPos, Block)>)
        ensures
            r@ == self.edits_spec(),
    {
        &self.edits
    }

    /// Hears one event of the handshake from `host`, taking a part's edits in if the
    /// host's claims so far still hold. `per_chunk` is how many edits one chunk can hold
    /// and `most` how many the joiner will keep in all.
    ///
    /// Anything else this early is chatter with nothing that could consume it; a host
    /// that has already hung up ends the wait rather than running out the clock. `now` is
    /// when the event is heard; at or past the deadline the join is over, whatever it is.
    #[verifier::loop_isolation(false)]
    pub fn hear(&mut self, host: PlayerId, event: JoinEvent, per_chunk: usize, most: usize, now: u64) -> (r: Joining)
        ensures
            final(self).deadline_spec() == old(self).deadline_spec(),
            ({
                let (w, took, j) = hear_spec(
                    old(self).world_spec(),
                    old(self).edits_spec().len(),
                    host,
                    event,
                    per_chunk as nat,
                    most as nat,
                    now,
                    old(self).deadline_spec(),
                );
                &&& final(self).world_spec() == w
                &&& r == j
                &&& took ==> final(self).edits_spec() == old(self).edits_spec() + match event {
                    JoinEvent::Message(_, JoinMsg::WorldPart { edits }) => edits@,
                    _ => Seq::empty(),
                }
                &&& !took ==> final(self).edits_spec() == old(self).edits_spec()
            }),
    {
        if now >= self.deadline {
            return Joining::Failed(JoinError::TimedOut);
        }
        match event {
            JoinEvent::Message(from, msg) => {
                if from != host {
                    return Joining::Waiting;
                }
                match msg {
                    JoinMsg::Welcome { seed, parts } => {
                        if self.world.is_some() {
                            return Joining::Failed(JoinError::SecondWelcome);
                        }
                        self.world = Some((seed, parts));
                    },
                    JoinMsg::WorldPart { edits } => {
                        let (seed, left) = match self.world {
                            None => {
                                return Joining::Failed(JoinError::PartBeforeWelcome);
                            },
                            Some(w) => w,
                        };
                        if left == 0 {
                            return Joining::Failed(JoinError::TooManyParts);
                        }
                        if edits.len() > 0 {
                            if edits.len() > per_chunk {
                                return Joining::Failed(JoinError::PartTooBig);
                            }
                            let first = edits[0].0.chunk();
                            let mut k: usize = 0;
                            while k < edits.len()
                                invariant
                                    k <= edits@.len(),
                                    edits@.len() > 0,
                                    first.x == chunk_of(edits@[0].0.x as int),
                                    first.z == chunk_of(edits@[0].0.z as int),
                                    forall|q: int|
                                        0 <= q < k ==> chunk_of((#[trigger] edits@[q]).0.x as int) == chunk_of(
                                            edits@[0].0.x as int,
                                        ) && chunk_of(edits@[q].0.z as int) == chunk_of(edits@[0].0.z as int),
                                decreases edits@.len() - k,
                            {
                                let c = edits[k].0.chunk();
                                if c.x != first.x || c.z != first.z {
                                    assert(!one_chunk(edits@));
                                    return Joining::Failed(JoinError::PartSpansChunks);
                                }
                                k = k + 1;
                            }
                        }
                        if edits.len() > most || self.edits.len() > most - edits.len() {
                            return Joining::Failed(JoinError::WorldTooBig);
                        }
                        let mut k: usize = 0;
                        let ghost before = self.edits@;
                        while k < edits.len()
                            invariant
                                k <= edits@.len(),
                                self.edits@ == before + edits@.take(k as int),
                                self.world == old(self).world,
                                self.deadline == old(self).deadline,
                                before == old(self).edits@,
                            decreases edits@.len() - k,
                        {
                            self.edits.push(edits[k]);
                            k = k + 1;
                            assert(self.edits@ =~= before + edits@.take(k as int));
                        }
                        assert(edits@.take(edits@.len() as int) =~= edits@);
                        self.world = Some((seed, left - 1));
                    },
                    JoinMsg::Other => {},
                }
                match self.world {
                    Some((seed, 0)) => Joining::Done(seed),
                    _ => Joining::Waiting,
                }
            },
            JoinEvent::Left(id) => {
                if id == host {
                    Joining::Failed(JoinError::HostLeft)
                } else {
                    Joining::Waiting
                }
            },
            JoinEvent::Joined(_) => Joining::Waiting,
            JoinEvent::Closed => Joining::Failed(JoinError::HostLeft),
            JoinEvent::Quiet => Joining::Waiting,
        }
    }
}

} // verus!
