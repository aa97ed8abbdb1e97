use blockgame::net::handshake::{Collect, JOIN_TIMEOUT_MS, JoinError, JoinEvent, JoinMsg, Joining};
use blockgame::registry::Block;
use blockgame::session::PlayerId;
use blockgame::world::BlockPos;

const PER_CHUNK: usize = 16 * 16 * 64;

fn part(n: i32) -> JoinMsg {
    JoinMsg::WorldPart { edits: (0..n).map(|i| (BlockPos::new(i % 16, 40, i / 16 % 16), Block::Stone)).collect() }
}

#[test]
fn a_world_arrives_in_the_parts_it_promised() {
    let host = PlayerId(1);
    let mut join = Collect::new(0);
    assert_eq!(join.hear(host, JoinEvent::Message(PlayerId(2), JoinMsg::Welcome { seed: 9, parts: 0 }), PER_CHUNK, 100, 10), Joining::Waiting, "only the host names the world");
    assert_eq!(join.hear(host, JoinEvent::Message(host, JoinMsg::Welcome { seed: 7, parts: 2 }), PER_CHUNK, 100, 10), Joining::Waiting);
    assert_eq!(join.hear(host, JoinEvent::Message(host, part(3)), PER_CHUNK, 100, 10), Joining::Waiting);
    assert_eq!(join.hear(host, JoinEvent::Message(host, part(2)), PER_CHUNK, 100, 10), Joining::Done(7));
    assert_eq!(join.edits().len(), 5);
}

#[test]
fn a_joiner_stops_believing_a_host_that_overreaches() {
    let host = PlayerId(1);
    let mut join = Collect::new(0);
    assert_eq!(join.hear(host, JoinEvent::Message(host, part(1)), PER_CHUNK, 100, 10), Joining::Failed(JoinError::PartBeforeWelcome));
    join.hear(host, JoinEvent::Message(host, JoinMsg::Welcome { seed: 7, parts: 5 }), PER_CHUNK, 100, 10);
    assert_eq!(join.hear(host, JoinEvent::Message(host, JoinMsg::Welcome { seed: 8, parts: 1 }), PER_CHUNK, 100, 10), Joining::Failed(JoinError::SecondWelcome));
    assert_eq!(join.hear(host, JoinEvent::Message(host, part(6)), PER_CHUNK, 5, 10), Joining::Failed(JoinError::WorldTooBig));
    assert_eq!(join.hear(host, JoinEvent::Message(host, part(6)), 5, 100, 10), Joining::Failed(JoinError::PartTooBig));
    let spanning = JoinMsg::WorldPart { edits: vec![(BlockPos::new(0, 40, 0), Block::Stone), (BlockPos::new(16, 40, 0), Block::Stone)] };
    assert_eq!(join.hear(host, JoinEvent::Message(host, spanning), PER_CHUNK, 100, 10), Joining::Failed(JoinError::PartSpansChunks));
    assert_eq!(join.edits().len(), 0, "nothing refused was kept");
    assert_eq!(join.hear(host, JoinEvent::Left(PlayerId(3)), PER_CHUNK, 100, 10), Joining::Waiting);
    assert_eq!(join.hear(host, JoinEvent::Left(host), PER_CHUNK, 100, 10), Joining::Failed(JoinError::HostLeft));
}

#[test]
fn a_host_cannot_send_more_parts_than_it_promised() {
    let host = PlayerId(1);
    let mut join = Collect::new(0);
    join.hear(host, JoinEvent::Message(host, JoinMsg::Welcome { seed: 7, parts: 1 }), PER_CHUNK, 100, 10);
    assert_eq!(join.hear(host, JoinEvent::Message(host, JoinMsg::WorldPart { edits: Vec::new() }), PER_CHUNK, 100, 10), Joining::Done(7));
    assert_eq!(join.hear(host, JoinEvent::Message(host, part(1)), PER_CHUNK, 100, 10), Joining::Failed(JoinError::TooManyParts));
}

#[test]
fn a_dribbling_host_cannot_restart_the_join_clock() {
    let host = PlayerId(1);
    let started = 1_000;
    let mut join = Collect::new(started);
    assert_eq!(join.hear(host, JoinEvent::Message(host, JoinMsg::Welcome { seed: 1, parts: 3 }), PER_CHUNK, 100, started), Joining::Waiting);
    let step = JOIN_TIMEOUT_MS * 3 / 4;
    assert_eq!(join.hear(host, JoinEvent::Message(host, part(1)), PER_CHUNK, 100, started + step), Joining::Waiting);
    assert_eq!(
        join.hear(host, JoinEvent::Message(host, part(1)), PER_CHUNK, 100, started + 2 * step),
        Joining::Failed(JoinError::TimedOut),
        "the clock restarted"
    );
    assert_eq!(join.edits().len(), 1, "nothing heard late was kept");
    assert_eq!(join.hear(host, JoinEvent::Quiet, PER_CHUNK, 100, started + 3 * step), Joining::Failed(JoinError::TimedOut));
}

#[test]
fn a_quiet_host_runs_out_the_clock_exactly_at_the_deadline() {
    let host = PlayerId(1);
    let mut join = Collect::new(0);
    assert_eq!(join.hear(host, JoinEvent::Quiet, PER_CHUNK, 100, JOIN_TIMEOUT_MS - 1), Joining::Waiting);
    assert_eq!(join.hear(host, JoinEvent::Quiet, PER_CHUNK, 100, JOIN_TIMEOUT_MS), Joining::Failed(JoinError::TimedOut));
    let mut late = Collect::new(u64::MAX - 5);
    assert_eq!(late.hear(host, JoinEvent::Quiet, PER_CHUNK, 100, u64::MAX - 1), Joining::Waiting, "the deadline stops at the end of the clock");
}
