use blockgame::net::wire::{FrameError, MAX_FRAME_LEN, sendable};
use blockgame::session::{Heard, PlayerId};

#[test]
fn only_pose_traffic_is_unreliable() {
    assert!(!Heard::Hello.via_datagram());
    assert!(!Heard::Edit.via_datagram());
    assert!(!Heard::Welcome.via_datagram());
    assert!(!Heard::WorldPart.via_datagram());
    assert!(!Heard::Present.via_datagram());
    assert!(!Heard::Inventory.via_datagram());
    assert!(!Heard::Craft.via_datagram());
    assert!(Heard::Pose { id: PlayerId(7) }.via_datagram());
}

#[test]
fn a_frame_past_the_ceiling_is_refused_and_one_at_it_is_not() {
    let at = vec![0u8; MAX_FRAME_LEN];
    assert_eq!(sendable(at.clone()), Ok(at));
    assert_eq!(sendable(vec![1u8; MAX_FRAME_LEN + 1]), Err(FrameError::TooLarge(MAX_FRAME_LEN + 1)));
    assert_eq!(sendable(vec![9, 8, 7]), Ok(vec![9, 8, 7]));
}
