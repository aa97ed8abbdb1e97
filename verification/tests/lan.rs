use blockgame::net::lan::{Addr, Ip, dialable, is_control, is_white_space, readable};

#[test]
fn a_name_is_one_bounded_line() {
    assert_eq!(readable("living-room"), "living-room");
    assert_eq!(readable("  spaced  "), "spaced");
    assert_eq!(readable(""), "a nameless world");
    assert_eq!(readable("a\nb"), "ab");
    assert_eq!(readable(&"x".repeat(500)).chars().count(), 32);
}

#[test]
fn white_space_inside_a_name_stays() {
    assert_eq!(readable("\u{a0}my  world\u{3000}"), "my  world");
    assert_eq!(readable("\t\r\n"), "a nameless world");
    assert_eq!(readable(" \u{7f} "), "a nameless world");
}

#[test]
fn the_bound_counts_what_is_kept_not_what_arrived() {
    let name = format!("{}{}", "\n".repeat(40), "y".repeat(40));
    assert_eq!(readable(&name), "y".repeat(32));
    let spaced = format!("{}x", " ".repeat(40));
    assert_eq!(readable(&spaced), "a nameless world", "the first 32 kept are all spaces");
}

#[test]
fn control_and_white_space_are_the_unicode_sets() {
    assert!(is_control('\u{0}') && is_control('\u{1f}') && is_control('\u{9f}'));
    assert!(!is_control(' ') && !is_control('\u{a0}'));
    assert!(is_white_space('\u{2000}') && is_white_space('\u{205f}'));
    assert!(!is_white_space('x') && !is_white_space('\u{200b}'));
}

fn v4(a: u8, b: u8, c: u8, d: u8) -> u32 {
    u32::from_be_bytes([a, b, c, d])
}

#[test]
fn the_address_that_answered_is_always_dialable() {
    let claimed = vec![Addr::V4 { ip: v4(172, 17, 0, 1), port: 5000 }];
    let addrs = dialable(&claimed, Ip::V4(v4(192, 168, 1, 20)));
    assert!(addrs.contains(&Addr::V4 { ip: v4(172, 17, 0, 1), port: 5000 }));
    assert!(
        addrs.contains(&Addr::V4 { ip: v4(192, 168, 1, 20), port: 5000 }),
        "the address the answer came from was not offered"
    );
}

#[test]
fn an_address_already_claimed_is_not_offered_twice() {
    let claimed = vec![
        Addr::V4 { ip: v4(192, 168, 1, 20), port: 5000 },
        Addr::V4 { ip: v4(10, 0, 0, 2), port: 6000 },
    ];
    let addrs = dialable(&claimed, Ip::V4(v4(192, 168, 1, 20)));
    assert_eq!(
        addrs,
        vec![
            Addr::V4 { ip: v4(192, 168, 1, 20), port: 5000 },
            Addr::V4 { ip: v4(10, 0, 0, 2), port: 6000 },
            Addr::V4 { ip: v4(192, 168, 1, 20), port: 6000 },
        ]
    );
}

#[test]
fn a_v6_answer_is_offered_with_no_scope() {
    let claimed = vec![Addr::V6 { ip: 1, port: 7, flowinfo: 0, scope_id: 3 }];
    let addrs = dialable(&claimed, Ip::V6(1));
    assert_eq!(addrs[1], Addr::V6 { ip: 1, port: 7, flowinfo: 0, scope_id: 0 });
    assert_eq!(addrs.len(), 2);
    assert!(dialable(&[], Ip::V4(0)).is_empty());
}
