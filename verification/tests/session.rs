use kahui::node::Message;
use kahui::proto::ids::{ChannelId, CommunityId, EventId, Hash32, UserId};
use kahui::session::{clock, format_message, mangled_command_hint, short_peer};

#[test]
fn clock_renders_utc_wall_time() {
    assert_eq!(clock(0), "00:00:00");
    assert_eq!(clock(3_661_000), "01:01:01");
    // 2023-11-14T22:13:20Z
    assert_eq!(clock(1_700_000_000_000), "22:13:20");
}

#[test]
fn a_shell_mangled_command_is_recognised_not_posted() {
    let hint = mangled_command_hint("C:/Program Files/Git/create Kahui")
        .expect("should be recognised as a rewritten /create");
    assert!(hint.contains("/create"), "the hint should name the command");
    assert!(hint.contains("MSYS_NO_PATHCONV"), "and say how to fix it");
}

#[test]
fn ordinary_messages_containing_paths_are_left_alone() {
    // Only a path whose last segment is an actual command is suspicious.
    assert_eq!(mangled_command_hint("look in C:/Program Files/Git/bin"), None);
    assert_eq!(mangled_command_hint("/create Kahui"), None);
    assert_eq!(mangled_command_hint("see you at 3/4 past"), None);
}

#[test]
fn short_peer_keeps_the_distinctive_tail() {
    assert_eq!(short_peer("12D3KooWabcdefgh"), "…abcdefgh");
    assert_eq!(short_peer("short"), "short");
}

#[test]
fn a_backslash_path_is_recognised_too() {
    let hint = mangled_command_hint("C:\\Program Files\\Git/join kahui1abc").expect("a Windows path before the slash");
    assert!(hint.starts_with("that looks like `/join`"));
}

#[test]
fn a_path_ending_in_whitespace_names_no_command() {
    assert_eq!(mangled_command_hint("C:/Program Files/Git/   "), None);
}

#[test]
fn an_eight_character_peer_id_is_shortened_whole() {
    assert_eq!(short_peer("abcdefgh"), "…abcdefgh");
    assert_eq!(short_peer("abcdefg"), "abcdefg");
}

#[test]
fn clock_wraps_at_midnight() {
    assert_eq!(clock(86_400_000), "00:00:00");
    assert_eq!(clock(86_399_999), "23:59:59");
}

#[test]
fn a_message_line_shows_time_author_and_body() {
    let message = Message {
        id: EventId(Hash32::digest(b"m")),
        community: CommunityId(Hash32::digest(b"c")),
        channel: ChannelId(Hash32::digest(b"ch")),
        author: UserId(Hash32::digest(b"a")),
        author_name: "alice".to_string(),
        body: "kia ora".to_string(),
        timestamp_ms: 3_661_000,
        lamport: 7,
    };
    assert_eq!(format_message(&message), "[01:01:01] alice: kia ora");
}

use kahui::node::NodeEvent as SessionEvent;
use kahui::proto::ids::{CommunityId as SessionCommunityId, UserId as SessionUserId};
use kahui::session::{find_community, history_limit, parse_count, parse_input, render_event, Input};
use kahui::store::CommunitySummary;

#[test]
fn a_line_is_a_command_or_a_message() {
    assert_eq!(parse_input("hello there"), Input::Post("hello there".into()));
    assert_eq!(parse_input("/create   Bakers of Aotearoa  "), Input::Create("Bakers of Aotearoa".into()));
    assert_eq!(parse_input("/c random"), Input::Channel("random".into()));
    assert_eq!(parse_input("/channel random"), Input::Channel("random".into()));
    assert_eq!(parse_input("/quit"), Input::Quit);
    assert_eq!(parse_input("/exit"), Input::Quit);
    assert_eq!(parse_input("/?"), Input::Help);
    assert_eq!(parse_input("/history 5"), Input::History("5".into()));
    assert_eq!(parse_input("/history"), Input::History(String::new()));
    assert_eq!(parse_input("/frobnicate now"), Input::Unknown("/frobnicate".into()));
    assert!(matches!(parse_input("C:/Program Files/Git/create Kahui"), Input::Hint(_)));
}

#[test]
fn history_takes_an_optional_count() {
    assert_eq!(history_limit(""), Ok(30));
    assert_eq!(history_limit("5"), Ok(5));
    assert_eq!(history_limit("+7"), Ok(7));
    assert_eq!(history_limit("five"), Err("usage: /history [number of messages]".to_string()));
    assert_eq!(parse_count("18446744073709551615"), Some(usize::MAX));
    assert_eq!(parse_count("18446744073709551616"), None);
    assert_eq!(parse_count("+"), None);
    assert_eq!(parse_count(""), None);
}

#[test]
fn what_the_node_learns_reads_as_prose() {
    let user = SessionUserId::from_bytes([0xab; 32]);
    let community = SessionCommunityId::from_bytes([1; 32]);
    assert_eq!(
        render_event(&SessionEvent::Membership { community, user, display_name: "ana".into() }),
        "· ana (abababab) is a member"
    );
    assert_eq!(
        render_event(&SessionEvent::Synced { peer: "12D3KooWabcdefgh".into(), community, applied: 1 }),
        "· caught up on 1 event from …abcdefgh"
    );
    assert_eq!(
        render_event(&SessionEvent::Synced { peer: "p".into(), community, applied: 3 }),
        "· caught up on 3 events from p"
    );
    assert_eq!(render_event(&SessionEvent::Warning { message: "oops".into() }), "! oops");
    assert_eq!(render_event(&SessionEvent::Stopped), "· node stopped");
}

fn summary(name: &str, byte: u8) -> CommunitySummary {
    CommunitySummary {
        id: SessionCommunityId::from_bytes([byte; 32]),
        name: name.into(),
        description: String::new(),
        founder: SessionUserId::from_bytes([0; 32]),
        created_ms: 0,
    }
}

#[test]
fn use_finds_a_community_by_name_or_id() {
    let held = vec![summary("Bakers Guild", 0x11), summary("Bakers", 0x22), summary("Knitters", 0xab)];
    assert_eq!(find_community("bakers", &held), Ok(1), "an exact name beats a prefix");
    assert_eq!(find_community("BAK", &held), Ok(0));
    assert_eq!(find_community("abab", &held), Ok(2), "the start of an id works too");
    assert_eq!(find_community("weavers", &held), Err("no community here matches weavers".to_string()));
    assert_eq!(find_community("", &held), Err("usage: /use <community name or id>".to_string()));
}
