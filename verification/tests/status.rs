use zerotick::cli::log_filter;
use zerotick::commands::status::{format_number, profile_lookup_wanted, render_status};
use zerotick::error::Error;
use zerotick::mojang::profile::PlayerProfile;
use zerotick::types::{Description, PlayerSample, Players, ServerInfo, ServerStatus, Version};

#[test]
fn groups_thousands() {
    assert_eq!(format_number(0), "0");
    assert_eq!(format_number(999), "999");
    assert_eq!(format_number(1000), "1,000");
    assert_eq!(format_number(1234567), "1,234,567");
    assert_eq!(format_number(-1234), "-1,234");
    assert_eq!(format_number(-123), "-,123");
    assert_eq!(format_number(i32::MIN), "-2,147,483,648");
}

#[test]
fn profile_lookups_skip_fake_ids() {
    assert!(!profile_lookup_wanted("00000000-0000-0000-0000-000000000000"));
    assert!(profile_lookup_wanted("069a79f4-44e9-4726-a5be-fca90e38aaf5"));
    assert!(!profile_lookup_wanted("abc"));
}

fn info(sample: Vec<PlayerSample>, latency_nanos: u128) -> ServerInfo {
    ServerInfo {
        address: "mc.example.com".to_string(),
        port: 25565,
        status: ServerStatus {
            version: Version { name: "1.20.4".to_string(), protocol: 765 },
            players: Players { max: 20, online: 3, sample },
            description: Description::Plain("Hello\nWorld".to_string()),
            favicon: Some("data:image/png;base64,ABCDEFGH".to_string()),
            enforces_secure_chat: Some(true),
            previews_chat: Some(false),
            forge_data: None,
            mod_info: Some("{}".to_string()),
        },
        latency_nanos,
        blocked: Some(false),
        srv: false,
    }
}

#[test]
fn renders_status_tree() {
    colored::control::set_override(false);
    let sample = vec![
        PlayerSample { name: "Steve".to_string(), id: "1".to_string() },
        PlayerSample { name: "Alex".to_string(), id: "2".to_string() },
    ];
    let profiles = vec![(
        "Steve".to_string(),
        Some(PlayerProfile {
            name: "Steve".to_string(),
            uuid: "1".to_string(),
            skin_url: Some("s".to_string()),
            cape_url: Some("c".to_string()),
        }),
    )];
    let out = render_status(&info(sample, 12_000_000), &profiles);
    assert_eq!(
        out,
        " \u{251c}\u{2500} Version    1.20.4 (765)\n \
         \u{251c}\u{2500} Latency    12ms\n \
         \u{251c}\u{2500} Players    3/20\n \
         \u{2502}   \u{251c}\u{2500} Steve [skin, cape]\n \
         \u{2502}   \u{251c}\u{2500} Alex\n \
         \u{2502}   \u{2570}\u{2500} \u{2026} 1 more\n \
         \u{251c}\u{2500} MOTD       Hello\n \
         \u{2502}             World\n \
         \u{251c}\u{2500} Secure     enforced\n \
         \u{251c}\u{2500} Preview    disabled\n \
         \u{251c}\u{2500} Blocked    no\n \
         \u{251c}\u{2500} Favicon    64\u{d7}64 embedded (~8 bytes)\n \
         \u{2570}\u{2500} Mods       Forge/modded server detected\n"
    );
}

#[test]
fn zero_latency_and_many_players() {
    colored::control::set_override(false);
    let sample: Vec<PlayerSample> = (0..10)
        .map(|i| PlayerSample { name: format!("p{i}"), id: String::new() })
        .collect();
    let out = render_status(&info(sample.clone(), 0), &[]);
    assert!(!out.contains("Latency"));
    assert!(out.contains("\u{2500} p7\n"));
    assert!(!out.contains("p8"));
    assert!(!out.contains("more"));
    let mut busy = info(sample, 0);
    busy.status.players.online = 20;
    let out = render_status(&busy, &[]);
    assert!(out.contains("\u{2500} p7\n"));
    assert!(out.contains("\u{2026} 12 more\n"));
}

#[test]
fn players_row_counts_unlisted_players() {
    colored::control::set_override(false);
    let sample = vec![
        PlayerSample { name: "Technoblade".to_string(), id: String::new() },
        PlayerSample { name: "Dream".to_string(), id: String::new() },
    ];
    let mut i = info(sample, 23_000_000);
    i.status.players.online = 42069;
    i.status.players.max = 100000;
    i.blocked = Some(true);
    let out = render_status(&i, &[]);
    assert!(out.contains(
        " \u{251c}\u{2500} Players    42,069/100,000\n \
         \u{2502}   \u{251c}\u{2500} Technoblade\n \
         \u{2502}   \u{251c}\u{2500} Dream\n \
         \u{2502}   \u{2570}\u{2500} \u{2026} 42,067 more\n"
    ));
    assert!(out.contains(" \u{251c}\u{2500} Blocked    Yes\n"));
}

#[test]
fn log_filters() {
    assert_eq!(log_filter(0), "error");
    assert_eq!(log_filter(1), "zerotick=info");
    assert_eq!(log_filter(2), "zerotick=debug");
    assert_eq!(log_filter(7), "trace");
}

#[test]
fn error_constructors() {
    assert!(matches!(Error::protocol("x".to_string()), Error::Protocol(ref m) if m == "x"));
    assert!(matches!(Error::dns("d".to_string()), Error::Dns(ref m) if m == "d"));
    let t = std::time::Duration::from_millis(5);
    assert!(matches!(Error::timeout(t), Error::Timeout(d) if d == t));
}

#[test]
fn separators_only_add_commas() {
    for n in [0, 7, 1_000, -45_678, 2_147_483_647, -1] {
        assert_eq!(format_number(n).replace(',', ""), n.to_string());
    }
}
