use zerotick::style::motd::{render, render_legacy_codes};
use zerotick::commands::status::render_status;
use zerotick::style::table::Table;
use zerotick::types::{ChatComponent, Description, PlayerSample, Players, ServerInfo, ServerStatus, Version};
use zerotick::style::tree::Tree;
use zerotick::style::{error, paint, warning, Effect, Hue, Look};

#[test]
fn formatters_with_color() {
    colored::control::set_override(true);
    assert_eq!(error("boom"), "\u{1b}[1;31m\u{2717}\u{1b}[0m \u{1b}[37mboom\u{1b}[0m");
    assert_eq!(warning("w"), "\u{1b}[33m\u{26a0}\u{1b}[0m \u{1b}[37mw\u{1b}[0m");
    let l = Look::fg(Hue::Green).with(Effect::Bold);
    assert_eq!(paint("ok", &l), "\u{1b}[1;32mok\u{1b}[0m");
    assert_eq!(paint("plain", &Look::plain()), "plain");
    let inner = paint("a\u{1b}[0mb", &Look::fg(Hue::Red));
    assert_eq!(inner, "\u{1b}[31ma\u{1b}[0m\u{1b}[31mb\u{1b}[0m");
    assert_eq!(render_legacy_codes("no codes here"), "no codes here");
    assert_eq!(render_legacy_codes("\u{a7}4r"), "\u{1b}[31mr\u{1b}[0m");
}

fn strip(s: &str) -> String {
    let mut out = String::new();
    let mut inside = false;
    for c in s.chars() {
        if inside {
            inside = c != 'm';
        } else if c == '\u{1b}' {
            inside = true;
        } else {
            out.push(c);
        }
    }
    out
}

#[test]
fn stripped_legacy_text_keeps_visible_characters() {
    colored::control::set_override(true);
    let out = render_legacy_codes("\u{a7}aHi \u{a7}lthere\u{a7}z! \u{a7}");
    assert!(out.contains('\u{1b}'));
    assert_eq!(strip(&out), "Hi there\u{a7}z! ");
    let out = render_legacy_codes("\u{a7}6gold\u{a7}rplain\u{a7}Kx");
    assert_eq!(strip(&out), "goldplainx");
}

#[test]
fn stripped_tree_lines_up_values() {
    colored::control::set_override(true);
    let mut t = Tree::new();
    t.add("Version".to_string(), "1.20".to_string());
    t.add_with_children("MOTD".to_string(), "a".to_string(), vec![(String::new(), "b".to_string())]);
    let out = t.render(10);
    assert!(out.contains('\u{1b}'));
    assert_eq!(
        strip(&out),
        " \u{251c}\u{2500} Version    1.20\n \u{2570}\u{2500} MOTD       a\n     \u{2570}\u{2500} b\n"
    );
}

#[test]
fn stripped_table_lines_have_one_length() {
    colored::control::set_override(true);
    let mut t = Table::new(vec!["IP".to_string(), "Players".to_string()]);
    t.add_row(vec!["10.0.0.1".to_string(), "3/20".to_string(), "dropped".to_string()]);
    t.add_row(vec!["h\u{e9}".to_string()]);
    let out = t.render();
    assert!(out.contains('\u{1b}'));
    let shown = strip(&out);
    let lines: Vec<&str> = shown.split_terminator('\n').collect();
    assert_eq!(lines.len(), 2 + 4);
    for l in &lines {
        assert_eq!(l.chars().count(), 1 + 2 + (8 + 2) + (7 + 2));
    }
    assert!(!shown.contains("dropped"));
    assert_eq!(lines[4], "\u{2502} h\u{e9}       \u{2502}         \u{2502}");
}

#[test]
fn stripped_status_of_a_busy_server() {
    colored::control::set_override(true);
    let info = ServerInfo {
        address: "mc.hypixel.net".to_string(),
        port: 25565,
        status: ServerStatus {
            version: Version { name: "1.8-1.21.4".to_string(), protocol: 769 },
            players: Players {
                max: 100000,
                online: 42069,
                sample: vec![
                    PlayerSample { name: "Technoblade".to_string(), id: String::new() },
                    PlayerSample { name: "Dream".to_string(), id: String::new() },
                ],
            },
            description: Description::Plain("Hypixel Network [1.8-1.21]".to_string()),
            favicon: None,
            enforces_secure_chat: Some(true),
            previews_chat: None,
            forge_data: None,
            mod_info: None,
        },
        latency_nanos: 23_000_000,
        blocked: Some(false),
        srv: false,
    };
    let out = render_status(&info, &[]);
    assert!(out.contains('\u{1b}'));
    assert_eq!(
        strip(&out),
        " \u{251c}\u{2500} Version    1.8-1.21.4 (769)\n \
         \u{251c}\u{2500} Latency    23ms\n \
         \u{251c}\u{2500} Players    42,069/100,000\n \
         \u{2502}   \u{251c}\u{2500} Technoblade\n \
         \u{2502}   \u{251c}\u{2500} Dream\n \
         \u{2502}   \u{2570}\u{2500} \u{2026} 42,067 more\n \
         \u{251c}\u{2500} MOTD       Hypixel Network [1.8-1.21]\n \
         \u{251c}\u{2500} Secure     enforced\n \
         \u{2570}\u{2500} Blocked    no\n"
    );
}

fn component(text: &str, color: Option<&str>, translate: Option<&str>, extra: Vec<ChatComponent>) -> ChatComponent {
    ChatComponent {
        text: text.to_string(),
        translate: translate.map(|t| t.to_string()),
        extra,
        color: color.map(|c| c.to_string()),
        bold: Some(true),
        italic: None,
        underlined: None,
        strikethrough: None,
        obfuscated: None,
    }
}

#[test]
fn stripped_component_shows_texts_in_order() {
    colored::control::set_override(true);
    let inner = component("\u{a7}cin\u{a7}zner", Some("#12ab34"), None, vec![]);
    let c = component("A", Some("gold"), Some("key"), vec![inner, component("", None, None, vec![])]);
    let out = render(&Description::Component(c));
    assert!(out.contains('\u{1b}'));
    assert_eq!(strip(&out), "Akeyin\u{a7}zner");
}
