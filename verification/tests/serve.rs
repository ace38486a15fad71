use zerotick::commands::serve::{
    cache_time_remaining, clean_description, clean_motd, component_to_html, description_to_html,
    expires_at_of, motd_to_html, offline_response, online_response, rate_limit_step, raw_motd,
    request_log_lines, srv_record_for, RateDecision,
};
use zerotick::types::{ChatComponent, Description, PlayerSample, Players, ServerStatus, Version};

fn comp(text: &str, color: Option<&str>, bold: Option<bool>, extra: Vec<ChatComponent>) -> ChatComponent {
    ChatComponent {
        text: text.to_string(),
        translate: None,
        extra,
        color: color.map(|c| c.to_string()),
        bold,
        italic: None,
        underlined: None,
        strikethrough: None,
        obfuscated: None,
    }
}

#[test]
fn legacy_text_as_html() {
    assert_eq!(
        motd_to_html("\u{a7}aHello \u{a7}lWorld"),
        "<span></span><span style=\"color: #55FF55;\">Hello </span><span style=\"color: #55FF55;font-weight: bold;\">World</span>"
    );
    assert_eq!(motd_to_html("a<b>&\n"), "<span>a&lt;b&gt;&amp;<br></span>");
    assert_eq!(motd_to_html("x\u{a7}"), "<span>x</span>");
    assert_eq!(
        motd_to_html("\u{a7}l\u{a7}rX"),
        "<span></span><span style=\"font-weight: bold;\"></span><span style=\"\">X</span>"
    );
    assert_eq!(
        motd_to_html("\u{a7}m\u{a7}n\u{a7}o\u{a7}Zy"),
        "<span></span><span style=\"text-decoration: line-through;\"></span><span style=\"text-decoration: line-through;text-decoration: underline;\"></span><span style=\"text-decoration: line-through;text-decoration: underline;font-style: italic;\"></span><span style=\"text-decoration: line-through;text-decoration: underline;font-style: italic;\">y</span>"
    );
}

#[test]
fn components_as_html() {
    let c = comp("Hi", Some("gold"), Some(true), vec![comp("<x>", Some("#123456"), Some(false), vec![])]);
    assert_eq!(
        component_to_html(&c),
        "<span style=\"color: #FFAA00;font-weight: bold;\">Hi<span style=\"color: #123456;\">&lt;x&gt;</span></span>"
    );
    let odd = comp("a\nb", Some("teal"), None, vec![]);
    assert_eq!(component_to_html(&odd), "<span style=\"color: teal;\">a<br>b</span>");
    let d = Description::Plain("\u{a7}4Red".to_string());
    assert_eq!(description_to_html(&d), "<span></span><span style=\"color: #AA0000;\">Red</span>");
}

#[test]
fn raw_and_clean_text() {
    assert_eq!(clean_motd("\u{a7}aHello \u{a7}lWorld\u{a7}"), "Hello World");
    let tree = comp("A", None, None, vec![comp("\u{a7}cB", None, None, vec![comp("C", None, None, vec![])])]);
    let d = Description::Component(tree);
    assert_eq!(raw_motd(&d), "A\u{a7}cBC");
    assert_eq!(clean_description(&d), "ABC");
}

#[test]
fn rate_limiter_steps() {
    assert_eq!(rate_limit_step(0, 0), RateDecision { allowed: true, count: 1, new_window: false });
    assert_eq!(rate_limit_step(4, 999_999_999), RateDecision { allowed: true, count: 5, new_window: false });
    assert_eq!(rate_limit_step(5, 1_000_000_000), RateDecision { allowed: false, count: 5, new_window: false });
    assert_eq!(rate_limit_step(5, 1_000_000_001), RateDecision { allowed: true, count: 1, new_window: true });
    let mut count = 0;
    let mut served = 0;
    for _ in 0..8 {
        let d = rate_limit_step(count, 10);
        count = d.count;
        if d.allowed {
            served += 1;
        }
    }
    assert_eq!(served, 5);
}

#[test]
fn cache_validity() {
    assert_eq!(cache_time_remaining(0), Some(30));
    assert_eq!(cache_time_remaining(1_500_000_000), Some(29));
    assert_eq!(cache_time_remaining(29_999_999_999), Some(1));
    assert_eq!(cache_time_remaining(30_000_000_000), None);
    assert_eq!(expires_at_of(1000), 31000);
}

#[test]
fn offline_and_online_responses() {
    let srv = srv_record_for("mc.example.com", 25566, true);
    assert_eq!(srv.as_ref().map(|r| r.host.as_str()), Some("mc.example.com"));
    assert!(srv_record_for("x", 1, false).is_none());
    let off = offline_response("h".to_string(), 1, None, 5, 30005, srv);
    assert!(!off.online);
    assert_eq!(off.retrieved_at, 5);
    assert_eq!(off.expires_at, 30005);
    assert!(off.version.is_none() && off.players.is_none() && off.motd.is_none());
    assert_eq!(off.srv_record.map(|r| r.port), Some(25566));

    let status = ServerStatus {
        version: Version { name: "\u{a7}6Paper".to_string(), protocol: 765 },
        players: Players {
            max: 20,
            online: 1,
            sample: vec![PlayerSample { name: "\u{a7}bSteve".to_string(), id: "id-1".to_string() }],
        },
        description: Description::Plain("Hi & bye".to_string()),
        favicon: Some("data:image/png;base64,AAAA".to_string()),
        enforces_secure_chat: None,
        previews_chat: None,
        forge_data: None,
        mod_info: None,
    };
    let on = online_response("h".to_string(), 2, Some("1.2.3.4".to_string()), true, 7, 30007, status, None);
    assert!(on.online && on.eula_blocked);
    let v = on.version.unwrap();
    assert_eq!(v.name_raw, "\u{a7}6Paper");
    assert_eq!(v.name_clean, "Paper");
    assert_eq!(v.name_html, "<span></span><span style=\"color: #FFAA00;\">Paper</span>");
    assert_eq!(v.protocol, 765);
    let p = on.players.unwrap();
    assert_eq!((p.online, p.max), (1, 20));
    assert_eq!(p.list[0].uuid, "id-1");
    assert_eq!(p.list[0].name_clean, "Steve");
    let m = on.motd.unwrap();
    assert_eq!(m.raw, "Hi & bye");
    assert_eq!(m.clean, "Hi & bye");
    assert_eq!(m.html, "<span>Hi &amp; bye</span>");
    assert_eq!(on.icon, Some("data:image/png;base64,AAAA".to_string()));
    assert!(on.mods.is_empty() && on.plugins.is_empty() && on.software.is_none());
}

#[test]
fn request_log_plain() {
    colored::control::set_override(false);
    let (a, b) = request_log_lines("mc.example.com", "127.0.0.1:5000", 200, "1.2ms", true);
    assert_eq!(a, "\u{25cf} 127.0.0.1:5000 GET mc.example.com 200 1.2ms");
    assert_eq!(b, "  \u{b7} [CACHE]");
    let (_, c) = request_log_lines("x", "y", 429, "1s", false);
    assert_eq!(c, "  \u{b7} [MISS]");
}

#[test]
fn cleaning_twice_changes_nothing() {
    for s in ["\u{a7}a\u{a7}\u{a7}bX", "plain", "\u{a7}", "a\u{a7}\u{a7}"] {
        let once = clean_motd(s);
        assert!(!once.contains('\u{a7}'));
        assert_eq!(clean_motd(&once), once);
    }
    assert_eq!(motd_to_html("no codes"), "<span>no codes</span>");
}

#[test]
fn plain_motd_is_a_chain_of_replacements() {
    let s = "a<b&c>\nd & <br>";
    let chained = s
        .replace('&', "&amp;")
        .replace('<', "&lt;")
        .replace('>', "&gt;")
        .replace('\n', "<br>");
    assert_eq!(motd_to_html(s), format!("<span>{}</span>", chained));
    assert_eq!(motd_to_html(s), "<span>a&lt;b&amp;c&gt;<br>d &amp; &lt;br&gt;</span>");
}
