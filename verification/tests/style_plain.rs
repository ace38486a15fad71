use zerotick::style::motd::{mc_color_to_colored, render, render_legacy_codes};
use zerotick::style::table::{visible_len, Table};
use zerotick::style::tree::Tree;
use zerotick::style::{detail, error, header, muted, success, value, warning, Hue};
use zerotick::types::{ChatComponent, Description};

fn plain() {
    colored::control::set_override(false);
}

#[test]
fn formatters_without_color() {
    plain();
    assert_eq!(header("mc.example.com"), "\u{25cf} mc.example.com");
    assert_eq!(success("done"), "\u{2713} done");
    assert_eq!(error("boom"), "\u{2717} boom");
    assert_eq!(warning("careful"), "\u{26a0} careful");
    assert_eq!(detail("Rate", "5/s"), "  \u{b7} Rate  5/s");
    assert_eq!(value("42"), "42");
    assert_eq!(muted("m"), "m");
}

#[test]
fn table_layout() {
    plain();
    let mut t = Table::new(vec!["A".to_string(), "Bb".to_string()]);
    t.add_row(vec!["1".to_string(), "22".to_string()]);
    t.add_row(vec!["333".to_string()]);
    assert_eq!(
        t.render(),
        "\u{256d}\u{2500}\u{2500}\u{2500}\u{2500}\u{2500}\u{252c}\u{2500}\u{2500}\u{2500}\u{2500}\u{256e}\n\
         \u{2502} A   \u{2502} Bb \u{2502}\n\
         \u{251c}\u{2500}\u{2500}\u{2500}\u{2500}\u{2500}\u{253c}\u{2500}\u{2500}\u{2500}\u{2500}\u{2524}\n\
         \u{2502} 1   \u{2502} 22 \u{2502}\n\
         \u{2502} 333 \u{2502}    \u{2502}\n\
         \u{2570}\u{2500}\u{2500}\u{2500}\u{2500}\u{2500}\u{2534}\u{2500}\u{2500}\u{2500}\u{2500}\u{256f}\n"
    );
}

#[test]
fn visible_length_skips_escapes() {
    assert_eq!(visible_len("\u{1b}[1mab\u{1b}[0m"), 2);
    assert_eq!(visible_len("h\u{e9}"), 2);
    assert_eq!(visible_len(""), 0);
}

#[test]
fn tree_layout() {
    plain();
    let mut t = Tree::new();
    t.add("Version".to_string(), "1.20".to_string());
    t.add_with_children(
        "Players".to_string(),
        "1/2".to_string(),
        vec![(String::new(), "Steve".to_string()), (String::new(), "Alex".to_string())],
    );
    assert_eq!(
        t.render(10),
        " \u{251c}\u{2500} Version    1.20\n \u{2570}\u{2500} Players    1/2\n     \u{251c}\u{2500} Steve\n     \u{2570}\u{2500} Alex\n"
    );
    let mut u = Tree::default();
    u.add_with_children("A".to_string(), "x".to_string(), vec![(String::new(), "c".to_string())]);
    u.add("B".to_string(), "y".to_string());
    assert_eq!(
        u.render(0),
        " \u{251c}\u{2500} A x\n \u{2502}   \u{2570}\u{2500} c\n \u{2570}\u{2500} B y\n"
    );
    let mut w = Tree::new();
    w.add("Longer".to_string(), "v".to_string());
    w.add("Ab".to_string(), "w".to_string());
    assert_eq!(w.render(4), " \u{251c}\u{2500} Longer v\n \u{2570}\u{2500} Ab   w\n");
    let mut c = Tree::new();
    c.add_continued("MOTD".to_string(), "a".to_string(), vec!["b".to_string()]);
    c.add("X".to_string(), "y".to_string());
    c.add_continued("M".to_string(), "c".to_string(), vec!["d".to_string()]);
    assert_eq!(
        c.render(6),
        " \u{251c}\u{2500} MOTD   a\n \u{2502}         b\n \u{251c}\u{2500} X      y\n \u{2570}\u{2500} M      c\n           d\n"
    );
    let mut e = Tree::new();
    e.add_with_children("A".to_string(), "x".to_string(), vec![]);
    let mut f = Tree::new();
    f.add("A".to_string(), "x".to_string());
    assert_eq!(e.render(3), f.render(3));
}

#[test]
fn motd_without_color() {
    plain();
    assert_eq!(render_legacy_codes("\u{a7}aHello \u{a7}lthere\u{a7}r!"), "Hello there!");
    assert_eq!(render(&Description::Plain("A\u{a7}".to_string())), "A");
    let c = ChatComponent {
        text: "Hi ".to_string(),
        translate: Some("key".to_string()),
        extra: vec![ChatComponent {
            text: "there".to_string(),
            translate: None,
            extra: Vec::new(),
            color: Some("red".to_string()),
            bold: None,
            italic: None,
            underlined: None,
            strikethrough: None,
            obfuscated: None,
        }],
        color: None,
        bold: Some(true),
        italic: None,
        underlined: None,
        strikethrough: None,
        obfuscated: None,
    };
    assert_eq!(render(&Description::Component(c)), "Hi keythere");
}

#[test]
fn chat_colors() {
    assert_eq!(mc_color_to_colored("gold"), Some(Hue::Rgb(255, 170, 0)));
    assert_eq!(mc_color_to_colored("dark_blue"), Some(Hue::Blue));
    assert_eq!(mc_color_to_colored("#FF0080"), Some(Hue::Rgb(255, 0, 128)));
    assert_eq!(mc_color_to_colored("#+f0000"), Some(Hue::Rgb(15, 0, 0)));
    assert_eq!(mc_color_to_colored("#GG0000"), None);
    assert_eq!(mc_color_to_colored("nope"), None);
}
