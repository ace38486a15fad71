use zerotick::mojang::blocked::{
    blocked_in_list, candidate_set, candidates, hash_listed, hex_encode, sha1_hex, wildcard_suffix_of,
};

#[test]
fn hex_is_lowercase_pairs() {
    assert_eq!(hex_encode(&[0x00, 0xff, 0x1a]), "00ff1a");
    assert_eq!(hex_encode(&[]), "");
}

#[test]
fn sha1_hex_known_values() {
    assert_eq!(sha1_hex(""), "da39a3ee5e6b4b0d3255bfef95601890afd80709");
    assert_eq!(sha1_hex("abc"), "a9993e364706816aba3e25717850c26c9cd0d89d");
}

#[test]
fn candidate_variants() {
    assert_eq!(
        candidates("Play.Example.com", 25565),
        vec![
            "play.example.com".to_string(),
            "play.example.com:25565".to_string(),
            "*.example.com".to_string(),
        ]
    );
    assert_eq!(
        candidates("example.com", 1),
        vec!["example.com".to_string(), "example.com:1".to_string(), String::new()]
    );
}

#[test]
fn matches_blocklist() {
    let wildcard = sha1_hex("*.example.com");
    let body = format!("0000\r\n  {}  \n\nffff\n", wildcard);
    assert!(blocked_in_list(&body, "mc.example.com", 25565));
    assert!(blocked_in_list(&body, "a.b.example.com", 1) == false);
    assert!(!blocked_in_list(&body, "example.com", 25565));
    let exact = format!("{}\n", sha1_hex("play.server.net:25565"));
    assert!(blocked_in_list(&exact, "PLAY.server.net", 25565));
    assert!(!blocked_in_list(&exact, "play.server.net", 25566));
    assert!(!blocked_in_list("", "x", 1));
}

#[test]
fn candidate_parts() {
    assert_eq!(wildcard_suffix_of("a.b.c"), Some("b.c".to_string()));
    assert_eq!(wildcard_suffix_of("b.c"), None);
    assert_eq!(wildcard_suffix_of(".."), Some(".".to_string()));
    assert_eq!(
        candidate_set("x.y", 7, Some("y")),
        vec!["x.y".to_string(), "x.y:7".to_string(), "*.y".to_string()]
    );
    assert_eq!(candidate_set("x", 7, None)[2], "");
}

#[test]
fn hashes_listed_after_trimming() {
    assert!(hash_listed("aa\r\n  bb \n", "bb"));
    assert!(hash_listed("aa\r\n  bb \n", "aa"));
    assert!(!hash_listed("aa\nbb", "a"));
    assert!(!hash_listed("\n\n", ""));
}
