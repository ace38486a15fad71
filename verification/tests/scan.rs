use zerotick::commands::scan::{scan_row, sort_by_latency};
use zerotick::scanner::range::ipv4_text;
use zerotick::scanner::probe::ProbeResult;
use zerotick::types::{Description, Players, ServerStatus, Version};

fn status(name: &str, online: i32, max: i32) -> ServerStatus {
    ServerStatus {
        version: Version { name: name.to_string(), protocol: 765 },
        players: Players { max, online, sample: Vec::new() },
        description: Description::Plain(String::new()),
        favicon: None,
        enforces_secure_chat: None,
        previews_chat: None,
        forge_data: None,
        mod_info: None,
    }
}

fn hit(addr: u32, ms: u128) -> ProbeResult {
    ProbeResult { addr, port: 25565, status: status("1.20.4", 3, 20), latency_nanos: ms * 1_000_000 }
}

#[test]
fn sorts_stably_by_latency() {
    let results = vec![hit(1, 30), hit(2, 10), hit(3, 30), hit(4, 5), hit(5, 10)];
    let sorted = sort_by_latency(results);
    let order: Vec<u32> = sorted.iter().map(|r| r.addr).collect();
    assert_eq!(order, vec![4, 2, 5, 1, 3]);
    assert!(sort_by_latency(Vec::new()).is_empty());
}

#[test]
fn dotted_addresses() {
    assert_eq!(ipv4_text(0xC0A8010A), "192.168.1.10");
    assert_eq!(ipv4_text(0), "0.0.0.0");
    assert_eq!(ipv4_text(0xFFFF_FFFF), "255.255.255.255");
}

#[test]
fn result_row_cells() {
    colored::control::set_override(false);
    let mut r = hit(0xC0A8010A, 0);
    r.latency_nanos = 12_999_999;
    r.status = status("Paper 1.20.4", -1, 1000);
    assert_eq!(
        scan_row(&r),
        vec![
            "192.168.1.10".to_string(),
            "Paper 1.20.4".to_string(),
            "-1/1000".to_string(),
            "12ms".to_string(),
        ]
    );
}
