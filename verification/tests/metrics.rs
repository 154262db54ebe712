use oby::metrics::{format_bytes, format_uptime, metrics_line, Metrics};

#[test]
fn format_bytes_thresholds() {
    assert_eq!(format_bytes(0), "0B");
    assert_eq!(format_bytes(512), "512B");
    assert_eq!(format_bytes(1024), "1.0K");
    assert_eq!(format_bytes(1536), "1.5K");
    assert_eq!(format_bytes(2 * 1024 * 1024), "2.0M");
    assert_eq!(format_bytes(3 * 1024 * 1024 * 1024), "3.0G");
}

#[test]
fn format_uptime_thresholds() {
    assert_eq!(format_uptime(5), "5s");
    assert_eq!(format_uptime(65), "1m05s");
    assert_eq!(format_uptime(3661), "1h01m");
}

fn float_format(b: u64) -> String {
    const KB: u64 = 1024;
    const MB: u64 = 1024 * 1024;
    const GB: u64 = 1024 * 1024 * 1024;
    if b >= GB {
        format!("{:.1}G", b as f64 / GB as f64)
    } else if b >= MB {
        format!("{:.1}M", b as f64 / MB as f64)
    } else if b >= KB {
        format!("{:.1}K", b as f64 / KB as f64)
    } else {
        format!("{b}B")
    }
}

#[test]
fn format_bytes_matches_float_formatting() {
    let samples: Vec<u64> = vec![
        1023, 1024, 1075, 1076, 1126, 1127, 1177, 1178, 1280, 1331, 1382, 10188, 10189, 102348, 1048575,
        1048576, 1101004, 1101005, 1153434, 1258291, 1073741823, 1073741824, 1127428915, 1181116006,
        9007199254740993, 9007199254740995, 18014398509481985, 123456789012345678, u64::MAX - 1,
        u64::MAX, 1 << 63, (1 << 63) + 1024, (1 << 63) + 1025,
    ];
    for b in samples {
        assert_eq!(format_bytes(b), float_format(b), "at {b}");
    }
    let mut x: u64 = 1;
    for _ in 0..20000 {
        x = x.wrapping_mul(6364136223846793005).wrapping_add(1442695040888963407);
        for b in [x, x >> 7, x >> 20, x >> 33, x >> 45, x >> 52] {
            assert_eq!(format_bytes(b), float_format(b), "at {b}");
        }
    }
}

#[test]
fn format_uptime_edges() {
    assert_eq!(format_uptime(0), "0s");
    assert_eq!(format_uptime(60), "1m00s");
    assert_eq!(format_uptime(3600), "1h00m");
    assert_eq!(format_uptime(3599), "59m59s");
    assert_eq!(format_uptime(90061), "25h01m");
}

#[test]
fn metrics_line_layout() {
    let mut m = Metrics::default();
    m.entries_received = 3;
    m.updates_received = 2;
    m.updates_orphaned = 1;
    m.agent_connections = 4;
    m.agent_bytes = 1536;
    m.accept_errors = 0;
    m.parse_errors = 5;
    assert_eq!(
        metrics_line(&m, 2, Some(17), 65),
        " agents 2 · entries 3 · updates 2 (1 orph) · bytes 1.5K · conns 4 · err 0/5 · fd 17 · up 1m05s"
    );
    assert!(metrics_line(&m, 0, None, 0).contains(" · fd ? · up 0s"));
}
