use deathlog::date::Timestamp;
use deathlog::parse::is_ignored_message;
use deathlog::parse::parse_line;
use deathlog::parse::parse_log;
use deathlog::parse::parse_timestamp;
use deathlog::parse::WhitelistEntry;

fn whitelist(names: &[&str]) -> Vec<WhitelistEntry> {
    names.iter().map(|n| WhitelistEntry { name: n.to_string() }).collect()
}

#[test]
fn line_without_separator_yields_no_event() {
    let wl = whitelist(&["Alice"]);
    let r = parse_line("Alice was slain by Zombie", &wl);
    assert!(r.is_none());
    let r2 = parse_line("[01Jan2024] [10:00:00.000] [Server thread/INFO] Alice died", &wl);
    assert!(r2.is_none());
}

#[test]
fn denylisted_timestamp_yields_no_event() {
    let wl = whitelist(&["Alice"]);
    let line = "[06Jun2025] [15:42:05.682] [Server thread/INFO]: Alice was slain by Zombie";
    assert!(parse_line(line, &wl).is_none());
    let line2 = "[08Jun2025] [18:40:17.329] [Server thread/INFO]: Alice was slain by Zombie";
    assert!(parse_line(line2, &wl).is_none());
    let line3 = "[05Jan2026] [01:49:16.370] [Server thread/INFO]: Alice was slain by Zombie";
    assert!(parse_line(line3, &wl).is_none());
    // one second later is not on the denylist
    let ok = "[06Jun2025] [15:42:06.682] [Server thread/INFO]: Alice was slain by Zombie";
    assert!(parse_line(ok, &wl).is_some());
}

#[test]
fn noise_message_yields_no_event() {
    let wl = whitelist(&["Alice"]);
    let line = "[01Jan2024] [10:00:00.000] [Server thread/INFO]: Alice joined the game";
    assert!(parse_line(line, &wl).is_none());
    let line2 = "[01Jan2024] [10:00:00.000] [Server thread/INFO]: Alice lost connection: timed out";
    assert!(parse_line(line2, &wl).is_none());
    let line3 = "[01Jan2024] [10:00:00.000] [Server thread/INFO]: <Alice> hello there";
    assert!(parse_line(line3, &wl).is_none());
}

#[test]
fn ignored_message_patterns() {
    assert!(is_ignored_message("Alice joined the game"));
    assert!(is_ignored_message("Bob left the game"));
    assert!(is_ignored_message("Alice moved too quickly!"));
    assert!(is_ignored_message("[Server] restart in 5"));
    assert!(is_ignored_message("UUID of player Alice is 1234"));
    assert!(!is_ignored_message("Alice was slain by Zombie"));
    assert!(!is_ignored_message("Bob drowned"));
}

#[test]
fn recognized_line_is_attributed_and_trimmed() {
    let wl = whitelist(&["Alice", "Bob"]);
    let line = "[01Jan2024] [10:00:00.000] [Server thread/INFO]: Alice was slain by Zombie";
    let r = parse_line(line, &wl).expect("line should parse");
    assert_eq!(r.player, "Alice");
    assert_eq!(r.cause, "was slain by Zombie");
    assert_eq!(r.timestamp.year, 2024);
    assert_eq!(r.timestamp.month, 1);
    assert_eq!(r.timestamp.day, 1);
    assert_eq!(r.timestamp.hour, 10);
}

#[test]
fn unknown_name_yields_no_event() {
    let wl = whitelist(&["Alice"]);
    let line = "[01Jan2024] [10:00:00.000] [Server thread/INFO]: Mallory was slain by Zombie";
    assert!(parse_line(line, &wl).is_none());
}

#[test]
fn malformed_timestamp_is_skipped() {
    let wl = whitelist(&["Alice"]);
    let line = "[nonsense] [alsononsense] [Server thread/INFO]: Alice was slain by Zombie";
    assert!(parse_line(line, &wl).is_none());
    let line2 = "[header]: Alice was slain by Zombie";
    assert!(parse_line(line2, &wl).is_none());
}

#[test]
fn whitelist_order_breaks_prefix_ties() {
    // `Al` is a prefix of the content too; the first whitelist entry wins
    let wl = whitelist(&["Al", "Alice"]);
    let line = "[01Jan2024] [10:00:00.000] [Server thread/INFO]: Al and more text";
    let r = parse_line(line, &wl).expect("line should parse");
    assert_eq!(r.player, "Al");
    assert_eq!(r.cause, "and more text");
}

#[test]
fn parse_timestamp_fixed_pattern() {
    let t = parse_timestamp("06Jun2025 15:42:05.682").expect("should parse");
    assert_eq!(
        t,
        Timestamp {
            year: 2025,
            month: 6,
            day: 6,
            hour: 15,
            minute: 42,
            second: 5,
            nanosecond: 682_000_000,
        }
    );
    assert!(parse_timestamp("not a timestamp").is_none());
    assert!(parse_timestamp("32Jan2024 10:00:00.000").is_none());
}

#[test]
fn parse_log_collects_lines_in_order() {
    let wl = whitelist(&["Alice", "Bob"]);
    let log = "[01Jan2024] [10:00:00.000] [Server thread/INFO]: Alice was slain by Zombie\n\
               garbage line without separator\n\
               [01Jan2024] [11:00:00.000] [Server thread/INFO]: Bob was shot by Skeleton\r\n\
               [01Jan2024] [12:00:00.000] [Server thread/INFO]: Alice joined the game\n";
    let records = parse_log(log, &wl);
    assert_eq!(records.len(), 2);
    assert_eq!(records[0].player, "Alice");
    assert_eq!(records[0].cause, "was slain by Zombie");
    assert_eq!(records[1].player, "Bob");
    assert_eq!(records[1].cause, "was shot by Skeleton");
}

#[test]
fn parse_log_empty_text() {
    let wl = whitelist(&["Alice"]);
    let records = parse_log("", &wl);
    assert_eq!(records.len(), 0);
}
