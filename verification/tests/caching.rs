use deathlog::cache::decompress_and_parse;
use deathlog::cache::parse_logs;
use deathlog::cache::Archive;
use deathlog::cache::ParseCache;
use deathlog::parse::WhitelistEntry;
use deathlog::scan::select_archives;
use deathlog::slots::merge_events;
use deathlog::slots::ResultSlots;
use std::io::Write;

fn whitelist(names: &[&str]) -> Vec<WhitelistEntry> {
    names.iter().map(|n| WhitelistEntry { name: n.to_string() }).collect()
}

fn gzip(text: &str) -> Vec<u8> {
    let mut enc = flate2::write::GzEncoder::new(Vec::new(), flate2::Compression::default());
    enc.write_all(text.as_bytes()).unwrap();
    enc.finish().unwrap()
}

const LOG_A: &str = "[01Jan2024] [10:00:00.000] [Server thread/INFO]: Alice was slain by Zombie\n";
const LOG_B: &str = "[02Jan2024] [10:00:00.000] [Server thread/INFO]: Bob drowned\n";

#[test]
fn decompress_and_parse_roundtrip() {
    let wl = whitelist(&["Alice"]);
    let records = decompress_and_parse(&gzip(LOG_A), &wl);
    assert_eq!(records.len(), 1);
    assert_eq!(records[0].player, "Alice");
    assert_eq!(records[0].cause, "was slain by Zombie");
}

#[test]
fn corrupt_archive_recovers_to_no_events() {
    let wl = whitelist(&["Alice"]);
    let records = decompress_and_parse(b"this is not a gzip stream", &wl);
    assert_eq!(records.len(), 0);
}

#[test]
fn cache_hit_skips_decompression() {
    let wl = whitelist(&["Alice", "Bob"]);
    let mut cache = ParseCache::new();
    let first = cache.get_or_parse("logs/2024-01-01-1.log.gz", &gzip(LOG_A), &wl);
    assert_eq!(first.len(), 1);
    // same path again, now with bytes that would parse to something else:
    // the memoized records come back and the new bytes are never touched
    let second = cache.get_or_parse("logs/2024-01-01-1.log.gz", &gzip(LOG_B), &wl);
    assert_eq!(second.len(), 1);
    assert_eq!(second[0].player, first[0].player);
    assert_eq!(second[0].cause, first[0].cause);
    assert_eq!(second[0].timestamp, first[0].timestamp);
    // a fresh path does parse the new bytes
    let other = cache.get_or_parse("logs/2024-01-02-1.log.gz", &gzip(LOG_B), &wl);
    assert_eq!(other.len(), 1);
    assert_eq!(other[0].player, "Bob");
}

#[test]
fn cache_lookup_only_after_insert() {
    let wl = whitelist(&["Alice"]);
    let mut cache = ParseCache::new();
    assert!(cache.lookup("a.gz").is_none());
    let records = decompress_and_parse(&gzip(LOG_A), &wl);
    cache.insert("a.gz".to_string(), records);
    let hit = cache.lookup("a.gz").expect("entry should be memoized");
    assert_eq!(hit.len(), 1);
    assert!(cache.lookup("b.gz").is_none());
}

#[test]
fn pipeline_orders_archives_before_live_log() {
    let wl = whitelist(&["Alice", "Bob"]);
    let mut cache = ParseCache::new();
    let archives = vec![
        Archive { path: "logs/2024-01-01-1.log.gz".to_string(), bytes: gzip(LOG_A) },
        Archive { path: "logs/2024-01-02-1.log.gz".to_string(), bytes: gzip(LOG_B) },
    ];
    let live = "[03Jan2024] [09:00:00.000] [Server thread/INFO]: Alice fell from a high place\n";
    let records = parse_logs(&mut cache, &archives, live, &wl);
    assert_eq!(records.len(), 3);
    assert_eq!(records[0].cause, "was slain by Zombie");
    assert_eq!(records[1].cause, "drowned");
    assert_eq!(records[2].cause, "fell from a high place");
    // a second run is served from the cache and yields the same records
    let again = parse_logs(&mut cache, &archives, live, &wl);
    assert_eq!(again.len(), 3);
    assert_eq!(again[1].player, "Bob");
}

#[test]
fn live_log_read_failure_recovers_as_empty_text() {
    let wl = whitelist(&["Alice"]);
    let mut cache = ParseCache::new();
    let archives = vec![Archive {
        path: "logs/2024-01-01-1.log.gz".to_string(),
        bytes: gzip(LOG_A),
    }];
    let records = parse_logs(&mut cache, &archives, "", &wl);
    assert_eq!(records.len(), 1);
}

#[test]
fn slots_assemble_in_submission_order_whatever_finishes_first() {
    let wl = whitelist(&["Alice", "Bob"]);
    let ra = decompress_and_parse(&gzip(LOG_A), &wl);
    let rb = decompress_and_parse(&gzip(LOG_B), &wl);
    let mut s1 = ResultSlots::new(2);
    s1.set(1, decompress_and_parse(&gzip(LOG_B), &wl));
    s1.set(0, ra);
    let mut s2 = ResultSlots::new(2);
    s2.set(0, decompress_and_parse(&gzip(LOG_A), &wl));
    s2.set(1, rb);
    let out1 = s1.assemble();
    let out2 = s2.assemble();
    assert_eq!(out1.len(), 2);
    assert_eq!(out1[0].player, out2[0].player);
    assert_eq!(out1[1].player, out2[1].player);
    assert_eq!(out1[0].player, "Alice");
    assert_eq!(out1[1].player, "Bob");
}

#[test]
fn merge_appends_live_records_after_archived_ones() {
    let wl = whitelist(&["Alice", "Bob"]);
    let archived = decompress_and_parse(&gzip(LOG_A), &wl);
    let live = decompress_and_parse(&gzip(LOG_B), &wl);
    let merged = merge_events(archived, live);
    assert_eq!(merged.len(), 2);
    assert_eq!(merged[0].player, "Alice");
    assert_eq!(merged[1].player, "Bob");
}

#[test]
fn scanner_sorts_and_filters_archives() {
    let names = vec![
        "logs/2024-01-03-1.log.gz".to_string(),
        "logs/2024-01-01-1.log.gz".to_string(),
        "logs/debug-2024-01-02.log.gz".to_string(),
        "logs/2024-01-02-1.log.gz".to_string(),
    ];
    let kept = select_archives(&names, false);
    assert_eq!(
        kept,
        vec![
            "logs/2024-01-01-1.log.gz".to_string(),
            "logs/2024-01-02-1.log.gz".to_string(),
            "logs/2024-01-03-1.log.gz".to_string(),
        ]
    );
    // excluding the newest drops the last name after sorting
    let dated = vec![
        "logs/2024-01-03-1.log.gz".to_string(),
        "logs/2024-01-01-1.log.gz".to_string(),
        "logs/2024-01-02-1.log.gz".to_string(),
    ];
    let kept2 = select_archives(&dated, true);
    assert_eq!(
        kept2,
        vec![
            "logs/2024-01-01-1.log.gz".to_string(),
            "logs/2024-01-02-1.log.gz".to_string(),
        ]
    );
}
