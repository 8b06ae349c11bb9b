use deathlog::aggregate::deaths;
use deathlog::aggregate::DeathQuery;
use deathlog::parse::parse_log;
use deathlog::parse::WhitelistEntry;

fn whitelist(names: &[&str]) -> Vec<WhitelistEntry> {
    names.iter().map(|n| WhitelistEntry { name: n.to_string() }).collect()
}

const SCENARIO_LOG: &str = "\
[01Jan2024] [10:00:00.000] [Server thread/INFO]: Alice was slain by Zombie\n\
[01Jan2024] [11:00:00.000] [Server thread/INFO]: Bob was shot by Skeleton\n\
[02Jan2024] [09:00:00.000] [Server thread/INFO]: Alice was slain by Zombie\n";

#[test]
fn scenario_two_accounts_three_deaths() {
    let wl = whitelist(&["Alice", "Bob"]);
    let records = parse_log(SCENARIO_LOG, &wl);
    assert_eq!(records.len(), 3);
    let agg = deaths(&records, &DeathQuery { year: None });

    assert_eq!(agg.total_deaths, 3);

    assert_eq!(agg.players.len(), 2);
    let alice = &agg.players[0];
    let bob = &agg.players[1];
    assert_eq!(alice.name, "Alice");
    assert_eq!(alice.total_deaths, 2);
    assert_eq!(bob.name, "Bob");
    assert_eq!(bob.total_deaths, 1);

    assert_eq!(agg.unique_deaths.labels, vec!["was slain by Zombie", "was shot by Skeleton"]);
    assert_eq!(agg.unique_deaths.values, vec![2, 1]);

    assert_eq!(agg.deaths_over_time.labels, vec!["01 Jan 2024", "02 Jan 2024"]);
    assert_eq!(agg.deaths_over_time.values, vec![2, 1]);
    assert_eq!(alice.deaths_over_time.labels, vec!["01 Jan 2024", "02 Jan 2024"]);
    assert_eq!(alice.deaths_over_time.values, vec![1, 1]);
    assert_eq!(bob.deaths_over_time.labels, vec!["01 Jan 2024", "02 Jan 2024"]);
    assert_eq!(bob.deaths_over_time.values, vec![1, 0]);

    assert_eq!(alice.exclusive_deaths, vec!["was slain by Zombie"]);
    assert_eq!(bob.exclusive_deaths, vec!["was shot by Skeleton"]);

    assert_eq!(agg.years.len(), 1);
    assert_eq!(agg.years[0].number, 2024);
    assert!(!agg.years[0].enabled);
    assert!(agg.no_year_enabled);
}

#[test]
fn empty_input_gives_empty_aggregate() {
    let records = Vec::new();
    let agg = deaths(&records, &DeathQuery { year: None });
    assert_eq!(agg.total_deaths, 0);
    assert_eq!(agg.players.len(), 0);
    assert_eq!(agg.years.len(), 0);
    assert!(!agg.no_year_enabled);
    assert_eq!(agg.unique_deaths.labels.len(), 0);
    assert_eq!(agg.unique_deaths.values.len(), 0);
    assert_eq!(agg.deaths_over_time.labels.len(), 0);
    assert_eq!(agg.deaths_over_time.values.len(), 0);
}

#[test]
fn per_account_series_sums_match_totals() {
    let wl = whitelist(&["Alice", "Bob"]);
    let log = "\
[03Mar2024] [10:00:00.000] [Server thread/INFO]: Alice fell from a high place\n\
[05Mar2024] [10:00:00.000] [Server thread/INFO]: Bob drowned\n\
[05Mar2024] [11:00:00.000] [Server thread/INFO]: Alice drowned\n\
[08Mar2024] [11:00:00.000] [Server thread/INFO]: Alice burned to death\n";
    let records = parse_log(log, &wl);
    let agg = deaths(&records, &DeathQuery { year: None });
    // six calendar days from 03 Mar to 08 Mar, gaps filled with zeroes
    assert_eq!(agg.deaths_over_time.labels.len(), 6);
    assert_eq!(agg.deaths_over_time.labels[0], "03 Mar 2024");
    assert_eq!(agg.deaths_over_time.labels[5], "08 Mar 2024");
    assert_eq!(agg.deaths_over_time.values, vec![1, 0, 2, 0, 0, 1]);
    for p in &agg.players {
        let sum: u64 = p.deaths_over_time.values.iter().sum();
        assert_eq!(sum, p.total_deaths);
        assert_eq!(p.deaths_over_time.labels, agg.deaths_over_time.labels);
    }
    let global_sum: u64 = agg.deaths_over_time.values.iter().sum();
    assert_eq!(global_sum, agg.total_deaths as u64);
    let unique_sum: u64 = agg.unique_deaths.values.iter().sum();
    assert_eq!(unique_sum, agg.total_deaths as u64);
}

#[test]
fn cause_chart_sorts_by_count_with_first_seen_ties() {
    let wl = whitelist(&["Alice", "Bob"]);
    let log = "\
[01Jan2024] [10:00:00.000] [Server thread/INFO]: Alice drowned\n\
[01Jan2024] [11:00:00.000] [Server thread/INFO]: Bob burned to death\n\
[01Jan2024] [12:00:00.000] [Server thread/INFO]: Alice was slain by Zombie\n\
[01Jan2024] [13:00:00.000] [Server thread/INFO]: Bob was slain by Zombie\n";
    let records = parse_log(log, &wl);
    let agg = deaths(&records, &DeathQuery { year: None });
    // the doubled cause leads; the two singles keep first-seen order
    assert_eq!(
        agg.unique_deaths.labels,
        vec!["was slain by Zombie", "drowned", "burned to death"]
    );
    assert_eq!(agg.unique_deaths.values, vec![2, 1, 1]);
}

#[test]
fn exclusive_causes_need_every_event() {
    let wl = whitelist(&["Alice", "Bob"]);
    let log = "\
[01Jan2024] [10:00:00.000] [Server thread/INFO]: Alice drowned\n\
[01Jan2024] [11:00:00.000] [Server thread/INFO]: Bob drowned\n\
[01Jan2024] [12:00:00.000] [Server thread/INFO]: Alice was slain by Zombie\n";
    let records = parse_log(log, &wl);
    let agg = deaths(&records, &DeathQuery { year: None });
    for p in &agg.players {
        if p.name == "Alice" {
            // `drowned` is shared with Bob, so only the zombie death is hers alone
            assert_eq!(p.exclusive_deaths, vec!["was slain by Zombie"]);
        } else {
            assert_eq!(p.exclusive_deaths.len(), 0);
        }
    }
}

#[test]
fn year_filter_scopes_everything_but_the_year_index() {
    let wl = whitelist(&["Alice"]);
    let log = "\
[01Jan2023] [10:00:00.000] [Server thread/INFO]: Alice drowned\n\
[01Jan2024] [10:00:00.000] [Server thread/INFO]: Alice was slain by Zombie\n\
[02Jan2024] [10:00:00.000] [Server thread/INFO]: Alice was slain by Zombie\n";
    let records = parse_log(log, &wl);
    let agg = deaths(&records, &DeathQuery { year: Some(2024) });
    assert_eq!(agg.total_deaths, 2);
    assert_eq!(agg.players.len(), 1);
    assert_eq!(agg.players[0].total_deaths, 2);
    assert_eq!(agg.unique_deaths.labels, vec!["was slain by Zombie"]);
    // the year index still lists both years, with the chosen one flagged
    assert_eq!(agg.years.len(), 2);
    assert_eq!(agg.years[0].number, 2023);
    assert!(!agg.years[0].enabled);
    assert_eq!(agg.years[1].number, 2024);
    assert!(agg.years[1].enabled);
    assert!(!agg.no_year_enabled);
}

#[test]
fn year_filter_with_no_events_gives_empty_aggregate() {
    let wl = whitelist(&["Alice"]);
    let log = "[01Jan2024] [10:00:00.000] [Server thread/INFO]: Alice drowned\n";
    let records = parse_log(log, &wl);
    let agg = deaths(&records, &DeathQuery { year: Some(1999) });
    assert_eq!(agg.total_deaths, 0);
    assert_eq!(agg.players.len(), 0);
    assert_eq!(agg.deaths_over_time.labels.len(), 0);
    assert_eq!(agg.years.len(), 1);
    assert_eq!(agg.years[0].number, 2024);
    assert!(agg.no_year_enabled);
}

#[test]
fn players_come_most_recent_first() {
    let wl = whitelist(&["Alice", "Bob", "Carol"]);
    let log = "\
[01Jan2024] [10:00:00.000] [Server thread/INFO]: Alice drowned\n\
[01Jan2024] [11:00:00.000] [Server thread/INFO]: Bob drowned\n\
[01Jan2024] [12:00:00.000] [Server thread/INFO]: Carol drowned\n\
[01Jan2024] [13:00:00.000] [Server thread/INFO]: Bob burned to death\n";
    let records = parse_log(log, &wl);
    let agg = deaths(&records, &DeathQuery { year: None });
    let names: Vec<&str> = agg.players.iter().map(|p| p.name.as_str()).collect();
    assert_eq!(names, vec!["Bob", "Carol", "Alice"]);
}

#[test]
fn gap_filled_series_crosses_month_and_leap_day() {
    let wl = whitelist(&["Alice"]);
    let log = "\
[27Feb2024] [10:00:00.000] [Server thread/INFO]: Alice drowned\n\
[01Mar2024] [10:00:00.000] [Server thread/INFO]: Alice drowned\n";
    let records = parse_log(log, &wl);
    let agg = deaths(&records, &DeathQuery { year: None });
    // 2024 is a leap year: 27 Feb, 28 Feb, 29 Feb, 01 Mar
    assert_eq!(
        agg.deaths_over_time.labels,
        vec!["27 Feb 2024", "28 Feb 2024", "29 Feb 2024", "01 Mar 2024"]
    );
    assert_eq!(agg.deaths_over_time.values, vec![1, 0, 0, 1]);
}
