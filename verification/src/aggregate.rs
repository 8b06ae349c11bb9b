use crate::chart::Chart;
use crate::chart::Player;
use crate::date::date_le;
use crate::date::date_le_x;
use crate::date::date_seq;
use crate::date::date_wf;
use crate::date::Date;
use crate::parse::copy_record;
use crate::parse::copy_records;
use crate::parse::DeathRecord;
use crate::parse::DeathRecordV;
use crate::text::str_eq;
use crate::util::dedup_from;
use crate::util::lemma_dedup_distinct;
use crate::util::lemma_dedup_membership;
use crate::util::lemma_dedup_push;
use crate::util::lemma_filter_cons;
use crate::util::lemma_filter_take_push;
use vstd::prelude::*;

verus! {

/// One calendar year present in the data, and whether the request scoped
/// the statistics to it.
#[derive(Clone, Copy, PartialEq, Eq, Structural)]
pub struct Year {
    pub number: i32,
    pub enabled: bool,
}

/// The request parameter scoping the statistics to one year.
pub struct DeathQuery {
    pub year: Option<i32>,
}

/// The events kept by an optional year filter: all of them, or those whose
/// timestamp falls in the chosen year.
pub open spec fn filter_year_spec(s: Seq<DeathRecordV>, y: Option<i32>) -> Seq<DeathRecordV> {
    match y {
        None => s,
        Some(yy) => s.filter(|d: DeathRecordV| d.timestamp.year == yy),
    }
}

/// How many events belong to the account.
pub open spec fn count_player(s: Seq<DeathRecordV>, name: Seq<char>) -> int {
    s.filter(|d: DeathRecordV| d.player == name).len() as int
}

/// The account's events, in order.
pub open spec fn events_of(s: Seq<DeathRecordV>, name: Seq<char>) -> Seq<DeathRecordV> {
    s.filter(|d: DeathRecordV| d.player == name)
}

/// How many events fall on the given calendar day.
pub open spec fn cnt_day(s: Seq<DeathRecordV>, d: Date) -> int {
    s.filter(|e: DeathRecordV| e.timestamp.date_spec() == d).len() as int
}

/// The account names in order of most recent death first: first
/// occurrences over the reversed event list.
pub open spec fn players_order(s: Seq<DeathRecordV>) -> Seq<Seq<char>> {
    dedup_from(s.reverse().map_values(|d: DeathRecordV| d.player), seq![])
}

/// The names of a player list.
pub open spec fn player_names(ps: Seq<Player>) -> Seq<Seq<char>> {
    Seq::new(ps.len(), |i: int| ps[i].name@)
}

/// Whether some entry of the year list carries this number.
pub open spec fn year_in(ys: Seq<Year>, v: i32) -> bool {
    exists|i: int| 0 <= i < ys.len() && (#[trigger] ys[i]).number == v
}

/// Inserting an entry adds exactly its number to the list's membership.
proof fn lemma_year_insert_membership(prev: Seq<Year>, j: int, e: Year)
    requires
        0 <= j <= prev.len(),
    ensures
        forall|v: i32| #[trigger] year_in(prev.insert(j, e), v) <==> (year_in(prev, v) || e.number == v),
{
    prev.insert_ensures(j, e);
    let now = prev.insert(j, e);
    assert forall|v: i32| #[trigger] year_in(now, v) <==> (year_in(prev, v) || e.number == v) by {
        if year_in(now, v) {
            let i = choose|i: int| 0 <= i < now.len() && (#[trigger] now[i]).number == v;
            if i < j {
                assert(prev[i].number == v);
            } else if i == j {
            } else {
                assert(now[(i - 1) + 1] == prev[i - 1]);
                assert(prev[i - 1].number == v);
            }
        }
        if year_in(prev, v) {
            let i = choose|i: int| 0 <= i < prev.len() && (#[trigger] prev[i]).number == v;
            if i < j {
                assert(now[i] == prev[i]);
                assert(now[i].number == v);
            } else {
                assert(now[i + 1] == prev[i]);
                assert(now[i + 1].number == v);
            }
        }
        if e.number == v {
            assert(now[j].number == v);
        }
    }
}

/// Inserting at the found position keeps the numbers strictly ascending.
proof fn lemma_year_insert_sorted(prev: Seq<Year>, j: int, e: Year)
    requires
        0 <= j <= prev.len(),
        forall|i1: int, j1: int| 0 <= i1 < j1 < prev.len() ==> (#[trigger] prev[i1]).number < (#[trigger] prev[j1]).number,
        forall|t: int| 0 <= t < j ==> (#[trigger] prev[t]).number < e.number,
        j < prev.len() ==> prev[j].number > e.number,
    ensures
        forall|i1: int, j1: int|
            0 <= i1 < j1 < prev.insert(j, e).len() ==> (#[trigger] prev.insert(j, e)[i1]).number < (
            #[trigger] prev.insert(j, e)[j1]).number,
{
    prev.insert_ensures(j, e);
    let now = prev.insert(j, e);
    assert forall|i1: int, j1: int| 0 <= i1 < j1 < now.len() implies (
    #[trigger] now[i1]).number < (#[trigger] now[j1]).number by {
        if i1 < j {
            assert(now[i1] == prev[i1]);
        } else if i1 > j {
            assert(now[(i1 - 1) + 1] == prev[i1 - 1]);
        }
        if j1 < j {
            assert(now[j1] == prev[j1]);
        } else if j1 > j {
            assert(now[(j1 - 1) + 1] == prev[j1 - 1]);
        }
        if j1 > j && i1 < j {
            assert(prev[i1].number < e.number);
            if j < prev.len() {
                assert(prev[j].number > e.number);
            }
        }
    }
}

/// The distinct years of the events, ascending, each flagged enabled when
/// the request chose it.
#[verifier::rlimit(100)]
#[verifier::loop_isolation(false)]
pub fn collect_years(records: &Vec<DeathRecord>, sel: &Option<i32>) -> (r: Vec<Year>)
    ensures
        forall|i: int, j: int|
            0 <= i < j < r@.len() ==> (#[trigger] r@[i]).number < (#[trigger] r@[j]).number,
        forall|i: int|
            0 <= i < r@.len() ==> (#[trigger] r@[i]).enabled == (*sel == Some(r@[i].number)),
        forall|v: i32|
            #[trigger] year_in(r@, v) <==> exists|k: int|
                0 <= k < records@.len() && (#[trigger] records@[k])@.timestamp.year == v,
{
    let n = records.len();
    let mut years: Vec<Year> = Vec::new();
    for k in 0..n
        invariant
            n == records@.len(),
            forall|i: int, j: int|
                0 <= i < j < years@.len() ==> (#[trigger] years@[i]).number < (
                #[trigger] years@[j]).number,
            forall|i: int|
                0 <= i < years@.len() ==> (#[trigger] years@[i]).enabled == (*sel == Some(
                    years@[i].number,
                )),
            forall|v: i32|
                #[trigger] year_in(years@, v) <==> exists|t: int|
                    0 <= t < k && (#[trigger] records@[t])@.timestamp.year == v,
    {
        let y = records[k].timestamp.year;
        let m = years.len();
        let mut j: usize = 0;
        while j < m && years[j].number < y
            invariant
                0 <= j <= m,
                forall|t: int| 0 <= t < j ==> (#[trigger] years@[t]).number < y,
            decreases m - j,
        {
            j += 1;
        }
        if j < m && years[j].number == y {
            proof {
                assert(year_in(years@, y));
                assert forall|v: i32| #[trigger] year_in(years@, v) implies exists|t: int|
                    0 <= t < k + 1 && (#[trigger] records@[t])@.timestamp.year == v by {
                    let t0 = choose|t: int|
                        0 <= t < k && (#[trigger] records@[t])@.timestamp.year == v;
                }
                assert forall|v: i32|
                    (exists|t: int|
                        0 <= t < k + 1 && (#[trigger] records@[t])@.timestamp.year
                            == v) implies #[trigger] year_in(years@, v) by {
                    let t0 = choose|t: int|
                        0 <= t < k + 1 && (#[trigger] records@[t])@.timestamp.year == v;
                    if t0 == k {
                        assert((records@[k as int])@.timestamp.year == y);
                    }
                }
            }
        } else {
            let enabled = match sel {
                Some(s) => *s == y,
                None => false,
            };
            let ghost prev: Seq<Year> = years@;
            let e = Year { number: y, enabled };
            years.insert(j, e);
            proof {
                assert(years@ == prev.insert(j as int, e));
                lemma_year_insert_membership(prev, j as int, e);
                lemma_year_insert_sorted(prev, j as int, e);
                prev.insert_ensures(j as int, e);
                assert forall|v: i32| #[trigger] year_in(years@, v) implies exists|t: int|
                    0 <= t < k + 1 && (#[trigger] records@[t])@.timestamp.year == v by {
                    if v == y {
                        assert((records@[k as int])@.timestamp.year == v);
                    } else {
                        assert(year_in(prev, v));
                        let t0 = choose|t: int|
                            0 <= t < k && (#[trigger] records@[t])@.timestamp.year == v;
                    }
                }
                assert forall|v: i32|
                    (exists|t: int|
                        0 <= t < k + 1 && (#[trigger] records@[t])@.timestamp.year
                            == v) implies #[trigger] year_in(years@, v) by {
                    let t0 = choose|t: int|
                        0 <= t < k + 1 && (#[trigger] records@[t])@.timestamp.year == v;
                    if t0 < k {
                        assert(year_in(prev, v));
                    }
                }
            }
        }
    }
    years
}


/// A name occurs in the processed (reversed, projected) event list exactly
/// when the account has at least one event.
proof fn lemma_proc_count(s: Seq<DeathRecordV>, x: Seq<char>)
    ensures
        s.reverse().map_values(|d: DeathRecordV| d.player).contains(x) <==> count_player(s, x)
            > 0,
{
    broadcast use vstd::seq_lib::group_filter_ensures;

    let pl = |d: DeathRecordV| d.player;
    let pred = |d: DeathRecordV| d.player == x;
    let proc = s.reverse().map_values(pl);
    if proc.contains(x) {
        let j = choose|j: int| 0 <= j < proc.len() && proc[j] == x;
        assert(proc[j] == pl(s.reverse()[j]));
        assert(s.reverse()[j] == s[s.len() - 1 - j]);
        assert(pred(s[s.len() - 1 - j]));
        assert(s.filter(pred).contains(s[s.len() - 1 - j]));
        let e = s[s.len() - 1 - j];
        let w = choose|w: int| 0 <= w < s.filter(pred).len() && s.filter(pred)[w] == e;
        assert(count_player(s, x) > 0);
    }
    if count_player(s, x) > 0 {
        let e = s.filter(pred)[0];
        assert(s.filter(pred).contains(e));
        s.lemma_filter_contains_rev(pred, e);
        let k = choose|k: int| 0 <= k < s.len() && s[k] == e;
        assert(pred(e));
        assert(s.reverse()[s.len() - 1 - k] == s[k]);
        assert(proc[s.len() - 1 - k] == pl(s.reverse()[s.len() - 1 - k]));
        assert(proc[s.len() - 1 - k] == x);
    }
}

/// The accounts of the filtered events, in order of most recent death
/// first, each with its total number of deaths; charts still empty.
#[verifier::rlimit(100)]
#[verifier::loop_isolation(false)]
pub fn players_init(records: &Vec<DeathRecord>) -> (r: Vec<Player>)
    ensures
        player_names(r@) == players_order(records.deep_view()),
        forall|i: int|
            0 <= i < r@.len() ==> (#[trigger] r@[i]).total_deaths as int == count_player(
                records.deep_view(),
                r@[i].name@,
            ),
        forall|i: int, j: int|
            0 <= i < j < r@.len() ==> (#[trigger] r@[i]).name@ != (#[trigger] r@[j]).name@,
{
    let ghost rv: Seq<DeathRecordV> = records.deep_view();
    let ghost pl = |d: DeathRecordV| d.player;
    let n = records.len();
    let mut names: Vec<String> = Vec::new();
    let mut totals: Vec<u64> = Vec::new();
    let ghost mut proc: Seq<Seq<char>> = rv.skip(n as int).reverse().map_values(pl);
    let mut i: usize = n;
    proof {
        assert(rv.skip(n as int) =~= Seq::<DeathRecordV>::empty());
        assert(proc =~= Seq::<Seq<char>>::empty());
        assert(names.deep_view() =~~= dedup_from(proc, seq![]));
        assert(rv.len() == records@.len());
    }
    while i > 0
        invariant
            n == records@.len(),
            rv == records.deep_view(),
            pl == (|d: DeathRecordV| d.player),
            0 <= i <= n,
            proc == rv.skip(i as int).reverse().map_values(pl),
            names.deep_view() == dedup_from(proc, seq![]),
            names@.len() == totals@.len(),
            forall|t: int|
                0 <= t < names@.len() ==> totals@[t] as int == count_player(
                    rv.skip(i as int),
                    (#[trigger] names@[t])@,
                ),
            forall|t: int| 0 <= t < totals@.len() ==> #[trigger] totals@[t] <= n - i,
        decreases i,
    {
        i -= 1;
        let ghost old_proc: Seq<Seq<char>> = proc;
        let ghost old_names: Seq<String> = names@;
        let ghost old_totals: Seq<u64> = totals@;
        let ghost x: Seq<char> = rv[i as int].player;
        proof {
            assert(rv.skip(i as int) =~= seq![rv[i as int]] + rv.skip(i + 1));
            assert((seq![rv[i as int]] + rv.skip(i + 1)).reverse() =~= rv.skip(
                i + 1,
            ).reverse().push(rv[i as int]));
            assert(rv.skip(i + 1).reverse().push(rv[i as int]).map_values(pl) =~= rv.skip(
                i + 1,
            ).reverse().map_values(pl).push(x));
            proc = old_proc.push(x);
            lemma_dedup_push(old_proc, seq![], x);
            lemma_dedup_membership(old_proc, seq![]);
            lemma_dedup_distinct(old_proc, seq![]);
            assert(rv[i as int] == records@[i as int]@);
        }
        let m = names.len();
        let mut t: usize = 0;
        let mut found = false;
        while t < m && !found
            invariant
                m == names@.len(),
                0 <= t <= m,
                !found ==> forall|u: int| 0 <= u < t ==> (#[trigger] names@[u])@ != x,
                found ==> t < m && names@[t as int]@ == x,
                names@ == old_names,
            decreases m - t + (if found { 0int } else { 1int }),
        {
            if str_eq(names[t].as_str(), records[i].player.as_str()) {
                found = true;
            } else {
                t += 1;
            }
        }
        if found {
            proof {
                assert(names.deep_view()[t as int] == names@[t as int]@);
                assert(dedup_from(old_proc, seq![]).contains(x));
                assert(old_proc.contains(x));
                assert(names.deep_view() =~~= dedup_from(proc, seq![]));
                assert(totals@[t as int] <= n - i - 1);
            }
            let v = totals[t];
            totals[t] = v + 1;
            proof {
                assert forall|u: int|
                    0 <= u < names@.len() implies totals@[u] as int == count_player(
                    rv.skip(i as int),
                    (#[trigger] names@[u])@,
                ) by {
                    let predu = |d: DeathRecordV| d.player == names@[u]@;
                    lemma_filter_cons(rv[i as int], rv.skip(i + 1), predu);
                    assert(rv.skip(i as int) =~= seq![rv[i as int]] + rv.skip(i + 1));
                    if u != t {
                        assert(names.deep_view()[u] == names@[u]@);
                        assert(names.deep_view()[t as int] != names.deep_view()[u]);
                        assert(!predu(rv[i as int]));
                        assert(old_totals[u] == totals@[u]);
                    } else {
                        assert(predu(rv[i as int]));
                    }
                }
            }
        } else {
            proof {
                assert(!old_proc.contains(x)) by {
                    if old_proc.contains(x) {
                        assert(dedup_from(old_proc, seq![]).contains(x));
                        let w = choose|w: int|
                            0 <= w < names.deep_view().len() && names.deep_view()[w] == x;
                        assert(names@[w]@ == x);
                    }
                }
                lemma_proc_count(rv.skip(i + 1), x);
                assert(rv.skip(i + 1).reverse().map_values(pl) == old_proc);
                assert(count_player(rv.skip(i + 1), x) == 0);
            }
            let name = records[i].player.clone();
            names.push(name);
            totals.push(1);
            proof {
                assert forall|u: int|
                    0 <= u < names.deep_view().len() implies #[trigger] names.deep_view()[u]
                    == dedup_from(old_proc, seq![]).push(x)[u] by {
                    assert(names.deep_view()[u] == names@[u]@);
                    if u < old_names.len() {
                        assert(names@[u] == old_names[u]);
                        assert(dedup_from(old_proc, seq![])[u] == old_names[u]@) by {
                            assert(Seq::new(
                                old_names.len(),
                                |w: int| old_names[w].deep_view(),
                            )[u] == old_names[u]@);
                        }
                    }
                }
                assert(names.deep_view() =~~= dedup_from(proc, seq![]));
                assert forall|u: int|
                    0 <= u < names@.len() implies totals@[u] as int == count_player(
                    rv.skip(i as int),
                    (#[trigger] names@[u])@,
                ) by {
                    let predu = |d: DeathRecordV| d.player == names@[u]@;
                    lemma_filter_cons(rv[i as int], rv.skip(i + 1), predu);
                    assert(rv.skip(i as int) =~= seq![rv[i as int]] + rv.skip(i + 1));
                    if u < old_names.len() {
                        assert(names@[u] == old_names[u]);
                        assert(old_totals[u] == totals@[u]);
                        assert((names@[u])@ != x) by {
                            if old_names[u]@ == x {
                                assert(names.deep_view()[u] == names@[u]@);
                                assert(dedup_from(old_proc, seq![]).contains(old_names[u]@));
                                assert(old_proc.contains(x));
                            }
                        }
                        assert(!predu(rv[i as int]));
                    } else {
                        assert(names@[u]@ == x);
                        assert(predu(rv[i as int]));
                        assert(count_player(rv.skip(i + 1), names@[u]@) == 0);
                    }
                }
            }
        }
    }
    proof {
        assert(rv.skip(0) =~= rv);
        lemma_dedup_distinct(proc, seq![]);
    }
    let m = names.len();
    let mut out: Vec<Player> = Vec::new();
    for t in 0..m
        invariant
            m == names@.len(),
            m == totals@.len(),
            out@.len() == t,
            forall|u: int|
                0 <= u < t ==> (#[trigger] out@[u]).name@ == names@[u]@ && out@[u].total_deaths
                    == totals@[u],
    {
        let name = names[t].clone();
        let mut p = crate::chart::Player::new(name);
        p.total_deaths = totals[t];
        out.push(p);
    }
    proof {
        assert(player_names(out@) =~~= names.deep_view()) by {
            assert forall|u: int| 0 <= u < out@.len() implies player_names(out@)[u]
                == names.deep_view()[u] by {
                assert(player_names(out@)[u] == out@[u].name@);
                assert(names.deep_view()[u] == names@[u]@);
            }
        }
        assert forall|i1: int, j1: int|
            0 <= i1 < j1 < out@.len() implies (#[trigger] out@[i1]).name@ != (
        #[trigger] out@[j1]).name@ by {
            assert(names.deep_view()[i1] == names@[i1]@);
            assert(names.deep_view()[j1] == names@[j1]@);
        }
        assert forall|i1: int|
            0 <= i1 < out@.len() implies (#[trigger] out@[i1]).total_deaths as int == count_player(
            records.deep_view(),
            out@[i1].name@,
        ) by {
            assert(out@[i1].name@ == names@[i1]@);
        }
    }
    out
}


/// The events scoped by the optional year filter, in their given order.
pub fn filter_year_records(records: &Vec<DeathRecord>, sel: &Option<i32>) -> (r: Vec<DeathRecord>)
    ensures
        r.deep_view() == filter_year_spec(records.deep_view(), *sel),
        (forall|k: int| 0 <= k < records@.len() ==> (#[trigger] records@[k])@.timestamp.wf())
            ==> forall|k: int| 0 <= k < r@.len() ==> (#[trigger] r@[k])@.timestamp.wf(),
{
    let y = match sel {
        Some(y) => *y,
        None => {
            let r = copy_records(records);
            proof {
                assert(r.deep_view().len() == r@.len());
                assert(records.deep_view().len() == records@.len());
                if forall|t: int|
                    0 <= t < records@.len() ==> (#[trigger] records@[t])@.timestamp.wf() {
                    assert forall|k: int| 0 <= k < r@.len() implies (
                    #[trigger] r@[k])@.timestamp.wf() by {
                        assert(r@[k]@ == r.deep_view()[k]);
                        assert(records.deep_view()[k] == records@[k]@);
                        assert(records@[k]@.timestamp.wf());
                    }
                }
            }
            return r;
        },
    };
    let ghost rv: Seq<DeathRecordV> = records.deep_view();
    let ghost pred = |d: DeathRecordV| d.timestamp.year == y;
    let mut out: Vec<DeathRecord> = Vec::new();
    let n = records.len();
    proof {
        assert(rv.take(0) =~= Seq::<DeathRecordV>::empty());
        reveal(Seq::filter);
        assert(out.deep_view() =~~= rv.take(0).filter(pred));
    }
    for k in 0..n
        invariant
            n == records@.len(),
            rv == records.deep_view(),
            pred == (|d: DeathRecordV| d.timestamp.year == y),
            out.deep_view() == rv.take(k as int).filter(pred),
            (forall|t: int| 0 <= t < records@.len() ==> (#[trigger] records@[t])@.timestamp.wf())
                ==> forall|t: int| 0 <= t < out@.len() ==> (#[trigger] out@[t])@.timestamp.wf(),
    {
        let ghost prev_dv: Seq<DeathRecordV> = out.deep_view();
        let ghost prev_v: Seq<DeathRecord> = out@;
        proof {
            lemma_filter_take_push(rv, pred, k as int);
            assert(rv[k as int] == records@[k as int]@);
        }
        if records[k].timestamp.year == y {
            let item = copy_record(&records[k]);
            out.push(item);
            proof {
                assert forall|t: int|
                    0 <= t < out.deep_view().len() implies #[trigger] out.deep_view()[t]
                    == prev_dv.push(rv[k as int])[t] by {
                    assert(out.deep_view()[t] == out@[t]@);
                    if t < prev_v.len() {
                        assert(out@[t] == prev_v[t]);
                        assert(prev_dv[t] == prev_v[t]@);
                    }
                }
                assert(out.deep_view() =~~= prev_dv.push(rv[k as int]));
                assert(out.deep_view() =~~= rv.take(k + 1).filter(pred));
            }
        } else {
            proof {
                assert(out.deep_view() =~~= rv.take(k + 1).filter(pred));
            }
        }
    }
    proof {
        assert(rv.take(n as int) =~= rv);
    }
    out
}

/// The least and greatest event dates.
pub fn date_range(records: &Vec<DeathRecord>) -> (r: (Date, Date))
    requires
        records@.len() > 0,
        forall|k: int| 0 <= k < records@.len() ==> (#[trigger] records@[k])@.timestamp.wf(),
    ensures
        date_wf(r.0),
        date_wf(r.1),
        date_le(r.0, r.1),
        -262143 <= r.0.year <= 262142,
        -262143 <= r.1.year <= 262142,
        forall|k: int|
            0 <= k < records@.len() ==> date_le(
                r.0,
                (#[trigger] records@[k])@.timestamp.date_spec(),
            ) && date_le((#[trigger] records@[k])@.timestamp.date_spec(), r.1),
        exists|k: int|
            0 <= k < records@.len() && (#[trigger] records@[k])@.timestamp.date_spec() == r.0,
        exists|k: int|
            0 <= k < records@.len() && (#[trigger] records@[k])@.timestamp.date_spec() == r.1,
{
    let mut lo = records[0].timestamp.date();
    let mut hi = records[0].timestamp.date();
    let n = records.len();
    for k in 1..n
        invariant
            n == records@.len(),
            forall|t: int| 0 <= t < records@.len() ==> (#[trigger] records@[t])@.timestamp.wf(),
            date_wf(lo),
            date_wf(hi),
            date_le(lo, hi),
            -262143 <= lo.year <= 262142,
            -262143 <= hi.year <= 262142,
            forall|t: int|
                0 <= t < k ==> date_le(lo, (#[trigger] records@[t])@.timestamp.date_spec())
                    && date_le((#[trigger] records@[t])@.timestamp.date_spec(), hi),
            exists|t: int|
                0 <= t < records@.len() && (#[trigger] records@[t])@.timestamp.date_spec() == lo,
            exists|t: int|
                0 <= t < records@.len() && (#[trigger] records@[t])@.timestamp.date_spec() == hi,
    {
        let d = records[k].timestamp.date();
        if date_le_x(&d, &lo) {
            lo = d;
        }
        if date_le_x(&hi, &d) {
            hi = d;
        }
        proof {
            let dv = (records@[k as int])@.timestamp.date_spec();
            assert(date_le(lo, dv) && date_le(dv, hi));
        }
    }
    (lo, hi)
}


/// How many of the account's events fall on the given calendar day.
pub open spec fn cnt_day_player(s: Seq<DeathRecordV>, d: Date, name: Seq<char>) -> int {
    s.filter(|e: DeathRecordV| e.player == name && e.timestamp.date_spec() == d).len() as int
}

/// How many events fall on day `d`.
#[verifier::loop_isolation(false)]
pub fn count_on_day(records: &Vec<DeathRecord>, d: &Date) -> (c: u64)
    ensures
        c as int == cnt_day(records.deep_view(), *d),
{
    let ghost rv: Seq<DeathRecordV> = records.deep_view();
    let ghost pred = |e: DeathRecordV| e.timestamp.date_spec() == *d;
    let n = records.len();
    let mut c: u64 = 0;
    proof {
        assert(rv.take(0) =~= Seq::<DeathRecordV>::empty());
        reveal(Seq::filter);
    }
    for k in 0..n
        invariant
            n == records@.len(),
            rv == records.deep_view(),
            pred == (|e: DeathRecordV| e.timestamp.date_spec() == *d),
            c as int == rv.take(k as int).filter(pred).len(),
            c <= k,
    {
        proof {
            lemma_filter_take_push(rv, pred, k as int);
            assert(rv[k as int] == records@[k as int]@);
        }
        let dd = records[k].timestamp.date();
        if crate::date::date_eq_x(&dd, d) {
            c = c + 1;
        }
    }
    proof {
        assert(rv.take(n as int) =~= rv);
    }
    c
}

/// How many of the account's events fall on day `d`.
#[verifier::loop_isolation(false)]
pub fn count_on_day_player(records: &Vec<DeathRecord>, d: &Date, name: &String) -> (c: u64)
    ensures
        c as int == cnt_day_player(records.deep_view(), *d, name@),
{
    let ghost rv: Seq<DeathRecordV> = records.deep_view();
    let ghost pred = |e: DeathRecordV| e.player == name@ && e.timestamp.date_spec() == *d;
    let n = records.len();
    let mut c: u64 = 0;
    proof {
        assert(rv.take(0) =~= Seq::<DeathRecordV>::empty());
        reveal(Seq::filter);
    }
    for k in 0..n
        invariant
            n == records@.len(),
            rv == records.deep_view(),
            pred == (|e: DeathRecordV| e.player == name@ && e.timestamp.date_spec() == *d),
            c as int == rv.take(k as int).filter(pred).len(),
            c <= k,
    {
        proof {
            lemma_filter_take_push(rv, pred, k as int);
            assert(rv[k as int] == records@[k as int]@);
        }
        let dd = records[k].timestamp.date();
        if crate::date::date_eq_x(&dd, d) && str_eq(records[k].player.as_str(), name.as_str()) {
            c = c + 1;
        }
    }
    proof {
        assert(rv.take(n as int) =~= rv);
    }
    c
}

/// Day counts over a full calendar range partition the events: they sum to
/// the number of events.
pub proof fn lemma_day_partition(s: Seq<DeathRecordV>, lo: Date, hi: Date)
    requires
        date_wf(lo),
        date_wf(hi),
        date_le(lo, hi),
        forall|k: int|
            0 <= k < s.len() ==> date_wf((#[trigger] s[k]).timestamp.date_spec()) && date_le(
                lo,
                s[k].timestamp.date_spec(),
            ) && date_le(s[k].timestamp.date_spec(), hi),
    ensures
        crate::util::sum_int(
            date_seq(lo, hi).map_values(|d: Date| cnt_day(s, d)),
        ) == s.len(),
    decreases s.len(),
{
    let days = date_seq(lo, hi);
    let f = |d: Date| cnt_day(s, d);
    if s.len() == 0 {
        assert forall|t: int| 0 <= t < days.map_values(f).len() implies days.map_values(f)[t]
            == 0 by {
            assert(days.map_values(f)[t] == cnt_day(s, days[t]));
            assert(s.filter(|e: DeathRecordV| e.timestamp.date_spec() == days[t]) =~= Seq::<
                DeathRecordV,
            >::empty()) by {
                reveal(Seq::filter);
            }
        }
        crate::util::lemma_sum_int_zero(days.map_values(f));
    } else {
        let s0 = s.drop_last();
        let e = s.last();
        assert forall|k: int|
            0 <= k < s0.len() implies date_wf((#[trigger] s0[k]).timestamp.date_spec()) && date_le(
            lo,
            s0[k].timestamp.date_spec(),
        ) && date_le(s0[k].timestamp.date_spec(), hi) by {
            assert(s0[k] == s[k]);
        }
        lemma_day_partition(s0, lo, hi);
        let f0 = |d: Date| cnt_day(s0, d);
        let ed = e.timestamp.date_spec();
        crate::date::lemma_date_seq_contains(lo, hi, ed);
        crate::date::lemma_date_seq_distinct(lo, hi);
        crate::date::lemma_date_seq(lo, hi);
        let k0 = choose|k: int| 0 <= k < days.len() && #[trigger] days[k] == ed;
        assert forall|t: int| 0 <= t < days.len() implies #[trigger] days.map_values(f)[t] == (
        if t == k0 {
            days.map_values(f0)[t] + 1
        } else {
            days.map_values(f0)[t]
        }) by {
            let predt = |x: DeathRecordV| x.timestamp.date_spec() == days[t];
            reveal(Seq::filter);
            assert(s.filter(predt) == if predt(e) {
                s0.filter(predt).push(e)
            } else {
                s0.filter(predt)
            });
            if t != k0 {
                assert(crate::date::date_lt(days[t], days[k0]) || crate::date::date_lt(
                    days[k0],
                    days[t],
                ));
                assert(days[t] != ed);
                assert(!predt(e));
            } else {
                assert(predt(e));
            }
        }
        crate::util::lemma_sum_int_update(days.map_values(f0), days.map_values(f), k0);
    }
}

/// Distinct days in the range always get distinct labels.
pub proof fn lemma_date_labels_distinct(lo: Date, hi: Date)
    requires
        date_wf(lo),
        date_wf(hi),
        date_le(lo, hi),
    ensures
        forall|i: int, j: int|
            0 <= i < j < date_seq(lo, hi).len() ==> crate::date::fmt_date(
                #[trigger] date_seq(lo, hi)[i],
            ) != crate::date::fmt_date(#[trigger] date_seq(lo, hi)[j]),
{
    crate::date::lemma_date_seq(lo, hi);
    crate::date::lemma_date_seq_distinct(lo, hi);
    let days = date_seq(lo, hi);
    assert forall|i: int, j: int| 0 <= i < j < days.len() implies crate::date::fmt_date(
        #[trigger] days[i],
    ) != crate::date::fmt_date(#[trigger] days[j]) by {
        if crate::date::fmt_date(days[i]) == crate::date::fmt_date(days[j]) {
            crate::date::lemma_fmt_date_injective(days[i], days[j]);
        }
    }
}

/// Every calendar day from `lo` to `hi`, in order.
#[verifier::loop_isolation(false)]
pub fn build_dates(lo: Date, hi: Date) -> (r: Vec<Date>)
    requires
        date_wf(lo),
        date_wf(hi),
        date_le(lo, hi),
        hi.year <= 262142,
    ensures
        r@ == date_seq(lo, hi),
{
    proof {
        crate::date::lemma_date_seq(lo, hi);
        crate::date::lemma_date_le_idx(lo, hi);
    }
    let ghost days: Seq<Date> = date_seq(lo, hi);
    let mut out: Vec<Date> = Vec::new();
    let mut cur = lo;
    proof {
        assert(out@ =~= days.take(0));
    }
    while date_le_x(&cur, &hi)
        invariant
            date_wf(lo),
            date_wf(hi),
            date_le(lo, hi),
            hi.year <= 262142,
            days == date_seq(lo, hi),
            out@.len() <= days.len(),
            out@ == days.take(out@.len() as int),
            out@.len() < days.len() ==> cur == days[out@.len() as int],
            out@.len() == days.len() ==> !date_le(cur, hi),
        decreases days.len() - out@.len(),
    {
        proof {
            assert(out@.len() < days.len()) by {
                if out@.len() == days.len() {
                    assert(!date_le(cur, hi));
                }
            }
            assert(date_wf(cur) && date_le(lo, cur) && date_le(cur, hi));
            assert(cur.year <= hi.year);
        }
        let ghost t = out@.len() as int;
        out.push(cur);
        cur = crate::date::next_date(&cur);
        proof {
            assert(out@ =~= days.take(t + 1));
            if t + 1 < days.len() {
                assert(days[t + 1] == crate::date::next_date_spec(days[t]));
            } else {
                assert(days[t] == hi);
                crate::date::lemma_next_date(hi);
                assert(crate::date::date_lt(hi, cur));
                assert(!date_le(cur, hi));
            }
        }
    }
    proof {
        assert(out@.len() == days.len()) by {
            if out@.len() < days.len() {
                assert(cur == days[out@.len() as int]);
                assert(date_le(cur, hi));
            }
        }
        assert(out@ =~= days);
    }
    out
}

/// The chart labels of a list of days.
#[verifier::loop_isolation(false)]
pub fn fmt_labels(dates: &Vec<Date>) -> (r: Vec<String>)
    requires
        forall|k: int| 0 <= k < dates@.len() ==> date_wf(#[trigger] dates@[k]),
    ensures
        r.deep_view() == dates@.map_values(|d: Date| crate::date::fmt_date(d)),
{
    let n = dates.len();
    let mut out: Vec<String> = Vec::new();
    for k in 0..n
        invariant
            n == dates@.len(),
            out@.len() == k,
            forall|t: int|
                0 <= t < k ==> (#[trigger] out@[t])@ == crate::date::fmt_date(dates@[t]),
    {
        let s = crate::date::fmt_date_x(&dates[k]);
        out.push(s);
    }
    proof {
        assert forall|t: int| 0 <= t < n implies #[trigger] out.deep_view()[t]
            == dates@.map_values(|d: Date| crate::date::fmt_date(d))[t] by {
            assert(out.deep_view()[t] == out@[t]@);
        }
        assert(out.deep_view() =~~= dates@.map_values(|d: Date| crate::date::fmt_date(d)));
    }
    out
}

/// The gap-filled per-day counts of all events.
#[verifier::loop_isolation(false)]
pub fn day_values_all(records: &Vec<DeathRecord>, dates: &Vec<Date>) -> (r: Vec<u64>)
    ensures
        r@.len() == dates@.len(),
        forall|t: int|
            0 <= t < dates@.len() ==> #[trigger] r@[t] as int == cnt_day(
                records.deep_view(),
                dates@[t],
            ),
{
    let n = dates.len();
    let mut out: Vec<u64> = Vec::new();
    for k in 0..n
        invariant
            n == dates@.len(),
            out@.len() == k,
            forall|t: int|
                0 <= t < k ==> #[trigger] out@[t] as int == cnt_day(
                    records.deep_view(),
                    dates@[t],
                ),
    {
        let c = count_on_day(records, &dates[k]);
        out.push(c);
    }
    out
}

/// The gap-filled per-day counts of one account's events.
#[verifier::loop_isolation(false)]
pub fn day_values_player(records: &Vec<DeathRecord>, dates: &Vec<Date>, name: &String) -> (r: Vec<
    u64,
>)
    ensures
        r@.len() == dates@.len(),
        forall|t: int|
            0 <= t < dates@.len() ==> #[trigger] r@[t] as int == cnt_day_player(
                records.deep_view(),
                dates@[t],
                name@,
            ),
{
    let n = dates.len();
    let mut out: Vec<u64> = Vec::new();
    for k in 0..n
        invariant
            n == dates@.len(),
            out@.len() == k,
            forall|t: int|
                0 <= t < k ==> #[trigger] out@[t] as int == cnt_day_player(
                    records.deep_view(),
                    dates@[t],
                    name@,
                ),
    {
        let c = count_on_day_player(records, &dates[k], name);
        out.push(c);
    }
    out
}


/// How many times the exact cause string occurs.
pub open spec fn cause_count(causes: Seq<Seq<char>>, c: Seq<char>) -> int {
    causes.filter(|x: Seq<char>| x == c).len() as int
}

/// The distinct causes in first-seen order, each with its total count.
pub open spec fn pie_pairs(causes: Seq<Seq<char>>) -> Seq<(Seq<char>, int)> {
    dedup_from(causes, seq![]).map_values(|c: Seq<char>| (c, cause_count(causes, c)))
}

/// A pair inserted after every pair with at least its count: counts stay
/// descending and equal counts keep their earlier order.
pub open spec fn insert_desc(p: (Seq<char>, int), s: Seq<(Seq<char>, int)>) -> Seq<
    (Seq<char>, int),
>
    decreases s.len(),
{
    if s.len() == 0 {
        seq![p]
    } else if s[0].1 >= p.1 {
        seq![s[0]] + insert_desc(p, s.drop_first())
    } else {
        seq![p] + s
    }
}

/// The pairs sorted by count, largest first; a stable insertion sort, so
/// equal counts stay in first-seen order.
pub open spec fn sort_desc(s: Seq<(Seq<char>, int)>) -> Seq<(Seq<char>, int)>
    decreases s.len(),
{
    if s.len() == 0 {
        seq![]
    } else {
        insert_desc(s.last(), sort_desc(s.drop_last()))
    }
}

/// What a cause-frequency chart holds: the distinct causes with their
/// counts, sorted by count descending, ties in first-seen order.
pub open spec fn pie_spec(causes: Seq<Seq<char>>) -> Seq<(Seq<char>, int)> {
    sort_desc(pie_pairs(causes))
}

/// The sum of the counts of a pair list.
pub open spec fn sum_pairs(s: Seq<(Seq<char>, int)>) -> int
    decreases s.len(),
{
    if s.len() == 0 {
        0
    } else {
        sum_pairs(s.drop_last()) + s.last().1
    }
}

proof fn lemma_insert_desc_contains(p: (Seq<char>, int), s: Seq<(Seq<char>, int)>)
    ensures
        insert_desc(p, s).len() == s.len() + 1,
        forall|k: int|
            0 <= k < insert_desc(p, s).len() ==> #[trigger] insert_desc(p, s)[k] == p
                || s.contains(insert_desc(p, s)[k]),
    decreases s.len(),
{
    if s.len() > 0 && s[0].1 >= p.1 {
        lemma_insert_desc_contains(p, s.drop_first());
        let r = insert_desc(p, s);
        let r1 = insert_desc(p, s.drop_first());
        assert forall|k: int| 0 <= k < r.len() implies #[trigger] r[k] == p || s.contains(
            r[k],
        ) by {
            if k == 0 {
                assert(r[0] == s[0]);
                assert(s.contains(s[0]));
            } else {
                assert(r[k] == r1[k - 1]);
                if r1[k - 1] != p {
                    assert(s.drop_first().contains(r1[k - 1]));
                    let u = choose|u: int|
                        0 <= u < s.drop_first().len() && s.drop_first()[u] == r1[k - 1];
                    assert(s[u + 1] == r1[k - 1]);
                }
            }
        }
    }
}

proof fn lemma_insert_desc_sum(p: (Seq<char>, int), s: Seq<(Seq<char>, int)>)
    ensures
        sum_pairs(insert_desc(p, s)) == sum_pairs(s) + p.1,
    decreases s.len(),
{
    let r = insert_desc(p, s);
    if s.len() == 0 {
        assert(r == seq![p]);
        assert(r.drop_last() =~= Seq::<(Seq<char>, int)>::empty());
        assert(sum_pairs(Seq::<(Seq<char>, int)>::empty()) == 0);
        assert(sum_pairs(s) == 0);
    } else if s[0].1 >= p.1 {
        lemma_insert_desc_sum(p, s.drop_first());
        let r1 = insert_desc(p, s.drop_first());
        assert(r == seq![s[0]] + r1);
        lemma_sum_pairs_cons(s[0], r1);
        lemma_sum_pairs_cons(s[0], s.drop_first());
        assert(seq![s[0]] + s.drop_first() =~= s);
    } else {
        assert(r == seq![p] + s);
        lemma_sum_pairs_cons(p, s);
    }
}

/// The sum over a list with a head is the head's count plus the rest.
proof fn lemma_sum_pairs_cons(p: (Seq<char>, int), s: Seq<(Seq<char>, int)>)
    ensures
        sum_pairs(seq![p] + s) == p.1 + sum_pairs(s),
    decreases s.len(),
{
    if s.len() == 0 {
        assert(seq![p] + s =~= seq![p]);
        assert((seq![p]).drop_last() =~= Seq::<(Seq<char>, int)>::empty());
        assert(sum_pairs(Seq::<(Seq<char>, int)>::empty()) == 0);
        assert(sum_pairs(s) == 0);
        assert(sum_pairs(seq![p] + s) == sum_pairs((seq![p] + s).drop_last()) + (seq![p] + s).last().1);
    } else {
        assert((seq![p] + s).drop_last() =~= seq![p] + s.drop_last());
        lemma_sum_pairs_cons(p, s.drop_last());
        assert((seq![p] + s).last() == s.last());
    }
}

proof fn lemma_sort_desc_sum(s: Seq<(Seq<char>, int)>)
    ensures
        sum_pairs(sort_desc(s)) == sum_pairs(s),
    decreases s.len(),
{
    if s.len() > 0 {
        lemma_sort_desc_sum(s.drop_last());
        lemma_insert_desc_sum(s.last(), sort_desc(s.drop_last()));
    }
}

proof fn lemma_insert_desc_sorted(p: (Seq<char>, int), s: Seq<(Seq<char>, int)>)
    requires
        forall|i: int, j: int| 0 <= i < j < s.len() ==> (#[trigger] s[i]).1 >= (#[trigger] s[j]).1,
    ensures
        forall|i: int, j: int|
            0 <= i < j < insert_desc(p, s).len() ==> (#[trigger] insert_desc(p, s)[i]).1 >= (
            #[trigger] insert_desc(p, s)[j]).1,
    decreases s.len(),
{
    let r = insert_desc(p, s);
    if s.len() == 0 {
    } else if s[0].1 >= p.1 {
        assert(forall|i: int, j: int|
            0 <= i < j < s.drop_first().len() ==> (#[trigger] s.drop_first()[i]).1 >= (
            #[trigger] s.drop_first()[j]).1) by {
            assert forall|i: int, j: int|
                0 <= i < j < s.drop_first().len() implies (#[trigger] s.drop_first()[i]).1 >= (
            #[trigger] s.drop_first()[j]).1 by {
                assert(s.drop_first()[i] == s[i + 1]);
                assert(s.drop_first()[j] == s[j + 1]);
            }
        }
        lemma_insert_desc_sorted(p, s.drop_first());
        lemma_insert_desc_contains(p, s.drop_first());
        let r1 = insert_desc(p, s.drop_first());
        assert forall|i: int, j: int| 0 <= i < j < r.len() implies (#[trigger] r[i]).1 >= (
        #[trigger] r[j]).1 by {
            if i == 0 {
                assert(r[j] == r1[j - 1]);
                if r1[j - 1] == p {
                } else {
                    assert(s.drop_first().contains(r1[j - 1]));
                    let u = choose|u: int|
                        0 <= u < s.drop_first().len() && s.drop_first()[u] == r1[j - 1];
                    assert(s[u + 1] == r1[j - 1]);
                }
            } else {
                assert(r[i] == r1[i - 1]);
                assert(r[j] == r1[j - 1]);
            }
        }
    } else {
        assert forall|i: int, j: int| 0 <= i < j < r.len() implies (#[trigger] r[i]).1 >= (
        #[trigger] r[j]).1 by {
            if i == 0 {
                assert(r[j] == s[j - 1]);
                if j > 1 {
                    assert(s[0].1 >= s[j - 1].1);
                }
            } else {
                assert(r[i] == s[i - 1]);
                assert(r[j] == s[j - 1]);
            }
        }
    }
}

/// The chart's counts come out largest first.
pub proof fn lemma_sort_desc_sorted(s: Seq<(Seq<char>, int)>)
    ensures
        forall|i: int, j: int|
            0 <= i < j < sort_desc(s).len() ==> (#[trigger] sort_desc(s)[i]).1 >= (
            #[trigger] sort_desc(s)[j]).1,
    decreases s.len(),
{
    if s.len() > 0 {
        lemma_sort_desc_sorted(s.drop_last());
        lemma_insert_desc_sorted(s.last(), sort_desc(s.drop_last()));
    }
}

proof fn lemma_insert_desc_distinct(p: (Seq<char>, int), s: Seq<(Seq<char>, int)>)
    requires
        forall|i: int, j: int| 0 <= i < j < s.len() ==> (#[trigger] s[i]).0 != (#[trigger] s[j]).0,
        forall|k: int| 0 <= k < s.len() ==> (#[trigger] s[k]).0 != p.0,
    ensures
        forall|i: int, j: int|
            0 <= i < j < insert_desc(p, s).len() ==> (#[trigger] insert_desc(p, s)[i]).0 != (
            #[trigger] insert_desc(p, s)[j]).0,
    decreases s.len(),
{
    let r = insert_desc(p, s);
    if s.len() == 0 {
    } else if s[0].1 >= p.1 {
        assert forall|i: int, j: int|
            0 <= i < j < s.drop_first().len() implies (#[trigger] s.drop_first()[i]).0 != (
        #[trigger] s.drop_first()[j]).0 by {
            assert(s.drop_first()[i] == s[i + 1]);
            assert(s.drop_first()[j] == s[j + 1]);
        }
        assert forall|k: int| 0 <= k < s.drop_first().len() implies (
        #[trigger] s.drop_first()[k]).0 != p.0 by {
            assert(s.drop_first()[k] == s[k + 1]);
        }
        lemma_insert_desc_distinct(p, s.drop_first());
        lemma_insert_desc_contains(p, s.drop_first());
        let r1 = insert_desc(p, s.drop_first());
        assert forall|i: int, j: int| 0 <= i < j < r.len() implies (#[trigger] r[i]).0 != (
        #[trigger] r[j]).0 by {
            if i == 0 {
                assert(r[0] == s[0]);
                assert(r[j] == r1[j - 1]);
                if r1[j - 1] == p {
                    assert(s[0].0 != p.0);
                } else {
                    assert(s.drop_first().contains(r1[j - 1]));
                    let u = choose|u: int|
                        0 <= u < s.drop_first().len() && s.drop_first()[u] == r1[j - 1];
                    assert(s[u + 1] == r1[j - 1]);
                    assert(s[0].0 != s[u + 1].0);
                }
            } else {
                assert(r[i] == r1[i - 1]);
                assert(r[j] == r1[j - 1]);
            }
        }
    } else {
        assert forall|i: int, j: int| 0 <= i < j < r.len() implies (#[trigger] r[i]).0 != (
        #[trigger] r[j]).0 by {
            if i == 0 {
                assert(r[j] == s[j - 1]);
            } else {
                assert(r[i] == s[i - 1]);
                assert(r[j] == s[j - 1]);
            }
        }
    }
}

/// Sorting keeps the labels distinct.
pub proof fn lemma_sort_desc_distinct(s: Seq<(Seq<char>, int)>)
    requires
        forall|i: int, j: int| 0 <= i < j < s.len() ==> (#[trigger] s[i]).0 != (#[trigger] s[j]).0,
    ensures
        forall|i: int, j: int|
            0 <= i < j < sort_desc(s).len() ==> (#[trigger] sort_desc(s)[i]).0 != (
            #[trigger] sort_desc(s)[j]).0,
        sort_desc(s).len() == s.len(),
        forall|k: int|
            0 <= k < sort_desc(s).len() ==> s.contains(#[trigger] sort_desc(s)[k]),
    decreases s.len(),
{
    if s.len() > 0 {
        let s0 = s.drop_last();
        assert forall|i: int, j: int| 0 <= i < j < s0.len() implies (#[trigger] s0[i]).0 != (
        #[trigger] s0[j]).0 by {
            assert(s0[i] == s[i]);
            assert(s0[j] == s[j]);
        }
        lemma_sort_desc_distinct(s0);
        let r0 = sort_desc(s0);
        assert forall|k: int| 0 <= k < r0.len() implies (#[trigger] r0[k]).0 != s.last().0 by {
            assert(s0.contains(r0[k]));
            let u = choose|u: int| 0 <= u < s0.len() && s0[u] == r0[k];
            assert(s[u] == s0[u]);
            assert(s[u].0 != s[s.len() - 1].0);
        }
        lemma_insert_desc_distinct(s.last(), r0);
        lemma_insert_desc_contains(s.last(), r0);
        assert forall|k: int| 0 <= k < sort_desc(s).len() implies s.contains(
            #[trigger] sort_desc(s)[k],
        ) by {
            if sort_desc(s)[k] == s.last() {
                assert(s[s.len() - 1] == s.last());
            } else {
                assert(r0.contains(sort_desc(s)[k]));
                let u = choose|u: int| 0 <= u < r0.len() && r0[u] == sort_desc(s)[k];
                assert(s0.contains(r0[u]));
                let w = choose|w: int| 0 <= w < s0.len() && s0[w] == r0[u];
                assert(s[w] == s0[w]);
            }
        }
    }
}

/// A cause occurs at least once exactly when some event carries it.
proof fn lemma_cause_count_contains(causes: Seq<Seq<char>>, c: Seq<char>)
    ensures
        causes.contains(c) <==> cause_count(causes, c) > 0,
    decreases causes.len(),
{
    reveal(Seq::filter);
    if causes.len() == 0 {
        if causes.contains(c) {
            let k = choose|k: int| 0 <= k < causes.len() && causes[k] == c;
        }
    } else {
        lemma_cause_count_contains(causes.drop_last(), c);
        assert(causes =~= causes.drop_last().push(causes.last()));
        crate::util::lemma_push_contains(causes.drop_last(), causes.last(), c);
        assert(cause_count(causes, c) == cause_count(causes.drop_last(), c) + (
        if causes.last() == c {
            1int
        } else {
            0int
        }));
    }
}

/// The first-seen counts partition the events by cause: they sum to the
/// number of events.
pub proof fn lemma_pie_pairs_sum(causes: Seq<Seq<char>>)
    ensures
        sum_pairs(pie_pairs(causes)) == causes.len(),
    decreases causes.len(),
{
    if causes.len() == 0 {
        assert(dedup_from(causes, seq![]) =~~= Seq::<Seq<char>>::empty());
        assert(pie_pairs(causes) =~~= Seq::<(Seq<char>, int)>::empty());
    } else {
        let c0 = causes.drop_last();
        let x = causes.last();
        lemma_pie_pairs_sum(c0);
        lemma_dedup_push(c0, seq![], x);
        lemma_dedup_distinct(c0, seq![]);
        lemma_dedup_membership(c0, seq![]);
        assert(causes =~= c0.push(x));
        let d0 = dedup_from(c0, seq![]);
        let d1 = dedup_from(causes, seq![]);
        let f0 = |c: Seq<char>| (c, cause_count(c0, c));
        let f1 = |c: Seq<char>| (c, cause_count(causes, c));
        assert forall|c: Seq<char>| #[trigger] cause_count(causes, c) == cause_count(c0, c) + (
        if c == x {
            1int
        } else {
            0int
        }) by {
            let pred = |y: Seq<char>| y == c;
            reveal(Seq::filter);
            assert(causes.filter(pred) == if pred(x) {
                c0.filter(pred).push(x)
            } else {
                c0.filter(pred)
            });
        }
        if c0.contains(x) {
            assert(d1 == d0);
            assert(d0.contains(x));
            let k0 = choose|k: int| 0 <= k < d0.len() && d0[k] == x;
            assert forall|tt: int| 0 <= tt < d0.len() implies #[trigger] pie_pairs(causes)[tt] == (
            if tt == k0 {
                (pie_pairs(c0)[tt].0, pie_pairs(c0)[tt].1 + 1)
            } else {
                pie_pairs(c0)[tt]
            }) by {
                assert(pie_pairs(causes)[tt] == f1(d0[tt]));
                assert(pie_pairs(c0)[tt] == f0(d0[tt]));
                if tt != k0 {
                    assert(d0[tt] != x);
                }
            }
            lemma_sum_pairs_update(pie_pairs(c0), pie_pairs(causes), k0);
        } else {
            assert(d1 == d0.push(x));
            assert(cause_count(c0, x) == 0) by {
                lemma_cause_count_contains(c0, x);
            }
            assert forall|tt: int| 0 <= tt < d0.len() implies #[trigger] pie_pairs(causes)[tt]
                == pie_pairs(c0)[tt] by {
                assert(pie_pairs(causes)[tt] == f1(d1[tt]));
                assert(d1[tt] == d0[tt]);
                assert(pie_pairs(c0)[tt] == f0(d0[tt]));
                assert(d0.contains(d0[tt]));
                assert(d0[tt] != x) by {
                    if d0[tt] == x {
                        assert(c0.contains(x));
                    }
                }
            }
            assert(pie_pairs(causes).len() == d0.len() + 1);
            assert(pie_pairs(causes).last() == f1(x));
            assert(cause_count(causes, x) == 1);
            assert(pie_pairs(causes).drop_last() =~~= pie_pairs(c0));
        }
    }
}

/// Raising one count by one raises the pair sum by one.
proof fn lemma_sum_pairs_update(a: Seq<(Seq<char>, int)>, b: Seq<(Seq<char>, int)>, k: int)
    requires
        a.len() == b.len(),
        0 <= k < a.len(),
        b[k].1 == a[k].1 + 1,
        forall|t: int| 0 <= t < a.len() && t != k ==> a[t] == #[trigger] b[t],
    ensures
        sum_pairs(b) == sum_pairs(a) + 1,
    decreases a.len(),
{
    if k == a.len() - 1 {
        assert(a.drop_last() =~= b.drop_last());
    } else {
        lemma_sum_pairs_update(a.drop_last(), b.drop_last(), k);
    }
}

/// The total of a cause chart equals the number of events charted.
pub proof fn lemma_pie_sum(causes: Seq<Seq<char>>)
    ensures
        sum_pairs(pie_spec(causes)) == causes.len(),
{
    lemma_pie_pairs_sum(causes);
    lemma_sort_desc_sum(pie_pairs(causes));
}


/// Where the next pair belongs in an already sorted list, by the bounds
/// the search loop establishes.
proof fn lemma_insert_desc_at(p: (Seq<char>, int), s: Seq<(Seq<char>, int)>, j: int)
    requires
        0 <= j <= s.len(),
        forall|k: int| 0 <= k < j ==> (#[trigger] s[k]).1 >= p.1,
        j < s.len() ==> s[j].1 < p.1,
    ensures
        insert_desc(p, s) == s.subrange(0, j) + seq![p] + s.skip(j),
    decreases j,
{
    if j == 0 {
        if s.len() == 0 {
            assert(insert_desc(p, s) =~~= s.subrange(0, 0) + seq![p] + s.skip(0));
        } else {
            assert(s[0].1 < p.1);
            assert(insert_desc(p, s) == seq![p] + s);
            assert(insert_desc(p, s) =~~= s.subrange(0, 0) + seq![p] + s.skip(0));
        }
    } else {
        assert(s[0].1 >= p.1);
        assert forall|k: int| 0 <= k < j - 1 implies (#[trigger] s.drop_first()[k]).1 >= p.1 by {
            assert(s.drop_first()[k] == s[k + 1]);
        }
        if j - 1 < s.drop_first().len() {
            assert(s.drop_first()[j - 1] == s[j]);
        }
        lemma_insert_desc_at(p, s.drop_first(), j - 1);
        assert(insert_desc(p, s) == seq![s[0]] + (s.drop_first().subrange(0, j - 1) + seq![p]
            + s.drop_first().skip(j - 1)));
        assert(seq![s[0]] + (s.drop_first().subrange(0, j - 1) + seq![p] + s.drop_first().skip(
            j - 1,
        )) =~~= s.subrange(0, j) + seq![p] + s.skip(j));
    }
}

/// The built pairs of two parallel label and value vectors.
pub open spec fn chart_pairs(labels: Seq<Seq<char>>, values: Seq<u64>) -> Seq<(Seq<char>, int)> {
    Seq::new(labels.len(), |i: int| (labels[i], values[i] as int))
}

/// The cause-frequency chart of a list of cause strings: one label per
/// distinct cause with its count, sorted by count descending; equal counts
/// keep first-seen order.
#[verifier::rlimit(100)]
#[verifier::loop_isolation(false)]
pub fn death_pie_chart(causes: &Vec<String>) -> (c: Chart)
    ensures
        c.wf(),
        c.labels_view().len() == pie_spec(causes.deep_view()).len(),
        c.values_view().len() == pie_spec(causes.deep_view()).len(),
        forall|i: int|
            0 <= i < pie_spec(causes.deep_view()).len() ==> #[trigger] c.labels_view()[i]
                == pie_spec(causes.deep_view())[i].0 && c.values_view()[i] as int == pie_spec(
                causes.deep_view(),
            )[i].1,
{
    let ghost cv: Seq<Seq<char>> = causes.deep_view();
    let mut chart = Chart::empty();
    let n = causes.len();
    proof {
        assert(cv.take(0) =~= Seq::<Seq<char>>::empty());
        assert(chart.labels_view() =~~= dedup_from(cv.take(0), seq![]));
        assert(cv.len() == causes@.len());
    }
    for k in 0..n
        invariant
            cv == causes.deep_view(),
            n == causes@.len(),
            chart.wf(),
            chart.labels_view() == dedup_from(cv.take(k as int), seq![]),
            chart.values_view().len() == chart.labels_view().len(),
            forall|t: int|
                0 <= t < chart.labels_view().len() ==> #[trigger] chart.values_view()[t] as int
                    == cause_count(cv.take(k as int), chart.labels_view()[t]),
            forall|t: int|
                0 <= t < chart.values_view().len() ==> #[trigger] chart.values_view()[t] <= k,
    {
        let s = causes[k].clone();
        let ghost x: Seq<char> = cv[k as int];
        let ghost prev = chart;
        proof {
            assert(causes@[k as int]@ == cv[k as int]);
            assert(s@ == x);
            assert(cv.take(k + 1) =~= cv.take(k as int).push(x));
            lemma_dedup_push(cv.take(k as int), seq![], x);
            lemma_dedup_membership(cv.take(k as int), seq![]);
            crate::chart::lemma_first_index_of(chart.labels_view(), x);
            assert forall|y: Seq<char>| #[trigger] cause_count(cv.take(k + 1), y) == cause_count(
                cv.take(k as int),
                y,
            ) + (if x == y {
                1int
            } else {
                0int
            }) by {
                reveal(Seq::filter);
                assert(cv.take(k + 1).drop_last() =~= cv.take(k as int));
                assert(cv.take(k + 1).last() == x);
            }
        }
        chart.inc(s);
        proof {
            let fi = crate::chart::first_index_of(prev.labels_view(), x);
            if fi >= 0 {
                assert(prev.labels_view().contains(x)) by {
                    assert(prev.labels_view()[fi] == x);
                }
                assert(cv.take(k as int).contains(x));
                assert(chart.labels_view() =~~= dedup_from(cv.take(k + 1), seq![]));
                assert forall|t: int|
                    0 <= t < chart.labels_view().len() implies #[trigger] chart.values_view()[t] as int
                    == cause_count(cv.take(k + 1), chart.labels_view()[t]) by {
                    if t == fi {
                        assert(chart.labels_view()[t] == x);
                    } else {
                        assert(prev.labels_view()[t] != prev.labels_view()[fi]);
                        assert(chart.labels_view()[t] != x);
                    }
                }
            } else {
                assert(!prev.labels_view().contains(x)) by {
                    if prev.labels_view().contains(x) {
                        let w = choose|w: int|
                            0 <= w < prev.labels_view().len() && prev.labels_view()[w] == x;
                    }
                }
                assert(!cv.take(k as int).contains(x));
                lemma_cause_count_contains(cv.take(k as int), x);
                assert(cause_count(cv.take(k as int), x) == 0);
                assert(chart.labels_view() =~~= dedup_from(cv.take(k + 1), seq![]));
                assert forall|t: int|
                    0 <= t < chart.labels_view().len() implies #[trigger] chart.values_view()[t] as int
                    == cause_count(cv.take(k + 1), chart.labels_view()[t]) by {
                    if t == chart.labels_view().len() - 1 {
                        assert(chart.labels_view()[t] == x);
                        assert(chart.values_view()[t] == 1u64);
                    } else {
                        assert(chart.labels_view()[t] == prev.labels_view()[t]);
                        assert(prev.labels_view().contains(prev.labels_view()[t]));
                        assert(chart.labels_view()[t] != x) by {
                            if prev.labels_view()[t] == x {
                                assert(prev.labels_view().contains(x));
                            }
                        }
                    }
                }
            }
        }
    }
    proof {
        assert(cv.take(n as int) =~= cv);
    }
    // sort the grouped pairs by count, largest first
    let ghost ps: Seq<(Seq<char>, int)> = pie_pairs(cv);
    proof {
        lemma_dedup_distinct(cv, seq![]);
        assert(ps.len() == chart.labels_view().len());
        assert forall|t: int| 0 <= t < ps.len() implies #[trigger] ps[t] == (
        chart.labels_view()[t], chart.values_view()[t] as int) by {
            assert(ps[t] == (dedup_from(cv, seq![])[t], cause_count(cv, dedup_from(cv, seq![])[t])));
        }
        assert forall|i: int, j: int| 0 <= i < j < ps.len() implies (#[trigger] ps[i]).0 != (
        #[trigger] ps[j]).0 by {
            assert(ps[i].0 == dedup_from(cv, seq![])[i]);
            assert(ps[j].0 == dedup_from(cv, seq![])[j]);
        }
        lemma_sort_desc_distinct(ps);
        lemma_sort_desc_sorted(ps);
    }
    let m = chart.len();
    let mut labels2: Vec<String> = Vec::new();
    let mut values2: Vec<u64> = Vec::new();
    proof {
        assert(ps.take(0) =~= Seq::<(Seq<char>, int)>::empty());
        assert(chart_pairs(labels2.deep_view(), values2@) =~~= sort_desc(ps.take(0)));
    }
    for k in 0..m
        invariant
            m == chart.labels_view().len(),
            m == chart.labels@.len(),
            m == chart.values@.len(),
            ps == pie_pairs(cv),
            ps.len() == m,
            forall|t: int|
                0 <= t < ps.len() ==> #[trigger] ps[t] == (
                chart.labels_view()[t],
                chart.values_view()[t] as int,
            ),
            labels2@.len() == values2@.len(),
            chart_pairs(labels2.deep_view(), values2@) == sort_desc(ps.take(k as int)),
    {
        let x = chart.labels[k].clone();
        let v = chart.values[k];
        let ghost pk: (Seq<char>, int) = ps[k as int];
        proof {
            assert(pk == (chart.labels@[k as int]@, chart.values@[k as int] as int)) by {
                assert(chart.labels_view()[k as int] == chart.labels@[k as int]@);
            }
            assert(x@ == pk.0 && v as int == pk.1);
        }
        let w = labels2.len();
        let mut j: usize = 0;
        while j < w && values2[j] >= v
            invariant
                w == labels2@.len(),
                w == values2@.len(),
                0 <= j <= w,
                forall|u: int| 0 <= u < j ==> #[trigger] values2@[u] >= v,
            decreases w - j,
        {
            j += 1;
        }
        let ghost prev_pairs: Seq<(Seq<char>, int)> = chart_pairs(labels2.deep_view(), values2@);
        let ghost prev_l: Seq<String> = labels2@;
        let ghost prev_v: Seq<u64> = values2@;
        labels2.insert(j, x);
        values2.insert(j, v);
        proof {
            assert forall|u: int| 0 <= u < j implies (#[trigger] prev_pairs[u]).1 >= pk.1 by {
                assert(prev_pairs[u].1 == prev_v[u] as int);
            }
            if (j as int) < prev_pairs.len() {
                assert(prev_pairs[j as int].1 == prev_v[j as int] as int);
                assert(prev_pairs[j as int].1 < pk.1);
            }
            lemma_insert_desc_at(pk, prev_pairs, j as int);
            assert(ps.take(k + 1).drop_last() =~= ps.take(k as int));
            assert(ps.take(k + 1).last() == pk);
            prev_l.insert_ensures(j as int, x);
            prev_v.insert_ensures(j as int, v);
            assert(labels2@ == prev_l.insert(j as int, x));
            assert(values2@ == prev_v.insert(j as int, v));
            assert forall|u: int|
                0 <= u < labels2@.len() implies #[trigger] chart_pairs(
                labels2.deep_view(),
                values2@,
            )[u] == insert_desc(pk, prev_pairs)[u] by {
                assert(chart_pairs(labels2.deep_view(), values2@)[u] == (
                labels2.deep_view()[u], values2@[u] as int));
                assert(labels2.deep_view()[u] == labels2@[u]@);
                assert(insert_desc(pk, prev_pairs) == prev_pairs.subrange(0, j as int) + seq![pk]
                    + prev_pairs.skip(j as int));
                if u < j {
                    assert(labels2@[u] == prev_l[u]);
                    assert(values2@[u] == prev_v[u]);
                    assert(prev_pairs[u] == (prev_l[u]@, prev_v[u] as int)) by {
                        assert(prev_pairs[u] == (string_views(prev_l)[u], prev_v[u] as int));
                    }
                } else if u == j {
                    assert(labels2@[u] == x);
                    assert(values2@[u] == v);
                } else {
                    assert(labels2@[u] == prev_l[u - 1]);
                    assert(values2@[u] == prev_v[u - 1]);
                    assert(prev_pairs[u - 1] == (string_views(prev_l)[u - 1], prev_v[u
                        - 1] as int));
                }
            }
            assert(chart_pairs(labels2.deep_view(), values2@) =~~= insert_desc(pk, prev_pairs));
            assert(chart_pairs(labels2.deep_view(), values2@) =~~= sort_desc(ps.take(k + 1)));
        }
    }
    proof {
        assert(ps.take(m as int) =~= ps);
    }
    let result = Chart { labels: labels2, values: values2 };
    proof {
        let rp = chart_pairs(result.labels_view(), result.values_view());
        assert(rp == sort_desc(ps));
        assert forall|i: int| 0 <= i < pie_spec(cv).len() implies #[trigger] result.labels_view()[i]
            == pie_spec(cv)[i].0 && result.values_view()[i] as int == pie_spec(cv)[i].1 by {
            assert(rp[i] == (result.labels_view()[i], result.values_view()[i] as int));
        }
        assert forall|i: int, j: int|
            0 <= i < j < result.labels@.len() implies #[trigger] result.labels.deep_view()[i]
            != #[trigger] result.labels.deep_view()[j] by {
            assert(rp[i] == (result.labels_view()[i], result.values_view()[i] as int));
            assert(rp[j] == (result.labels_view()[j], result.values_view()[j] as int));
            assert(sort_desc(ps)[i].0 != sort_desc(ps)[j].0);
        }
    }
    result
}

/// The views of a list of label strings.
pub open spec fn string_views(l: Seq<String>) -> Seq<Seq<char>> {
    Seq::new(l.len(), |i: int| l[i]@)
}


/// The cause strings of the events, in order.
pub open spec fn causes_of(s: Seq<DeathRecordV>) -> Seq<Seq<char>> {
    s.map_values(|d: DeathRecordV| d.cause)
}

/// A copy of a list of labels, character for character.
pub fn copy_strings(v: &Vec<String>) -> (r: Vec<String>)
    ensures
        r.deep_view() == v.deep_view(),
{
    let n = v.len();
    let mut out: Vec<String> = Vec::new();
    for k in 0..n
        invariant
            n == v@.len(),
            out@.len() == k,
            forall|t: int| 0 <= t < k ==> (#[trigger] out@[t])@ == v@[t]@,
    {
        let s = v[k].clone();
        out.push(s);
    }
    proof {
        assert forall|t: int| 0 <= t < n implies #[trigger] out.deep_view()[t]
            == v.deep_view()[t] by {
            assert(out.deep_view()[t] == out@[t]@);
            assert(v.deep_view()[t] == v@[t]@);
        }
        assert(out.deep_view() =~~= v.deep_view());
    }
    out
}

/// The causes of all events, in order.
#[verifier::loop_isolation(false)]
pub fn causes_vec(records: &Vec<DeathRecord>) -> (r: Vec<String>)
    ensures
        r.deep_view() == causes_of(records.deep_view()),
{
    let n = records.len();
    let mut out: Vec<String> = Vec::new();
    for k in 0..n
        invariant
            n == records@.len(),
            out@.len() == k,
            forall|t: int| 0 <= t < k ==> (#[trigger] out@[t])@ == records@[t]@.cause,
    {
        let s = records[k].cause.clone();
        out.push(s);
    }
    proof {
        assert(records.deep_view().len() == records@.len());
        assert forall|t: int| 0 <= t < n implies #[trigger] out.deep_view()[t] == causes_of(
            records.deep_view(),
        )[t] by {
            assert(out.deep_view()[t] == out@[t]@);
            assert(records.deep_view()[t] == records@[t]@);
        }
        assert(out.deep_view() =~~= causes_of(records.deep_view()));
    }
    out
}

/// The causes of one account's events, in order.
#[verifier::loop_isolation(false)]
pub fn causes_vec_player(records: &Vec<DeathRecord>, name: &String) -> (r: Vec<String>)
    ensures
        r.deep_view() == causes_of(events_of(records.deep_view(), name@)),
{
    let ghost rv: Seq<DeathRecordV> = records.deep_view();
    let ghost pred = |d: DeathRecordV| d.player == name@;
    let n = records.len();
    let mut out: Vec<String> = Vec::new();
    proof {
        assert(rv.take(0) =~= Seq::<DeathRecordV>::empty());
        reveal(Seq::filter);
        assert(out.deep_view() =~~= causes_of(rv.take(0).filter(pred)));
        assert(rv.len() == records@.len());
    }
    for k in 0..n
        invariant
            n == records@.len(),
            rv == records.deep_view(),
            pred == (|d: DeathRecordV| d.player == name@),
            out.deep_view() == causes_of(rv.take(k as int).filter(pred)),
    {
        proof {
            lemma_filter_take_push(rv, pred, k as int);
            assert(rv[k as int] == records@[k as int]@);
        }
        let ghost prev_dv: Seq<Seq<char>> = out.deep_view();
        let ghost prev_v: Seq<String> = out@;
        if str_eq(records[k].player.as_str(), name.as_str()) {
            let s = records[k].cause.clone();
            out.push(s);
            proof {
                assert forall|t: int|
                    0 <= t < out.deep_view().len() implies #[trigger] out.deep_view()[t]
                    == prev_dv.push(rv[k as int].cause)[t] by {
                    assert(out.deep_view()[t] == out@[t]@);
                    if t < prev_v.len() {
                        assert(out@[t] == prev_v[t]);
                        assert(prev_dv[t] == prev_v[t]@);
                    }
                }
                assert(out.deep_view() =~~= prev_dv.push(rv[k as int].cause));
                let fnew = rv.take(k + 1).filter(pred);
                let fold = rv.take(k as int).filter(pred);
                assert(fnew == fold.push(rv[k as int]));
                assert(causes_of(fnew) =~~= causes_of(fold).push(rv[k as int].cause));
            }
        } else {
            proof {
                assert(out.deep_view() =~~= causes_of(rv.take(k + 1).filter(pred)));
            }
        }
    }
    proof {
        assert(rv.take(n as int) =~= rv);
    }
    out
}

/// Every event bearing this exact cause belongs to the account.
pub open spec fn cause_exclusive_to(s: Seq<DeathRecordV>, c: Seq<char>, name: Seq<char>) -> bool {
    forall|k: int| 0 <= k < s.len() && (#[trigger] s[k]).cause == c ==> s[k].player == name
}

/// Whether every event with this cause belongs to the account.
#[verifier::loop_isolation(false)]
pub fn all_cause_by(records: &Vec<DeathRecord>, cause: &String, name: &String) -> (b: bool)
    ensures
        b == cause_exclusive_to(records.deep_view(), cause@, name@),
{
    let ghost rv: Seq<DeathRecordV> = records.deep_view();
    let n = records.len();
    proof {
        assert(rv.len() == records@.len());
    }
    for k in 0..n
        invariant
            n == records@.len(),
            rv == records.deep_view(),
            forall|t: int| 0 <= t < k && (#[trigger] rv[t]).cause == cause@ ==> rv[t].player == name@,
    {
        proof {
            assert(rv[k as int] == records@[k as int]@);
        }
        if str_eq(records[k].cause.as_str(), cause.as_str()) {
            if !str_eq(records[k].player.as_str(), name.as_str()) {
                proof {
                    assert(rv[k as int].cause == cause@ && rv[k as int].player != name@);
                }
                return false;
            }
        }
    }
    true
}

/// The account's distinct causes that no other account ever died of.
#[verifier::loop_isolation(false)]
pub fn exclusive_list(records: &Vec<DeathRecord>, uniques: &Vec<String>, name: &String) -> (r: Vec<
    String,
>)
    ensures
        r.deep_view() == uniques.deep_view().filter(
            |c: Seq<char>| cause_exclusive_to(records.deep_view(), c, name@),
        ),
        forall|c: Seq<char>|
            #[trigger] r.deep_view().contains(c) <==> (uniques.deep_view().contains(c)
                && cause_exclusive_to(records.deep_view(), c, name@)),
{
    let ghost uv: Seq<Seq<char>> = uniques.deep_view();
    let ghost pred = |c: Seq<char>| cause_exclusive_to(records.deep_view(), c, name@);
    let n = uniques.len();
    let mut out: Vec<String> = Vec::new();
    proof {
        assert(uv.take(0) =~= Seq::<Seq<char>>::empty());
        reveal(Seq::filter);
        assert(out.deep_view() =~~= uv.take(0).filter(pred));
        assert(uv.len() == uniques@.len());
    }
    for k in 0..n
        invariant
            n == uniques@.len(),
            uv == uniques.deep_view(),
            pred == (|c: Seq<char>| cause_exclusive_to(records.deep_view(), c, name@)),
            out.deep_view() == uv.take(k as int).filter(pred),
    {
        proof {
            lemma_filter_take_push(uv, pred, k as int);
            assert(uv[k as int] == uniques@[k as int]@);
        }
        let ghost prev_dv: Seq<Seq<char>> = out.deep_view();
        let ghost prev_v: Seq<String> = out@;
        if all_cause_by(records, &uniques[k], name) {
            let s = uniques[k].clone();
            out.push(s);
            proof {
                assert forall|t: int|
                    0 <= t < out.deep_view().len() implies #[trigger] out.deep_view()[t]
                    == prev_dv.push(uv[k as int])[t] by {
                    assert(out.deep_view()[t] == out@[t]@);
                    if t < prev_v.len() {
                        assert(out@[t] == prev_v[t]);
                        assert(prev_dv[t] == prev_v[t]@);
                    }
                }
                assert(out.deep_view() =~~= prev_dv.push(uv[k as int]));
                assert(out.deep_view() =~~= uv.take(k + 1).filter(pred));
            }
        } else {
            proof {
                assert(out.deep_view() =~~= uv.take(k + 1).filter(pred));
            }
        }
    }
    proof {
        assert(uv.take(n as int) =~= uv);
        broadcast use vstd::seq_lib::group_filter_ensures;

        assert forall|c: Seq<char>| #[trigger] out.deep_view().contains(c) <==> (uv.contains(c)
            && cause_exclusive_to(records.deep_view(), c, name@)) by {
            if out.deep_view().contains(c) {
                let w = choose|w: int|
                    0 <= w < out.deep_view().len() && out.deep_view()[w] == c;
                assert(uv.filter(pred)[w] == c);
                assert(pred(uv.filter(pred)[w]));
                uv.lemma_filter_contains_rev(pred, c);
            }
            if uv.contains(c) && cause_exclusive_to(records.deep_view(), c, name@) {
                let u = choose|u: int| 0 <= u < uv.len() && uv[u] == c;
                assert(pred(uv[u]));
                uv.lemma_filter_contains(pred, u);
                assert(uv.filter(pred).contains(c));
            }
        }
    }
    out
}

/// The account's per-day counts over a full calendar range partition its
/// events: they sum to its total.
pub proof fn lemma_day_partition_player(s: Seq<DeathRecordV>, lo: Date, hi: Date, name: Seq<char>)
    requires
        date_wf(lo),
        date_wf(hi),
        date_le(lo, hi),
        forall|k: int|
            0 <= k < s.len() ==> date_wf((#[trigger] s[k]).timestamp.date_spec()) && date_le(
                lo,
                s[k].timestamp.date_spec(),
            ) && date_le(s[k].timestamp.date_spec(), hi),
    ensures
        crate::util::sum_int(
            date_seq(lo, hi).map_values(|d: Date| cnt_day_player(s, d, name)),
        ) == count_player(s, name),
    decreases s.len(),
{
    let days = date_seq(lo, hi);
    let f = |d: Date| cnt_day_player(s, d, name);
    reveal(Seq::filter);
    if s.len() == 0 {
        assert forall|t: int| 0 <= t < days.map_values(f).len() implies days.map_values(f)[t]
            == 0 by {
            assert(days.map_values(f)[t] == cnt_day_player(s, days[t], name));
            assert(s.filter(
                |e: DeathRecordV| e.player == name && e.timestamp.date_spec() == days[t],
            ) =~= Seq::<DeathRecordV>::empty());
        }
        crate::util::lemma_sum_int_zero(days.map_values(f));
        assert(s.filter(|d: DeathRecordV| d.player == name) =~= Seq::<DeathRecordV>::empty());
    } else {
        let s0 = s.drop_last();
        let e = s.last();
        assert forall|k: int|
            0 <= k < s0.len() implies date_wf((#[trigger] s0[k]).timestamp.date_spec()) && date_le(
            lo,
            s0[k].timestamp.date_spec(),
        ) && date_le(s0[k].timestamp.date_spec(), hi) by {
            assert(s0[k] == s[k]);
        }
        lemma_day_partition_player(s0, lo, hi, name);
        let f0 = |d: Date| cnt_day_player(s0, d, name);
        let ed = e.timestamp.date_spec();
        crate::date::lemma_date_seq_contains(lo, hi, ed);
        crate::date::lemma_date_seq_distinct(lo, hi);
        crate::date::lemma_date_seq(lo, hi);
        let k0 = choose|k: int| 0 <= k < days.len() && #[trigger] days[k] == ed;
        assert(count_player(s, name) == count_player(s0, name) + (if e.player == name {
            1int
        } else {
            0int
        }));
        if e.player == name {
            assert forall|t: int|
                0 <= t < days.len() implies #[trigger] days.map_values(f)[t] == (
            if t == k0 {
                days.map_values(f0)[t] + 1
            } else {
                days.map_values(f0)[t]
            }) by {
                if t != k0 {
                    assert(crate::date::date_lt(days[t], days[k0]) || crate::date::date_lt(
                        days[k0],
                        days[t],
                    ));
                    assert(days[t] != ed);
                }
            }
            crate::util::lemma_sum_int_update(days.map_values(f0), days.map_values(f), k0);
        } else {
            assert forall|t: int|
                0 <= t < days.len() implies #[trigger] days.map_values(f)[t] == days.map_values(
                f0,
            )[t] by {}
            crate::util::lemma_sum_int_congruent(days.map_values(f), days.map_values(f0));
        }
    }
}

/// A chart's values and the pairs they mirror have the same sum.
pub proof fn lemma_sum_u64_pairs(v: Seq<u64>, s: Seq<(Seq<char>, int)>)
    requires
        v.len() == s.len(),
        forall|t: int| 0 <= t < v.len() ==> v[t] as int == (#[trigger] s[t]).1,
    ensures
        crate::util::sum_u64(v) == sum_pairs(s),
    decreases v.len(),
{
    if v.len() > 0 {
        lemma_sum_u64_pairs(v.drop_last(), s.drop_last());
    }
}

proof fn lemma_insert_desc_contains_iff(p: (Seq<char>, int), s: Seq<(Seq<char>, int)>)
    ensures
        forall|x: (Seq<char>, int)|
            #[trigger] insert_desc(p, s).contains(x) <==> (x == p || s.contains(x)),
    decreases s.len(),
{
    let r = insert_desc(p, s);
    if s.len() == 0 {
        assert forall|x: (Seq<char>, int)| #[trigger] r.contains(x) <==> (x == p || s.contains(
            x,
        )) by {
            if r.contains(x) {
                let u = choose|u: int| 0 <= u < r.len() && r[u] == x;
            }
            if x == p {
                assert(r[0] == p);
            }
            if s.contains(x) {
                let u = choose|u: int| 0 <= u < s.len() && s[u] == x;
            }
        }
    } else if s[0].1 >= p.1 {
        lemma_insert_desc_contains_iff(p, s.drop_first());
        let r1 = insert_desc(p, s.drop_first());
        assert(r == seq![s[0]] + r1);
        assert forall|x: (Seq<char>, int)| #[trigger] r.contains(x) <==> (x == p || s.contains(
            x,
        )) by {
            if r.contains(x) {
                let u = choose|u: int| 0 <= u < r.len() && r[u] == x;
                if u == 0 {
                    assert(s[0] == x);
                } else {
                    assert(r1[u - 1] == x);
                    assert(r1.contains(x));
                    if x != p {
                        let w = choose|w: int|
                            0 <= w < s.drop_first().len() && s.drop_first()[w] == x;
                        assert(s[w + 1] == x);
                    }
                }
            }
            if x == p {
                assert(r1.contains(p));
                let w = choose|w: int| 0 <= w < r1.len() && r1[w] == p;
                assert(r[w + 1] == p);
            }
            if s.contains(x) {
                let u = choose|u: int| 0 <= u < s.len() && s[u] == x;
                if u == 0 {
                    assert(r[0] == x);
                } else {
                    assert(s.drop_first()[u - 1] == x);
                    assert(s.drop_first().contains(x));
                    assert(r1.contains(x));
                    let w = choose|w: int| 0 <= w < r1.len() && r1[w] == x;
                    assert(r[w + 1] == x);
                }
            }
        }
    } else {
        assert(r == seq![p] + s);
        assert forall|x: (Seq<char>, int)| #[trigger] r.contains(x) <==> (x == p || s.contains(
            x,
        )) by {
            if r.contains(x) {
                let u = choose|u: int| 0 <= u < r.len() && r[u] == x;
                if u > 0 {
                    assert(s[u - 1] == x);
                }
            }
            if x == p {
                assert(r[0] == p);
            }
            if s.contains(x) {
                let u = choose|u: int| 0 <= u < s.len() && s[u] == x;
                assert(r[u + 1] == x);
            }
        }
    }
}

/// Sorting neither adds nor loses pairs.
pub proof fn lemma_sort_desc_contains_iff(s: Seq<(Seq<char>, int)>)
    ensures
        forall|x: (Seq<char>, int)| #[trigger] sort_desc(s).contains(x) <==> s.contains(x),
    decreases s.len(),
{
    if s.len() == 0 {
        assert forall|x: (Seq<char>, int)| #[trigger] sort_desc(s).contains(x) <==> s.contains(
            x,
        ) by {
            if sort_desc(s).contains(x) {
                let u = choose|u: int| 0 <= u < sort_desc(s).len() && sort_desc(s)[u] == x;
            }
            if s.contains(x) {
                let u = choose|u: int| 0 <= u < s.len() && s[u] == x;
            }
        }
    } else {
        lemma_sort_desc_contains_iff(s.drop_last());
        lemma_insert_desc_contains_iff(s.last(), sort_desc(s.drop_last()));
        assert forall|x: (Seq<char>, int)| #[trigger] sort_desc(s).contains(x) <==> s.contains(
            x,
        ) by {
            assert(sort_desc(s) == insert_desc(s.last(), sort_desc(s.drop_last())));
            assert(sort_desc(s).contains(x) <==> (x == s.last() || sort_desc(
                s.drop_last(),
            ).contains(x)));
            if x == s.last() {
                assert(s[s.len() - 1] == x);
            }
            if s.contains(x) && x != s.last() {
                let u = choose|u: int| 0 <= u < s.len() && s[u] == x;
                if u < s.len() - 1 {
                    assert(s.drop_last()[u] == x);
                } else {
                }
            }
            if s.drop_last().contains(x) {
                let u = choose|u: int| 0 <= u < s.drop_last().len() && s.drop_last()[u] == x;
                assert(s[u] == x);
            }
        }
    }
}


/// A cause stands among the account's chart labels exactly when one of the
/// account's events carries it.
proof fn lemma_unique_labels_membership(flt: Seq<DeathRecordV>, name: Seq<char>, labels: Seq<Seq<char>>)
    requires
        labels.len() == pie_spec(causes_of(events_of(flt, name))).len(),
        forall|t: int|
            0 <= t < labels.len() ==> #[trigger] labels[t] == pie_spec(
                causes_of(events_of(flt, name)),
            )[t].0,
    ensures
        forall|c: Seq<char>|
            #[trigger] labels.contains(c) <==> exists|k: int|
                0 <= k < flt.len() && (#[trigger] flt[k]).player == name && flt[k].cause == c,
{
    broadcast use vstd::seq_lib::group_filter_ensures;
    broadcast use Seq::lemma_filter_contains_rev;

    let evs = events_of(flt, name);
    let causes = causes_of(evs);
    let ps = pie_pairs(causes);
    let sorted = sort_desc(ps);
    lemma_sort_desc_contains_iff(ps);
    lemma_dedup_membership(causes, seq![]);
    let dd = dedup_from(causes, seq![]);
    assert forall|c: Seq<char>| #[trigger] labels.contains(c) <==> exists|k: int|
        0 <= k < flt.len() && (#[trigger] flt[k]).player == name && flt[k].cause == c by {
        if labels.contains(c) {
            let t = choose|t: int| 0 <= t < labels.len() && labels[t] == c;
            assert(labels[t] == sorted[t].0);
            assert(sorted.contains(sorted[t]));
            assert(ps.contains(sorted[t]));
            let u = choose|u: int| 0 <= u < ps.len() && ps[u] == sorted[t];
            assert(ps[u] == (dd[u], cause_count(causes, dd[u])));
            assert(dd[u] == c);
            assert(dd.contains(c));
            assert(causes.contains(c));
            let w = choose|w: int| 0 <= w < causes.len() && causes[w] == c;
            assert(causes[w] == evs[w].cause);
            assert(evs[w].player == name);
            assert(evs.contains(evs[w]));
            assert(flt.contains(evs[w]));
            let k0 = choose|k: int| 0 <= k < flt.len() && flt[k] == evs[w];
            assert(flt[k0].player == name && flt[k0].cause == c);
        }
        if exists|k: int|
            0 <= k < flt.len() && (#[trigger] flt[k]).player == name && flt[k].cause == c {
            let k0 = choose|k: int|
                0 <= k < flt.len() && (#[trigger] flt[k]).player == name && flt[k].cause == c;
            assert(evs.contains(flt[k0]));
            let w = choose|w: int| 0 <= w < evs.len() && evs[w] == flt[k0];
            assert(causes[w] == c);
            assert(causes.contains(c));
            assert(!Seq::<Seq<char>>::empty().contains(c)) by {
                if Seq::<Seq<char>>::empty().contains(c) {
                    let z = choose|z: int|
                        0 <= z < Seq::<Seq<char>>::empty().len() && Seq::<Seq<char>>::empty()[z]
                            == c;
                }
            }
            assert(dd.contains(c));
            let u = choose|u: int| 0 <= u < dd.len() && dd[u] == c;
            assert(ps[u] == (dd[u], cause_count(causes, dd[u])));
            assert(ps.contains(ps[u]));
            assert(sorted.contains(ps[u]));
            let t = choose|t: int| 0 <= t < sorted.len() && sorted[t] == ps[u];
            assert(labels[t] == sorted[t].0);
            assert(labels.contains(c)) by {
                assert(labels[t] == c);
            }
        }
    }
}

/// The aggregate statistics handed to the rendering collaborator.
pub struct Aggregate {
    pub years: Vec<Year>,
    pub no_year_enabled: bool,
    pub total_deaths: usize,
    pub players: Vec<Player>,
    pub unique_deaths: Chart,
    pub deaths_over_time: Chart,
}


/// Whether any year of the index is flagged enabled.
pub open spec fn any_enabled(ys: Seq<Year>) -> bool {
    exists|i: int| 0 <= i < ys.len() && (#[trigger] ys[i]).enabled
}

/// Builds the aggregate of the death events: totals, the year index over
/// all events, per-account statistics, cause-frequency charts, and
/// gap-filled daily time series sharing one label sequence. The year index
/// always covers every event, so a caller can widen a year filter again.
/// With no events at all, or none in the chosen year, the result is the
/// defined empty aggregate rather than an error.
#[verifier::rlimit(100)]
#[verifier::loop_isolation(false)]
pub fn deaths(records: &Vec<DeathRecord>, query: &DeathQuery) -> (r: Aggregate)
    requires
        forall|k: int| 0 <= k < records@.len() ==> (#[trigger] records@[k])@.timestamp.wf(),
    ensures
        r.total_deaths as int == filter_year_spec(records.deep_view(), query.year).len(),
        player_names(r.players@) == players_order(
            filter_year_spec(records.deep_view(), query.year),
        ),
        forall|i: int|
            0 <= i < r.players@.len() ==> (#[trigger] r.players@[i]).total_deaths as int
                == count_player(
                filter_year_spec(records.deep_view(), query.year),
                r.players@[i].name@,
            ),
        forall|i: int, j: int|
            0 <= i < j < r.players@.len() ==> (#[trigger] r.players@[i]).name@ != (
            #[trigger] r.players@[j]).name@,
        records@.len() == 0 ==> r.years@.len() == 0 && !r.no_year_enabled,
        records@.len() > 0 ==> {
            &&& forall|i: int, j: int|
                0 <= i < j < r.years@.len() ==> (#[trigger] r.years@[i]).number < (
                #[trigger] r.years@[j]).number
            &&& forall|i: int|
                0 <= i < r.years@.len() ==> (#[trigger] r.years@[i]).enabled == (query.year
                    == Some(r.years@[i].number))
            &&& forall|v: i32|
                #[trigger] year_in(r.years@, v) <==> exists|k: int|
                    0 <= k < records@.len() && (#[trigger] records@[k])@.timestamp.year == v
            &&& r.no_year_enabled == !any_enabled(r.years@)
        },
        r.unique_deaths.wf(),
        r.deaths_over_time.wf(),
        r.unique_deaths.labels_view().len() == pie_spec(
            causes_of(filter_year_spec(records.deep_view(), query.year)),
        ).len(),
        r.unique_deaths.values_view().len() == r.unique_deaths.labels_view().len(),
        forall|t: int|
            0 <= t < r.unique_deaths.labels_view().len() ==> #[trigger] r.unique_deaths.labels_view()[t]
                == pie_spec(causes_of(filter_year_spec(records.deep_view(), query.year)))[t].0
                && r.unique_deaths.values_view()[t] as int == pie_spec(
                causes_of(filter_year_spec(records.deep_view(), query.year)),
            )[t].1,
        crate::util::sum_u64(r.unique_deaths.values_view()) == filter_year_spec(
            records.deep_view(),
            query.year,
        ).len(),
        crate::util::sum_u64(r.deaths_over_time.values_view()) == filter_year_spec(
            records.deep_view(),
            query.year,
        ).len(),
        forall|i: int|
            0 <= i < r.players@.len() ==> (#[trigger] r.players@[i]).deaths_over_time.labels_view()
                == r.deaths_over_time.labels_view(),
        forall|i: int|
            0 <= i < r.players@.len() ==> crate::util::sum_u64(
                (#[trigger] r.players@[i]).deaths_over_time.values_view(),
            ) == r.players@[i].total_deaths as int,
        forall|i: int|
            0 <= i < r.players@.len() ==> (#[trigger] r.players@[i]).deaths_over_time.wf()
                && r.players@[i].unique_deaths.wf(),
        forall|i: int|
            0 <= i < r.players@.len() ==> (#[trigger] r.players@[i]).unique_deaths.labels_view().len()
                == pie_spec(
                causes_of(
                    events_of(
                        filter_year_spec(records.deep_view(), query.year),
                        r.players@[i].name@,
                    ),
                ),
            ).len() && r.players@[i].unique_deaths.values_view().len()
                == r.players@[i].unique_deaths.labels_view().len(),
        forall|i: int, t: int|
            #![trigger (r.players@[i]).unique_deaths.values_view()[t]]
            #![trigger (r.players@[i]).unique_deaths.labels_view()[t]]
            0 <= i < r.players@.len() && 0 <= t < r.players@[i].unique_deaths.labels_view().len()
                ==> r.players@[i].unique_deaths.labels_view()[t] == pie_spec(
                causes_of(
                    events_of(
                        filter_year_spec(records.deep_view(), query.year),
                        r.players@[i].name@,
                    ),
                ),
            )[t].0 && r.players@[i].unique_deaths.values_view()[t] as int == pie_spec(
                causes_of(
                    events_of(
                        filter_year_spec(records.deep_view(), query.year),
                        r.players@[i].name@,
                    ),
                ),
            )[t].1,
        forall|i: int, c: Seq<char>|
            #![trigger (r.players@[i]).exclusive_deaths.deep_view().contains(c)]
            0 <= i < r.players@.len() ==> ((r.players@[i]).exclusive_deaths.deep_view().contains(c)
                <==> ((exists|k: int|
                0 <= k < filter_year_spec(records.deep_view(), query.year).len() && (
                #[trigger] filter_year_spec(records.deep_view(), query.year)[k]).player
                    == r.players@[i].name@ && filter_year_spec(records.deep_view(), query.year)[k].cause
                    == c) && cause_exclusive_to(
                filter_year_spec(records.deep_view(), query.year),
                c,
                r.players@[i].name@,
            ))),
        forall|i: int, j: int, c: Seq<char>|
            #![trigger (r.players@[i]).exclusive_deaths.deep_view().contains(c), (r.players@[j]).exclusive_deaths.deep_view().contains(c)]
            0 <= i < r.players@.len() && 0 <= j < r.players@.len()
                && (r.players@[i]).exclusive_deaths.deep_view().contains(c)
                && (r.players@[j]).exclusive_deaths.deep_view().contains(c) ==> i == j,
        filter_year_spec(records.deep_view(), query.year).len() > 0 ==> exists|lo: Date, hi: Date|
            #![trigger date_seq(lo, hi)]
            {
                &&& date_wf(lo)
                &&& date_wf(hi)
                &&& date_le(lo, hi)
                &&& forall|k: int|
                    0 <= k < filter_year_spec(records.deep_view(), query.year).len() ==> date_le(
                        lo,
                        (#[trigger] filter_year_spec(
                            records.deep_view(),
                            query.year,
                        )[k]).timestamp.date_spec(),
                    ) && date_le(
                        filter_year_spec(records.deep_view(), query.year)[k].timestamp.date_spec(),
                        hi,
                    )
                &&& exists|k: int|
                    0 <= k < filter_year_spec(records.deep_view(), query.year).len() && (
                    #[trigger] filter_year_spec(
                        records.deep_view(),
                        query.year,
                    )[k]).timestamp.date_spec() == lo
                &&& exists|k: int|
                    0 <= k < filter_year_spec(records.deep_view(), query.year).len() && (
                    #[trigger] filter_year_spec(
                        records.deep_view(),
                        query.year,
                    )[k]).timestamp.date_spec() == hi
                &&& r.deaths_over_time.labels_view() == date_seq(lo, hi).map_values(
                    |d: Date| crate::date::fmt_date(d),
                )
                &&& r.deaths_over_time.values_view().len() == date_seq(lo, hi).len()
                &&& forall|t: int|
                    0 <= t < date_seq(lo, hi).len()
                        ==> #[trigger] r.deaths_over_time.values_view()[t] as int == cnt_day(
                        filter_year_spec(records.deep_view(), query.year),
                        date_seq(lo, hi)[t],
                    )
                &&& forall|i: int, t: int|
                    #![trigger (r.players@[i]).deaths_over_time.values_view()[t]]
                    0 <= i < r.players@.len() && 0 <= t < date_seq(lo, hi).len()
                        ==> r.players@[i].deaths_over_time.values_view()[t] as int
                        == cnt_day_player(
                        filter_year_spec(records.deep_view(), query.year),
                        date_seq(lo, hi)[t],
                        r.players@[i].name@,
                    )
            },
        filter_year_spec(records.deep_view(), query.year).len() == 0 ==> r.players@.len() == 0
            && r.deaths_over_time.labels_view().len() == 0
            && r.deaths_over_time.values_view().len() == 0,
{
    let ghost rv: Seq<DeathRecordV> = records.deep_view();
    let ghost fltv: Seq<DeathRecordV> = filter_year_spec(rv, query.year);
    proof {
        assert(rv.len() == records@.len());
    }
    if records.len() == 0 {
        proof {
            broadcast use vstd::seq_lib::group_filter_ensures;

            assert(rv =~= Seq::<DeathRecordV>::empty());
            assert(fltv =~= Seq::<DeathRecordV>::empty()) by {
                match query.year {
                    None => {},
                    Some(yy) => {
                        assert(fltv.len() <= rv.len());
                    },
                }
            }
            lemma_empty_aggregate_facts(fltv);
        }
        let r = Aggregate {
            years: Vec::new(),
            no_year_enabled: false,
            total_deaths: 0,
            players: Vec::new(),
            unique_deaths: Chart::empty(),
            deaths_over_time: Chart::empty(),
        };
        proof {
            assert(player_names(r.players@) =~~= players_order(fltv));
        }
        return r;
    }
    let years = collect_years(records, &query.year);
    let mut no_year_enabled = true;
    let ny = years.len();
    for i in 0..ny
        invariant
            ny == years@.len(),
            no_year_enabled == (forall|t: int| 0 <= t < i ==> !(#[trigger] years@[t]).enabled),
    {
        if years[i].enabled {
            no_year_enabled = false;
        }
    }
    proof {
        assert(no_year_enabled == !any_enabled(years@)) by {
            if no_year_enabled {
                if any_enabled(years@) {
                    let t0 = choose|t: int|
                        0 <= t < years@.len() && (#[trigger] years@[t]).enabled;
                }
            }
        }
    }
    let flt = filter_year_records(records, &query.year);
    proof {
        assert(flt.deep_view() == fltv);
        assert(flt@.len() == fltv.len());
        assert(forall|k: int| 0 <= k < flt@.len() ==> (#[trigger] flt@[k])@.timestamp.wf());
        assert(forall|k: int| 0 <= k < fltv.len() ==> #[trigger] fltv[k] == flt@[k]@);
    }
    if flt.len() == 0 {
        proof {
            assert(fltv =~= Seq::<DeathRecordV>::empty());
            lemma_empty_aggregate_facts(fltv);
        }
        let r = Aggregate {
            years,
            no_year_enabled,
            total_deaths: 0,
            players: Vec::new(),
            unique_deaths: Chart::empty(),
            deaths_over_time: Chart::empty(),
        };
        proof {
            assert(player_names(r.players@) =~~= players_order(fltv));
        }
        return r;
    }
    let players0 = players_init(&flt);
    let pr = date_range(&flt);
    let lo = pr.0;
    let hi = pr.1;
    proof {
        assert forall|k: int|
            0 <= k < fltv.len() implies date_wf(
            (#[trigger] fltv[k]).timestamp.date_spec(),
        ) && date_le(lo, fltv[k].timestamp.date_spec()) && date_le(
            fltv[k].timestamp.date_spec(),
            hi,
        ) by {
            assert(fltv[k] == flt@[k]@);
            assert(flt@[k]@.timestamp.wf());
        }
        crate::date::lemma_date_seq(lo, hi);
    }
    let dates = build_dates(lo, hi);
    proof {
        assert forall|k: int| 0 <= k < dates@.len() implies date_wf(#[trigger] dates@[k]) by {
            assert(dates@[k] == date_seq(lo, hi)[k]);
        }
    }
    let labels = fmt_labels(&dates);
    let gvals = day_values_all(&flt, &dates);
    let glabels = copy_strings(&labels);
    let global_dot = Chart { labels: glabels, values: gvals };
    proof {
        lemma_date_labels_distinct(lo, hi);
        assert(global_dot.labels_view() == labels.deep_view());
        assert(global_dot.labels_view() =~~= date_seq(lo, hi).map_values(
            |d: Date| crate::date::fmt_date(d),
        ));
        assert forall|i1: int, j1: int|
            0 <= i1 < j1 < global_dot.labels@.len() implies #[trigger] global_dot.labels.deep_view()[i1]
            != #[trigger] global_dot.labels.deep_view()[j1] by {
            assert(global_dot.labels_view()[i1] == crate::date::fmt_date(date_seq(lo, hi)[i1]));
            assert(global_dot.labels_view()[j1] == crate::date::fmt_date(date_seq(lo, hi)[j1]));
        }
        assert(global_dot.wf());
        lemma_day_partition(fltv, lo, hi);
        let f = |d: Date| cnt_day(fltv, d);
        assert forall|t: int|
            0 <= t < date_seq(lo, hi).len() implies #[trigger] global_dot.values_view()[t] as int
            == date_seq(lo, hi).map_values(f)[t] by {
            assert(gvals@[t] as int == cnt_day(fltv, dates@[t]));
        }
        crate::util::lemma_sum_u64_as_int(
            global_dot.values_view(),
            date_seq(lo, hi).map_values(f),
        );
        assert forall|t: int|
            0 <= t < date_seq(lo, hi).len() implies #[trigger] global_dot.values_view()[t] as int
            == cnt_day(fltv, date_seq(lo, hi)[t]) by {
            assert(gvals@[t] as int == cnt_day(fltv, dates@[t]));
        }
    }
    let all_causes = causes_vec(&flt);
    let unique_global = death_pie_chart(&all_causes);
    proof {
        assert(all_causes.deep_view() == causes_of(fltv));
        lemma_pie_sum(causes_of(fltv));
        assert(causes_of(fltv).len() == fltv.len());
        assert forall|t: int|
            0 <= t < pie_spec(causes_of(fltv)).len() implies #[trigger] unique_global.values_view()[t] as int
            == pie_spec(causes_of(fltv))[t].1 by {
            assert(unique_global.labels_view()[t] == pie_spec(causes_of(fltv))[t].0);
        }
        lemma_sum_u64_pairs(unique_global.values_view(), pie_spec(causes_of(fltv)));
    }
    let total = flt.len();
    let np = players0.len();
    let mut players: Vec<Player> = Vec::new();
    for j in 0..np
        invariant
            np == players0@.len(),
            players@.len() == j,
            forall|u: int|
                0 <= u < j ==> (#[trigger] players@[u]).name@ == players0@[u].name@
                    && players@[u].total_deaths == players0@[u].total_deaths,
            forall|u: int|
                0 <= u < j ==> (#[trigger] players@[u]).deaths_over_time.labels_view()
                    == global_dot.labels_view(),
            forall|u: int|
                0 <= u < j ==> (#[trigger] players@[u]).deaths_over_time.wf()
                    && players@[u].unique_deaths.wf(),
            forall|u: int|
                0 <= u < j ==> (#[trigger] players@[u]).deaths_over_time.values_view().len()
                    == date_seq(lo, hi).len(),
            forall|u: int, t: int|
                #![trigger (players@[u]).deaths_over_time.values_view()[t]]
                0 <= u < j && 0 <= t < date_seq(lo, hi).len()
                    ==> players@[u].deaths_over_time.values_view()[t] as int == cnt_day_player(
                    fltv,
                    date_seq(lo, hi)[t],
                    players@[u].name@,
                ),
            forall|u: int|
                0 <= u < j ==> crate::util::sum_u64(
                    (#[trigger] players@[u]).deaths_over_time.values_view(),
                ) == players@[u].total_deaths as int,
            forall|u: int|
                0 <= u < j ==> (#[trigger] players@[u]).unique_deaths.labels_view().len()
                    == pie_spec(causes_of(events_of(fltv, players@[u].name@))).len()
                    && players@[u].unique_deaths.values_view().len()
                    == players@[u].unique_deaths.labels_view().len(),
            forall|u: int, t: int|
                #![trigger (players@[u]).unique_deaths.values_view()[t]]
                #![trigger (players@[u]).unique_deaths.labels_view()[t]]
                0 <= u < j && 0 <= t < players@[u].unique_deaths.labels_view().len()
                    ==> players@[u].unique_deaths.labels_view()[t] == pie_spec(
                    causes_of(events_of(fltv, players@[u].name@)),
                )[t].0 && players@[u].unique_deaths.values_view()[t] as int == pie_spec(
                    causes_of(events_of(fltv, players@[u].name@)),
                )[t].1,
            forall|u: int, c: Seq<char>|
                #![trigger (players@[u]).exclusive_deaths.deep_view().contains(c)]
                0 <= u < j ==> ((players@[u]).exclusive_deaths.deep_view().contains(c) <==> ((
                exists|k: int|
                    0 <= k < fltv.len() && (#[trigger] fltv[k]).player == players@[u].name@
                        && fltv[k].cause == c) && cause_exclusive_to(fltv, c, players@[u].name@))),
    {
        let name = players0[j].name.clone();
        let ghost nm: Seq<char> = name@;
        let total_j = players0[j].total_deaths;
        let pcauses = causes_vec_player(&flt, &name);
        let punique = death_pie_chart(&pcauses);
        let pvals = day_values_player(&flt, &dates, &name);
        let plabels = copy_strings(&labels);
        let pdot = Chart { labels: plabels, values: pvals };
        let pexcl = exclusive_list(&flt, &punique.labels, &name);
        proof {
            assert(pcauses.deep_view() == causes_of(events_of(fltv, nm)));
            assert(pdot.labels_view() == labels.deep_view());
            assert(pdot.labels_view() =~~= global_dot.labels_view());
            assert forall|i1: int, j1: int|
                0 <= i1 < j1 < pdot.labels@.len() implies #[trigger] pdot.labels.deep_view()[i1]
                != #[trigger] pdot.labels.deep_view()[j1] by {
                assert(pdot.labels_view()[i1] == global_dot.labels_view()[i1]);
                assert(pdot.labels_view()[j1] == global_dot.labels_view()[j1]);
                assert(global_dot.labels.deep_view()[i1] == global_dot.labels_view()[i1]);
                assert(global_dot.labels.deep_view()[j1] == global_dot.labels_view()[j1]);
            }
            assert(pdot.wf());
            lemma_day_partition_player(fltv, lo, hi, nm);
            let fp = |d: Date| cnt_day_player(fltv, d, nm);
            assert forall|t: int|
                0 <= t < date_seq(lo, hi).len() implies #[trigger] pdot.values_view()[t] as int
                == date_seq(lo, hi).map_values(fp)[t] by {
                assert(pvals@[t] as int == cnt_day_player(fltv, dates@[t], nm));
            }
            crate::util::lemma_sum_u64_as_int(
                pdot.values_view(),
                date_seq(lo, hi).map_values(fp),
            );
            assert(crate::util::sum_u64(pdot.values_view()) == count_player(fltv, nm));
            assert(total_j as int == count_player(fltv, nm)) by {
                assert(players0@[j as int].total_deaths as int == count_player(
                    fltv,
                    players0@[j as int].name@,
                ));
            }
            lemma_unique_labels_membership(fltv, nm, punique.labels_view());
            assert forall|t: int|
                0 <= t < punique.labels_view().len() implies #[trigger] punique.values_view()[t] as int
                == pie_spec(causes_of(events_of(fltv, nm)))[t].1 by {
                assert(punique.labels_view()[t] == pie_spec(causes_of(events_of(fltv, nm)))[t].0);
            }
        }
        let mut p = crate::chart::Player::new(name);
        p.total_deaths = total_j;
        p.unique_deaths = punique;
        p.deaths_over_time = pdot;
        p.exclusive_deaths = pexcl;
        players.push(p);
        proof {
            assert(players@[j as int] == p);
            assert(p.name@ == nm);
            assert forall|u: int, t: int|
                #![trigger (players@[u]).deaths_over_time.values_view()[t]]
                0 <= u < j + 1 && 0 <= t < date_seq(lo, hi).len() implies players@[u].deaths_over_time.values_view()[t] as int
                == cnt_day_player(fltv, date_seq(lo, hi)[t], players@[u].name@) by {
                if u == j {
                    assert(players@[u].deaths_over_time == pdot);
                    assert(pvals@[t] as int == cnt_day_player(fltv, dates@[t], nm));
                }
            }
            assert forall|u: int|
                0 <= u < j + 1 implies (#[trigger] players@[u]).unique_deaths.labels_view().len()
                == pie_spec(causes_of(events_of(fltv, players@[u].name@))).len()
                && players@[u].unique_deaths.values_view().len()
                == players@[u].unique_deaths.labels_view().len() by {
                if u == j {
                    assert(players@[u].unique_deaths == punique);
                    assert(players@[u].name@ == nm);
                    assert(pcauses.deep_view() == causes_of(events_of(fltv, nm)));
                    assert(punique.labels_view().len() == pie_spec(
                        causes_of(events_of(fltv, nm)),
                    ).len());
                }
            }
            assert forall|u: int, t: int|
                #![trigger (players@[u]).unique_deaths.values_view()[t]]
                #![trigger (players@[u]).unique_deaths.labels_view()[t]]
                0 <= u < j + 1 && 0 <= t < players@[u].unique_deaths.labels_view().len() implies players@[u].unique_deaths.labels_view()[t]
                == pie_spec(causes_of(events_of(fltv, players@[u].name@)))[t].0
                && players@[u].unique_deaths.values_view()[t] as int == pie_spec(
                causes_of(events_of(fltv, players@[u].name@)),
            )[t].1 by {
                if u == j {
                    assert(players@[u].unique_deaths == punique);
                    assert(players@[u].name@ == nm);
                    assert(punique.labels_view()[t] == pie_spec(
                        causes_of(events_of(fltv, nm)),
                    )[t].0);
                    assert(punique.values_view()[t] as int == pie_spec(
                        causes_of(events_of(fltv, nm)),
                    )[t].1);
                }
            }
            assert forall|u: int, c: Seq<char>|
                #![trigger (players@[u]).exclusive_deaths.deep_view().contains(c)]
                0 <= u < j + 1 implies ((players@[u]).exclusive_deaths.deep_view().contains(c)
                <==> ((exists|k: int|
                0 <= k < fltv.len() && (#[trigger] fltv[k]).player == players@[u].name@
                    && fltv[k].cause == c) && cause_exclusive_to(fltv, c, players@[u].name@))) by {
                if u == j {
                    assert(players@[u].exclusive_deaths == pexcl);
                    assert(players@[u].name@ == nm);
                    assert(pexcl.deep_view().contains(c) <==> (punique.labels_view().contains(c)
                        && cause_exclusive_to(fltv, c, nm))) by {
                        assert(punique.labels.deep_view() == punique.labels_view());
                    }
                    assert(punique.labels_view().contains(c) <==> exists|k: int|
                        0 <= k < fltv.len() && (#[trigger] fltv[k]).player == nm && fltv[k].cause
                            == c);
                }
            }
        }
    }
    let ghost pl: Seq<Player> = players@;
    let ghost ys: Seq<Year> = years@;
    let r = Aggregate {
        years,
        no_year_enabled,
        total_deaths: total,
        players,
        unique_deaths: unique_global,
        deaths_over_time: global_dot,
    };
    proof {
        assert(r.players@ == pl);
        assert(r.years@ == ys);
        assert forall|i1: int|
            0 <= i1 < r.players@.len() implies (#[trigger] r.players@[i1]).total_deaths as int
            == count_player(fltv, r.players@[i1].name@) by {
            assert(pl[i1].total_deaths == players0@[i1].total_deaths);
            assert(pl[i1].name@ == players0@[i1].name@);
            assert(players0@[i1].total_deaths as int == count_player(fltv, players0@[i1].name@));
        }
        assert forall|i1: int|
            0 <= i1 < r.players@.len() implies (
        #[trigger] r.players@[i1]).deaths_over_time.labels_view()
            == r.deaths_over_time.labels_view() by {
            assert(pl[i1].deaths_over_time.labels_view() == global_dot.labels_view());
        }
        assert forall|i1: int|
            0 <= i1 < r.players@.len() implies crate::util::sum_u64(
            (#[trigger] r.players@[i1]).deaths_over_time.values_view(),
        ) == r.players@[i1].total_deaths as int by {
            assert(crate::util::sum_u64(pl[i1].deaths_over_time.values_view()) == pl[
                i1
            ].total_deaths as int);
        }
        assert forall|i1: int|
            0 <= i1 < r.players@.len() implies (#[trigger] r.players@[i1]).deaths_over_time.wf()
            && r.players@[i1].unique_deaths.wf() by {
            assert(pl[i1].deaths_over_time.wf() && pl[i1].unique_deaths.wf());
        }
        assert forall|i1: int|
            0 <= i1 < r.players@.len() implies (
        #[trigger] r.players@[i1]).unique_deaths.labels_view().len() == pie_spec(
            causes_of(events_of(fltv, r.players@[i1].name@)),
        ).len() && r.players@[i1].unique_deaths.values_view().len()
            == r.players@[i1].unique_deaths.labels_view().len() by {
            assert(pl[i1].unique_deaths.labels_view().len() == pie_spec(
                causes_of(events_of(fltv, pl[i1].name@)),
            ).len() && pl[i1].unique_deaths.values_view().len()
                == pl[i1].unique_deaths.labels_view().len());
        }
        assert forall|i1: int, t1: int|
            #![trigger (r.players@[i1]).unique_deaths.values_view()[t1]]
            #![trigger (r.players@[i1]).unique_deaths.labels_view()[t1]]
            0 <= i1 < r.players@.len() && 0 <= t1 < r.players@[i1].unique_deaths.labels_view().len()
                implies r.players@[i1].unique_deaths.labels_view()[t1] == pie_spec(
            causes_of(events_of(fltv, r.players@[i1].name@)),
        )[t1].0 && r.players@[i1].unique_deaths.values_view()[t1] as int == pie_spec(
            causes_of(events_of(fltv, r.players@[i1].name@)),
        )[t1].1 by {
            assert(pl[i1] == r.players@[i1]);
            assert((pl[i1]).unique_deaths.values_view()[t1] == pl[i1].unique_deaths.values_view()[
                t1
            ]);
            assert((pl[i1]).unique_deaths.labels_view()[t1] == pl[i1].unique_deaths.labels_view()[
                t1
            ]);
            assert(pl[i1].unique_deaths.labels_view()[t1] == pie_spec(
                causes_of(events_of(fltv, pl[i1].name@)),
            )[t1].0 && pl[i1].unique_deaths.values_view()[t1] as int == pie_spec(
                causes_of(events_of(fltv, pl[i1].name@)),
            )[t1].1);
        }
        assert forall|i1: int, c: Seq<char>|
            #![trigger (r.players@[i1]).exclusive_deaths.deep_view().contains(c)]
            0 <= i1 < r.players@.len() implies ((
        r.players@[i1]).exclusive_deaths.deep_view().contains(c) <==> ((exists|k: int|
            0 <= k < fltv.len() && (#[trigger] fltv[k]).player == r.players@[i1].name@
                && fltv[k].cause == c) && cause_exclusive_to(fltv, c, r.players@[i1].name@))) by {
            assert((pl[i1]).exclusive_deaths.deep_view().contains(c) <==> ((exists|k: int|
                0 <= k < fltv.len() && (#[trigger] fltv[k]).player == pl[i1].name@ && fltv[k].cause
                    == c) && cause_exclusive_to(fltv, c, pl[i1].name@)));
        }
        assert(player_names(r.players@) =~~= players_order(fltv)) by {
            assert(player_names(players0@) == players_order(fltv));
            assert forall|u: int| 0 <= u < pl.len() implies player_names(pl)[u] == player_names(
                players0@,
            )[u] by {
                assert(player_names(pl)[u] == pl[u].name@);
                assert(player_names(players0@)[u] == players0@[u].name@);
                assert(pl[u].name@ == players0@[u].name@);
            }
            assert(player_names(pl) =~~= player_names(players0@));
        }
        assert forall|i1: int, j1: int|
            0 <= i1 < j1 < r.players@.len() implies (#[trigger] r.players@[i1]).name@ != (
        #[trigger] r.players@[j1]).name@ by {
            assert(pl[i1].name@ == players0@[i1].name@);
            assert(pl[j1].name@ == players0@[j1].name@);
            assert(players0@[i1].name@ != players0@[j1].name@);
        }
        assert forall|i1: int, j1: int, c: Seq<char>|
            0 <= i1 < r.players@.len() && 0 <= j1 < r.players@.len() && #[trigger] (
            r.players@[i1]).exclusive_deaths.deep_view().contains(c) && #[trigger] (
            r.players@[j1]).exclusive_deaths.deep_view().contains(c) implies i1 == j1 by {
            if i1 != j1 {
                let k1 = choose|k: int|
                    0 <= k < fltv.len() && (#[trigger] fltv[k]).player == pl[i1].name@ && fltv[k].cause
                        == c;
                assert(cause_exclusive_to(fltv, c, pl[j1].name@));
                assert(fltv[k1].player == pl[j1].name@);
                if i1 < j1 {
                    assert(pl[i1].name@ != pl[j1].name@) by {
                        assert(players0@[i1].name@ != players0@[j1].name@);
                        assert(pl[i1].name@ == players0@[i1].name@);
                        assert(pl[j1].name@ == players0@[j1].name@);
                    }
                } else {
                    assert(pl[j1].name@ != pl[i1].name@) by {
                        assert(players0@[j1].name@ != players0@[i1].name@);
                        assert(pl[i1].name@ == players0@[i1].name@);
                        assert(pl[j1].name@ == players0@[j1].name@);
                    }
                }
            }
        }
        // witness for the time-series clause
        assert(fltv.len() > 0);
        assert({
            &&& date_wf(lo)
            &&& date_wf(hi)
            &&& date_le(lo, hi)
            &&& forall|k: int|
                0 <= k < fltv.len() ==> date_le(
                    lo,
                    (#[trigger] fltv[k]).timestamp.date_spec(),
                ) && date_le(fltv[k].timestamp.date_spec(), hi)
            &&& r.deaths_over_time.labels_view() == date_seq(lo, hi).map_values(
                |d: Date| crate::date::fmt_date(d),
            )
            &&& r.deaths_over_time.values_view().len() == date_seq(lo, hi).len()
            &&& forall|t: int|
                0 <= t < date_seq(lo, hi).len()
                    ==> #[trigger] r.deaths_over_time.values_view()[t] as int == cnt_day(
                    fltv,
                    date_seq(lo, hi)[t],
                )
        });
        assert(exists|k: int|
            0 <= k < fltv.len() && (#[trigger] fltv[k]).timestamp.date_spec() == lo) by {
            let k0 = choose|k: int|
                0 <= k < flt@.len() && (#[trigger] flt@[k])@.timestamp.date_spec() == lo;
            assert(fltv[k0] == flt@[k0]@);
            assert(fltv[k0].timestamp.date_spec() == lo);
        }
        assert(exists|k: int|
            0 <= k < fltv.len() && (#[trigger] fltv[k]).timestamp.date_spec() == hi) by {
            let k0 = choose|k: int|
                0 <= k < flt@.len() && (#[trigger] flt@[k])@.timestamp.date_spec() == hi;
            assert(fltv[k0] == flt@[k0]@);
            assert(fltv[k0].timestamp.date_spec() == hi);
        }
        assert forall|i1: int, t1: int|
            #![trigger (r.players@[i1]).deaths_over_time.values_view()[t1]]
            0 <= i1 < r.players@.len() && 0 <= t1 < date_seq(lo, hi).len() implies (
        r.players@[i1]).deaths_over_time.values_view()[t1] as int == cnt_day_player(
            fltv,
            date_seq(lo, hi)[t1],
            r.players@[i1].name@,
        ) by {
            assert((pl[i1]).deaths_over_time.values_view()[t1] as int == cnt_day_player(
                fltv,
                date_seq(lo, hi)[t1],
                pl[i1].name@,
            ));
        }
    }
    r
}

/// What every chart and list of the aggregate is when there are no events.
proof fn lemma_empty_aggregate_facts(fltv: Seq<DeathRecordV>)
    requires
        fltv.len() == 0,
    ensures
        players_order(fltv) == Seq::<Seq<char>>::empty(),
        pie_spec(causes_of(fltv)).len() == 0,
        crate::util::sum_u64(Seq::<u64>::empty()) == 0,
{
    assert(fltv.reverse() =~= Seq::<DeathRecordV>::empty());
    assert(fltv.reverse().map_values(|d: DeathRecordV| d.player) =~= Seq::<Seq<char>>::empty());
    assert(players_order(fltv) =~~= Seq::<Seq<char>>::empty());
    assert(causes_of(fltv) =~= Seq::<Seq<char>>::empty());
    assert(dedup_from(causes_of(fltv), seq![]) =~~= Seq::<Seq<char>>::empty());
    assert(pie_pairs(causes_of(fltv)).len() == 0);
    assert(pie_spec(causes_of(fltv)).len() == 0);
}

} // verus!
