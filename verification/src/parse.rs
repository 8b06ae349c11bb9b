use crate::date::Timestamp;
use crate::text::append_stripped;
use crate::text::contains_seq;
use crate::text::contains_str;
use crate::text::find_first;
use crate::text::match_at;
use crate::text::push_char;
use crate::text::skip_spaces;
use crate::text::skip_spaces_idx;
use crate::text::skip_token;
use crate::text::skip_token_idx;
use crate::text::split_lines;
use crate::text::split_lines_spec;
use crate::text::str_eq;
use crate::text::starts_with;
use crate::text::strip_brackets;
use crate::text::trim;
use crate::text::trim_spec;
use chrono::Datelike;
use chrono::Timelike;
use vstd::prelude::*;
use vstd::string::StrSliceExecFns;
use vstd::string::StringExecFns;

verus! {

/// One recognized account name from the server whitelist.
#[derive(Clone)]
pub struct WhitelistEntry {
    pub name: String,
}

impl View for WhitelistEntry {
    type V = Seq<char>;

    open spec fn view(&self) -> Seq<char> {
        self.name@
    }
}

impl DeepView for WhitelistEntry {
    type V = Seq<char>;

    open spec fn deep_view(&self) -> Seq<char> {
        self.name@
    }
}

/// One death event attributed to a whitelisted account.
pub struct DeathRecord {
    pub timestamp: Timestamp,
    pub player: String,
    pub cause: String,
}

/// The mathematical value of a death record.
pub struct DeathRecordV {
    pub timestamp: Timestamp,
    pub player: Seq<char>,
    pub cause: Seq<char>,
}

impl View for DeathRecord {
    type V = DeathRecordV;

    open spec fn view(&self) -> DeathRecordV {
        DeathRecordV { timestamp: self.timestamp, player: self.player@, cause: self.cause@ }
    }
}

impl DeepView for DeathRecord {
    type V = DeathRecordV;

    open spec fn deep_view(&self) -> DeathRecordV {
        self.view()
    }
}

/// A copy of a death record; field for field, so nothing changes.
pub fn copy_record(d: &DeathRecord) -> (r: DeathRecord)
    ensures
        r@ == d@,
{
    DeathRecord { timestamp: d.timestamp, player: d.player.clone(), cause: d.cause.clone() }
}

/// A copy of a list of death records, with the same view.
pub fn copy_records(v: &Vec<DeathRecord>) -> (r: Vec<DeathRecord>)
    ensures
        r.deep_view() == v.deep_view(),
{
    let mut out: Vec<DeathRecord> = Vec::new();
    let n = v.len();
    for i in 0..n
        invariant
            n == v@.len(),
            out@.len() == i,
            forall|k: int| 0 <= k < i ==> (#[trigger] out@[k])@ == v@[k]@,
    {
        out.push(copy_record(&v[i]));
    }
    proof {
        assert forall|k: int| 0 <= k < n implies #[trigger] out.deep_view()[k]
            == v.deep_view()[k] by {
            assert(out.deep_view()[k] == out@[k]@);
            assert(v.deep_view()[k] == v@[k]@);
        }
        assert(out.deep_view() =~= v.deep_view());
    }
    out
}

/// Timestamp strings of log entries known to be corrupt; lines carrying one
/// are dropped.
pub open spec fn denylisted_ts(ts: Seq<char>) -> bool {
    ||| ts == "06Jun2025 15:42:05.682"@
    ||| ts == "08Jun2025 18:40:17.329"@
    ||| ts == "05Jan2026 01:49:16.370"@
}

/// Whether the timestamp string is on the denylist of known-corrupt entries.
pub fn is_denylisted_ts(ts: &str) -> (b: bool)
    ensures
        b == denylisted_ts(ts@),
{
    str_eq(ts, "06Jun2025 15:42:05.682") || str_eq(ts, "08Jun2025 18:40:17.329") || str_eq(
        ts,
        "05Jan2026 01:49:16.370",
    )
}

/// A message that is server noise rather than a death: it contains one of a
/// fixed set of substrings.
pub open spec fn is_ignored_spec(c: Seq<char>) -> bool {
    ||| contains_seq(c, "has the following entity data"@)
    ||| contains_seq(c, "joined the game"@)
    ||| contains_seq(c, "left the game"@)
    ||| contains_seq(c, "lost connection"@)
    ||| contains_seq(c, "has made the advancement"@)
    ||| contains_seq(c, "has reached the goal"@)
    ||| contains_seq(c, "has completed the challenge"@)
    ||| contains_seq(c, "[Server]"@)
    ||| contains_seq(c, "<"@)
    ||| contains_seq(c, "moved too quickly!"@)
    ||| contains_seq(c, "moved wrongly!"@)
    ||| contains_seq(c, "logged in with entity id"@)
    ||| contains_seq(c, "UUID of player"@)
    ||| contains_seq(c, "displaying particle"@)
    ||| contains_seq(c, "issued server command"@)
    ||| contains_seq(c, "teleported to"@)
}

/// Checks if the message content contains any of the ignored patterns.
pub fn is_ignored_message(content: &str) -> (b: bool)
    ensures
        b == is_ignored_spec(content@),
{
    contains_str(content, "has the following entity data") || contains_str(
        content,
        "joined the game",
    ) || contains_str(content, "left the game") || contains_str(content, "lost connection")
        || contains_str(content, "has made the advancement") || contains_str(
        content,
        "has reached the goal",
    ) || contains_str(content, "has completed the challenge") || contains_str(content, "[Server]")
        || contains_str(content, "<") || contains_str(content, "moved too quickly!")
        || contains_str(content, "moved wrongly!") || contains_str(
        content,
        "logged in with entity id",
    ) || contains_str(content, "UUID of player") || contains_str(content, "displaying particle")
        || contains_str(content, "issued server command") || contains_str(content, "teleported to")
}

/// What chrono yields for a timestamp string under the fixed log pattern;
/// a function of the string alone.
pub uninterp spec fn ts_parse(s: Seq<char>) -> Option<Timestamp>;

/// Relies on chrono::NaiveDateTime::parse_from_str with the fixed pattern
/// `%d%b%Y %H:%M:%S%.f` (for example `06Jun2025 15:42:05.682`): the outcome
/// depends on the input string alone, and a parsed value is a valid chrono
/// datetime, so its date is a real calendar day in chrono's documented year
/// range and its time fields are in range.
#[verifier::external_body]
pub fn parse_timestamp(s: &str) -> (r: Option<Timestamp>)
    ensures
        r == ts_parse(s@),
        r matches Some(t) ==> t.wf(),
{
    match chrono::NaiveDateTime::parse_from_str(s, "%d%b%Y %H:%M:%S%.f") {
        Ok(d) => Some(
            Timestamp {
                year: d.year(),
                month: d.month(),
                day: d.day(),
                hour: d.hour(),
                minute: d.minute(),
                second: d.second(),
                nanosecond: d.nanosecond(),
            },
        ),
        Err(_) => None,
    }
}

/// The timestamp string of a log line header: the first two
/// whitespace-separated tokens joined by one space, with bracket characters
/// removed; or `unknown` when there are fewer than two tokens.
pub open spec fn ts_string(meta: Seq<char>) -> Seq<char> {
    let a0 = skip_spaces(meta, 0);
    let b0 = skip_token(meta, a0);
    let a1 = skip_spaces(meta, b0);
    let b1 = skip_token(meta, a1);
    if a1 >= meta.len() {
        "unknown"@
    } else {
        strip_brackets(meta.subrange(a0, b0) + seq![' '] + meta.subrange(a1, b1))
    }
}

/// The timestamp string of a log line header.
pub fn timestamp_string(meta: &str) -> (r: String)
    ensures
        r@ == ts_string(meta@),
{
    let len = meta.unicode_len();
    let a0 = skip_spaces_idx(meta, 0);
    let b0 = skip_token_idx(meta, a0);
    let a1 = skip_spaces_idx(meta, b0);
    let b1 = skip_token_idx(meta, a1);
    if a1 >= len {
        let r = String::from_str("unknown");
        return r;
    }
    let t0 = meta.substring_char(a0, b0);
    let t1 = meta.substring_char(a1, b1);
    let mut out = String::new();
    append_stripped(&mut out, t0);
    let ghost mid0 = out@;
    push_char(&mut out, ' ');
    append_stripped(&mut out, t1);
    proof {
        let s0 = meta@.subrange(a0 as int, b0 as int);
        let s1 = meta@.subrange(a1 as int, b1 as int);
        let sp = seq![' '];
        let pred = |c: char| !crate::text::is_bracket(c);
        Seq::<char>::filter_distributes_over_add(s0 + sp, s1, pred);
        Seq::<char>::filter_distributes_over_add(s0, sp, pred);
        reveal(Seq::filter);
        assert(sp.drop_last() =~= Seq::<char>::empty());
        assert(Seq::<char>::empty().filter(pred) =~= Seq::<char>::empty());
        assert(sp.filter(pred) =~= sp);
        assert(out@ =~= strip_brackets(s0 + sp + s1));
    }
    out
}

/// Position of the first occurrence of `n` in `h`, or -1 if there is none.
pub open spec fn first_match(h: Seq<char>, n: Seq<char>) -> int
    decreases h.len(),
{
    if n.len() == 0 {
        0
    } else if h.len() < n.len() {
        -1
    } else if h.subrange(0, n.len() as int) == n {
        0
    } else {
        let r = first_match(h.drop_first(), n);
        if r < 0 {
            -1
        } else {
            r + 1
        }
    }
}

pub proof fn lemma_first_match(h: Seq<char>, n: Seq<char>)
    ensures
        first_match(h, n) >= 0 ==> match_at(h, n, first_match(h, n)) && forall|j: int|
            0 <= j < first_match(h, n) ==> !match_at(h, n, j),
        first_match(h, n) < 0 ==> forall|j: int| !match_at(h, n, j),
    decreases h.len(),
{
    let r = first_match(h, n);
    if n.len() == 0 {
        assert(h.subrange(0, 0) =~= n);
        assert(match_at(h, n, 0));
    } else if h.len() < n.len() {
        assert forall|j: int| !match_at(h, n, j) by {}
    } else if h.subrange(0, n.len() as int) == n {
    } else {
        lemma_first_match(h.drop_first(), n);
        let r1 = first_match(h.drop_first(), n);
        assert forall|j: int| 1 <= j implies match_at(h, n, j) == match_at(
            h.drop_first(),
            n,
            j - 1,
        ) by {
            if 0 <= j - 1 && j - 1 + n.len() <= h.drop_first().len() {
                assert(h.drop_first() =~= h.subrange(1, h.len() as int));
                h.lemma_slice_of_slice(1, h.len() as int, j - 1, j - 1 + n.len() as int);
                assert(h.drop_first().subrange(j - 1, j - 1 + n.len() as int) == h.subrange(
                    j,
                    j + n.len() as int,
                ));
            }
        }
        if r1 < 0 {
            assert forall|j: int| !match_at(h, n, j) by {
                if j == 0 {
                    assert(!match_at(h, n, 0));
                } else if j >= 1 {
                    assert(!match_at(h.drop_first(), n, j - 1));
                }
            }
        } else {
            assert(match_at(h, n, r1 + 1));
            assert forall|j: int| 0 <= j < r1 + 1 implies !match_at(h, n, j) by {
                if j >= 1 {
                    assert(!match_at(h.drop_first(), n, j - 1));
                }
            }
        }
    }
}

/// Index of the first whitelist name that, followed by one space, prefixes
/// the content; -1 if none does.
pub open spec fn first_prefix_match(wl: Seq<Seq<char>>, content: Seq<char>) -> int
    decreases wl.len(),
{
    if wl.len() == 0 {
        -1
    } else if (wl[0] + seq![' ']).is_prefix_of(content) {
        0
    } else {
        let r = first_prefix_match(wl.drop_first(), content);
        if r < 0 {
            -1
        } else {
            r + 1
        }
    }
}

pub proof fn lemma_first_prefix_match(wl: Seq<Seq<char>>, content: Seq<char>)
    ensures
        first_prefix_match(wl, content) >= 0 ==> {
            let r = first_prefix_match(wl, content);
            &&& r < wl.len()
            &&& (wl[r] + seq![' ']).is_prefix_of(content)
            &&& forall|j: int| 0 <= j < r ==> !((#[trigger] wl[j] + seq![' ']).is_prefix_of(
                content,
            ))
        },
        first_prefix_match(wl, content) < 0 ==> forall|j: int|
            0 <= j < wl.len() ==> !((#[trigger] wl[j] + seq![' ']).is_prefix_of(content)),
    decreases wl.len(),
{
    if wl.len() > 0 && !((wl[0] + seq![' ']).is_prefix_of(content)) {
        lemma_first_prefix_match(wl.drop_first(), content);
        let r1 = first_prefix_match(wl.drop_first(), content);
        assert(forall|j: int|
            1 <= j < wl.len() ==> #[trigger] wl[j] == wl.drop_first()[j - 1]);
        if r1 < 0 {
            assert forall|j: int|
                0 <= j < wl.len() implies !((#[trigger] wl[j] + seq![' ']).is_prefix_of(
                content,
            )) by {
                if j >= 1 {
                    assert(!((wl.drop_first()[j - 1] + seq![' ']).is_prefix_of(content)));
                }
            }
        } else {
            assert(wl[r1 + 1] == wl.drop_first()[r1]);
            assert forall|j: int|
                0 <= j < r1 + 1 implies !((#[trigger] wl[j] + seq![' ']).is_prefix_of(
                content,
            )) by {
                if j >= 1 {
                    assert(!((wl.drop_first()[j - 1] + seq![' ']).is_prefix_of(content)));
                }
            }
        }
    }
}

/// What one log line yields: the line is recognized only when it has the
/// `]: ` separator, a timestamp that is neither denylisted nor rejected by
/// the timestamp parser, a message that is not server noise, and a
/// whitelisted name (first in whitelist order wins) followed by a space as
/// the message prefix. The cause is the message after the name, trimmed.
pub open spec fn spec_parse_line(line: Seq<char>, wl: Seq<Seq<char>>) -> Option<DeathRecordV> {
    let i = first_match(line, "]: "@);
    if i < 0 {
        None
    } else {
        let meta = line.subrange(0, i);
        let content = line.skip(i + "]: "@.len());
        let ts = ts_string(meta);
        if denylisted_ts(ts) {
            None
        } else {
            match ts_parse(ts) {
                None => None,
                Some(t) => {
                    if is_ignored_spec(content) {
                        None
                    } else {
                        let k = first_prefix_match(wl, content);
                        if k < 0 {
                            None
                        } else {
                            Some(
                                DeathRecordV {
                                    timestamp: t,
                                    player: wl[k],
                                    cause: trim_spec(content.skip(wl[k].len() as int)),
                                },
                            )
                        }
                    }
                },
            }
        }
    }
}

/// Parses one log line against the whitelist.
#[verifier::loop_isolation(false)]
pub fn parse_line(line: &str, whitelist: &Vec<WhitelistEntry>) -> (r: Option<DeathRecord>)
    ensures
        match r {
            Some(d) => spec_parse_line(line@, whitelist.deep_view()) == Some(d@)
                && d.timestamp.wf(),
            None => spec_parse_line(line@, whitelist.deep_view()) is None,
        },
{
    proof {
        reveal_strlit("]: ");
        lemma_first_match(line@, "]: "@);
    }
    let ghost wlv = whitelist.deep_view();
    let sep_pos = find_first(line, "]: ");
    let i = match sep_pos {
        Some(i) => i,
        None => {
            proof {
                if first_match(line@, "]: "@) >= 0 {
                    assert(match_at(line@, "]: "@, first_match(line@, "]: "@)));
                }
            }
            return None;
        },
    };
    proof {
        let fm = first_match(line@, "]: "@);
        if fm < 0 {
            assert(!match_at(line@, "]: "@, i as int));
        }
        assert(fm >= 0);
        assert(fm == i);
    }
    let len = line.unicode_len();
    let meta = line.substring_char(0, i);
    let content = line.substring_char(i + 3, len);
    let ts = timestamp_string(meta);
    if is_denylisted_ts(ts.as_str()) {
        return None;
    }
    let t = match parse_timestamp(ts.as_str()) {
        Some(t) => t,
        None => {
            return None;
        },
    };
    if is_ignored_message(content) {
        return None;
    }
    let n = whitelist.len();
    let mut k: usize = 0;
    while k < n
        invariant
            n == whitelist@.len(),
            0 <= k <= n,
            forall|j: int|
                0 <= j < k ==> !(((#[trigger] whitelist@[j])@ + seq![' ']).is_prefix_of(
                    content@,
                )),
        decreases n - k,
    {
        let mut pref = whitelist[k].name.clone();
        push_char(&mut pref, ' ');
        proof {
            assert(pref@ =~= whitelist@[k as int]@ + seq![' ']);
        }
        if starts_with(content, pref.as_str()) {
            let name_len = whitelist[k].name.unicode_len();
            let content_len = content.unicode_len();
            let rest = content.substring_char(name_len, content_len);
            let cause = trim(rest);
            let player = whitelist[k].name.clone();
            let record = DeathRecord { timestamp: t, player, cause };
            proof {
                let wlv2 = whitelist.deep_view();
                lemma_first_prefix_match(wlv2, content@);
                let fp = first_prefix_match(wlv2, content@);
                assert(wlv2[k as int] == whitelist@[k as int]@);
                assert((wlv2[k as int] + seq![' ']).is_prefix_of(content@));
                assert(fp >= 0) by {
                    if fp < 0 {
                        assert(!((wlv2[k as int] + seq![' ']).is_prefix_of(content@)));
                    }
                }
                assert forall|j: int| 0 <= j < k implies !((#[trigger] wlv2[j]
                    + seq![' ']).is_prefix_of(content@)) by {
                    assert(wlv2[j] == whitelist@[j]@);
                }
                assert(fp == k);
                assert(rest@ == content@.skip(wlv2[fp].len() as int));
                assert(record@ == spec_parse_line(line@, wlv2)->0);
            }
            return Some(record);
        }
        k += 1;
    }
    proof {
        let wlv2 = whitelist.deep_view();
        lemma_first_prefix_match(wlv2, content@);
        let fp = first_prefix_match(wlv2, content@);
        if fp >= 0 {
            assert((wlv2[fp] + seq![' ']).is_prefix_of(content@));
            assert(wlv2[fp] == whitelist@[fp]@);
            assert(false);
        }
    }
    None
}

/// The records of a list of lines, in line order.
pub open spec fn spec_parse_lines(lines: Seq<Seq<char>>, wl: Seq<Seq<char>>) -> Seq<DeathRecordV>
    decreases lines.len(),
{
    if lines.len() == 0 {
        seq![]
    } else {
        spec_parse_lines(lines.drop_last(), wl) + (match spec_parse_line(lines.last(), wl) {
            Some(r) => seq![r],
            None => seq![],
        })
    }
}

/// The records of a whole log text: its lines parsed in order.
pub open spec fn spec_parse_log(text: Seq<char>, wl: Seq<Seq<char>>) -> Seq<DeathRecordV> {
    spec_parse_lines(split_lines_spec(text), wl)
}

/// Parses a log text: every line, in order, against the whitelist.
pub fn parse_log(log: &str, whitelist: &Vec<WhitelistEntry>) -> (r: Vec<DeathRecord>)
    ensures
        r.deep_view() == spec_parse_log(log@, whitelist.deep_view()),
        forall|k: int| 0 <= k < r@.len() ==> (#[trigger] r@[k])@.timestamp.wf(),
{
    let lines = split_lines(log);
    let mut records: Vec<DeathRecord> = Vec::new();
    let n = lines.len();
    proof {
        assert(lines.deep_view().take(0) =~= Seq::<Seq<char>>::empty());
    }
    for i in 0..n
        invariant
            n == lines@.len(),
            lines.deep_view() == split_lines_spec(log@),
            records.deep_view() == spec_parse_lines(
                lines.deep_view().take(i as int),
                whitelist.deep_view(),
            ),
            forall|k: int| 0 <= k < records@.len() ==> (#[trigger] records@[k])@.timestamp.wf(),
    {
        let ghost lv = lines.deep_view();
        let ghost prev_dv = records.deep_view();
        let res = parse_line(lines[i].as_str(), whitelist);
        proof {
            assert(lines@[i as int]@ == lv[i as int]);
            assert(lv.take(i + 1).drop_last() =~= lv.take(i as int));
            assert(lv.take(i + 1).last() == lv[i as int]);
        }
        match res {
            Some(d) => {
                records.push(d);
                proof {
                    assert forall|k: int|
                        0 <= k < records.deep_view().len() implies #[trigger] records.deep_view()[k]
                        == spec_parse_lines(lv.take(i + 1), whitelist.deep_view())[k] by {
                        assert(records.deep_view()[k] == records@[k]@);
                        if k < prev_dv.len() {
                            assert(prev_dv[k] == records@[k]@);
                        }
                    }
                    assert(records.deep_view() =~~= spec_parse_lines(
                        lv.take(i + 1),
                        whitelist.deep_view(),
                    ));
                }
            },
            None => {
                proof {
                    assert(records.deep_view() =~~= spec_parse_lines(
                        lv.take(i + 1),
                        whitelist.deep_view(),
                    ));
                }
            },
        }
    }
    proof {
        assert(lines.deep_view().take(n as int) =~= lines.deep_view());
    }
    records
}

/// A line without the `]: ` separator never yields an event.
pub proof fn lemma_no_separator_no_event(line: Seq<char>, wl: Seq<Seq<char>>)
    requires
        !contains_seq(line, "]: "@),
    ensures
        spec_parse_line(line, wl) is None,
{
    lemma_first_match(line, "]: "@);
    if first_match(line, "]: "@) >= 0 {
        assert(match_at(line, "]: "@, first_match(line, "]: "@)));
    }
}

/// A line whose header timestamp string is denylisted never yields an
/// event.
pub proof fn lemma_denylisted_line_no_event(line: Seq<char>, wl: Seq<Seq<char>>)
    requires
        first_match(line, "]: "@) >= 0,
        denylisted_ts(ts_string(line.subrange(0, first_match(line, "]: "@)))),
    ensures
        spec_parse_line(line, wl) is None,
{
}

/// A line whose message holds a noise substring never yields an event, even
/// when the message starts with a whitelisted name.
pub proof fn lemma_ignored_message_no_event(line: Seq<char>, wl: Seq<Seq<char>>)
    requires
        first_match(line, "]: "@) >= 0,
        is_ignored_spec(line.skip(first_match(line, "]: "@) + "]: "@.len())),
    ensures
        spec_parse_line(line, wl) is None,
{
}

/// Every parsed record comes from some line of the input.
pub proof fn lemma_parse_provenance(lines: Seq<Seq<char>>, wl: Seq<Seq<char>>)
    ensures
        forall|m: int|
            0 <= m < spec_parse_lines(lines, wl).len() ==> exists|j: int|
                0 <= j < lines.len() && spec_parse_line(#[trigger] lines[j], wl) == Some(
                    #[trigger] spec_parse_lines(lines, wl)[m],
                ),
    decreases lines.len(),
{
    if lines.len() > 0 {
        lemma_parse_provenance(lines.drop_last(), wl);
        let head = spec_parse_lines(lines.drop_last(), wl);
        let whole = spec_parse_lines(lines, wl);
        assert forall|m: int| 0 <= m < whole.len() implies exists|j: int|
            0 <= j < lines.len() && spec_parse_line(#[trigger] lines[j], wl) == Some(
                #[trigger] whole[m],
            ) by {
            if m < head.len() {
                let j0 = choose|j: int|
                    0 <= j < lines.drop_last().len() && spec_parse_line(
                        #[trigger] lines.drop_last()[j],
                        wl,
                    ) == Some(head[m]);
                assert(lines[j0] == lines.drop_last()[j0]);
                assert(spec_parse_line(lines[j0], wl) == Some(whole[m]));
            } else {
                let j0 = lines.len() - 1;
                assert(lines[j0] == lines.last());
                assert(spec_parse_line(lines[j0], wl) == Some(whole[m]));
            }
        }
    }
}


/// Every event of a log's output comes from a line that has the separator,
/// a header timestamp string off the denylist, and a message free of noise
/// substrings: denylisted or noisy lines never reach the output. Yields the
/// index of the event's source line.
pub proof fn lemma_source_line(lines: Seq<Seq<char>>, wl: Seq<Seq<char>>, m: int) -> (j: int)
    requires
        0 <= m < spec_parse_lines(lines, wl).len(),
    ensures
        0 <= j < lines.len(),
        spec_parse_line(lines[j], wl) == Some(spec_parse_lines(lines, wl)[m]),
        first_match(lines[j], "]: "@) >= 0,
        !denylisted_ts(ts_string(lines[j].subrange(0, first_match(lines[j], "]: "@)))),
        !is_ignored_spec(lines[j].skip(first_match(lines[j], "]: "@) + "]: "@.len())),
{
    lemma_parse_provenance(lines, wl);
    let j0 = choose|j: int|
        0 <= j < lines.len() && spec_parse_line(#[trigger] lines[j], wl) == Some(
            spec_parse_lines(lines, wl)[m],
        );
    assert(spec_parse_line(lines[j0], wl) is Some);
    j0
}

} // verus!
