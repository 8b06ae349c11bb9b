use crate::parse::copy_records;
use crate::parse::parse_log;
use crate::parse::spec_parse_log;
use crate::parse::DeathRecord;
use crate::parse::DeathRecordV;
use crate::parse::WhitelistEntry;
use crate::text::str_eq;
use vstd::prelude::*;

verus! {

/// What flate2 yields when inflating a gzip byte stream to text; a function
/// of the bytes alone.
pub uninterp spec fn gunzip_of(b: Seq<u8>) -> Option<Seq<char>>;

/// Relies on flate2::read::GzDecoder, read through std's read_to_string:
/// inflating an in-memory gzip stream is deterministic in the bytes alone;
/// it yields the decompressed text, or fails on corrupt input or text that
/// is not UTF-8.
#[verifier::external_body]
fn gunzip(bytes: &[u8]) -> (r: Option<String>)
    ensures
        (r is Some) == (gunzip_of(bytes@) is Some),
        r matches Some(s) ==> gunzip_of(bytes@) == Some(s@),
{
    let mut gz = flate2::read::GzDecoder::new(bytes);
    let mut text = String::new();
    match std::io::Read::read_to_string(&mut gz, &mut text) {
        Ok(_) => Some(text),
        Err(_) => None,
    }
}

/// The records one archive's raw bytes yield: the decompressed text parsed
/// against the whitelist, or nothing when the bytes do not inflate.
pub open spec fn spec_archive_records(bytes: Seq<u8>, wl: Seq<Seq<char>>) -> Seq<DeathRecordV> {
    match gunzip_of(bytes) {
        Some(text) => spec_parse_log(text, wl),
        None => seq![],
    }
}

/// Decompresses one archive's bytes and parses the text. A failure to
/// decompress is recoverable: it yields an empty record list, never an
/// error.
pub fn decompress_and_parse(bytes: &[u8], whitelist: &Vec<WhitelistEntry>) -> (r: Vec<
    DeathRecord,
>)
    ensures
        r.deep_view() == spec_archive_records(bytes@, whitelist.deep_view()),
        forall|k: int| 0 <= k < r@.len() ==> (#[trigger] r@[k])@.timestamp.wf(),
{
    match gunzip(bytes) {
        Some(text) => parse_log(text.as_str(), whitelist),
        None => {
            let r: Vec<DeathRecord> = Vec::new();
            proof {
                assert(r.deep_view() =~= spec_archive_records(bytes@, whitelist.deep_view()));
            }
            r
        },
    }
}

/// One memoized archive: its path and the records it parsed to.
pub struct CacheEntry {
    pub path: String,
    pub records: Vec<DeathRecord>,
}

/// Position of the entry for `p`, or -1 when no entry carries that path.
pub open spec fn cache_idx(entries: Seq<CacheEntry>, p: Seq<char>) -> int
    decreases entries.len(),
{
    if entries.len() == 0 {
        -1
    } else if entries[0].path@ == p {
        0
    } else {
        let r = cache_idx(entries.drop_first(), p);
        if r < 0 {
            -1
        } else {
            r + 1
        }
    }
}

pub proof fn lemma_cache_idx(entries: Seq<CacheEntry>, p: Seq<char>)
    ensures
        cache_idx(entries, p) >= 0 ==> {
            let r = cache_idx(entries, p);
            &&& r < entries.len()
            &&& entries[r].path@ == p
            &&& forall|k: int| 0 <= k < r ==> (#[trigger] entries[k]).path@ != p
        },
        cache_idx(entries, p) < 0 ==> forall|k: int|
            0 <= k < entries.len() ==> (#[trigger] entries[k]).path@ != p,
    decreases entries.len(),
{
    if entries.len() > 0 && entries[0].path@ != p {
        lemma_cache_idx(entries.drop_first(), p);
        let r1 = cache_idx(entries.drop_first(), p);
        if r1 < 0 {
            assert forall|k: int| 0 <= k < entries.len() implies (#[trigger] entries[k]).path@
                != p by {
                if k > 0 {
                    assert(entries.drop_first()[k - 1] == entries[k]);
                }
            }
        } else {
            assert(entries[r1 + 1] == entries.drop_first()[r1]);
            assert forall|k: int| 0 <= k < r1 + 1 implies (#[trigger] entries[k]).path@ != p by {
                if k > 0 {
                    assert(entries.drop_first()[k - 1] == entries[k]);
                }
            }
        }
    }
}

/// The memo table of parsed archives, keyed by path. Archives are immutable
/// once rotated, so an entry never changes and is never evicted.
pub struct ParseCache {
    pub entries: Vec<CacheEntry>,
}

impl ParseCache {
    /// Whether an archive with this path has been parsed before.
    pub open spec fn contains_path(&self, p: Seq<char>) -> bool {
        cache_idx(self.entries@, p) >= 0
    }

    /// The memoized records for a path.
    pub open spec fn records_for(&self, p: Seq<char>) -> Seq<DeathRecordV> {
        self.entries@[cache_idx(self.entries@, p)].records.deep_view()
    }

    /// Paths are distinct, and every memoized record carries a valid
    /// timestamp.
    pub open spec fn wf(&self) -> bool {
        &&& forall|i: int, j: int|
            0 <= i < j < self.entries@.len() ==> (#[trigger] self.entries@[i]).path@ != (
            #[trigger] self.entries@[j]).path@
        &&& forall|i: int, k: int|
            0 <= i < self.entries@.len() && 0 <= k < (#[trigger] self.entries@[i]).records@.len()
                ==> (#[trigger] self.entries@[i].records@[k])@.timestamp.wf()
    }

    /// An empty cache.
    pub fn new() -> (c: ParseCache)
        ensures
            c.wf(),
            forall|p: Seq<char>| !c.contains_path(p),
    {
        ParseCache { entries: Vec::new() }
    }

    /// The memoized records for this path, if the archive was parsed
    /// before; the cache itself is untouched.
    pub fn lookup(&self, path: &str) -> (r: Option<Vec<DeathRecord>>)
        ensures
            match r {
                Some(v) => self.contains_path(path@) && v.deep_view() == self.records_for(path@),
                None => !self.contains_path(path@),
            },
    {
        let n = self.entries.len();
        let mut i: usize = 0;
        while i < n
            invariant
                n == self.entries@.len(),
                0 <= i <= n,
                forall|k: int| 0 <= k < i ==> (#[trigger] self.entries@[k]).path@ != path@,
            decreases n - i,
        {
            if str_eq(self.entries[i].path.as_str(), path) {
                proof {
                    lemma_cache_idx(self.entries@, path@);
                    let r = cache_idx(self.entries@, path@);
                    if r < 0 {
                        assert((self.entries@[i as int]).path@ != path@);
                    }
                    assert(r == i);
                }
                return Some(copy_records(&self.entries[i].records));
            }
            i += 1;
        }
        proof {
            lemma_cache_idx(self.entries@, path@);
            let r = cache_idx(self.entries@, path@);
            if r >= 0 {
                assert((self.entries@[r]).path@ == path@);
            }
        }
        None
    }

    /// Memoizes the records parsed for a path not seen before. Entries for
    /// other paths stay as they are.
    pub fn insert(&mut self, path: String, records: Vec<DeathRecord>)
        requires
            old(self).wf(),
            !old(self).contains_path(path@),
            forall|k: int| 0 <= k < records@.len() ==> (#[trigger] records@[k])@.timestamp.wf(),
        ensures
            final(self).wf(),
            final(self).contains_path(path@),
            final(self).records_for(path@) == records.deep_view(),
            forall|q: Seq<char>|
                q != path@ ==> #[trigger] final(self).contains_path(q) == old(
                    self,
                ).contains_path(q),
            forall|q: Seq<char>|
                q != path@ && old(self).contains_path(q) ==> #[trigger] final(self).records_for(q)
                    == old(self).records_for(q),
    {
        let ghost prev: Seq<CacheEntry> = self.entries@;
        let ghost p: Seq<char> = path@;
        self.entries.push(CacheEntry { path, records });
        proof {
            let now = self.entries@;
            assert(now == prev.push(now.last()));
            assert(now.last().path@ == p);
            lemma_cache_idx(prev, p);
            lemma_cache_idx_push(prev, now.last(), p);
            assert(cache_idx(now, p) == prev.len() as int);
            assert(final(self).records_for(p) == now.last().records.deep_view());
            assert forall|q: Seq<char>| q != p implies #[trigger] final(self).contains_path(q)
                == old(self).contains_path(q) by {
                lemma_cache_idx_push(prev, now.last(), q);
            }
            assert forall|q: Seq<char>|
                q != p && old(self).contains_path(q) implies #[trigger] final(self).records_for(q)
                == old(self).records_for(q) by {
                lemma_cache_idx_push(prev, now.last(), q);
                lemma_cache_idx(prev, q);
                let r = cache_idx(prev, q);
                assert(now[r] == prev[r]);
            }
            assert forall|i: int, j: int|
                0 <= i < j < now.len() implies (#[trigger] now[i]).path@ != (
            #[trigger] now[j]).path@ by {
                if j < prev.len() {
                    assert(prev[i] == now[i] && prev[j] == now[j]);
                } else {
                    assert(now[i] == prev[i]);
                    lemma_cache_idx(prev, p);
                    if prev[i].path@ == p {
                        assert(cache_idx(prev, p) >= 0) by {
                            if cache_idx(prev, p) < 0 {
                                assert((prev[i]).path@ != p);
                            }
                        }
                    }
                }
            }
        }
    }

    /// On a hit, the memoized records, the cache untouched and the bytes
    /// never looked at; on a miss, the bytes are decompressed and parsed
    /// and the result is memoized under this path.
    pub fn get_or_parse(
        &mut self,
        path: &str,
        bytes: &[u8],
        whitelist: &Vec<WhitelistEntry>,
    ) -> (r: Vec<DeathRecord>)
        requires
            old(self).wf(),
        ensures
            final(self).wf(),
            old(self).contains_path(path@) ==> {
                &&& r.deep_view() == old(self).records_for(path@)
                &&& *final(self) == *old(self)
            },
            !old(self).contains_path(path@) ==> {
                &&& r.deep_view() == spec_archive_records(bytes@, whitelist.deep_view())
                &&& final(self).contains_path(path@)
                &&& final(self).records_for(path@) == r.deep_view()
            },
            forall|q: Seq<char>|
                q != path@ ==> #[trigger] final(self).contains_path(q) == old(
                    self,
                ).contains_path(q),
            forall|q: Seq<char>|
                q != path@ && old(self).contains_path(q) ==> #[trigger] final(self).records_for(q)
                    == old(self).records_for(q),
            final(self).contains_path(path@),
            forall|k: int| 0 <= k < r@.len() ==> (#[trigger] r@[k])@.timestamp.wf(),
    {
        match self.lookup(path) {
            Some(v) => {
                proof {
                    lemma_cache_idx(self.entries@, path@);
                    let i = cache_idx(self.entries@, path@);
                    let recs = self.entries@[i].records;
                    assert(v.deep_view() == recs.deep_view());
                    assert forall|k: int| 0 <= k < v@.len() implies (
                    #[trigger] v@[k])@.timestamp.wf() by {
                        assert(v@[k]@ == v.deep_view()[k]);
                        assert(recs.deep_view()[k] == recs@[k]@);
                        assert(recs@[k] == self.entries@[i].records@[k]);
                        assert((self.entries@[i].records@[k])@.timestamp.wf());
                    }
                }
                v
            },
            None => {
                let records = decompress_and_parse(bytes, whitelist);
                let owned = path.to_owned();
                let copy = copy_records(&records);
                let ghost recs_v: Seq<DeathRecord> = records@;
                let ghost recs_dv: Seq<DeathRecordV> = records.deep_view();
                self.insert(owned, records);
                proof {
                    assert(copy.deep_view() == recs_dv);
                    assert(copy.deep_view().len() == copy@.len());
                    assert(recs_dv.len() == recs_v.len());
                    assert forall|k: int| 0 <= k < copy@.len() implies (
                    #[trigger] copy@[k])@.timestamp.wf() by {
                        assert(copy@[k]@ == copy.deep_view()[k]);
                        assert(copy.deep_view()[k] == recs_dv[k]);
                        assert(recs_dv[k] == recs_v[k]@);
                        assert(recs_v[k]@.timestamp.wf());
                    }
                }
                copy
            },
        }
    }
}

/// One discovered archive, already read from disk: its path and its raw
/// compressed bytes.
pub struct Archive {
    pub path: String,
    pub bytes: Vec<u8>,
}

/// The mathematical value of an archive input.
pub struct ArchiveV {
    pub path: Seq<char>,
    pub bytes: Seq<u8>,
}

impl View for Archive {
    type V = ArchiveV;

    open spec fn view(&self) -> ArchiveV {
        ArchiveV { path: self.path@, bytes: self.bytes@ }
    }
}

impl DeepView for Archive {
    type V = ArchiveV;

    open spec fn deep_view(&self) -> ArchiveV {
        self.view()
    }
}

/// The records one archive contributes to the merged list: what the cache
/// memoized for its path, or else what its bytes decompress and parse to.
pub open spec fn contribution(c: ParseCache, a: ArchiveV, wl: Seq<Seq<char>>) -> Seq<
    DeathRecordV,
> {
    if c.contains_path(a.path) {
        c.records_for(a.path)
    } else {
        spec_archive_records(a.bytes, wl)
    }
}

/// The concatenated contributions of the archives, in list order.
pub open spec fn archives_records(
    c: ParseCache,
    archs: Seq<ArchiveV>,
    wl: Seq<Seq<char>>,
) -> Seq<DeathRecordV>
    decreases archs.len(),
{
    if archs.len() == 0 {
        seq![]
    } else {
        archives_records(c, archs.drop_last(), wl) + contribution(c, archs.last(), wl)
    }
}

/// Parses every archive, oldest first, memoizing through the cache, then
/// the live log, and yields all records in that order. The live log is
/// never cached: it is parsed fresh on every call; a caller that cannot
/// read it hands an empty text, which recovers the failure as archive
/// failures are recovered.
pub fn parse_logs(
    cache: &mut ParseCache,
    archives: &Vec<Archive>,
    live_log: &str,
    whitelist: &Vec<WhitelistEntry>,
) -> (r: Vec<DeathRecord>)
    requires
        old(cache).wf(),
        forall|i: int, j: int|
            0 <= i < j < archives@.len() ==> (#[trigger] archives@[i])@.path != (
            #[trigger] archives@[j])@.path,
    ensures
        final(cache).wf(),
        r.deep_view() == archives_records(
            *old(cache),
            archives.deep_view(),
            whitelist.deep_view(),
        ) + spec_parse_log(live_log@, whitelist.deep_view()),
        forall|k: int| 0 <= k < r@.len() ==> (#[trigger] r@[k])@.timestamp.wf(),
        forall|q: Seq<char>|
            old(cache).contains_path(q) ==> #[trigger] final(cache).contains_path(q)
                && final(cache).records_for(q) == old(cache).records_for(q),
        forall|i: int|
            0 <= i < archives@.len() ==> final(cache).contains_path(
                (#[trigger] archives@[i])@.path,
            ),
{
    let ghost wl: Seq<Seq<char>> = whitelist.deep_view();
    let ghost c0: ParseCache = *cache;
    let mut records: Vec<DeathRecord> = Vec::new();
    let n = archives.len();
    proof {
        assert(archives.deep_view().take(0) =~= Seq::<ArchiveV>::empty());
    }
    for i in 0..n
        invariant
            n == archives@.len(),
            cache.wf(),
            whitelist.deep_view() == wl,
            c0 == *old(cache),
            old(cache).wf(),
            forall|i2: int, j2: int|
                0 <= i2 < j2 < archives@.len() ==> (#[trigger] archives@[i2])@.path != (
                #[trigger] archives@[j2])@.path,
            forall|q: Seq<char>|
                c0.contains_path(q) ==> #[trigger] cache.contains_path(q) && cache.records_for(q)
                    == c0.records_for(q),
            forall|q: Seq<char>|
                #[trigger] cache.contains_path(q) ==> c0.contains_path(q) || exists|t: int|
                    0 <= t < i && (#[trigger] archives@[t])@.path == q,
            forall|t: int|
                0 <= t < i ==> cache.contains_path((#[trigger] archives@[t])@.path),
            records.deep_view() == archives_records(c0, archives.deep_view().take(i as int), wl),
            forall|k: int| 0 <= k < records@.len() ==> (#[trigger] records@[k])@.timestamp.wf(),
    {
        let ghost pre: ParseCache = *cache;
        let ghost prev_dv: Seq<DeathRecordV> = records.deep_view();
        let ghost prev_v: Seq<DeathRecord> = records@;
        let ghost av: Seq<ArchiveV> = archives.deep_view();
        let mut part = cache.get_or_parse(
            archives[i].path.as_str(),
            archives[i].bytes.as_slice(),
            whitelist,
        );
        let ghost part_dv: Seq<DeathRecordV> = part.deep_view();
        let ghost part_v: Seq<DeathRecord> = part@;
        proof {
            let p = archives@[i as int]@.path;
            assert(av[i as int] == archives@[i as int]@);
            if c0.contains_path(p) {
                assert(pre.contains_path(p) && pre.records_for(p) == c0.records_for(p));
                assert(part_dv == contribution(c0, av[i as int], wl));
            } else {
                assert(!pre.contains_path(p)) by {
                    if pre.contains_path(p) {
                        let t = choose|t: int|
                            0 <= t < i && (#[trigger] archives@[t])@.path == p;
                        assert((archives@[t])@.path != (archives@[i as int])@.path);
                    }
                }
                assert(part_dv == spec_archive_records(archives@[i as int]@.bytes, wl));
                assert(part_dv == contribution(c0, av[i as int], wl));
            }
            assert forall|q: Seq<char>| #[trigger] cache.contains_path(q) implies c0.contains_path(
                q,
            ) || exists|t: int| 0 <= t < i + 1 && (#[trigger] archives@[t])@.path == q by {
                if q == p {
                    assert((archives@[i as int])@.path == q);
                } else {
                    assert(pre.contains_path(q) == cache.contains_path(q));
                    if pre.contains_path(q) && !c0.contains_path(q) {
                        let t = choose|t: int|
                            0 <= t < i && (#[trigger] archives@[t])@.path == q;
                        assert(0 <= t < i + 1 && (archives@[t])@.path == q);
                    }
                }
            }
        }
        records.append(&mut part);
        proof {
            let taken = av.take(i + 1);
            assert(taken.drop_last() =~= av.take(i as int));
            assert(taken.last() == av[i as int]);
            assert(records@ == prev_v + part_v);
            assert forall|k: int|
                0 <= k < records.deep_view().len() implies #[trigger] records.deep_view()[k] == (
            prev_dv + part_dv)[k] by {
                assert(records.deep_view()[k] == records@[k]@);
                if k < prev_v.len() {
                    assert(records@[k] == prev_v[k]);
                    assert(prev_dv[k] == prev_v[k]@);
                } else {
                    assert(records@[k] == part_v[k - prev_v.len()]);
                    assert(part_dv[k - prev_v.len()] == part_v[k - prev_v.len()]@);
                }
            }
            assert(records.deep_view() =~~= prev_dv + part_dv);
            assert(records.deep_view() =~~= archives_records(c0, taken, wl));
            assert forall|k: int| 0 <= k < records@.len() implies (
            #[trigger] records@[k])@.timestamp.wf() by {
                if k < prev_v.len() {
                    assert(records@[k] == prev_v[k]);
                } else {
                    assert(records@[k] == part_v[k - prev_v.len()]);
                }
            }
        }
    }
    proof {
        assert forall|q: Seq<char>| old(cache).contains_path(q) implies cache.contains_path(q)
            && cache.records_for(q) == old(cache).records_for(q) by {
            assert(c0.contains_path(q));
            assert(cache.contains_path(q) && cache.records_for(q) == c0.records_for(q));
        }
    }
    let mut live = parse_log(live_log, whitelist);
    let ghost prev_dv: Seq<DeathRecordV> = records.deep_view();
    let ghost prev_v: Seq<DeathRecord> = records@;
    let ghost live_dv: Seq<DeathRecordV> = live.deep_view();
    let ghost live_v: Seq<DeathRecord> = live@;
    records.append(&mut live);
    proof {
        assert(archives.deep_view().take(n as int) =~= archives.deep_view());
        assert forall|k: int|
            0 <= k < records.deep_view().len() implies #[trigger] records.deep_view()[k] == (
        prev_dv + live_dv)[k] by {
            assert(records.deep_view()[k] == records@[k]@);
            if k < prev_v.len() {
                assert(records@[k] == prev_v[k]);
                assert(prev_dv[k] == prev_v[k]@);
            } else {
                assert(records@[k] == live_v[k - prev_v.len()]);
                assert(live_dv[k - prev_v.len()] == live_v[k - prev_v.len()]@);
            }
        }
        assert(records.deep_view() =~~= prev_dv + live_dv);
        assert forall|k: int| 0 <= k < records@.len() implies (
        #[trigger] records@[k])@.timestamp.wf() by {
            if k < prev_v.len() {
                assert(records@[k] == prev_v[k]);
            } else {
                assert(records@[k] == live_v[k - prev_v.len()]);
            }
        }
    }
    records
}

/// How the entry index reacts to appending one entry at the end.
proof fn lemma_cache_idx_push(entries: Seq<CacheEntry>, e: CacheEntry, p: Seq<char>)
    ensures
        e.path@ == p && cache_idx(entries, p) < 0 ==> cache_idx(entries.push(e), p)
            == entries.len() as int,
        e.path@ != p ==> cache_idx(entries.push(e), p) == cache_idx(entries, p),
        cache_idx(entries, p) >= 0 ==> cache_idx(entries.push(e), p) == cache_idx(entries, p),
    decreases entries.len(),
{
    reveal_with_fuel(cache_idx, 3);
    if entries.len() == 0 {
        if e.path@ == p {
            assert(entries.push(e)[0] == e);
        } else {
            assert(entries.push(e)[0] == e);
            assert(entries.push(e).drop_first() =~= Seq::<CacheEntry>::empty());
        }
    } else {
        assert(entries.push(e)[0] == entries[0]);
        if entries[0].path@ == p {
        } else {
            assert(entries.push(e).drop_first() =~= entries.drop_first().push(e));
            lemma_cache_idx_push(entries.drop_first(), e, p);
        }
    }
}

} // verus!
