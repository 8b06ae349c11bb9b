use crate::scan::lex_le;
use crate::scan::str_lex_le;
use crate::text::contains_seq;
use crate::text::contains_str;
use crate::text::match_at;
use crate::text::starts_with;
use crate::text::str_eq;
use crate::util::lemma_filter_take_push;
use vstd::prelude::*;
use vstd::string::StrSliceExecFns;
use vstd::string::StringExecFns;

verus! {

/// One game modification: its display name, registry slug, requested
/// version, and whether it is required or client-side only.
pub struct Mod {
    pub name: String,
    pub slug: String,
    pub version: String,
    pub mandatory: bool,
    pub client_side_only: bool,
}

/// The mathematical value of a mod entry.
pub struct ModV {
    pub name: Seq<char>,
    pub slug: Seq<char>,
    pub version: Seq<char>,
    pub mandatory: bool,
    pub client_side_only: bool,
}

impl View for Mod {
    type V = ModV;

    open spec fn view(&self) -> ModV {
        ModV {
            name: self.name@,
            slug: self.slug@,
            version: self.version@,
            mandatory: self.mandatory,
            client_side_only: self.client_side_only,
        }
    }
}

impl DeepView for Mod {
    type V = ModV;

    open spec fn deep_view(&self) -> ModV {
        self.view()
    }
}

/// The mod lists of the server, split for presentation.
pub struct Mods {
    pub neoforge_version: String,
    pub required: Vec<Mod>,
    pub recommended: Vec<Mod>,
    pub client_side: Vec<Mod>,
}

/// The two digests the registry publishes for a file.
pub struct Hashes {
    pub sha512: String,
    pub sha1: String,
}

/// Whether a client must install the file.
pub struct Env {
    pub client: String,
}

/// The loader and game versions a pack is built against.
pub struct Dependencies {
    pub minecraft: String,
    pub neoforge: String,
}

/// One file of the assembled pack.
pub struct Project {
    pub path: String,
    pub hashes: Hashes,
    pub env: Env,
    pub downloads: Vec<String>,
    pub file_size: usize,
    pub version: String,
}

/// The assembled pack manifest.
pub struct ModPack {
    pub game: String,
    pub format_version: u8,
    pub version_id: String,
    pub name: String,
    pub summary: String,
    pub files: Vec<Project>,
    pub dependencies: Dependencies,
}

/// One published version of a mod, as the registry reports it.
pub struct Version {
    pub game_versions: Vec<String>,
    pub loaders: Vec<String>,
    pub version_number: String,
    pub files: Vec<VersionFile>,
}

/// One downloadable file of a published version.
pub struct VersionFile {
    pub hashes: Hashes,
    pub url: String,
    pub filename: String,
    pub size: usize,
    pub primary: bool,
}

/// The version encoded in a jar file name's tail: the tail must be
/// `-<version>.jar`.
pub open spec fn spec_version_suffix(s: Seq<char>) -> Option<Seq<char>> {
    if s.len() >= 5 && s[0] == '-' && s.subrange(s.len() - 4, s.len() as int) == ".jar"@ {
        Some(s.subrange(1, s.len() - 4))
    } else {
        None
    }
}

/// The version encoded in a jar file name's tail.
pub fn parse_version(suffix: &str) -> (r: Option<String>)
    ensures
        match r {
            Some(v) => spec_version_suffix(suffix@) == Some(v@),
            None => spec_version_suffix(suffix@) is None,
        },
{
    proof {
        reveal_strlit(".jar");
    }
    let n = suffix.unicode_len();
    if n < 5 {
        return None;
    }
    if suffix.get_char(0) != '-' {
        return None;
    }
    let tail = suffix.substring_char(n - 4, n);
    if !str_eq(tail, ".jar") {
        return None;
    }
    let mid = suffix.substring_char(1, n - 4);
    Some(mid.to_owned())
}

/// What a mod list prefix yields for a file name: the encoded version when
/// the name starts with the prefix and ends `-<version>.jar`.
pub open spec fn spec_mod_match(file: Seq<char>, mod_name: Seq<char>) -> Option<Seq<char>> {
    if mod_name.is_prefix_of(file) {
        spec_version_suffix(file.skip(mod_name.len() as int))
    } else {
        None
    }
}

/// The mod a server jar file name denotes, with `voicechat` renamed to its
/// registry slug. Required mods are matched before merely supported ones.
pub open spec fn spec_mod_from_filename(file: Seq<char>) -> Option<ModV> {
    if spec_mod_match(file, "create"@) is Some {
        Some(spec_server_mod("create"@, spec_mod_match(file, "create"@)->0, true))
    } else if spec_mod_match(file, "copycats"@) is Some {
        Some(spec_server_mod("copycats"@, spec_mod_match(file, "copycats"@)->0, true))
    } else if spec_mod_match(file, "voicechat"@) is Some {
        Some(spec_server_mod("simple-voice-chat"@, spec_mod_match(file, "voicechat"@)->0, true))
    } else if spec_mod_match(file, "DistantHorizons"@) is Some {
        Some(spec_server_mod("DistantHorizons"@, spec_mod_match(file, "DistantHorizons"@)->0, false))
    } else if spec_mod_match(file, "jei"@) is Some {
        Some(spec_server_mod("jei"@, spec_mod_match(file, "jei"@)->0, false))
    } else if spec_mod_match(file, "no-chat-reports"@) is Some {
        Some(spec_server_mod("no-chat-reports"@, spec_mod_match(file, "no-chat-reports"@)->0, false))
    } else {
        None
    }
}

/// A server mod entry: name and slug coincide, nothing is client-side
/// only.
pub open spec fn spec_server_mod(name: Seq<char>, version: Seq<char>, mandatory: bool) -> ModV {
    ModV { name, slug: name, version, mandatory, client_side_only: false }
}

/// Matches one candidate prefix against a file name.
fn try_mod_prefix(file: &str, mod_name: &str) -> (r: Option<String>)
    ensures
        match r {
            Some(v) => spec_mod_match(file@, mod_name@) == Some(v@),
            None => spec_mod_match(file@, mod_name@) is None,
        },
{
    if starts_with(file, mod_name) {
        let fl = file.unicode_len();
        let ml = mod_name.unicode_len();
        let rest = file.substring_char(ml, fl);
        proof {
            assert(rest@ =~= file@.skip(mod_name@.len() as int));
        }
        parse_version(rest)
    } else {
        None
    }
}

/// Builds the mod entry for one matched prefix.
fn server_mod(name: &str, version: String, mandatory: bool) -> (m: Mod)
    ensures
        m@ == spec_server_mod(name@, version@, mandatory),
{
    Mod {
        name: name.to_owned(),
        slug: name.to_owned(),
        version,
        mandatory,
        client_side_only: false,
    }
}

/// The mod a server jar file name denotes, if any.
pub fn mod_from_filename(file: &str) -> (r: Option<Mod>)
    ensures
        match r {
            Some(m) => spec_mod_from_filename(file@) == Some(m@),
            None => spec_mod_from_filename(file@) is None,
        },
{
    if let Some(v) = try_mod_prefix(file, "create") {
        return Some(server_mod("create", v, true));
    }
    if let Some(v) = try_mod_prefix(file, "copycats") {
        return Some(server_mod("copycats", v, true));
    }
    if let Some(v) = try_mod_prefix(file, "voicechat") {
        return Some(server_mod("simple-voice-chat", v, true));
    }
    if let Some(v) = try_mod_prefix(file, "DistantHorizons") {
        return Some(server_mod("DistantHorizons", v, false));
    }
    if let Some(v) = try_mod_prefix(file, "jei") {
        return Some(server_mod("jei", v, false));
    }
    if let Some(v) = try_mod_prefix(file, "no-chat-reports") {
        return Some(server_mod("no-chat-reports", v, false));
    }
    None
}

/// The mods the server's jar file names denote, in file order.
pub open spec fn spec_server_mods(files: Seq<Seq<char>>) -> Seq<ModV>
    decreases files.len(),
{
    if files.len() == 0 {
        seq![]
    } else {
        spec_server_mods(files.drop_last()) + (match spec_mod_from_filename(files.last()) {
            Some(m) => seq![m],
            None => seq![],
        })
    }
}

/// The mods found among the server's mod directory file names.
#[verifier::loop_isolation(false)]
pub fn server_mods(file_names: &Vec<String>) -> (r: Vec<Mod>)
    ensures
        r.deep_view() == spec_server_mods(file_names.deep_view()),
{
    let n = file_names.len();
    let mut out: Vec<Mod> = Vec::new();
    proof {
        assert(file_names.deep_view().take(0) =~= Seq::<Seq<char>>::empty());
        assert(out.deep_view() =~~= spec_server_mods(file_names.deep_view().take(0)));
        assert(file_names.deep_view().len() == file_names@.len());
    }
    for k in 0..n
        invariant
            n == file_names@.len(),
            out.deep_view() == spec_server_mods(file_names.deep_view().take(k as int)),
    {
        let ghost fv: Seq<Seq<char>> = file_names.deep_view();
        let ghost prev_dv: Seq<ModV> = out.deep_view();
        let ghost prev_v: Seq<Mod> = out@;
        let res = mod_from_filename(file_names[k].as_str());
        proof {
            assert(fv[k as int] == file_names@[k as int]@);
            assert(fv.take(k + 1).drop_last() =~= fv.take(k as int));
            assert(fv.take(k + 1).last() == fv[k as int]);
        }
        match res {
            Some(m) => {
                out.push(m);
                proof {
                    assert forall|t: int|
                        0 <= t < out.deep_view().len() implies #[trigger] out.deep_view()[t]
                        == spec_server_mods(fv.take(k + 1))[t] by {
                        assert(out.deep_view()[t] == out@[t]@);
                        if t < prev_v.len() {
                            assert(out@[t] == prev_v[t]);
                            assert(prev_dv[t] == prev_v[t]@);
                        }
                    }
                    assert(out.deep_view() =~~= spec_server_mods(fv.take(k + 1)));
                }
            },
            None => {
                proof {
                    assert(out.deep_view() =~~= spec_server_mods(fv.take(k + 1)));
                }
            },
        }
    }
    proof {
        assert(file_names.deep_view().take(n as int) =~= file_names.deep_view());
    }
    out
}

/// The fixed list of client-side mods the server recommends.
pub open spec fn spec_recommended() -> Seq<ModV> {
    seq![
        spec_client_mod("sodium"@),
        spec_client_mod("ferrite-core"@),
        spec_client_mod("entityculling"@),
        spec_client_mod("lithium"@),
        spec_client_mod("immediatelyfast"@),
        spec_client_mod("sodium-extra"@),
        spec_client_mod("dynamic-fps"@),
        spec_client_mod("modernfix"@),
        spec_client_mod("mouse-tweaks"@),
    ]
}

/// A recommended client-side mod always tracks the latest version.
pub open spec fn spec_client_mod(name: Seq<char>) -> ModV {
    ModV {
        name,
        slug: name,
        version: "latest"@,
        mandatory: false,
        client_side_only: true,
    }
}

fn client_mod(name: &str) -> (m: Mod)
    ensures
        m@ == spec_client_mod(name@),
{
    Mod {
        name: name.to_owned(),
        slug: name.to_owned(),
        version: String::from_str("latest"),
        mandatory: false,
        client_side_only: true,
    }
}

/// The fixed list of client-side mods the server recommends.
pub fn recommended_mods() -> (r: Vec<Mod>)
    ensures
        r.deep_view() == spec_recommended(),
{
    let mut out: Vec<Mod> = Vec::new();
    out.push(client_mod("sodium"));
    out.push(client_mod("ferrite-core"));
    out.push(client_mod("entityculling"));
    out.push(client_mod("lithium"));
    out.push(client_mod("immediatelyfast"));
    out.push(client_mod("sodium-extra"));
    out.push(client_mod("dynamic-fps"));
    out.push(client_mod("modernfix"));
    out.push(client_mod("mouse-tweaks"));
    proof {
        assert forall|t: int| 0 <= t < 9 implies #[trigger] out.deep_view()[t]
            == spec_recommended()[t] by {
            assert(out.deep_view()[t] == out@[t]@);
        }
        assert(out.deep_view() =~~= spec_recommended());
    }
    out
}

/// Position of the last occurrence of `n` at or before `j`, or -1.
pub open spec fn rfind_from(h: Seq<char>, n: Seq<char>, j: int) -> int
    decreases j + 1,
{
    if j < 0 {
        -1
    } else if match_at(h, n, j) {
        j
    } else {
        rfind_from(h, n, j - 1)
    }
}

pub proof fn lemma_rfind_from(h: Seq<char>, n: Seq<char>, j: int)
    ensures
        rfind_from(h, n, j) >= 0 ==> match_at(h, n, rfind_from(h, n, j)) && rfind_from(h, n, j)
            <= j && forall|t: int| rfind_from(h, n, j) < t <= j ==> !match_at(h, n, t),
        rfind_from(h, n, j) < 0 ==> forall|t: int| 0 <= t <= j ==> !match_at(h, n, t),
    decreases j + 1,
{
    if j >= 0 && !match_at(h, n, j) {
        lemma_rfind_from(h, n, j - 1);
    }
}

/// The loader version the server's start script names: the text between
/// the neoforge library path prefix and the start-arguments file name,
/// taken greedily as the registry pattern does.
pub open spec fn spec_neoforge_version(text: Seq<char>) -> Option<Seq<char>> {
    let p = "libraries/net/neoforged/neoforge/"@;
    let s = "/unix_args.txt"@;
    let i = crate::parse::first_match(text, p);
    let j = rfind_from(text, s, text.len() - s.len());
    if i >= 0 && j >= i + p.len() {
        Some(text.subrange(i + p.len(), j))
    } else {
        None
    }
}

/// Extracts the loader version from the server's start script text.
#[verifier::loop_isolation(false)]
pub fn neoforge_version(script: &str) -> (r: Option<String>)
    ensures
        match r {
            Some(v) => spec_neoforge_version(script@) == Some(v@),
            None => spec_neoforge_version(script@) is None,
        },
{
    proof {
        reveal_strlit("libraries/net/neoforged/neoforge/");
        reveal_strlit("/unix_args.txt");
        crate::parse::lemma_first_match(script@, "libraries/net/neoforged/neoforge/"@);
    }
    let i = match crate::text::find_first(script, "libraries/net/neoforged/neoforge/") {
        Some(i) => i,
        None => {
            proof {
                let fm = crate::parse::first_match(script@, "libraries/net/neoforged/neoforge/"@);
                if fm >= 0 {
                    assert(match_at(script@, "libraries/net/neoforged/neoforge/"@, fm));
                }
            }
            return None;
        },
    };
    proof {
        let fm = crate::parse::first_match(script@, "libraries/net/neoforged/neoforge/"@);
        if fm < 0 {
            assert(!match_at(script@, "libraries/net/neoforged/neoforge/"@, i as int));
        }
        assert(fm == i);
    }
    let n = script.unicode_len();
    proof {
        assert("/unix_args.txt"@.len() == 14);
    }
    if n < 14 {
        proof {
            lemma_rfind_from(script@, "/unix_args.txt"@, script@.len() - 14);
        }
        return None;
    }
    let mut j: usize = n - 14;
    loop
        invariant
            n == script@.len(),
            n >= 14,
            0 <= j <= n - 14,
            rfind_from(script@, "/unix_args.txt"@, script@.len() - 14) == rfind_from(
                script@,
                "/unix_args.txt"@,
                j as int,
            ),
        decreases j,
    {
        if crate::text::match_at_idx(script, "/unix_args.txt", j) {
            proof {
                lemma_rfind_from(script@, "/unix_args.txt"@, j as int);
            }
            let plen: usize = 33;
            proof {
                assert("libraries/net/neoforged/neoforge/"@.len() == 33);
            }
            if j >= i + plen {
                let mid = script.substring_char(i + plen, j);
                let r = mid.to_owned();
                return Some(r);
            } else {
                return None;
            }
        }
        if j == 0 {
            proof {
                lemma_rfind_from(script@, "/unix_args.txt"@, 0);
            }
            return None;
        }
        j = j - 1;
    }
}

/// Whether a published version fits the server: built for the neoforge
/// loader and game version the server runs, and carrying the requested
/// mod version unless the mod is client-side only.
pub open spec fn spec_suitable(v: &Version, m: ModV) -> bool {
    &&& exists|k: int| 0 <= k < v.loaders@.len() && (#[trigger] v.loaders@[k])@ == "neoforge"@
    &&& exists|k: int|
        0 <= k < v.game_versions@.len() && (#[trigger] v.game_versions@[k])@ == "1.21.1"@
    &&& (m.client_side_only || contains_seq(v.version_number@, m.version))
}

fn string_list_has(list: &Vec<String>, needle: &str) -> (b: bool)
    ensures
        b == exists|k: int| 0 <= k < list@.len() && (#[trigger] list@[k])@ == needle@,
{
    let n = list.len();
    for k in 0..n
        invariant
            n == list@.len(),
            forall|t: int| 0 <= t < k ==> (#[trigger] list@[t])@ != needle@,
    {
        if str_eq(list[k].as_str(), needle) {
            return true;
        }
    }
    false
}

fn is_suitable(v: &Version, m: &Mod) -> (b: bool)
    ensures
        b == spec_suitable(v, m@),
{
    string_list_has(&v.loaders, "neoforge") && string_list_has(&v.game_versions, "1.21.1") && (
    m.client_side_only || contains_str(v.version_number.as_str(), m.version.as_str()))
}

/// Index of the first published version that fits the server, if any.
#[verifier::loop_isolation(false)]
pub fn select_version(versions: &Vec<Version>, m: &Mod) -> (r: Option<usize>)
    ensures
        match r {
            Some(i) => i < versions@.len() && spec_suitable(&versions@[i as int], m@) && forall|
                t: int,
            | 0 <= t < i ==> !spec_suitable(&versions@[t], m@),
            None => forall|t: int| 0 <= t < versions@.len() ==> !spec_suitable(&versions@[t], m@),
        },
{
    let n = versions.len();
    for k in 0..n
        invariant
            n == versions@.len(),
            forall|t: int| 0 <= t < k ==> !spec_suitable(&versions@[t], m@),
    {
        if is_suitable(&versions[k], m) {
            return Some(k);
        }
    }
    None
}

/// Index of the primary file of a version, or the first file when none is
/// flagged primary.
pub fn primary_file_index(files: &Vec<VersionFile>) -> (r: usize)
    ensures
        (exists|t: int| 0 <= t < files@.len() && (#[trigger] files@[t]).primary) ==> r
            < files@.len() && files@[r as int].primary && forall|t: int|
            0 <= t < r ==> !(#[trigger] files@[t]).primary,
        !(exists|t: int| 0 <= t < files@.len() && (#[trigger] files@[t]).primary) ==> r == 0,
{
    let n = files.len();
    for k in 0..n
        invariant
            n == files@.len(),
            forall|t: int| 0 <= t < k ==> !(#[trigger] files@[t]).primary,
    {
        if files[k].primary {
            return k;
        }
    }
    0
}

/// The pack entry for one mod's chosen file: stored under the pack's mods
/// directory, required on the client exactly when the mod is mandatory.
pub fn build_project(m: &Mod, file: &VersionFile) -> (p: Project)
    ensures
        p.path@ == "mods/"@ + file.filename@,
        p.hashes.sha512@ == file.hashes.sha512@,
        p.hashes.sha1@ == file.hashes.sha1@,
        m.mandatory ==> p.env.client@ == "required"@,
        !m.mandatory ==> p.env.client@ == "optional"@,
        p.downloads@.len() == 1 && p.downloads@[0]@ == file.url@,
        p.file_size == file.size,
        p.version@ == m.version@,
{
    let path = String::from_str("mods/").concat(file.filename.as_str());
    let client = if m.mandatory {
        String::from_str("required")
    } else {
        String::from_str("optional")
    };
    let mut downloads: Vec<String> = Vec::new();
    downloads.push(file.url.clone());
    Project {
        path,
        hashes: Hashes { sha512: file.hashes.sha512.clone(), sha1: file.hashes.sha1.clone() },
        env: Env { client },
        downloads,
        file_size: file.size,
        version: m.version.clone(),
    }
}

/// Whether a cached registry answer may still be served: a pinned version
/// must match the request exactly, and an answer tracking the latest
/// version goes stale after 72 hours.
pub open spec fn spec_cache_fresh(
    requested: Seq<char>,
    cached: Seq<char>,
    cached_at: u64,
    now: u64,
) -> bool {
    if cached == "latest"@ {
        now >= cached_at && now - cached_at < 259200
    } else {
        requested == cached
    }
}

/// Whether a cached registry answer may still be served.
pub fn cache_entry_fresh(requested: &str, cached: &str, cached_at: u64, now: u64) -> (b: bool)
    ensures
        b == spec_cache_fresh(requested@, cached@, cached_at, now),
{
    if str_eq(cached, "latest") {
        now >= cached_at && now - cached_at < 259200
    } else {
        str_eq(requested, cached)
    }
}

/// A pack version tag for the day: year, month and day, zero-padded,
/// separated by dots.
pub open spec fn spec_version_id(d: crate::date::Date) -> Seq<char> {
    crate::date::year_chars(d.year as int) + seq!['.'] + crate::date::two_digits(d.month as int)
        + seq!['.'] + crate::date::two_digits(d.day as int)
}

/// The pack version tag for the given day.
pub fn version_id(d: &crate::date::Date) -> (r: String)
    requires
        crate::date::date_wf(*d),
    ensures
        r@ == spec_version_id(*d),
{
    let mut out = String::new();
    if d.year < 0 {
        crate::text::push_char(&mut out, '-');
        let m = (-(d.year as i64)) as u32;
        assert(m == -(d.year as int));
        crate::date::push_padded4(&mut out, m);
    } else {
        crate::date::push_padded4(&mut out, d.year as u32);
    }
    crate::text::push_char(&mut out, '.');
    let c1 = crate::date::digit_char_x(d.month / 10);
    crate::text::push_char(&mut out, c1);
    let c2 = crate::date::digit_char_x(d.month % 10);
    crate::text::push_char(&mut out, c2);
    crate::text::push_char(&mut out, '.');
    let c3 = crate::date::digit_char_x(d.day / 10);
    crate::text::push_char(&mut out, c3);
    let c4 = crate::date::digit_char_x(d.day % 10);
    crate::text::push_char(&mut out, c4);
    proof {
        assert(out@ =~= spec_version_id(*d));
    }
    out
}

impl ModPack {
    /// The pack manifest around the chosen files: fixed game, format and
    /// description, the given daily version tag, and the loader versions
    /// the server runs.
    pub fn new(files: Vec<Project>, neoforge_version: String, version_id: String) -> (p: ModPack)
        ensures
            p.game@ == "minecraft"@,
            p.format_version == 1,
            p.version_id@ == version_id@,
            p.name@ == "large biomes pack"@,
            p.summary@ == "the modpack for the large biomes server"@,
            p.files == files,
            p.dependencies.minecraft@ == "1.21.1"@,
            p.dependencies.neoforge@ == neoforge_version@,
    {
        ModPack {
            game: String::from_str("minecraft"),
            format_version: 1,
            version_id,
            name: String::from_str("large biomes pack"),
            summary: String::from_str("the modpack for the large biomes server"),
            files,
            dependencies: Dependencies {
                minecraft: String::from_str("1.21.1"),
                neoforge: neoforge_version,
            },
        }
    }
}

/// Field-by-field order on mods, each string by its characters, matching
/// how the lists are presented.
pub open spec fn mod_le(a: ModV, b: ModV) -> bool {
    if a.name != b.name {
        lex_le(a.name, b.name)
    } else if a.slug != b.slug {
        lex_le(a.slug, b.slug)
    } else if a.version != b.version {
        lex_le(a.version, b.version)
    } else if a.mandatory != b.mandatory {
        !a.mandatory
    } else if a.client_side_only != b.client_side_only {
        !a.client_side_only
    } else {
        true
    }
}

fn mod_le_x(a: &Mod, b: &Mod) -> (r: bool)
    ensures
        r == mod_le(a@, b@),
{
    if !str_eq(a.name.as_str(), b.name.as_str()) {
        str_lex_le(a.name.as_str(), b.name.as_str())
    } else if !str_eq(a.slug.as_str(), b.slug.as_str()) {
        str_lex_le(a.slug.as_str(), b.slug.as_str())
    } else if !str_eq(a.version.as_str(), b.version.as_str()) {
        str_lex_le(a.version.as_str(), b.version.as_str())
    } else if a.mandatory != b.mandatory {
        !a.mandatory
    } else if a.client_side_only != b.client_side_only {
        !a.client_side_only
    } else {
        true
    }
}

/// A mod inserted after every entry that does not come after it.
pub open spec fn insert_mod(x: ModV, s: Seq<ModV>) -> Seq<ModV>
    decreases s.len(),
{
    if s.len() == 0 {
        seq![x]
    } else if mod_le(s[0], x) {
        seq![s[0]] + insert_mod(x, s.drop_first())
    } else {
        seq![x] + s
    }
}

/// The mods sorted by `mod_le`; a stable insertion sort.
pub open spec fn sort_mods(s: Seq<ModV>) -> Seq<ModV>
    decreases s.len(),
{
    if s.len() == 0 {
        seq![]
    } else {
        insert_mod(s.last(), sort_mods(s.drop_last()))
    }
}

proof fn lemma_insert_mod_at(x: ModV, s: Seq<ModV>, j: int)
    requires
        0 <= j <= s.len(),
        forall|k: int| 0 <= k < j ==> mod_le(#[trigger] s[k], x),
        j < s.len() ==> !mod_le(s[j], x),
    ensures
        insert_mod(x, s) == s.subrange(0, j) + seq![x] + s.skip(j),
    decreases j,
{
    if j == 0 {
        if s.len() == 0 {
            assert(insert_mod(x, s) =~~= s.subrange(0, 0) + seq![x] + s.skip(0));
        } else {
            assert(insert_mod(x, s) == seq![x] + s);
            assert(insert_mod(x, s) =~~= s.subrange(0, 0) + seq![x] + s.skip(0));
        }
    } else {
        assert(mod_le(s[0], x));
        assert forall|k: int| 0 <= k < j - 1 implies mod_le(#[trigger] s.drop_first()[k], x) by {
            assert(s.drop_first()[k] == s[k + 1]);
        }
        if j - 1 < s.drop_first().len() {
            assert(s.drop_first()[j - 1] == s[j]);
        }
        lemma_insert_mod_at(x, s.drop_first(), j - 1);
        assert(insert_mod(x, s) == seq![s[0]] + (s.drop_first().subrange(0, j - 1) + seq![x]
            + s.drop_first().skip(j - 1)));
        assert(seq![s[0]] + (s.drop_first().subrange(0, j - 1) + seq![x] + s.drop_first().skip(
            j - 1,
        )) =~~= s.subrange(0, j) + seq![x] + s.skip(j));
    }
}

/// The mods sorted for presentation.
#[verifier::loop_isolation(false)]
fn sort_mod_list(mods: Vec<Mod>) -> (r: Vec<Mod>)
    ensures
        r.deep_view() == sort_mods(mods.deep_view()),
{
    let n = mods.len();
    let mut out: Vec<Mod> = Vec::new();
    proof {
        assert(mods.deep_view().take(0) =~= Seq::<ModV>::empty());
        assert(out.deep_view() =~~= sort_mods(mods.deep_view().take(0)));
        assert(mods.deep_view().len() == mods@.len());
    }
    for i in 0..n
        invariant
            n == mods@.len(),
            out.deep_view() == sort_mods(mods.deep_view().take(i as int)),
            out@.len() == i,
    {
        let x = copy_mod(&mods[i]);
        let m = out.len();
        let mut j: usize = 0;
        while j < m && mod_le_x(&out[j], &x)
            invariant
                m == out@.len(),
                0 <= j <= m,
                x@ == mods@[i as int]@,
                forall|k: int| 0 <= k < j ==> mod_le((#[trigger] out@[k])@, x@),
            decreases m - j,
        {
            j += 1;
        }
        let ghost prev_dv: Seq<ModV> = out.deep_view();
        let ghost prev_v: Seq<Mod> = out@;
        out.insert(j, x);
        proof {
            let mv = mods.deep_view();
            assert(mv.take(i + 1).drop_last() =~= mv.take(i as int));
            assert(mv.take(i + 1).last() == mv[i as int]);
            assert(mv[i as int] == mods@[i as int]@);
            assert forall|k: int| 0 <= k < j implies mod_le(#[trigger] prev_dv[k], mv[i as int]) by {
                assert(prev_dv[k] == prev_v[k]@);
            }
            if j < prev_v.len() {
                assert(prev_dv[j as int] == prev_v[j as int]@);
            }
            lemma_insert_mod_at(mv[i as int], prev_dv, j as int);
            assert forall|k: int|
                0 <= k < out.deep_view().len() implies #[trigger] out.deep_view()[k] == (
            prev_dv.subrange(0, j as int) + seq![mv[i as int]] + prev_dv.skip(j as int))[k] by {
                assert(out.deep_view()[k] == out@[k]@);
                assert(out@ == prev_v.insert(j as int, x));
                if k < j {
                    assert(out@[k] == prev_v[k]);
                    assert(prev_dv[k] == prev_v[k]@);
                } else if k == j {
                    assert(out@[k] == x);
                } else {
                    assert(out@[k] == prev_v[k - 1]);
                    assert(prev_dv[k - 1] == prev_v[k - 1]@);
                }
            }
            assert(out.deep_view() =~~= insert_mod(mv[i as int], prev_dv));
            assert(out.deep_view() =~~= sort_mods(mv.take(i + 1)));
        }
    }
    proof {
        assert(mods.deep_view().take(n as int) =~= mods.deep_view());
    }
    out
}

/// A copy of a mod entry, field for field.
pub fn copy_mod(m: &Mod) -> (r: Mod)
    ensures
        r@ == m@,
{
    Mod {
        name: m.name.clone(),
        slug: m.slug.clone(),
        version: m.version.clone(),
        mandatory: m.mandatory,
        client_side_only: m.client_side_only,
    }
}

/// The presentation lists: the server's required mods and merely supported
/// mods, each sorted, and the recommended client-side list as given.
#[verifier::loop_isolation(false)]
pub fn get_mods(server: Vec<Mod>, client_side: Vec<Mod>, neoforge_version: String) -> (r: Mods)
    ensures
        r.neoforge_version@ == neoforge_version@,
        r.required.deep_view() == sort_mods(
            server.deep_view().filter(|m: ModV| m.mandatory),
        ),
        r.recommended.deep_view() == sort_mods(
            server.deep_view().filter(|m: ModV| !m.mandatory),
        ),
        r.client_side.deep_view() == client_side.deep_view(),
{
    let ghost sv: Seq<ModV> = server.deep_view();
    let n = server.len();
    let mut req: Vec<Mod> = Vec::new();
    let mut rec: Vec<Mod> = Vec::new();
    let ghost predm = |m: ModV| m.mandatory;
    let ghost predo = |m: ModV| !m.mandatory;
    proof {
        assert(sv.take(0) =~= Seq::<ModV>::empty());
        reveal(Seq::filter);
        assert(req.deep_view() =~~= sv.take(0).filter(predm));
        assert(rec.deep_view() =~~= sv.take(0).filter(predo));
        assert(sv.len() == server@.len());
    }
    for k in 0..n
        invariant
            n == server@.len(),
            sv == server.deep_view(),
            predm == (|m: ModV| m.mandatory),
            predo == (|m: ModV| !m.mandatory),
            req.deep_view() == sv.take(k as int).filter(predm),
            rec.deep_view() == sv.take(k as int).filter(predo),
    {
        proof {
            lemma_filter_take_push(sv, predm, k as int);
            lemma_filter_take_push(sv, predo, k as int);
            assert(sv[k as int] == server@[k as int]@);
        }
        let item = copy_mod(&server[k]);
        let ghost req_dv: Seq<ModV> = req.deep_view();
        let ghost req_v: Seq<Mod> = req@;
        let ghost rec_dv: Seq<ModV> = rec.deep_view();
        let ghost rec_v: Seq<Mod> = rec@;
        if item.mandatory {
            req.push(item);
            proof {
                assert forall|t: int|
                    0 <= t < req.deep_view().len() implies #[trigger] req.deep_view()[t]
                    == req_dv.push(sv[k as int])[t] by {
                    assert(req.deep_view()[t] == req@[t]@);
                    if t < req_v.len() {
                        assert(req@[t] == req_v[t]);
                        assert(req_dv[t] == req_v[t]@);
                    }
                }
                assert(req.deep_view() =~~= req_dv.push(sv[k as int]));
                assert(req.deep_view() =~~= sv.take(k + 1).filter(predm));
                assert(rec.deep_view() =~~= sv.take(k + 1).filter(predo));
            }
        } else {
            rec.push(item);
            proof {
                assert forall|t: int|
                    0 <= t < rec.deep_view().len() implies #[trigger] rec.deep_view()[t]
                    == rec_dv.push(sv[k as int])[t] by {
                    assert(rec.deep_view()[t] == rec@[t]@);
                    if t < rec_v.len() {
                        assert(rec@[t] == rec_v[t]);
                        assert(rec_dv[t] == rec_v[t]@);
                    }
                }
                assert(rec.deep_view() =~~= rec_dv.push(sv[k as int]));
                assert(rec.deep_view() =~~= sv.take(k + 1).filter(predo));
                assert(req.deep_view() =~~= sv.take(k + 1).filter(predm));
            }
        }
    }
    proof {
        assert(sv.take(n as int) =~= sv);
    }
    let required = sort_mod_list(req);
    let recommended = sort_mod_list(rec);
    Mods { neoforge_version, required, recommended, client_side }
}

} // verus!
