//! Manifests of a workspace (`workspace.yaml`) and of its packages
//! (`package.yaml`), read line by line.
//!
//! A keyed list (`Vec<(String, V)>`) stands for a map: no key occurs twice in it,
//! and a key that is written again keeps its place and takes the new value.

use crate::text::{
    first_field, first_line, holds, lines, other_than, parse_u32, parse_u32_or_zero, run_len,
    second_field, starts_with, str_ends_with_char, str_eq, str_first_field, str_second_field,
    str_starts_with, str_trim, str_trim_char, str_trim_char_end, str_trim_char_start, tail, trim,
    trim_char_end, trim_char_start, until_char,
};
use vstd::prelude::*;
use vstd::string::*;

verus! {

/// A dependency declared by the workspace.
#[derive(Debug, Clone)]
pub struct Dependency {
    pub version: String,
    pub features: Vec<String>,
}

/// A build profile.
#[derive(Debug, Clone)]
pub struct Profile {
    pub target: String,
    pub opt_level: u32,
    pub debug: bool,
    pub lto: bool,
    pub strip: bool,
}

/// A binary target: its name and its source path, relative to the source directory.
#[derive(Debug, Clone)]
pub struct BinaryTarget {
    pub name: String,
    pub path: String,
}

/// The library target of a package.
#[derive(Debug, Clone)]
pub struct LibraryTarget {
    pub path: String,
}

/// A test target.
#[derive(Debug, Clone)]
pub struct TestTarget {
    pub name: String,
    pub path: String,
}

/// A benchmark target.
#[derive(Debug, Clone)]
pub struct BenchTarget {
    pub name: String,
    pub path: String,
}

/// The manifest of a workspace.
#[derive(Debug, Clone)]
pub struct WorkspaceManifest {
    pub root: String,
    pub name: String,
    pub members: Vec<String>,
    pub dependencies: Vec<(String, Dependency)>,
    pub profiles: Vec<(String, Profile)>,
}

/// The manifest of a package.
#[derive(Debug, Clone)]
pub struct PackageManifest {
    pub name: String,
    pub version: String,
    pub edition: String,
    pub description: Option<String>,
    pub src_dir: String,
    pub bins: Vec<BinaryTarget>,
    pub lib: Option<LibraryTarget>,
    pub tests: Vec<TestTarget>,
    pub benches: Vec<BenchTarget>,
    pub dependencies: Vec<(String, String)>,
}

// ---------------------------------------------------------------- keyed lists

/// The first position of `k` in `keys`, or -1 when it does not occur.
pub open spec fn key_position(keys: Seq<Seq<char>>, k: Seq<char>) -> int {
    if exists|i: int| 0 <= i < keys.len() && keys[i] == k && forall|j: int| 0 <= j < i ==> keys[j] != k {
        choose|i: int| 0 <= i < keys.len() && keys[i] == k && forall|j: int| 0 <= j < i ==> keys[j] != k
    } else {
        -1
    }
}

/// The first position of `k` in `keys` is the `i` where it first occurs.
pub proof fn lemma_key_position(keys: Seq<Seq<char>>, k: Seq<char>, i: int)
    requires
        -1 <= i < keys.len(),
        forall|j: int| 0 <= j < i ==> keys[j] != k,
        i >= 0 ==> keys[i] == k,
        i < 0 ==> forall|j: int| 0 <= j < keys.len() ==> keys[j] != k,
    ensures
        key_position(keys, k) == i,
{
    if i >= 0 {
        let p = choose|p: int| 0 <= p < keys.len() && keys[p] == k && forall|j: int| 0 <= j < p ==> keys[j] != k;
        assert(0 <= i < keys.len() && keys[i] == k && forall|j: int| 0 <= j < i ==> keys[j] != k);
        if p < i {
            assert(keys[p] != k);
        } else if p > i {
            assert(keys[i] != k);
        }
    }
}

/// The keys of a keyed list.
pub open spec fn keys_of<W>(s: Seq<(Seq<char>, W)>) -> Seq<Seq<char>> {
    s.map_values(|p: (Seq<char>, W)| p.0)
}

/// The keyed list `s` with key `k` set to `v`: in place when `k` is there, else at the end.
pub open spec fn put<W>(s: Seq<(Seq<char>, W)>, k: Seq<char>, v: W) -> Seq<(Seq<char>, W)> {
    let i = key_position(keys_of(s), k);
    if i >= 0 {
        s.update(i, (k, v))
    } else {
        s.push((k, v))
    }
}

/// The value of key `k` in the keyed list `s`.
pub open spec fn lookup<W>(s: Seq<(Seq<char>, W)>, k: Seq<char>) -> Option<W> {
    let i = key_position(keys_of(s), k);
    if i >= 0 {
        Some(s[i].1)
    } else {
        None
    }
}

/// No key occurs twice in `s`.
pub open spec fn unique_keys<W>(s: Seq<(Seq<char>, W)>) -> bool {
    forall|i: int, j: int| 0 <= i < j < s.len() ==> s[i].0 != s[j].0
}

/// The keys of an executable keyed list.
pub open spec fn string_keys<V>(s: Seq<(String, V)>) -> Seq<Seq<char>> {
    s.map_values(|p: (String, V)| p.0@)
}

/// The model of an executable keyed list whose values are modelled by `g`.
pub open spec fn keyed_model<V, W>(s: Seq<(String, V)>, g: spec_fn(V) -> W) -> Seq<(Seq<char>, W)> {
    s.map_values(|p: (String, V)| (p.0@, g(p.1)))
}

/// Setting a key keeps the keys unique, and makes a later lookup of it give the new value.
pub proof fn lemma_put<W>(s: Seq<(Seq<char>, W)>, k: Seq<char>, v: W)
    requires
        unique_keys(s),
    ensures
        unique_keys(put(s, k, v)),
        lookup(put(s, k, v), k) == Some(v),
        forall|k2: Seq<char>| k2 != k ==> lookup(put(s, k, v), k2) == lookup(s, k2),
{
    let i = key_position(keys_of(s), k);
    let t = put(s, k, v);
    let ks = keys_of(s);
    if i >= 0 {
        assert(0 <= i < ks.len() && ks[i] == k);
        assert(keys_of(t) =~= ks);
        lemma_key_position(keys_of(t), k, i);
    } else {
        assert forall|j: int| 0 <= j < ks.len() implies ks[j] != k by {
            if ks[j] == k {
                lemma_first_occurrence(ks, k, j);
            }
        }
        assert(keys_of(t) =~= ks.push(k));
        lemma_key_position(keys_of(t), k, s.len() as int);
    }
    assert forall|a: int, b: int| 0 <= a < b < t.len() implies t[a].0 != t[b].0 by {
        assert(keys_of(t)[a] == t[a].0);
        assert(keys_of(t)[b] == t[b].0);
        if b < s.len() {
            assert(ks[a] == s[a].0);
            assert(ks[b] == s[b].0);
        } else {
            assert(ks[a] == s[a].0);
        }
    }
    assert forall|k2: Seq<char>| k2 != k implies lookup(t, k2) == lookup(s, k2) by {
        let p = key_position(ks, k2);
        let kt = keys_of(t);
        if p >= 0 {
            assert(0 <= p < ks.len() && ks[p] == k2 && forall|j: int| 0 <= j < p ==> ks[j] != k2);
            assert forall|j: int| 0 <= j < p implies kt[j] != k2 by {
                if i >= 0 && j == i {
                } else {
                    assert(kt[j] == ks[j]);
                }
            }
            lemma_key_position(kt, k2, p);
        } else {
            assert forall|j: int| 0 <= j < kt.len() implies kt[j] != k2 by {
                if j < ks.len() && !(i >= 0 && j == i) {
                    assert(kt[j] == ks[j]);
                    if ks[j] == k2 {
                        lemma_first_occurrence(ks, k2, j);
                    }
                }
            }
            lemma_key_position(kt, k2, -1);
        }
    }
}

/// When `k` occurs in `keys`, it has a first position.
pub proof fn lemma_first_occurrence(keys: Seq<Seq<char>>, k: Seq<char>, j: int)
    requires
        0 <= j < keys.len(),
        keys[j] == k,
    ensures
        key_position(keys, k) >= 0,
    decreases j,
{
    if exists|m: int| 0 <= m < j && keys[m] == k {
        let m = choose|m: int| 0 <= m < j && keys[m] == k;
        lemma_first_occurrence(keys, k, m);
    } else {
        assert(0 <= j < keys.len() && keys[j] == k && forall|m: int| 0 <= m < j ==> keys[m] != k);
    }
}

/// Set key `k` to `v` in the executable keyed list `m`.
pub(crate) fn put_entry<V>(m: &mut Vec<(String, V)>, k: String, v: V)
    ensures
        ({
            let i = key_position(string_keys(old(m)@), k@);
            final(m)@ == if i >= 0 {
                old(m)@.update(i, (k, v))
            } else {
                old(m)@.push((k, v))
            }
        }),
{
    let len = m.len();
    let mut i: usize = 0;
    while i < len
        invariant
            len == m@.len(),
            m@ == old(m)@,
            i <= len,
            forall|j: int| 0 <= j < i ==> #[trigger] string_keys(m@)[j] != k@,
        decreases len - i,
    {
        if str_eq(m[i].0.as_str(), k.as_str()) {
            proof {
                lemma_key_position(string_keys(m@), k@, i as int);
            }
            m.set(i, (k, v));
            return;
        }
        i = i + 1;
    }
    proof {
        lemma_key_position(string_keys(m@), k@, -1);
    }
    m.push((k, v));
}

/// The model of setting a key is setting the key in the model.
pub proof fn lemma_put_model<V, W>(s: Seq<(String, V)>, k: String, v: V, g: spec_fn(V) -> W)
    ensures
        ({
            let i = key_position(string_keys(s), k@);
            keyed_model(if i >= 0 { s.update(i, (k, v)) } else { s.push((k, v)) }, g) == put(
                keyed_model(s, g),
                k@,
                g(v),
            )
        }),
{
    assert(string_keys(s) =~= keys_of(keyed_model(s, g)));
    let i = key_position(string_keys(s), k@);
    if i >= 0 {
        assert(keyed_model(s.update(i, (k, v)), g) =~= keyed_model(s, g).update(i, (k@, g(v))));
    } else {
        assert(keyed_model(s.push((k, v)), g) =~= keyed_model(s, g).push((k@, g(v))));
    }
}


// ---------------------------------------------------------------- values of a line

/// What `extract_value` gives for `line`: the text between its first and second `:`,
/// trimmed, without the `"` at either end.
pub open spec fn extracted(line: Seq<char>) -> Seq<char> {
    trim_char_end(trim_char_start(trim(second_field(line, ':')), '"'), '"')
}

/// The value of a `key: value` line.
pub fn extract_value(line: &str) -> (r: String)
    ensures
        r@ == extracted(line@),
{
    str_trim_char(str_trim(str_second_field(line, ':')), '"').to_string()
}

/// A line that starts a section: it does not start with a space or a tab.
pub open spec fn top_level(line: Seq<char>) -> bool {
    !(line.len() > 0 && (line[0] == ' ' || line[0] == '\t'))
}

/// A trimmed line that is skipped: empty, or a `#` comment.
pub open spec fn skipped(t: Seq<char>) -> bool {
    t.len() == 0 || t[0] == '#'
}

fn is_top_level(line: &str) -> (b: bool)
    ensures
        b == top_level(line@),
{
    !(line.unicode_len() > 0 && (line.get_char(0) == ' ' || line.get_char(0) == '\t'))
}

fn is_skipped(t: &str) -> (b: bool)
    ensures
        b == skipped(t@),
{
    t.unicode_len() == 0 || t.get_char(0) == '#'
}

// ---------------------------------------------------------------- workspace manifest

/// The settings of a profile, as its lines give them.
#[derive(Clone, Copy)]
pub struct ProfileSettings {
    pub opt_level: u32,
    pub debug: bool,
    pub lto: bool,
    pub strip: bool,
}

/// The settings of a profile before any of its lines.
pub open spec fn default_settings() -> ProfileSettings {
    ProfileSettings { opt_level: 0, debug: false, lto: false, strip: false }
}

/// The section of a workspace manifest that a line belongs to.
#[derive(Clone, Copy, PartialEq, Eq, Structural)]
pub enum WorkspaceSection {
    Unset,
    Workspace,
    Profiles,
    Package,
}

/// What the lines of a workspace manifest read so far have given.
pub struct WorkspaceScan {
    pub section: WorkspaceSection,
    pub in_members: bool,
    pub in_deps: bool,
    pub in_profiles: bool,
    pub in_profile: bool,
    pub profile_name: Seq<char>,
    pub name: Seq<char>,
    pub members: Seq<Seq<char>>,
    pub deps: Seq<(Seq<char>, Seq<char>)>,
    pub profiles: Seq<(Seq<char>, ProfileSettings)>,
}

/// The scan before the first line.
pub open spec fn workspace_start() -> WorkspaceScan {
    WorkspaceScan {
        section: WorkspaceSection::Unset,
        in_members: false,
        in_deps: false,
        in_profiles: false,
        in_profile: false,
        profile_name: Seq::empty(),
        name: "unnamed"@,
        members: Seq::empty(),
        deps: Seq::empty(),
        profiles: Seq::empty(),
    }
}

/// The text of `s` after its first `c` (nothing when it holds none).
pub open spec fn after_first(s: Seq<char>, c: char) -> Seq<char> {
    if holds(s, c) {
        s.skip(run_len(s, other_than(c)) + 1int)
    } else {
        Seq::empty()
    }
}

/// The value of a `key: value` line: its text after the first `:`, trimmed.
pub open spec fn line_value(t: Seq<char>) -> Seq<char> {
    trim(after_first(t, ':'))
}

/// The text inside a flow collection `v` that opens with `open` and closes with `close`.
pub open spec fn flow_inner(v: Seq<char>, open: char, close: char) -> Seq<char> {
    trim_char_end(trim_char_start(v, open), close)
}

/// A member named by an item of a flow list: the item trimmed, without `"` at either end.
pub open spec fn member_text(item: Seq<char>) -> Seq<char> {
    trim_char_end(trim_char_start(trim(item), '"'), '"')
}

/// The members that the comma-separated items `s` of a flow list name, empty items
/// left out.
pub open spec fn flow_members(s: Seq<char>) -> Seq<Seq<char>>
    decreases s.len(),
{
    if s.len() == 0 {
        Seq::empty()
    } else {
        let m = member_text(first_field(s, ','));
        (if m.len() == 0 {
            Seq::empty()
        } else {
            seq![m]
        }) + flow_members(after_first(s, ','))
    }
}

/// The members that a `members:` line adds: those of its flow list `[a, b, ...]`,
/// if it has one.
pub open spec fn members_of_line(t: Seq<char>) -> Seq<Seq<char>> {
    if starts_with(line_value(t), "["@) {
        flow_members(flow_inner(line_value(t), '[', ']'))
    } else {
        Seq::empty()
    }
}

/// A trimmed line `t` of the `workspace:` section.
pub open spec fn workspace_entry(st: WorkspaceScan, t: Seq<char>) -> WorkspaceScan {
    if starts_with(t, "name:"@) {
        WorkspaceScan { name: extracted(t), ..st }
    } else if starts_with(t, "members:"@) {
        WorkspaceScan {
            in_members: true,
            in_deps: false,
            in_profiles: false,
            members: st.members + members_of_line(t),
            ..st
        }
    } else if starts_with(t, "dependencies:"@) {
        WorkspaceScan { in_members: false, in_deps: true, in_profiles: false, ..st }
    } else if starts_with(t, "profiles:"@) {
        WorkspaceScan { in_members: false, in_deps: false, in_profiles: true, in_profile: false, ..st }
    } else if st.in_profiles {
        profile_entry(st, t)
    } else if st.in_members && starts_with(t, "- "@) {
        WorkspaceScan {
            members: st.members.push(trim_char_end(trim_char_start(trim(t.skip(2)), '"'), '"')),
            ..st
        }
    } else if st.in_deps && holds(t, ':') {
        WorkspaceScan {
            deps: put(st.deps, trim(first_field(t, ':')), extracted(trim(second_field(t, ':')))),
            ..st
        }
    } else {
        st
    }
}

/// The settings `p` after the trimmed line `t` of a profile.
pub open spec fn profile_setting(p: ProfileSettings, t: Seq<char>) -> ProfileSettings {
    if starts_with(t, "opt_level:"@) || starts_with(t, "opt-level:"@) {
        ProfileSettings {
            opt_level: match parse_u32(extracted(t)) {
                Some(v) => v,
                None => 0,
            },
            ..p
        }
    } else if starts_with(t, "debug:"@) {
        ProfileSettings { debug: extracted(t) == "true"@, ..p }
    } else if starts_with(t, "lto:"@) {
        ProfileSettings { lto: extracted(t) == "true"@, ..p }
    } else if starts_with(t, "strip:"@) {
        ProfileSettings { strip: extracted(t) == "true"@, ..p }
    } else {
        p
    }
}

/// The settings `p` after the comma-separated entries `s` of a flow map.
pub open spec fn flow_settings(p: ProfileSettings, s: Seq<char>) -> ProfileSettings
    decreases s.len(),
{
    if s.len() == 0 {
        p
    } else {
        flow_settings(profile_setting(p, trim(first_field(s, ','))), after_first(s, ','))
    }
}

/// The settings that profile `name` has so far.
pub open spec fn settings_so_far(st: WorkspaceScan, name: Seq<char>) -> ProfileSettings {
    match lookup(st.profiles, name) {
        Some(p) => p,
        None => default_settings(),
    }
}

/// A trimmed line `t` of the profiles: `name:` starts a profile, and each line inside
/// one sets one of its settings; `name: { key: value, ... }` gives a profile its
/// settings in one line.
pub open spec fn profile_entry(st: WorkspaceScan, t: Seq<char>) -> WorkspaceScan {
    if t.len() > 0 && t.last() == ':' {
        WorkspaceScan { profile_name: trim_char_end(t, ':'), in_profile: true, ..st }
    } else if holds(t, ':') && starts_with(line_value(t), "{"@) {
        let name = trim(first_field(t, ':'));
        WorkspaceScan {
            profiles: put(
                st.profiles,
                name,
                flow_settings(settings_so_far(st, name), flow_inner(line_value(t), '{', '}')),
            ),
            in_profile: false,
            ..st
        }
    } else if st.in_profile {
        WorkspaceScan {
            profiles: put(
                st.profiles,
                st.profile_name,
                profile_setting(settings_so_far(st, st.profile_name), t),
            ),
            ..st
        }
    } else {
        st
    }
}

/// The scan after one more line of a workspace manifest.
pub open spec fn workspace_line(st: WorkspaceScan, line: Seq<char>) -> WorkspaceScan {
    let t = trim(line);
    if skipped(t) {
        st
    } else if top_level(line) {
        WorkspaceScan {
            section: if t == "workspace:"@ {
                WorkspaceSection::Workspace
            } else if t == "profiles:"@ {
                WorkspaceSection::Profiles
            } else if starts_with(t, "package:"@) {
                WorkspaceSection::Package
            } else {
                st.section
            },
            in_members: false,
            in_deps: false,
            in_profiles: false,
            in_profile: false,
            ..st
        }
    } else {
        match st.section {
            WorkspaceSection::Workspace => workspace_entry(st, t),
            WorkspaceSection::Profiles => profile_entry(st, t),
            _ => st,
        }
    }
}

/// The scan after the lines `ls`, from `st`.
pub open spec fn workspace_scan(st: WorkspaceScan, ls: Seq<Seq<char>>) -> WorkspaceScan
    decreases ls.len(),
{
    if ls.len() == 0 {
        st
    } else {
        workspace_scan(workspace_line(st, ls[0]), ls.drop_first())
    }
}

/// The output directory of the profile `name`.
pub open spec fn profile_target(name: Seq<char>) -> Seq<char> {
    "target/"@ + name
}

/// `p` is the profile `name` with settings `s`.
pub open spec fn profile_is(p: Profile, name: Seq<char>, s: ProfileSettings) -> bool {
    &&& p.target@ == profile_target(name)
    &&& p.opt_level == s.opt_level
    &&& p.debug == s.debug
    &&& p.lto == s.lto
    &&& p.strip == s.strip
}

/// `m` is the manifest at `root` that the scan `st` describes.
pub open spec fn workspace_is(m: WorkspaceManifest, root: Seq<char>, st: WorkspaceScan) -> bool {
    &&& m.root@ == root
    &&& m.name@ == st.name
    &&& m.members@.map_values(|x: String| x@) == st.members
    &&& m.dependencies@.len() == st.deps.len()
    &&& forall|i: int|
        #![trigger m.dependencies@[i]]
        0 <= i < st.deps.len() ==> {
            &&& m.dependencies@[i].0@ == st.deps[i].0
            &&& m.dependencies@[i].1.version@ == st.deps[i].1
            &&& m.dependencies@[i].1.features@.len() == 0
        }
    &&& m.profiles@.len() == st.profiles.len()
    &&& forall|i: int|
        #![trigger m.profiles@[i]]
        0 <= i < st.profiles.len() ==> {
            &&& m.profiles@[i].0@ == st.profiles[i].0
            &&& profile_is(m.profiles@[i].1, st.profiles[i].0, st.profiles[i].1)
        }
}

/// The text of `s` after its first `c`.
fn str_after_first<'a>(s: &'a str, c: char) -> (r: &'a str)
    ensures
        r@ == after_first(s@, c),
{
    let a = until_char(s, c);
    if a < s.unicode_len() {
        tail(s, a + 1)
    } else {
        let r = s.substring_char(0, 0);
        assert(r@ =~= Seq::<char>::empty());
        r
    }
}

/// The value of a `key: value` line, after its first `:`.
fn str_line_value<'a>(t: &'a str) -> (r: &'a str)
    ensures
        r@ == line_value(t@),
{
    str_trim(str_after_first(t, ':'))
}

/// The text inside a flow collection.
fn str_flow_inner<'a>(v: &'a str, open: char, close: char) -> (r: &'a str)
    ensures
        r@ == flow_inner(v@, open, close),
{
    str_trim_char_end(str_trim_char_start(v, open), close)
}

/// Add to `out` the members that the items `s` of a flow list name.
fn push_flow_members(out: &mut Vec<String>, s: &str)
    ensures
        final(out)@.map_values(|x: String| x@) == old(out)@.map_values(|x: String| x@)
            + flow_members(s@),
{
    let ghost start = out@.map_values(|x: String| x@);
    let mut rest = s;
    proof {
        assert(start + flow_members(s@) =~= out@.map_values(|x: String| x@) + flow_members(rest@));
    }
    while rest.unicode_len() > 0
        invariant
            start + flow_members(s@) == out@.map_values(|x: String| x@) + flow_members(rest@),
        decreases rest@.len(),
    {
        let item = str_trim_char(str_trim(str_first_field(rest, ',')), '"');
        let next = str_after_first(rest, ',');
        let ghost before = out@.map_values(|x: String| x@);
        if item.unicode_len() > 0 {
            let m = item.to_string();
            out.push(m);
            proof {
                assert(out@.map_values(|x: String| x@) =~= before.push(m@));
                assert(before + flow_members(rest@) =~= out@.map_values(|x: String| x@) + flow_members(next@));
            }
        } else {
            proof {
                assert(before + flow_members(rest@) =~= before + flow_members(next@));
            }
        }
        rest = next;
    }
    proof {
        assert(out@.map_values(|x: String| x@) + flow_members(rest@) =~= out@.map_values(|x: String| x@));
    }
}

/// The settings `p` after the trimmed line `t` of a profile.
fn apply_setting(p: ProfileSettings, t: &str) -> (r: ProfileSettings)
    ensures
        r == profile_setting(p, t@),
{
    proof {
        reveal_strlit("opt_level:");
        reveal_strlit("opt-level:");
        reveal_strlit("debug:");
        reveal_strlit("lto:");
        reveal_strlit("strip:");
        reveal_strlit("true");
    }
    let mut r = p;
    if str_starts_with(t, "opt_level:") || str_starts_with(t, "opt-level:") {
        let v = extract_value(t);
        r.opt_level = parse_u32_or_zero(v.as_str());
    } else if str_starts_with(t, "debug:") {
        let v = extract_value(t);
        r.debug = str_eq(v.as_str(), "true");
    } else if str_starts_with(t, "lto:") {
        let v = extract_value(t);
        r.lto = str_eq(v.as_str(), "true");
    } else if str_starts_with(t, "strip:") {
        let v = extract_value(t);
        r.strip = str_eq(v.as_str(), "true");
    }
    r
}

/// The settings `p` after the entries `s` of a flow map.
fn apply_flow_settings(p: ProfileSettings, s: &str) -> (r: ProfileSettings)
    ensures
        r == flow_settings(p, s@),
{
    let mut q = p;
    let mut rest = s;
    while rest.unicode_len() > 0
        invariant
            flow_settings(p, s@) == flow_settings(q, rest@),
        decreases rest@.len(),
    {
        q = apply_setting(q, str_trim(str_first_field(rest, ',')));
        rest = str_after_first(rest, ',');
    }
    q
}

/// The state of a workspace manifest scan.
struct WorkspaceScanner {
    section: WorkspaceSection,
    in_members: bool,
    in_deps: bool,
    in_profiles: bool,
    in_profile: bool,
    profile_name: String,
    name: String,
    members: Vec<String>,
    deps: Vec<(String, String)>,
    profiles: Vec<(String, ProfileSettings)>,
}

/// The model of a string.
pub open spec fn text_of(x: String) -> Seq<char> {
    x@
}

/// The identity on profile settings.
pub open spec fn settings_of(p: ProfileSettings) -> ProfileSettings {
    p
}

impl WorkspaceScanner {
    spec fn model(&self) -> WorkspaceScan {
        WorkspaceScan {
            section: self.section,
            in_members: self.in_members,
            in_deps: self.in_deps,
            in_profiles: self.in_profiles,
            in_profile: self.in_profile,
            profile_name: self.profile_name@,
            name: self.name@,
            members: self.members@.map_values(|x: String| x@),
            deps: keyed_model(self.deps@, |x: String| text_of(x)),
            profiles: keyed_model(self.profiles@, |p: ProfileSettings| settings_of(p)),
        }
    }

    fn workspace_entry(&mut self, t: &str)
        ensures
            final(self).model() == workspace_entry(old(self).model(), t@),
    {
        proof {
            reveal_strlit("name:");
            reveal_strlit("members:");
            reveal_strlit("dependencies:");
            reveal_strlit("profiles:");
            reveal_strlit("- ");
            reveal_strlit("[");
        }
        if str_starts_with(t, "name:") {
            self.name = extract_value(t);
        } else if str_starts_with(t, "members:") {
            self.in_members = true;
            self.in_deps = false;
            self.in_profiles = false;
            let v = str_line_value(t);
            if str_starts_with(v, "[") {
                push_flow_members(&mut self.members, str_flow_inner(v, '[', ']'));
            } else {
                proof {
                    assert(self.members@.map_values(|x: String| x@) =~= self.members@.map_values(
                        |x: String| x@,
                    ) + Seq::<Seq<char>>::empty());
                }
            }
        } else if str_starts_with(t, "dependencies:") {
            self.in_members = false;
            self.in_deps = true;
            self.in_profiles = false;
        } else if str_starts_with(t, "profiles:") {
            self.in_members = false;
            self.in_deps = false;
            self.in_profiles = true;
            self.in_profile = false;
        } else if self.in_profiles {
            self.profile_entry(t);
        } else if self.in_members && str_starts_with(t, "- ") {
            let member = str_trim_char(str_trim(tail(t, 2)), '"').to_string();
            let ghost old_members = self.members@;
            self.members.push(member);
            proof {
                assert(self.members@.map_values(|x: String| x@) =~= old_members.map_values(
                    |x: String| x@,
                ).push(member@));
            }
        } else if self.in_deps && until_char(t, ':') < t.unicode_len() {
            let key = str_trim(str_first_field(t, ':')).to_string();
            let version = extract_value(str_trim(str_second_field(t, ':')));
            proof {
                lemma_put_model(self.deps@, key, version, |x: String| text_of(x));
            }
            put_entry(&mut self.deps, key, version);
        }
    }

    fn settings_so_far(&self, name: &str) -> (r: ProfileSettings)
        ensures
            r == settings_so_far(self.model(), name@),
    {
        match find_settings(&self.profiles, name) {
            Some(p) => p,
            None => ProfileSettings { opt_level: 0, debug: false, lto: false, strip: false },
        }
    }

    fn profile_entry(&mut self, t: &str)
        ensures
            final(self).model() == profile_entry(old(self).model(), t@),
    {
        proof {
            reveal_strlit("{");
        }
        if str_ends_with_char(t, ':') {
            self.profile_name = str_trim_char_end(t, ':').to_string();
            self.in_profile = true;
        } else if until_char(t, ':') < t.unicode_len() && str_starts_with(str_line_value(t), "{") {
            let name = str_trim(str_first_field(t, ':'));
            let p0 = self.settings_so_far(name);
            let p = apply_flow_settings(p0, str_flow_inner(str_line_value(t), '{', '}'));
            let key = name.to_string();
            proof {
                lemma_put_model(self.profiles@, key, p, |q: ProfileSettings| settings_of(q));
            }
            put_entry(&mut self.profiles, key, p);
            self.in_profile = false;
        } else if self.in_profile {
            let p0 = self.settings_so_far(self.profile_name.as_str());
            let p = apply_setting(p0, t);
            let key = self.profile_name.clone();
            proof {
                lemma_put_model(self.profiles@, key, p, |q: ProfileSettings| settings_of(q));
            }
            put_entry(&mut self.profiles, key, p);
        }
    }

    fn scan_line(&mut self, line: &str)
        ensures
            final(self).model() == workspace_line(old(self).model(), line@),
    {
        proof {
            reveal_strlit("workspace:");
            reveal_strlit("profiles:");
            reveal_strlit("package:");
        }
        let t = str_trim(line);
        if is_skipped(t) {
            return ;
        }
        if is_top_level(line) {
            if str_eq(t, "workspace:") {
                self.section = WorkspaceSection::Workspace;
            } else if str_eq(t, "profiles:") {
                self.section = WorkspaceSection::Profiles;
            } else if str_starts_with(t, "package:") {
                self.section = WorkspaceSection::Package;
            }
            self.in_members = false;
            self.in_deps = false;
            self.in_profiles = false;
            self.in_profile = false;
            return ;
        }
        match self.section {
            WorkspaceSection::Workspace => self.workspace_entry(t),
            WorkspaceSection::Profiles => self.profile_entry(t),
            _ => {},
        }
    }
}

/// The settings of profile `name` among `profiles`.
fn find_settings(profiles: &Vec<(String, ProfileSettings)>, name: &str) -> (r: Option<ProfileSettings>)
    ensures
        r == lookup(keyed_model(profiles@, |p: ProfileSettings| settings_of(p)), name@),
{
    let ghost model = keyed_model(profiles@, |p: ProfileSettings| settings_of(p));
    proof {
        assert(keys_of(model) =~= string_keys(profiles@));
    }
    let len = profiles.len();
    let mut i: usize = 0;
    while i < len
        invariant
            len == profiles@.len(),
            model == keyed_model(profiles@, |p: ProfileSettings| settings_of(p)),
            keys_of(model) == string_keys(profiles@),
            i <= len,
            forall|j: int| 0 <= j < i ==> #[trigger] string_keys(profiles@)[j] != name@,
        decreases len - i,
    {
        if str_eq(profiles[i].0.as_str(), name) {
            proof {
                lemma_key_position(keys_of(model), name@, i as int);
            }
            return Some(profiles[i].1);
        }
        i = i + 1;
    }
    proof {
        lemma_key_position(keys_of(model), name@, -1);
    }
    None
}

impl WorkspaceManifest {
    /// The profile named `name`.
    pub fn get_profile(&self, name: &str) -> (r: Option<&Profile>)
        ensures
            ({
                let i = key_position(string_keys(self.profiles@), name@);
                r == if i >= 0 {
                    Some(&self.profiles@[i].1)
                } else {
                    None
                }
            }),
    {
        let len = self.profiles.len();
        let mut i: usize = 0;
        while i < len
            invariant
                len == self.profiles@.len(),
                i <= len,
                forall|j: int| 0 <= j < i ==> #[trigger] string_keys(self.profiles@)[j] != name@,
            decreases len - i,
        {
            if str_eq(self.profiles[i].0.as_str(), name) {
                proof {
                    lemma_key_position(string_keys(self.profiles@), name@, i as int);
                }
                return Some(&self.profiles[i].1);
            }
            i = i + 1;
        }
        proof {
            lemma_key_position(string_keys(self.profiles@), name@, -1);
        }
        None
    }

    /// Parse the content of a workspace manifest found in the directory `root`.
    ///
    /// Under `workspace:` it reads `name:`, the members of `members:` (a flow list
    /// `[a, b]` on its line, or `- member` lines after it), the `name: ...` lines after
    /// `dependencies:`, and the profiles after an indented `profiles:`. Among the
    /// profiles (there, or under a top-level `profiles:`), each `name:` line starts a
    /// profile whose `opt_level`, `debug`, `lto` and `strip` lines follow, and a
    /// `name: { opt-level: 3, ... }` line gives a profile its settings in one line.
    pub fn parse(content: &str, root: String) -> (r: Result<WorkspaceManifest, String>)
        ensures
            r is Ok,
            workspace_is(r->Ok_0, root@, workspace_scan(workspace_start(), lines(content@))),
            unique_keys(workspace_scan(workspace_start(), lines(content@)).deps),
            unique_keys(workspace_scan(workspace_start(), lines(content@)).profiles),
    {
        proof {
            lemma_workspace_keys_unique(workspace_start(), lines(content@));
        }
        let mut sc = WorkspaceScanner {
            section: WorkspaceSection::Unset,
            in_members: false,
            in_deps: false,
            in_profiles: false,
            in_profile: false,
            profile_name: String::new(),
            name: String::from_str("unnamed"),
            members: Vec::new(),
            deps: Vec::new(),
            profiles: Vec::new(),
        };
        proof {
            reveal_strlit("unnamed");
            assert(sc.model().members =~= Seq::<Seq<char>>::empty());
            assert(sc.model().deps =~= Seq::<(Seq<char>, Seq<char>)>::empty());
            assert(sc.model().profiles =~= Seq::<(Seq<char>, ProfileSettings)>::empty());
            assert(sc.model().profile_name =~= Seq::<char>::empty());
            assert(sc.model() == workspace_start());
        }
        let len = content.unicode_len();
        let mut pos: usize = 0;
        proof {
            assert(content@.skip(0) =~= content@);
        }
        while pos < len
            invariant
                len == content@.len(),
                pos <= len,
                workspace_scan(workspace_start(), lines(content@)) == workspace_scan(
                    sc.model(),
                    lines(content@.skip(pos as int)),
                ),
            decreases len - pos,
        {
            let rest = tail(content, pos);
            let (line, next) = first_line(rest);
            proof {
                let ls = lines(rest@);
                assert(ls[0] == line@);
                assert(ls.drop_first() =~= lines(rest@.skip(next as int)));
                assert(rest@.skip(next as int) =~= content@.skip(pos + next));
            }
            sc.scan_line(line);
            pos = pos + next;
        }
        proof {
            assert(content@.skip(len as int) =~= Seq::<char>::empty());
            assert(lines(content@.skip(len as int)) =~= Seq::<Seq<char>>::empty());
        }
        let ghost st = sc.model();
        let mut dependencies: Vec<(String, Dependency)> = Vec::new();
        let mut i: usize = 0;
        while i < sc.deps.len()
            invariant
                st == sc.model(),
                i <= sc.deps@.len(),
                dependencies@.len() == i,
                forall|j: int|
                    #![trigger dependencies@[j]]
                    0 <= j < i ==> {
                        &&& dependencies@[j].0@ == st.deps[j].0
                        &&& dependencies@[j].1.version@ == st.deps[j].1
                        &&& dependencies@[j].1.features@.len() == 0
                    },
            decreases sc.deps@.len() - i,
        {
            let k = sc.deps[i].0.clone();
            let v = sc.deps[i].1.clone();
            dependencies.push((k, Dependency { version: v, features: Vec::new() }));
            i = i + 1;
        }
        let mut profiles: Vec<(String, Profile)> = Vec::new();
        let mut j: usize = 0;
        while j < sc.profiles.len()
            invariant
                st == sc.model(),
                j <= sc.profiles@.len(),
                profiles@.len() == j,
                forall|m: int|
                    #![trigger profiles@[m]]
                    0 <= m < j ==> {
                        &&& profiles@[m].0@ == st.profiles[m].0
                        &&& profile_is(profiles@[m].1, st.profiles[m].0, st.profiles[m].1)
                    },
            decreases sc.profiles@.len() - j,
        {
            let k = sc.profiles[j].0.clone();
            let s = sc.profiles[j].1;
            let mut target = String::from_str("target/");
            target.append(k.as_str());
            proof {
                reveal_strlit("target/");
            }
            let p = Profile {
                target,
                opt_level: s.opt_level,
                debug: s.debug,
                lto: s.lto,
                strip: s.strip,
            };
            profiles.push((k, p));
            j = j + 1;
        }
        Ok(WorkspaceManifest { root, name: sc.name, members: sc.members, dependencies, profiles })
    }
}

// ---------------------------------------------------------------- package manifest

/// What the lines of a package manifest read so far have given.
pub struct PackageScan {
    pub section: Seq<char>,
    pub bin_name: Seq<char>,
    pub bin_path: Seq<char>,
    pub name: Seq<char>,
    pub version: Seq<char>,
    pub edition: Seq<char>,
    pub description: Option<Seq<char>>,
    pub src_dir: Seq<char>,
    pub bins: Seq<(Seq<char>, Seq<char>)>,
    pub deps: Seq<(Seq<char>, Seq<char>)>,
}

/// The scan before the first line: version `0.1.0`, edition `2021`, sources in `src`.
pub open spec fn package_start() -> PackageScan {
    PackageScan {
        section: Seq::empty(),
        bin_name: Seq::empty(),
        bin_path: Seq::empty(),
        name: Seq::empty(),
        version: "0.1.0"@,
        edition: "2021"@,
        description: None,
        src_dir: "src"@,
        bins: Seq::empty(),
        deps: Seq::empty(),
    }
}

/// The binaries of `st`, with the one being read when it has a name and a path.
pub open spec fn bins_with_pending(st: PackageScan) -> Seq<(Seq<char>, Seq<char>)> {
    if st.bin_name.len() > 0 && st.bin_path.len() > 0 {
        st.bins.push((st.bin_name, st.bin_path))
    } else {
        st.bins
    }
}

/// A trimmed line `t` of the `package:` section.
pub open spec fn package_entry(st: PackageScan, t: Seq<char>) -> PackageScan {
    if starts_with(t, "name:"@) {
        PackageScan { name: extracted(t), ..st }
    } else if starts_with(t, "version:"@) {
        PackageScan { version: extracted(t), ..st }
    } else if starts_with(t, "edition:"@) {
        PackageScan { edition: extracted(t), ..st }
    } else if starts_with(t, "description:"@) {
        PackageScan { description: Some(extracted(t)), ..st }
    } else if starts_with(t, "src_dir:"@) {
        PackageScan { src_dir: extracted(t), ..st }
    } else {
        st
    }
}

/// A trimmed line `t` of the `bin:` section: `- name:` starts a binary (and ends the
/// one before it), `path:` gives the path of the binary being read.
pub open spec fn bin_entry(st: PackageScan, t: Seq<char>) -> PackageScan {
    if starts_with(t, "- name:"@) {
        PackageScan {
            bins: bins_with_pending(st),
            bin_name: extracted(t),
            bin_path: Seq::empty(),
            ..st
        }
    } else if starts_with(t, "path:"@) {
        PackageScan { bin_path: extracted(t), ..st }
    } else {
        st
    }
}

/// The scan after one more line of a package manifest.
pub open spec fn package_line(st: PackageScan, line: Seq<char>) -> PackageScan {
    let t = trim(line);
    if skipped(t) {
        st
    } else if top_level(line) {
        PackageScan { section: trim_char_end(t, ':'), ..st }
    } else if st.section == "package"@ {
        package_entry(st, t)
    } else if st.section == "bin"@ {
        bin_entry(st, t)
    } else if st.section == "dependencies"@ && holds(t, ':') {
        PackageScan { deps: put(st.deps, trim(first_field(t, ':')), extracted(t)), ..st }
    } else {
        st
    }
}

/// The scan after the lines `ls`, from `st`.
pub open spec fn package_scan(st: PackageScan, ls: Seq<Seq<char>>) -> PackageScan
    decreases ls.len(),
{
    if ls.len() == 0 {
        st
    } else {
        package_scan(package_line(st, ls[0]), ls.drop_first())
    }
}

/// The binaries of a package read as `st`: those read, or, when there are none, one
/// named after the package, built from `src/main.rs`.
pub open spec fn package_bins(st: PackageScan) -> Seq<(Seq<char>, Seq<char>)> {
    let bins = bins_with_pending(st);
    if bins.len() == 0 {
        seq![(st.name, "src/main.rs"@)]
    } else {
        bins
    }
}

/// `m` is the package manifest that the scan `st` describes.
pub open spec fn package_is(m: PackageManifest, st: PackageScan) -> bool {
    &&& m.name@ == st.name
    &&& m.version@ == st.version
    &&& m.edition@ == st.edition
    &&& match (m.description, st.description) {
        (Some(a), Some(b)) => a@ == b,
        (None, None) => true,
        _ => false,
    }
    &&& m.src_dir@ == st.src_dir
    &&& m.bins@.map_values(|b: BinaryTarget| (b.name@, b.path@)) == package_bins(st)
    &&& m.lib is None
    &&& m.tests@.len() == 0
    &&& m.benches@.len() == 0
    &&& keyed_model(m.dependencies@, |x: String| text_of(x)) == st.deps
}

/// The state of a package manifest scan.
struct PackageScanner {
    section: String,
    bin_name: String,
    bin_path: String,
    name: String,
    version: String,
    edition: String,
    description: Option<String>,
    src_dir: String,
    bins: Vec<BinaryTarget>,
    deps: Vec<(String, String)>,
}

/// The model of an optional string.
pub open spec fn opt_text(x: Option<String>) -> Option<Seq<char>> {
    match x {
        Some(s) => Some(s@),
        None => None,
    }
}

impl PackageScanner {
    spec fn model(&self) -> PackageScan {
        PackageScan {
            section: self.section@,
            bin_name: self.bin_name@,
            bin_path: self.bin_path@,
            name: self.name@,
            version: self.version@,
            edition: self.edition@,
            description: opt_text(self.description),
            src_dir: self.src_dir@,
            bins: self.bins@.map_values(|b: BinaryTarget| (b.name@, b.path@)),
            deps: keyed_model(self.deps@, |x: String| text_of(x)),
        }
    }

    /// Add the binary being read to the list, when it has a name and a path.
    fn flush_bin(&mut self)
        ensures
            final(self).model() == (PackageScan { bins: bins_with_pending(old(self).model()), ..old(self).model() }),
    {
        if self.bin_name.unicode_len() > 0 && self.bin_path.unicode_len() > 0 {
            let ghost old_bins = self.bins@;
            let b = BinaryTarget { name: self.bin_name.clone(), path: self.bin_path.clone() };
            self.bins.push(b);
            proof {
                assert(self.bins@.map_values(|b: BinaryTarget| (b.name@, b.path@)) =~= old_bins.map_values(
                    |b: BinaryTarget| (b.name@, b.path@),
                ).push((self.bin_name@, self.bin_path@)));
            }
        }
    }

    fn scan_line(&mut self, line: &str)
        ensures
            final(self).model() == package_line(old(self).model(), line@),
    {
        proof {
            reveal_strlit("package");
            reveal_strlit("bin");
            reveal_strlit("dependencies");
            reveal_strlit("name:");
            reveal_strlit("version:");
            reveal_strlit("edition:");
            reveal_strlit("description:");
            reveal_strlit("src_dir:");
            reveal_strlit("- name:");
            reveal_strlit("path:");
        }
        let t = str_trim(line);
        if is_skipped(t) {
            return ;
        }
        if is_top_level(line) {
            self.section = str_trim_char_end(t, ':').to_string();
            return ;
        }
        if str_eq(self.section.as_str(), "package") {
            if str_starts_with(t, "name:") {
                self.name = extract_value(t);
            } else if str_starts_with(t, "version:") {
                self.version = extract_value(t);
            } else if str_starts_with(t, "edition:") {
                self.edition = extract_value(t);
            } else if str_starts_with(t, "description:") {
                self.description = Some(extract_value(t));
            } else if str_starts_with(t, "src_dir:") {
                self.src_dir = extract_value(t);
            }
        } else if str_eq(self.section.as_str(), "bin") {
            if str_starts_with(t, "- name:") {
                self.flush_bin();
                self.bin_name = extract_value(t);
                self.bin_path = String::new();
            } else if str_starts_with(t, "path:") {
                self.bin_path = extract_value(t);
            }
        } else if str_eq(self.section.as_str(), "dependencies") && until_char(t, ':')
            < t.unicode_len() {
            let key = str_trim(str_first_field(t, ':')).to_string();
            let spec_text = extract_value(t);
            proof {
                lemma_put_model(self.deps@, key, spec_text, |x: String| text_of(x));
            }
            put_entry(&mut self.deps, key, spec_text);
        }
    }
}

impl PackageManifest {
    /// Parse the content of a package manifest.
    ///
    /// Under `package:` it reads `name`, `version`, `edition`, `description` and
    /// `src_dir`; under `bin:` each `- name:` line starts a binary whose `path:` line
    /// follows (a binary without both is dropped); under `dependencies:` each
    /// `name: spec` line adds a dependency.
    pub fn parse(content: &str) -> (r: Result<PackageManifest, String>)
        ensures
            r is Ok,
            package_is(r->Ok_0, package_scan(package_start(), lines(content@))),
            unique_keys(package_scan(package_start(), lines(content@)).deps),
    {
        proof {
            lemma_package_keys_unique(package_start(), lines(content@));
        }
        let mut sc = PackageScanner {
            section: String::new(),
            bin_name: String::new(),
            bin_path: String::new(),
            name: String::new(),
            version: String::from_str("0.1.0"),
            edition: String::from_str("2021"),
            description: None,
            src_dir: String::from_str("src"),
            bins: Vec::new(),
            deps: Vec::new(),
        };
        proof {
            reveal_strlit("0.1.0");
            reveal_strlit("2021");
            reveal_strlit("src");
            reveal_strlit("src/main.rs");
            assert(sc.model().bins =~= Seq::<(Seq<char>, Seq<char>)>::empty());
            assert(sc.model().deps =~= Seq::<(Seq<char>, Seq<char>)>::empty());
            assert(sc.model().section =~= Seq::<char>::empty());
            assert(sc.model().name =~= Seq::<char>::empty());
            assert(sc.model().bin_name =~= Seq::<char>::empty());
            assert(sc.model().bin_path =~= Seq::<char>::empty());
            assert(sc.model() == package_start());
        }
        let len = content.unicode_len();
        let mut pos: usize = 0;
        proof {
            assert(content@.skip(0) =~= content@);
        }
        while pos < len
            invariant
                len == content@.len(),
                pos <= len,
                package_scan(package_start(), lines(content@)) == package_scan(
                    sc.model(),
                    lines(content@.skip(pos as int)),
                ),
            decreases len - pos,
        {
            let rest = tail(content, pos);
            let (line, next) = first_line(rest);
            proof {
                let ls = lines(rest@);
                assert(ls[0] == line@);
                assert(ls.drop_first() =~= lines(rest@.skip(next as int)));
                assert(rest@.skip(next as int) =~= content@.skip(pos + next));
            }
            sc.scan_line(line);
            pos = pos + next;
        }
        proof {
            assert(content@.skip(len as int) =~= Seq::<char>::empty());
            assert(lines(content@.skip(len as int)) =~= Seq::<Seq<char>>::empty());
        }
        let ghost st = sc.model();
        sc.flush_bin();
        if sc.bins.len() == 0 {
            let b = BinaryTarget { name: sc.name.clone(), path: String::from_str("src/main.rs") };
            sc.bins.push(b);
            proof {
                assert(sc.bins@.map_values(|b: BinaryTarget| (b.name@, b.path@)) =~= seq![
                    (st.name, "src/main.rs"@),
                ]);
            }
        }
        Ok(
            PackageManifest {
                name: sc.name,
                version: sc.version,
                edition: sc.edition,
                description: sc.description,
                src_dir: sc.src_dir,
                bins: sc.bins,
                lib: None,
                tests: Vec::new(),
                benches: Vec::new(),
                dependencies: sc.deps,
            },
        )
    }
}

// ---------------------------------------------------------------- keys stay unique

/// A line of a workspace manifest keeps the names of its dependencies and of its
/// profiles unique.
pub proof fn lemma_workspace_line_unique(st: WorkspaceScan, line: Seq<char>)
    requires
        unique_keys(st.deps),
        unique_keys(st.profiles),
    ensures
        unique_keys(workspace_line(st, line).deps),
        unique_keys(workspace_line(st, line).profiles),
{
    let t = trim(line);
    lemma_put(st.deps, trim(first_field(t, ':')), extracted(trim(second_field(t, ':'))));
    lemma_put(st.profiles, st.profile_name, profile_setting(settings_so_far(st, st.profile_name), t));
    let name = trim(first_field(t, ':'));
    lemma_put(
        st.profiles,
        name,
        flow_settings(settings_so_far(st, name), flow_inner(line_value(t), '{', '}')),
    );
}

/// No two dependencies and no two profiles of a workspace manifest have the same name.
pub proof fn lemma_workspace_keys_unique(st: WorkspaceScan, ls: Seq<Seq<char>>)
    requires
        unique_keys(st.deps),
        unique_keys(st.profiles),
    ensures
        unique_keys(workspace_scan(st, ls).deps),
        unique_keys(workspace_scan(st, ls).profiles),
    decreases ls.len(),
{
    if ls.len() > 0 {
        lemma_workspace_line_unique(st, ls[0]);
        lemma_workspace_keys_unique(workspace_line(st, ls[0]), ls.drop_first());
    }
}

/// No two dependencies of a package manifest have the same name.
pub proof fn lemma_package_keys_unique(st: PackageScan, ls: Seq<Seq<char>>)
    requires
        unique_keys(st.deps),
    ensures
        unique_keys(package_scan(st, ls).deps),
    decreases ls.len(),
{
    if ls.len() > 0 {
        let t = trim(ls[0]);
        lemma_put(st.deps, trim(first_field(t, ':')), extracted(t));
        lemma_package_keys_unique(package_line(st, ls[0]), ls.drop_first());
    }
}
// ---------------------------------------------------------------- blank and comment lines

/// The lines of `ls` that are neither blank nor `#` comments.
pub open spec fn content_lines(ls: Seq<Seq<char>>) -> Seq<Seq<char>>
    decreases ls.len(),
{
    if ls.len() == 0 {
        Seq::empty()
    } else {
        (if skipped(trim(ls[0])) {
            Seq::empty()
        } else {
            seq![ls[0]]
        }) + content_lines(ls.drop_first())
    }
}

proof fn lemma_workspace_scan_content(st: WorkspaceScan, ls: Seq<Seq<char>>)
    ensures
        workspace_scan(st, ls) == workspace_scan(st, content_lines(ls)),
    decreases ls.len(),
{
    if ls.len() > 0 {
        lemma_workspace_scan_content(workspace_line(st, ls[0]), ls.drop_first());
        let c = content_lines(ls);
        if skipped(trim(ls[0])) {
            assert(c =~= content_lines(ls.drop_first()));
        } else {
            assert(c[0] == ls[0]);
            assert(c.drop_first() =~= content_lines(ls.drop_first()));
        }
    }
}

proof fn lemma_package_scan_content(st: PackageScan, ls: Seq<Seq<char>>)
    ensures
        package_scan(st, ls) == package_scan(st, content_lines(ls)),
    decreases ls.len(),
{
    if ls.len() > 0 {
        lemma_package_scan_content(package_line(st, ls[0]), ls.drop_first());
        let c = content_lines(ls);
        if skipped(trim(ls[0])) {
            assert(c =~= content_lines(ls.drop_first()));
        } else {
            assert(c[0] == ls[0]);
            assert(c.drop_first() =~= content_lines(ls.drop_first()));
        }
    }
}

/// Blank lines and `#` comment lines do not change what a workspace manifest gives:
/// two manifests whose other lines are the same scan alike.
pub proof fn lemma_workspace_ignores_blank_and_comment_lines(
    st: WorkspaceScan,
    ls1: Seq<Seq<char>>,
    ls2: Seq<Seq<char>>,
)
    requires
        content_lines(ls1) == content_lines(ls2),
    ensures
        workspace_scan(st, ls1) == workspace_scan(st, ls2),
{
    lemma_workspace_scan_content(st, ls1);
    lemma_workspace_scan_content(st, ls2);
}

/// Blank lines and `#` comment lines do not change what a package manifest gives:
/// two manifests whose other lines are the same scan alike.
pub proof fn lemma_package_ignores_blank_and_comment_lines(
    st: PackageScan,
    ls1: Seq<Seq<char>>,
    ls2: Seq<Seq<char>>,
)
    requires
        content_lines(ls1) == content_lines(ls2),
    ensures
        package_scan(st, ls1) == package_scan(st, ls2),
{
    lemma_package_scan_content(st, ls1);
    lemma_package_scan_content(st, ls2);
}
// ---------------------------------------------------------------- package fields

/// The line `l` is a line of the package section whose text starts with `key`.
pub open spec fn package_key_line(st: PackageScan, l: Seq<char>, key: Seq<char>) -> bool {
    st.section == "package"@ && !top_level(l) && starts_with(trim(l), key)
}

proof fn lemma_starts_with_first(t: Seq<char>, p: Seq<char>)
    requires
        starts_with(t, p),
        p.len() > 0,
    ensures
        t[0] == p[0],
{
    assert(t.take(p.len() as int)[0] == p[0]);
}

/// The first character of `t` when it starts with one of the package keys.
proof fn lemma_distinct_keys(t: Seq<char>)
    ensures
        starts_with(t, "name:"@) ==> t[0] == 'n',
        starts_with(t, "version:"@) ==> t[0] == 'v',
        starts_with(t, "edition:"@) ==> t[0] == 'e',
        starts_with(t, "description:"@) ==> t[0] == 'd',
        starts_with(t, "src_dir:"@) ==> t[0] == 's',
        starts_with(t, "name:"@) || starts_with(t, "version:"@) || starts_with(t, "edition:"@)
            || starts_with(t, "description:"@) || starts_with(t, "src_dir:"@) ==> t.len() > 0,
{
    reveal_strlit("name:");
    reveal_strlit("version:");
    reveal_strlit("edition:");
    reveal_strlit("description:");
    reveal_strlit("src_dir:");
    if starts_with(t, "name:"@) {
        lemma_starts_with_first(t, "name:"@);
    }
    if starts_with(t, "version:"@) {
        lemma_starts_with_first(t, "version:"@);
    }
    if starts_with(t, "edition:"@) {
        lemma_starts_with_first(t, "edition:"@);
    }
    if starts_with(t, "description:"@) {
        lemma_starts_with_first(t, "description:"@);
    }
    if starts_with(t, "src_dir:"@) {
        lemma_starts_with_first(t, "src_dir:"@);
    }
}

/// Each field of the package section is set by its own line and by no other: a line
/// `name: X`, `version: X`, `edition: X`, `description: X` or `src_dir: X` of the
/// package section gives that field the value X of the line, and every other line
/// leaves the field as it was.
pub proof fn lemma_package_field_lines(st: PackageScan, l: Seq<char>)
    ensures
        package_key_line(st, l, "name:"@) ==> package_line(st, l).name == extracted(trim(l)),
        !package_key_line(st, l, "name:"@) ==> package_line(st, l).name == st.name,
        package_key_line(st, l, "version:"@) ==> package_line(st, l).version == extracted(trim(l)),
        !package_key_line(st, l, "version:"@) ==> package_line(st, l).version == st.version,
        package_key_line(st, l, "edition:"@) ==> package_line(st, l).edition == extracted(trim(l)),
        !package_key_line(st, l, "edition:"@) ==> package_line(st, l).edition == st.edition,
        package_key_line(st, l, "description:"@) ==> package_line(st, l).description == Some(
            extracted(trim(l)),
        ),
        !package_key_line(st, l, "description:"@) ==> package_line(st, l).description
            == st.description,
        package_key_line(st, l, "src_dir:"@) ==> package_line(st, l).src_dir == extracted(trim(l)),
        !package_key_line(st, l, "src_dir:"@) ==> package_line(st, l).src_dir == st.src_dir,
{
    let t = trim(l);
    lemma_distinct_keys(t);
    reveal_strlit("package");
    reveal_strlit("bin");
    reveal_strlit("dependencies");
}

/// Reading one more line of a package manifest continues from where the lines before
/// it left the scan.
pub proof fn lemma_package_scan_push(st: PackageScan, ls: Seq<Seq<char>>, l: Seq<char>)
    ensures
        package_scan(st, ls.push(l)) == package_line(package_scan(st, ls), l),
    decreases ls.len(),
{
    if ls.len() == 0 {
        assert(ls.push(l).drop_first() =~= Seq::<Seq<char>>::empty());
        assert(ls.push(l)[0] == l);
        assert(package_scan(package_line(st, l), Seq::<Seq<char>>::empty()) == package_line(st, l));
    } else {
        assert(ls.push(l)[0] == ls[0]);
        lemma_package_scan_push(package_line(st, ls[0]), ls.drop_first(), l);
        assert(ls.push(l).drop_first() =~= ls.drop_first().push(l));
    }
}

/// A manifest whose lines end with a line `edition: X` of the package section has
/// edition X, whatever came before; and likewise for the other fields.
pub proof fn lemma_package_last_field_line(st: PackageScan, ls: Seq<Seq<char>>, l: Seq<char>)
    ensures
        package_key_line(package_scan(st, ls), l, "edition:"@) ==> package_scan(st, ls.push(l)).edition
            == extracted(trim(l)),
        package_key_line(package_scan(st, ls), l, "name:"@) ==> package_scan(st, ls.push(l)).name
            == extracted(trim(l)),
        package_key_line(package_scan(st, ls), l, "version:"@) ==> package_scan(st, ls.push(l)).version
            == extracted(trim(l)),
        package_key_line(package_scan(st, ls), l, "src_dir:"@) ==> package_scan(st, ls.push(l)).src_dir
            == extracted(trim(l)),
        package_key_line(package_scan(st, ls), l, "description:"@) ==> package_scan(
            st,
            ls.push(l),
        ).description == Some(extracted(trim(l))),
{
    lemma_package_scan_push(st, ls, l);
    lemma_package_field_lines(package_scan(st, ls), l);
}

/// The names of the sections of a package manifest differ.
proof fn lemma_package_sections_differ()
    ensures
        "dependencies"@ != "package"@,
        "dependencies"@ != "bin"@,
        "bin"@ != "package"@,
{
    reveal_strlit("package");
    reveal_strlit("bin");
    reveal_strlit("dependencies");
    assert("dependencies"@.len() != "package"@.len());
    assert("dependencies"@.len() != "bin"@.len());
    assert("bin"@.len() != "package"@.len());
}

/// The line `l` is a `name: X` line of the dependencies section.
pub open spec fn package_dep_line(st: PackageScan, l: Seq<char>) -> bool {
    st.section == "dependencies"@ && !top_level(l) && !skipped(trim(l)) && holds(trim(l), ':')
}

/// A line of the `dependencies:` section of a package manifest, `name: X`, sets the
/// dependency `name` to X and leaves the other dependencies as they were; every other
/// line leaves the dependencies as they were.
pub proof fn lemma_package_dependency_line(st: PackageScan, l: Seq<char>)
    requires
        unique_keys(st.deps),
    ensures
        package_dep_line(st, l) ==> lookup(package_line(st, l).deps, trim(first_field(trim(l), ':')))
            == Some(extracted(trim(l))),
        package_dep_line(st, l) ==> forall|k: Seq<char>|
            k != trim(first_field(trim(l), ':')) ==> #[trigger] lookup(package_line(st, l).deps, k)
                == lookup(st.deps, k),
        !package_dep_line(st, l) ==> package_line(st, l).deps == st.deps,
        unique_keys(package_line(st, l).deps),
{
    let t = trim(l);
    reveal_strlit("package");
    reveal_strlit("bin");
    reveal_strlit("dependencies");
    lemma_put(st.deps, trim(first_field(t, ':')), extracted(t));
    lemma_package_sections_differ();
}

/// The lines of the `bin:` section of a package manifest: `- name: X` starts a binary
/// named X with no path yet, after adding the binary being read to the list when it
/// has a name and a path; `path: X` gives the binary being read the path X; and no
/// other line touches the binaries.
pub proof fn lemma_package_binary_lines(st: PackageScan, l: Seq<char>)
    ensures
        ({
            let t = trim(l);
            let r = package_line(st, l);
            let bin_line = st.section == "bin"@ && !top_level(l);
            &&& bin_line && starts_with(t, "- name:"@) ==> {
                &&& r.bin_name == extracted(t)
                &&& r.bin_path.len() == 0
                &&& r.bins == if st.bin_name.len() > 0 && st.bin_path.len() > 0 {
                    st.bins.push((st.bin_name, st.bin_path))
                } else {
                    st.bins
                }
            }
            &&& bin_line && starts_with(t, "path:"@) ==> {
                &&& r.bin_path == extracted(t)
                &&& r.bin_name == st.bin_name
                &&& r.bins == st.bins
            }
            &&& !(bin_line && (starts_with(t, "- name:"@) || starts_with(t, "path:"@))) ==> {
                &&& r.bin_name == st.bin_name
                &&& r.bin_path == st.bin_path
                &&& r.bins == st.bins
            }
        }),
{
    let t = trim(l);
    reveal_strlit("package");
    reveal_strlit("bin");
    reveal_strlit("dependencies");
    reveal_strlit("- name:");
    reveal_strlit("path:");
    lemma_package_sections_differ();
    if starts_with(t, "- name:"@) {
        lemma_starts_with_first(t, "- name:"@);
        assert(!skipped(t));
        assert(!starts_with(t, "path:"@)) by {
            if starts_with(t, "path:"@) {
                lemma_starts_with_first(t, "path:"@);
            }
        }
    }
    if starts_with(t, "path:"@) {
        lemma_starts_with_first(t, "path:"@);
        assert(!skipped(t));
    }
}

} // verus!
