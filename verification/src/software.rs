//! Server software kinds and how their jars are found and named.
use vstd::prelude::*;
use crate::paths::{join, path_join};
use crate::config::opt_view;
use crate::text::{
    chars_ends_with, chars_of, lemma_least_index, chars_starts_with, ends_with, lemma_split_on_nonempty,
    lemma_split_on_push, lowercase, owned, push_str, split_on, starts_with, str_eq, string_of, string_views,
    to_lowercase, trim, trim_chars, ascii_lower, ascii_text,
};

verus! {

/// Name of the jar that starts servers of installer-based software.
pub const SERVERSTARTER_JAR: &'static str = "server_starter.jar";

/// The kinds of server software the manager can run.
#[derive(Debug, Clone, Copy, PartialEq, Eq, Structural)]
pub enum Software {
    Vanilla,
    Paper,
    Folia,
    Fabric,
    NeoForge,
    Forge,
    Custom,
}

/// Every software kind, in the order menus offer them.
pub open spec fn catalogue() -> Seq<Software> {
    seq![
        Software::Vanilla,
        Software::Paper,
        Software::Folia,
        Software::Fabric,
        Software::NeoForge,
        Software::Forge,
        Software::Custom,
    ]
}

/// The lower-case identifier of a software kind.
pub open spec fn software_id(s: Software) -> Seq<char> {
    match s {
        Software::Vanilla => "vanilla"@,
        Software::Paper => "paper"@,
        Software::Folia => "folia"@,
        Software::Fabric => "fabric"@,
        Software::NeoForge => "neoforge"@,
        Software::Forge => "forge"@,
        Software::Custom => "custom"@,
    }
}

/// The display name of a software kind.
pub open spec fn software_name(s: Software) -> Seq<char> {
    match s {
        Software::Vanilla => "Vanilla"@,
        Software::Paper => "Paper"@,
        Software::Folia => "Folia"@,
        Software::Fabric => "Fabric"@,
        Software::NeoForge => "NeoForge"@,
        Software::Forge => "Forge"@,
        Software::Custom => "Custom"@,
    }
}

/// The one-line description of a software kind.
pub open spec fn software_description(s: Software) -> Seq<char> {
    match s {
        Software::Vanilla => "Mojang server"@,
        Software::Paper => "Plugin support"@,
        Software::Folia => "Multithreaded & Plugin support"@,
        Software::Fabric => "Mod support"@,
        Software::NeoForge => "Mod support"@,
        Software::Forge => "Mod support"@,
        Software::Custom => "Your own jar"@,
    }
}

/// The software kind an identifier names; anything unknown is `Custom`.
pub open spec fn software_from_id(s: Seq<char>) -> Software {
    if s == "vanilla"@ {
        Software::Vanilla
    } else if s == "paper"@ {
        Software::Paper
    } else if s == "folia"@ {
        Software::Folia
    } else if s == "fabric"@ {
        Software::Fabric
    } else if s == "neoforge"@ {
        Software::NeoForge
    } else if s == "forge"@ {
        Software::Forge
    } else {
        Software::Custom
    }
}

/// The catalogue entry of a software kind: the kind, its identifier, name and description.
pub open spec fn entry_of(s: Software) -> (Software, Seq<char>, Seq<char>, Seq<char>) {
    (s, software_id(s), software_name(s), software_description(s))
}

/// The view of a catalogue row.
pub open spec fn row_view(r: (Software, &str, &str, &str)) -> (
    Software,
    Seq<char>,
    Seq<char>,
    Seq<char>,
) {
    (r.0, r.1@, r.2@, r.3@)
}

/// The installer-based kinds, whose jar installs the server before it can run.
pub open spec fn installer(s: Software) -> bool {
    s == Software::Forge || s == Software::NeoForge
}

/// The log-line pattern for a software kind: group 1 is the level, group 2 the message.
pub open spec fn log_pattern(s: Software) -> Seq<char> {
    match s {
        Software::Paper | Software::Folia => r"^\[\d{2}:\d{2}:\d{2}\s+([A-Z]+)\]:\s*(.*)$"@,
        Software::Forge | Software::NeoForge => r"^\s*\[\d{2}:\d{2}:\d{2}\]\s+\[[^/\]]+/([A-Z]+)\](?:\s+\[[^\]]+\])?:\s*(.*)$"@,
        _ => r"^\[\d{2}:\d{2}:\d{2}\]\s+\[[^/\]]+/([A-Z]+)\]:\s*(.*)$"@,
    }
}

/// Paper and Folia share the Paper pattern, Forge and NeoForge the Forge pattern, and every
/// other kind (Vanilla, Fabric, Custom) the vanilla pattern.
pub proof fn lemma_log_patterns(s: Software)
    ensures
        (s == Software::Paper || s == Software::Folia) ==> log_pattern(s) == r"^\[\d{2}:\d{2}:\d{2}\s+([A-Z]+)\]:\s*(.*)$"@,
        (s == Software::Forge || s == Software::NeoForge) ==> log_pattern(s)
            == r"^\s*\[\d{2}:\d{2}:\d{2}\]\s+\[[^/\]]+/([A-Z]+)\](?:\s+\[[^\]]+\])?:\s*(.*)$"@,
        (s != Software::Paper && s != Software::Folia && s != Software::Forge && s != Software::NeoForge) ==> log_pattern(s)
            == r"^\[\d{2}:\d{2}:\d{2}\]\s+\[[^/\]]+/([A-Z]+)\]:\s*(.*)$"@,
        (s != Software::Paper && s != Software::Folia && s != Software::Forge && s != Software::NeoForge) ==> log_pattern(s)
            == log_pattern(Software::Vanilla),
{
}

/// The identifiers of distinct kinds differ.
proof fn lemma_ids_distinct()
    ensures
        forall|a: Software, b: Software| a != b ==> software_id(a) != software_id(b),
{
    reveal_strlit("vanilla");
    reveal_strlit("paper");
    reveal_strlit("folia");
    reveal_strlit("fabric");
    reveal_strlit("neoforge");
    reveal_strlit("forge");
    reveal_strlit("custom");
    assert("folia"@[2] != "forge"@[2]);
    assert("folia"@[0] != "paper"@[0]);
    assert("forge"@[0] != "paper"@[0]);
    assert("fabric"@[0] != "custom"@[0]);
    assert forall|a: Software, b: Software| a != b implies software_id(a) != software_id(b) by {
        let x = software_id(a);
        let y = software_id(b);
        assert(x.len() != y.len() || x[0] != y[0] || x[2] != y[2]) by {
            match a {
                Software::Vanilla => {},
                Software::Paper => {},
                Software::Folia => {},
                Software::Fabric => {},
                Software::NeoForge => {},
                Software::Forge => {},
                Software::Custom => {},
            }
            match b {
                Software::Vanilla => {},
                Software::Paper => {},
                Software::Folia => {},
                Software::Fabric => {},
                Software::NeoForge => {},
                Software::Forge => {},
                Software::Custom => {},
            }
        }
    }
}

impl Software {
    /// The catalogue: every kind with its identifier, name and description, in menu order.
    pub fn everything() -> (res: &'static [(Software, &'static str, &'static str, &'static str)])
        ensures
            res@.len() == catalogue().len(),
            forall|i: int| 0 <= i < res@.len() ==> row_view(#[trigger] res@[i]) == entry_of(catalogue()[i]),
    {
        &[
            (Software::Vanilla, "vanilla", "Vanilla", "Mojang server"),
            (Software::Paper, "paper", "Paper", "Plugin support"),
            (Software::Folia, "folia", "Folia", "Multithreaded & Plugin support"),
            (Software::Fabric, "fabric", "Fabric", "Mod support"),
            (Software::NeoForge, "neoforge", "NeoForge", "Mod support"),
            (Software::Forge, "forge", "Forge", "Mod support"),
            (Software::Custom, "custom", "Custom", "Your own jar"),
        ]
    }

    /// The catalogue row of this kind.
    fn entry(&self) -> (res: &'static (Software, &'static str, &'static str, &'static str))
        ensures
            row_view(*res) == entry_of(*self),
    {
        let table = Self::everything();
        let n = table.len();
        for i in 0..n
            invariant
                table@.len() == catalogue().len(),
                n == table@.len(),
                forall|k: int| 0 <= k < table@.len() ==> row_view(#[trigger] table@[k]) == entry_of(catalogue()[k]),
                forall|k: int| 0 <= k < i ==> catalogue()[k] != *self,
        {
            if table[i].0 == *self {
                return &table[i];
            }
        }
        proof {
            let k: int = match *self {
                Software::Vanilla => 0,
                Software::Paper => 1,
                Software::Folia => 2,
                Software::Fabric => 3,
                Software::NeoForge => 4,
                Software::Forge => 5,
                Software::Custom => 6,
            };
            assert(catalogue()[k] == *self);
        }
        &table[0]
    }

    /// The display name of this kind.
    pub fn as_str(&self) -> (res: &'static str)
        ensures
            res@ == software_name(*self),
    {
        self.entry().2
    }

    /// The kind whose identifier is `string`; anything unknown is `Custom`.
    pub fn from_str(string: &str) -> (res: Self)
        ensures
            res == software_from_id(string@),
    {
        let table = Self::everything();
        let n = table.len();
        proof {
            lemma_ids_distinct();
        }
        for i in 0..n
            invariant
                table@.len() == catalogue().len(),
                n == table@.len(),
                forall|k: int| 0 <= k < table@.len() ==> row_view(#[trigger] table@[k]) == entry_of(catalogue()[k]),
                forall|k: int| 0 <= k < i ==> software_id(catalogue()[k]) != string@,
                forall|a: Software, b: Software| a != b ==> software_id(a) != software_id(b),
        {
            if str_eq(table[i].1, string) {
                assert(row_view(table@[i as int]) == entry_of(catalogue()[i as int]));
                return table[i].0;
            }
        }
        assert(software_id(catalogue()[6]) != string@);
        Software::Custom
    }

    /// Whether the jar of this kind can be downloaded automatically.
    pub fn auto_download(&self) -> (res: bool)
        ensures
            res == (*self != Software::Custom),
    {
        !matches!(self, Software::Custom)
    }

    /// Whether this kind ships as an installer that must run before the server.
    pub fn is_installer(&self) -> (res: bool)
        ensures
            res == installer(*self),
    {
        matches!(self, Software::Forge | Software::NeoForge)
    }

    /// One menu label per kind, `name - description`, in catalogue order.
    pub fn menu_labels() -> (res: Vec<String>)
        ensures
            res@.len() == catalogue().len(),
            forall|i: int| 0 <= i < res@.len() ==> (#[trigger] res@[i])@ == software_name(catalogue()[i]) + " - "@ + software_description(catalogue()[i]),
    {
        let table = Self::everything();
        let n = table.len();
        let mut res: Vec<String> = Vec::new();
        for i in 0..n
            invariant
                table@.len() == catalogue().len(),
                n == table@.len(),
                forall|k: int| 0 <= k < table@.len() ==> row_view(#[trigger] table@[k]) == entry_of(catalogue()[k]),
                res@.len() == i,
                forall|k: int| 0 <= k < i ==> (#[trigger] res@[k])@ == software_name(catalogue()[k]) + " - "@ + software_description(catalogue()[k]),
        {
            assert(row_view(table@[i as int]) == entry_of(catalogue()[i as int]));
            let mut label = owned(table[i].2);
            push_str(&mut label, " - ");
            push_str(&mut label, table[i].3);
            res.push(label);
        }
        res
    }

    /// The pattern that splits a log line of this kind into level and message.
    pub fn log_regex(software: &Software) -> (res: &'static str)
        ensures
            res@ == log_pattern(*software),
    {
        match software {
            Software::Paper | Software::Folia => r"^\[\d{2}:\d{2}:\d{2}\s+([A-Z]+)\]:\s*(.*)$",
            Software::Forge | Software::NeoForge => r"^\s*\[\d{2}:\d{2}:\d{2}\]\s+\[[^/\]]+/([A-Z]+)\](?:\s+\[[^\]]+\])?:\s*(.*)$",
            _ => r"^\[\d{2}:\d{2}:\d{2}\]\s+\[[^/\]]+/([A-Z]+)\]:\s*(.*)$",
        }
    }
}

/// Reading back the identifier of a kind gives that kind.
pub proof fn lemma_software_id_round_trip(s: Software)
    ensures
        software_from_id(software_id(s)) == s,
{
    lemma_ids_distinct();
    assert(software_id(s) != software_id(Software::Vanilla) || s == Software::Vanilla);
    assert(software_id(s) != software_id(Software::Paper) || s == Software::Paper);
    assert(software_id(s) != software_id(Software::Folia) || s == Software::Folia);
    assert(software_id(s) != software_id(Software::Fabric) || s == Software::Fabric);
    assert(software_id(s) != software_id(Software::NeoForge) || s == Software::NeoForge);
    assert(software_id(s) != software_id(Software::Forge) || s == Software::Forge);
}

/// Where the jar of a kind is kept: under the software directory, in a directory named
/// after the kind in lower case, which is its identifier.
pub open spec fn jar_path(software_dir: Seq<char>, s: Software, jar_name: Seq<char>) -> Seq<char> {
    path_join(path_join(software_dir, software_id(s)), jar_name)
}

impl Software {
    /// The display name of this kind in lower case (`str::to_lowercase`): its identifier,
    /// which `from_str` reads back as this kind.
    pub fn lowercase_name(&self) -> (res: String)
        ensures
            res@ == lowercase(software_name(*self)),
            res@ == software_id(*self),
            software_from_id(res@) == *self,
    {
        let name = self.as_str();
        proof {
            reveal_strlit("Vanilla");
            reveal_strlit("Paper");
            reveal_strlit("Folia");
            reveal_strlit("Fabric");
            reveal_strlit("NeoForge");
            reveal_strlit("Forge");
            reveal_strlit("Custom");
            reveal_strlit("vanilla");
            reveal_strlit("paper");
            reveal_strlit("folia");
            reveal_strlit("fabric");
            reveal_strlit("neoforge");
            reveal_strlit("forge");
            reveal_strlit("custom");
            lemma_software_id_round_trip(*self);
        }
        let res = to_lowercase(name);
        proof {
            let n = software_name(*self);
            assert(ascii_text(n));
            assert(n.map_values(|c: char| ascii_lower(c)) =~= software_id(*self));
        }
        res
    }
}

/// Where the jar of a kind is kept.
pub fn jar_destination(software_dir: &str, software: Software, jar_name: &str) -> (res: String)
    ensures
        res@ == jar_path(software_dir@, software, jar_name@),
{
    let lower = software.lowercase_name();
    let dir = join(software_dir, lower.as_str());
    join(dir.as_str(), jar_name)
}

/// Where the server starter jar is kept.
pub fn serverstarter_destination(software_dir: &str) -> (res: String)
    ensures
        res@ == path_join(software_dir@, SERVERSTARTER_JAR@),
{
    join(software_dir, SERVERSTARTER_JAR)
}

/// One version listed in the Mojang version manifest.
pub struct ManifestVersion {
    pub id: String,
    /// `release`, `snapshot`, `old_beta` or `old_alpha`.
    pub kind: String,
    /// Where the version's own metadata is.
    pub url: String,
}

/// Whether versions of a kind are offered: releases always, snapshots and old betas and
/// alphas on request.
pub open spec fn kind_offered(kind: Seq<char>, snapshots: bool, historical: bool) -> bool {
    ||| kind == "release"@
    ||| kind == "snapshot"@ && snapshots
    ||| (kind == "old_beta"@ || kind == "old_alpha"@) && historical
}

/// The identifiers of the offered versions of a manifest, in manifest order.
pub open spec fn offered_ids(m: Seq<ManifestVersion>, snapshots: bool, historical: bool) -> Seq<Seq<char>>
    decreases m.len(),
{
    if m.len() == 0 {
        Seq::empty()
    } else {
        let rest = offered_ids(m.drop_last(), snapshots, historical);
        if kind_offered(m.last().kind@, snapshots, historical) {
            rest.push(m.last().id@)
        } else {
            rest
        }
    }
}

/// The versions offered are exactly those of the manifest whose kind is `release`, or
/// `snapshot` when snapshots are asked for, or `old_beta` or `old_alpha` when historical
/// versions are asked for; there are no more of them than versions in the manifest.
pub proof fn lemma_offered_versions(m: Seq<ManifestVersion>, snapshots: bool, historical: bool)
    ensures
        offered_ids(m, snapshots, historical).len() <= m.len(),
        forall|i: int|
            0 <= i < m.len() && ((#[trigger] m[i]).kind@ == "release"@ || (m[i].kind@ == "snapshot"@ && snapshots) || ((m[i].kind@
                == "old_beta"@ || m[i].kind@ == "old_alpha"@) && historical)) ==> offered_ids(m, snapshots, historical).contains(m[i].id@),
        forall|x: Seq<char>|
            #[trigger] offered_ids(m, snapshots, historical).contains(x) ==> exists|i: int|
                0 <= i < m.len() && (#[trigger] m[i]).id@ == x && (m[i].kind@ == "release"@ || (m[i].kind@ == "snapshot"@ && snapshots) || ((
                m[i].kind@ == "old_beta"@ || m[i].kind@ == "old_alpha"@) && historical)),
    decreases m.len(),
{
    if m.len() > 0 {
        let t = m.drop_last();
        lemma_offered_versions(t, snapshots, historical);
        let rest = offered_ids(t, snapshots, historical);
        let all = offered_ids(m, snapshots, historical);
        let v = m.last();
        assert forall|i: int| 0 <= i < t.len() implies #[trigger] t[i] == m[i] by {}
        assert forall|i: int|
            0 <= i < m.len() && ((#[trigger] m[i]).kind@ == "release"@ || (m[i].kind@ == "snapshot"@ && snapshots) || ((m[i].kind@
                == "old_beta"@ || m[i].kind@ == "old_alpha"@) && historical)) implies all.contains(m[i].id@) by {
            if i < t.len() {
                assert(t[i] == m[i]);
                assert(rest.contains(t[i].id@));
                let j = choose|j: int| 0 <= j < rest.len() && rest[j] == t[i].id@;
                if kind_offered(v.kind@, snapshots, historical) {
                    assert(all[j] == rest[j]);
                }
            } else {
                assert(m[i] == v);
                assert(kind_offered(v.kind@, snapshots, historical));
                assert(all[all.len() - 1] == v.id@);
            }
        }
        assert forall|x: Seq<char>| #[trigger] all.contains(x) implies exists|i: int|
            0 <= i < m.len() && (#[trigger] m[i]).id@ == x && (m[i].kind@ == "release"@ || (m[i].kind@ == "snapshot"@ && snapshots) || ((
            m[i].kind@ == "old_beta"@ || m[i].kind@ == "old_alpha"@) && historical)) by {
            let j = choose|j: int| 0 <= j < all.len() && all[j] == x;
            if j < rest.len() {
                assert(all[j] == rest[j]);
                assert(rest.contains(x));
                let i = choose|i: int|
                    0 <= i < t.len() && (#[trigger] t[i]).id@ == x && (t[i].kind@ == "release"@ || (t[i].kind@ == "snapshot"@ && snapshots) || ((
                    t[i].kind@ == "old_beta"@ || t[i].kind@ == "old_alpha"@) && historical));
                assert(m[i] == t[i]);
            } else {
                let i = m.len() - 1;
                assert(m[i] == v);
            }
        }
    }
}

/// The first `n` elements of `s`, or all of them when there are fewer.
pub open spec fn first_n<A>(s: Seq<A>, n: nat) -> Seq<A> {
    if n < s.len() {
        s.take(n as int)
    } else {
        s
    }
}

/// The versions listed are the first `limit` offered ones, in order, or all of them when
/// fewer are offered.
pub proof fn lemma_releases_limit(m: Seq<ManifestVersion>, limit: nat, snapshots: bool, historical: bool)
    ensures
        ({
            let o = offered_ids(m, snapshots, historical);
            let r = first_n(o, limit);
            &&& r.len() == if limit < o.len() {
                limit as int
            } else {
                o.len() as int
            }
            &&& forall|i: int| 0 <= i < r.len() ==> #[trigger] r[i] == o[i]
            &&& limit >= m.len() ==> r == o
        }),
{
    lemma_offered_versions(m, snapshots, historical);
}

/// Whether versions of a kind are offered.
fn kind_is_offered(kind: &str, snapshots: bool, historical: bool) -> (res: bool)
    ensures
        res == kind_offered(kind@, snapshots, historical),
{
    proof {
        reveal_strlit("release");
        reveal_strlit("snapshot");
        reveal_strlit("old_beta");
        reveal_strlit("old_alpha");
        assert("snapshot"@[0] != "old_beta"@[0]);
    }
    if str_eq(kind, "release") {
        true
    } else if str_eq(kind, "snapshot") {
        snapshots
    } else if str_eq(kind, "old_beta") || str_eq(kind, "old_alpha") {
        historical
    } else {
        false
    }
}

/// The identifiers of at most `limit` offered versions of a manifest, in manifest order:
/// releases, and snapshots or old betas and alphas when asked for.
pub fn filter_releases(manifest: &Vec<ManifestVersion>, limit: usize, snapshots: bool, historical: bool) -> (res: Vec<String>)
    ensures
        string_views(res@) == first_n(offered_ids(manifest@, snapshots, historical), limit as nat),
        res@.len() <= limit,
{
    let mut res: Vec<String> = Vec::new();
    let n = manifest.len();
    for i in 0..n
        invariant
            n == manifest@.len(),
            string_views(res@) == first_n(offered_ids(manifest@.take(i as int), snapshots, historical), limit as nat),
    {
        let ghost before = offered_ids(manifest@.take(i as int), snapshots, historical);
        assert(manifest@.take(i + 1).drop_last() =~= manifest@.take(i as int));
        let v = &manifest[i];
        if kind_is_offered(v.kind.as_str(), snapshots, historical) {
            if res.len() < limit {
                let id = v.id.clone();
                proof {
                    assert(string_views(res@.push(id)) =~= string_views(res@).push(id@));
                }
                res.push(id);
            } else {
                assert(before.push(v.id@).take(limit as int) =~= before.take(limit as int));
            }
        }
    }
    assert(manifest@.take(n as int) =~= manifest@);
    res
}

/// Whether an update is offered: `None` when the current jar already is the latest one,
/// otherwise the current jar (if any) and the latest one.
pub fn update_available(current: Option<&str>, latest: String) -> (res: Option<(Option<String>, String)>)
    ensures
        match current {
            Some(c) => c@ == latest@ <==> res.is_none(),
            None => res.is_some(),
        },
        match res {
            Some((c, l)) => l@ == latest@ && opt_view(c) == match current {
                Some(x) => Some(x@),
                None => None::<Seq<char>>,
            },
            None => true,
        },
{
    match current {
        Some(c) => {
            if str_eq(c, latest.as_str()) {
                None
            } else {
                Some((Some(owned(c)), latest))
            }
        },
        None => Some((None, latest)),
    }
}

/// The version held by a `<version>…</version>` line of Maven metadata, once surrounding
/// white space is trimmed.
pub open spec fn version_tag_content(line: Seq<char>) -> Option<Seq<char>> {
    let t = trim(line);
    if starts_with(t, "<version>"@) {
        let r = t.skip("<version>"@.len() as int);
        if ends_with(r, "</version>"@) {
            Some(r.take(r.len() - "</version>"@.len()))
        } else {
            None
        }
    } else {
        None
    }
}

/// Whether a Maven version is wanted: it starts with `prefix`, and it is no beta when
/// betas are excluded.
pub open spec fn maven_wanted(v: Seq<char>, prefix: Seq<char>, exclude_beta: bool) -> bool {
    starts_with(v, prefix) && !(exclude_beta && ends_with(v, "-beta"@))
}

/// The last wanted version among the lines of Maven metadata.
pub open spec fn last_wanted_version(lines: Seq<Seq<char>>, prefix: Seq<char>, exclude_beta: bool) -> Option<Seq<char>>
    decreases lines.len(),
{
    if lines.len() == 0 {
        None
    } else {
        match version_tag_content(lines.last()) {
            Some(v) => if maven_wanted(v, prefix, exclude_beta) {
                Some(v)
            } else {
                last_wanted_version(lines.drop_last(), prefix, exclude_beta)
            },
            None => last_wanted_version(lines.drop_last(), prefix, exclude_beta),
        }
    }
}

/// A version found among the lines is one of the wanted ones.
pub proof fn lemma_last_wanted_is_wanted(lines: Seq<Seq<char>>, prefix: Seq<char>, exclude_beta: bool)
    ensures
        last_wanted_version(lines, prefix, exclude_beta) matches Some(v) ==> maven_wanted(v, prefix, exclude_beta),
    decreases lines.len(),
{
    if lines.len() > 0 {
        lemma_last_wanted_is_wanted(lines.drop_last(), prefix, exclude_beta);
    }
}

/// The version a metadata line holds, given the opening and closing tags.
fn line_version(line: &[char], open: &[char], close: &[char]) -> (res: Option<Vec<char>>)
    requires
        open@ == "<version>"@,
        close@ == "</version>"@,
    ensures
        match res {
            Some(v) => version_tag_content(line@) == Some(v@),
            None => version_tag_content(line@).is_none(),
        },
{
    let t = trim_chars(line);
    if !chars_starts_with(t.as_slice(), open) {
        return None;
    }
    let mut r: Vec<char> = Vec::new();
    let n = t.len();
    let mut i = open.len();
    while i < n
        invariant
            open@.len() <= i <= n,
            n == t@.len(),
            r@ == t@.subrange(open@.len() as int, i as int),
        decreases n - i,
    {
        r.push(t[i]);
        assert(t@.subrange(open@.len() as int, i as int).push(t@[i as int]) =~= t@.subrange(open@.len() as int, i + 1));
        i = i + 1;
    }
    assert(r@ =~= t@.skip(open@.len() as int));
    if !chars_ends_with(r.as_slice(), close) {
        return None;
    }
    let keep = r.len() - close.len();
    r.truncate(keep);
    assert(r@ =~= t@.skip(open@.len() as int).take(t@.skip(open@.len() as int).len() - close@.len()));
    Some(r)
}

/// Whether a Maven version is wanted.
fn is_wanted(v: &[char], prefix: &[char], beta: &[char], exclude_beta: bool) -> (res: bool)
    requires
        beta@ == "-beta"@,
    ensures
        res == maven_wanted(v@, prefix@, exclude_beta),
{
    chars_starts_with(v, prefix) && !(exclude_beta && chars_ends_with(v, beta))
}

/// The last version in Maven metadata, one `<version>` tag per line, that starts with
/// `prefix` (and, when `exclude_beta` holds, does not end with `-beta`).
pub fn resolve_maven_version(xml: &str, prefix: &str, exclude_beta: bool) -> (res: Option<String>)
    ensures
        opt_view(res) == last_wanted_version(split_on(xml@, '\n'), prefix@, exclude_beta),
        res matches Some(v) ==> maven_wanted(v@, prefix@, exclude_beta),
{
    proof {
        lemma_last_wanted_is_wanted(split_on(xml@, '\n'), prefix@, exclude_beta);
    }
    let x = chars_of(xml);
    let p = chars_of(prefix);
    let open = chars_of("<version>");
    let close = chars_of("</version>");
    let beta = chars_of("-beta");
    let n = x.len();
    let mut best: Option<Vec<char>> = None;
    let mut cur: Vec<char> = Vec::new();
    let ghost mut done: Seq<Seq<char>> = Seq::empty();
    assert(x@.take(0) =~= Seq::<char>::empty());
    assert(split_on(Seq::<char>::empty(), '\n') =~= done.push(cur@));
    for i in 0..n
        invariant
            n == x@.len(),
            x@ == xml@,
            p@ == prefix@,
            open@ == "<version>"@,
            close@ == "</version>"@,
            beta@ == "-beta"@,
            split_on(x@.take(i as int), '\n') == done.push(cur@),
            match best {
                Some(v) => last_wanted_version(done, p@, exclude_beta) == Some(v@),
                None => last_wanted_version(done, p@, exclude_beta).is_none(),
            },
    {
        let c = x[i];
        proof {
            assert(x@.take(i + 1) =~= x@.take(i as int).push(c));
            lemma_split_on_push(x@.take(i as int), c, '\n');
            lemma_split_on_nonempty(x@.take(i as int), '\n');
        }
        if c == '\n' {
            let ghost old_done = done;
            let ghost line = cur@;
            match line_version(cur.as_slice(), open.as_slice(), close.as_slice()) {
                Some(v) => {
                    if is_wanted(v.as_slice(), p.as_slice(), beta.as_slice(), exclude_beta) {
                        best = Some(v);
                    }
                },
                None => {},
            }
            cur = Vec::new();
            proof {
                done = old_done.push(line);
                assert(done.drop_last() =~= old_done);
            }
            assert(split_on(x@.take(i + 1), '\n') =~= done.push(cur@));
        } else {
            cur.push(c);
            assert(split_on(x@.take(i + 1), '\n') =~= done.push(cur@));
        }
    }
    assert(x@.take(n as int) =~= x@);
    let ghost lines = done.push(cur@);
    assert(lines.drop_last() =~= done);
    match line_version(cur.as_slice(), open.as_slice(), close.as_slice()) {
        Some(v) => {
            if is_wanted(v.as_slice(), p.as_slice(), beta.as_slice(), exclude_beta) {
                best = Some(v);
            }
        },
        None => {},
    }
    match best {
        Some(v) => Some(string_of(v.as_slice())),
        None => None,
    }
}

/// Where the jar of a kind is looked up.
#[derive(Debug, Clone, Copy)]
pub enum JarSource {
    /// The Mojang version manifest.
    Mojang,
    /// The PaperMC build list of a project, falling back on a non-stable build when no
    /// stable one exists.
    PaperMc { project: &'static str },
    /// The Fabric loader and installer lists.
    FabricMeta,
    /// The NeoForge Maven metadata.
    NeoForgeMaven,
    /// The Forge Maven metadata.
    ForgeMaven,
}

/// Where the jar of a kind is looked up; custom software has no source.
pub fn jar_source(software: Software) -> (res: Result<JarSource, ResolveError>)
    ensures
        software == Software::Vanilla ==> res == Ok::<JarSource, ResolveError>(JarSource::Mojang),
        software == Software::Paper ==> (res matches Ok(JarSource::PaperMc { project }) && project@ == "paper"@),
        software == Software::Folia ==> (res matches Ok(JarSource::PaperMc { project }) && project@ == "folia"@),
        software == Software::Fabric ==> res == Ok::<JarSource, ResolveError>(JarSource::FabricMeta),
        software == Software::NeoForge ==> res == Ok::<JarSource, ResolveError>(JarSource::NeoForgeMaven),
        software == Software::Forge ==> res == Ok::<JarSource, ResolveError>(JarSource::ForgeMaven),
        software == Software::Custom ==> res matches Err(ResolveError::UnknownSoftware),
{
    match software {
        Software::Vanilla => Ok(JarSource::Mojang),
        Software::Paper => Ok(JarSource::PaperMc { project: "paper" }),
        Software::Folia => Ok(JarSource::PaperMc { project: "folia" }),
        Software::Fabric => Ok(JarSource::FabricMeta),
        Software::NeoForge => Ok(JarSource::NeoForgeMaven),
        Software::Forge => Ok(JarSource::ForgeMaven),
        Software::Custom => Err(ResolveError::UnknownSoftware),
    }
}

/// Why the download of a software jar could not be worked out.
#[derive(Debug)]
pub enum ResolveError {
    /// The Mojang manifest does not list the version.
    VersionNotInManifest(String),
    /// The version's metadata names no server download.
    MissingServerDownload(String),
    NoFabricLoaders,
    NoFabricInstallers,
    NoNeoForgeVersion(String),
    NoForgeVersion(String),
    /// No build to fall back on exists for the version.
    NoFoliaBuild(String),
    /// No stable build exists for the version.
    NoStablePaperBuild(String),
    MissingName,
    MissingUrl,
    UnknownSoftware,
}

/// The text shown for a resolution error.
pub open spec fn resolve_error_message(e: ResolveError) -> Seq<char> {
    match e {
        ResolveError::VersionNotInManifest(v) => "Version "@ + v@ + " not in manifest"@,
        ResolveError::MissingServerDownload(v) => "Missing server download for "@ + v@,
        ResolveError::NoFabricLoaders => "No Fabric loaders"@,
        ResolveError::NoFabricInstallers => "No Fabric installers"@,
        ResolveError::NoNeoForgeVersion(v) => "No NeoForge version for "@ + v@,
        ResolveError::NoForgeVersion(v) => "No Forge version for "@ + v@,
        ResolveError::NoFoliaBuild(v) => "No Folia build for "@ + v@,
        ResolveError::NoStablePaperBuild(v) => "No stable Paper build for "@ + v@,
        ResolveError::MissingName => "Missing name"@,
        ResolveError::MissingUrl => "Missing url"@,
        ResolveError::UnknownSoftware => "Unknown software!"@,
    }
}

impl ResolveError {
    /// The text shown for this error.
    pub fn message(&self) -> (res: String)
        ensures
            res@ == resolve_error_message(*self),
    {
        match self {
            ResolveError::VersionNotInManifest(v) => {
                let mut m = owned("Version ");
                push_str(&mut m, v.as_str());
                push_str(&mut m, " not in manifest");
                m
            },
            ResolveError::MissingServerDownload(v) => {
                let mut m = owned("Missing server download for ");
                push_str(&mut m, v.as_str());
                m
            },
            ResolveError::NoFabricLoaders => owned("No Fabric loaders"),
            ResolveError::NoFabricInstallers => owned("No Fabric installers"),
            ResolveError::NoNeoForgeVersion(v) => {
                let mut m = owned("No NeoForge version for ");
                push_str(&mut m, v.as_str());
                m
            },
            ResolveError::NoForgeVersion(v) => {
                let mut m = owned("No Forge version for ");
                push_str(&mut m, v.as_str());
                m
            },
            ResolveError::NoFoliaBuild(v) => {
                let mut m = owned("No Folia build for ");
                push_str(&mut m, v.as_str());
                m
            },
            ResolveError::NoStablePaperBuild(v) => {
                let mut m = owned("No stable Paper build for ");
                push_str(&mut m, v.as_str());
                m
            },
            ResolveError::MissingName => owned("Missing name"),
            ResolveError::MissingUrl => owned("Missing url"),
            ResolveError::UnknownSoftware => owned("Unknown software!"),
        }
    }
}

/// A jar to download: where from, and the file name to keep it under.
pub open spec fn download_view(r: (String, String)) -> (Seq<char>, Seq<char>) {
    (r.0@, r.1@)
}

/// The first index whose version has identifier `id`, if any.
pub open spec fn manifest_index(m: Seq<ManifestVersion>, id: Seq<char>) -> Option<int> {
    if exists|i: int| 0 <= i < m.len() && m[i].id@ == id {
        Some(choose|i: int| 0 <= i < m.len() && m[i].id@ == id && forall|j: int| 0 <= j < i ==> m[j].id@ != id)
    } else {
        None
    }
}

/// The index found for a version lists it, with no earlier entry listing it; with no index
/// the manifest does not list it.
pub proof fn lemma_manifest_index(m: Seq<ManifestVersion>, id: Seq<char>)
    ensures
        match manifest_index(m, id) {
            Some(i) => 0 <= i < m.len() && m[i].id@ == id && forall|j: int| 0 <= j < i ==> (#[trigger] m[j]).id@ != id,
            None => forall|i: int| 0 <= i < m.len() ==> (#[trigger] m[i]).id@ != id,
        },
{
    if exists|i: int| 0 <= i < m.len() && m[i].id@ == id {
        let p = |i: int| m[i].id@ == id;
        let w = choose|i: int| 0 <= i < m.len() && m[i].id@ == id;
        assert(p(w));
        lemma_least_index(p, m.len() as int);
        let k = choose|i: int| 0 <= i < m.len() && #[trigger] p(i) && forall|j: int| 0 <= j < i ==> !#[trigger] p(j);
        assert(forall|j: int| 0 <= j < k ==> (#[trigger] m[j]).id@ != id) by {
            assert forall|j: int| 0 <= j < k implies (#[trigger] m[j]).id@ != id by {
                assert(!p(j));
            }
        }
        assert(p(k));
    }
}

/// Where the metadata of a Minecraft version is, looked up in the Mojang manifest.
pub fn vanilla_meta_url(versions: &Vec<ManifestVersion>, mc_version: &str) -> (res: Result<String, ResolveError>)
    ensures
        match manifest_index(versions@, mc_version@) {
            Some(i) => res matches Ok(u) && u@ == versions@[i].url@,
            None => res matches Err(ResolveError::VersionNotInManifest(v)) && v@ == mc_version@,
        },
{
    let n = versions.len();
    for i in 0..n
        invariant
            n == versions@.len(),
            forall|j: int| 0 <= j < i ==> versions@[j].id@ != mc_version@,
    {
        if str_eq(versions[i].id.as_str(), mc_version) {
            proof {
                let c = choose|k: int| 0 <= k < versions@.len() && versions@[k].id@ == mc_version@ && forall|j: int| 0 <= j < k ==> versions@[j].id@ != mc_version@;
                if c < i {
                } else if c > i {
                    assert(versions@[i as int].id@ != mc_version@);
                }
            }
            return Ok(versions[i].url.clone());
        }
    }
    Err(ResolveError::VersionNotInManifest(owned(mc_version)))
}

/// The file name a vanilla server jar is kept under.
pub open spec fn vanilla_jar_name(mc: Seq<char>) -> Seq<char> {
    "minecraft_server."@ + mc + ".jar"@
}

/// The vanilla jar to download, given the server download the version's metadata names.
pub fn vanilla_download(server_url: Option<String>, mc_version: &str) -> (res: Result<(String, String), ResolveError>)
    ensures
        match server_url {
            Some(u) => res matches Ok(d) && download_view(d) == (u@, vanilla_jar_name(mc_version@)),
            None => res matches Err(ResolveError::MissingServerDownload(v)) && v@ == mc_version@,
        },
{
    match server_url {
        Some(url) => {
            let mut name = owned("minecraft_server.");
            push_str(&mut name, mc_version);
            push_str(&mut name, ".jar");
            Ok((url, name))
        },
        None => Err(ResolveError::MissingServerDownload(owned(mc_version))),
    }
}

/// Where a Fabric server jar is downloaded from.
pub open spec fn fabric_url(mc: Seq<char>, loader: Seq<char>, installer: Seq<char>) -> Seq<char> {
    "https://meta.fabricmc.net/v2/versions/loader/"@ + mc + "/"@ + loader + "/"@ + installer + "/server/jar"@
}

/// The file name a Fabric server jar is kept under.
pub open spec fn fabric_jar_name(mc: Seq<char>, loader: Seq<char>, installer: Seq<char>) -> Seq<char> {
    "fabric-server-mc."@ + mc + "-loader."@ + loader + "-launcher."@ + installer + ".jar"@
}

/// The Fabric jar to download, built from the newest loader and installer versions (the
/// first of each list).
pub fn fabric_download(loaders: &Vec<String>, installers: &Vec<String>, mc_version: &str) -> (res: Result<(String, String), ResolveError>)
    ensures
        loaders@.len() == 0 ==> res matches Err(ResolveError::NoFabricLoaders),
        loaders@.len() > 0 && installers@.len() == 0 ==> res matches Err(ResolveError::NoFabricInstallers),
        loaders@.len() > 0 && installers@.len() > 0 ==> (res matches Ok(d) && download_view(d) == (
            fabric_url(mc_version@, loaders@[0]@, installers@[0]@),
            fabric_jar_name(mc_version@, loaders@[0]@, installers@[0]@),
        )),
{
    if loaders.len() == 0 {
        return Err(ResolveError::NoFabricLoaders);
    }
    if installers.len() == 0 {
        return Err(ResolveError::NoFabricInstallers);
    }
    let loader = loaders[0].as_str();
    let installer = installers[0].as_str();
    let mut url = owned("https://meta.fabricmc.net/v2/versions/loader/");
    push_str(&mut url, mc_version);
    push_str(&mut url, "/");
    push_str(&mut url, loader);
    push_str(&mut url, "/");
    push_str(&mut url, installer);
    push_str(&mut url, "/server/jar");
    let mut name = owned("fabric-server-mc.");
    push_str(&mut name, mc_version);
    push_str(&mut name, "-loader.");
    push_str(&mut name, loader);
    push_str(&mut name, "-launcher.");
    push_str(&mut name, installer);
    push_str(&mut name, ".jar");
    Ok((url, name))
}

/// `s` with every leading copy of `p` removed (`str::trim_start_matches`).
pub open spec fn strip_leading(s: Seq<char>, p: Seq<char>) -> Seq<char>
    decreases s.len(),
{
    if p.len() > 0 && starts_with(s, p) {
        strip_leading(s.skip(p.len() as int), p)
    } else {
        s
    }
}

/// The prefix of the NeoForge versions for a Minecraft version: `1.` is stripped (as often
/// as it leads), and the remaining `minor.patch` becomes `minor.patch.`, a lone `minor`
/// becomes `minor.0.`.
pub open spec fn neoforge_prefix(mc: Seq<char>) -> Seq<char> {
    let t = strip_leading(mc, "1."@);
    if t.contains('.') {
        t + "."@
    } else {
        t + ".0."@
    }
}

/// The prefix of the NeoForge versions for a Minecraft version.
pub fn neoforge_version_prefix(mc_version: &str) -> (res: String)
    ensures
        res@ == neoforge_prefix(mc_version@),
{
    let v = chars_of(mc_version);
    let one = chars_of("1.");
    proof {
        reveal_strlit("1.");
    }
    let n = v.len();
    let mut i: usize = 0;
    assert(one@ =~= seq!['1', '.']);
    assert(v@.skip(0) =~= v@);
    while i < n && n - i >= 2 && v[i] == '1' && v[i + 1] == '.'
        invariant
            i <= n,
            n == v@.len(),
            one@ == seq!['1', '.'],
            strip_leading(v@.skip(i as int), one@) == strip_leading(v@, one@),
        decreases n - i,
    {
        proof {
            let t = v@.skip(i as int);
            assert(t.take(2) =~= one@);
            assert(t.skip(2) =~= v@.skip(i + 2));
        }
        i = i + 2;
    }
    proof {
        let t = v@.skip(i as int);
        if starts_with(t, one@) {
            assert(t.take(2)[0] == t[0] && t.take(2)[1] == t[1]);
            assert(t[0] == v@[i as int] && t[1] == v@[i + 1]);
        }
        assert(one@ == "1."@);
    }
    let mut t: Vec<char> = Vec::new();
    let mut has_dot = false;
    let mut j = i;
    while j < n
        invariant
            i <= j <= n,
            n == v@.len(),
            t@ == v@.subrange(i as int, j as int),
            has_dot == t@.contains('.'),
        decreases n - j,
    {
        let c = v[j];
        proof {
            if c == '.' {
                assert(t@.push(c)[t@.len() as int] == '.');
            } else {
                if t@.push(c).contains('.') {
                    let k = choose|k: int| 0 <= k < t@.push(c).len() && t@.push(c)[k] == '.';
                    assert(t@[k] == '.');
                }
            }
            if t@.contains('.') {
                let k = choose|k: int| 0 <= k < t@.len() && t@[k] == '.';
                assert(t@.push(c)[k] == '.');
            }
        }
        if c == '.' {
            has_dot = true;
        }
        t.push(c);
        assert(v@.subrange(i as int, j as int).push(c) =~= v@.subrange(i as int, j + 1));
        j = j + 1;
    }
    assert(t@ =~= v@.skip(i as int));
    let mut res = string_of(t.as_slice());
    if has_dot {
        push_str(&mut res, ".");
    } else {
        push_str(&mut res, ".0.");
    }
    res
}

/// The file name of the NeoForge installer of a version.
pub open spec fn neoforge_jar_name(v: Seq<char>) -> Seq<char> {
    "neoforge-"@ + v + "-installer.jar"@
}

/// Where the NeoForge installer of a version is downloaded from.
pub open spec fn neoforge_url(v: Seq<char>) -> Seq<char> {
    "https://maven.neoforged.net/releases/net/neoforged/neoforge/"@ + v + "/"@ + neoforge_jar_name(v)
}

/// The NeoForge version chosen from Maven metadata: the last non-beta one for the
/// Minecraft version, else the last one at all.
pub open spec fn neoforge_choice(xml: Seq<char>, mc: Seq<char>) -> Option<Seq<char>> {
    let lines = split_on(xml, '\n');
    match last_wanted_version(lines, neoforge_prefix(mc), true) {
        Some(v) => Some(v),
        None => last_wanted_version(lines, neoforge_prefix(mc), false),
    }
}

/// The NeoForge installer to download, chosen from the NeoForge Maven metadata.
pub fn neoforge_download(xml: &str, mc_version: &str) -> (res: Result<(String, String), ResolveError>)
    ensures
        match neoforge_choice(xml@, mc_version@) {
            Some(v) => res matches Ok(d) && download_view(d) == (neoforge_url(v), neoforge_jar_name(v)),
            None => res matches Err(ResolveError::NoNeoForgeVersion(m)) && m@ == mc_version@,
        },
{
    let prefix = neoforge_version_prefix(mc_version);
    let version = match resolve_maven_version(xml, prefix.as_str(), true) {
        Some(v) => v,
        None => match resolve_maven_version(xml, prefix.as_str(), false) {
            Some(v) => v,
            None => return Err(ResolveError::NoNeoForgeVersion(owned(mc_version))),
        },
    };
    let mut name = owned("neoforge-");
    push_str(&mut name, version.as_str());
    push_str(&mut name, "-installer.jar");
    let mut url = owned("https://maven.neoforged.net/releases/net/neoforged/neoforge/");
    push_str(&mut url, version.as_str());
    push_str(&mut url, "/");
    push_str(&mut url, name.as_str());
    Ok((url, name))
}

/// The file name of the Forge installer of a version.
pub open spec fn forge_jar_name(v: Seq<char>) -> Seq<char> {
    "forge-"@ + v + "-installer.jar"@
}

/// Where the Forge installer of a version is downloaded from.
pub open spec fn forge_url(v: Seq<char>) -> Seq<char> {
    "https://maven.minecraftforge.net/net/minecraftforge/forge/"@ + v + "/"@ + forge_jar_name(v)
}

/// The Forge installer to download: the last version in the Forge Maven metadata that
/// starts with the Minecraft version and a dash.
pub fn forge_download(xml: &str, mc_version: &str) -> (res: Result<(String, String), ResolveError>)
    ensures
        match last_wanted_version(split_on(xml@, '\n'), mc_version@ + "-"@, false) {
            Some(v) => res matches Ok(d) && download_view(d) == (forge_url(v), forge_jar_name(v)),
            None => res matches Err(ResolveError::NoForgeVersion(m)) && m@ == mc_version@,
        },
{
    let mut prefix = owned(mc_version);
    push_str(&mut prefix, "-");
    let version = match resolve_maven_version(xml, prefix.as_str(), false) {
        Some(v) => v,
        None => return Err(ResolveError::NoForgeVersion(owned(mc_version))),
    };
    let mut name = owned("forge-");
    push_str(&mut name, version.as_str());
    push_str(&mut name, "-installer.jar");
    let mut url = owned("https://maven.minecraftforge.net/net/minecraftforge/forge/");
    push_str(&mut url, version.as_str());
    push_str(&mut url, "/");
    push_str(&mut url, name.as_str());
    Ok((url, name))
}

/// Where the builds of a PaperMC project for a Minecraft version are listed.
pub open spec fn papermc_builds(project: Seq<char>, mc: Seq<char>) -> Seq<char> {
    "https://fill.papermc.io/v3/projects/"@ + project + "/versions/"@ + mc + "/builds"@
}

/// Where the builds of a PaperMC project for a Minecraft version are listed.
pub fn papermc_builds_url(project: &str, mc_version: &str) -> (res: String)
    ensures
        res@ == papermc_builds(project@, mc_version@),
{
    let mut url = owned("https://fill.papermc.io/v3/projects/");
    push_str(&mut url, project);
    push_str(&mut url, "/versions/");
    push_str(&mut url, mc_version);
    push_str(&mut url, "/builds");
    url
}

/// One build listed by the PaperMC API, with the name and address of its default server
/// download.
pub struct PaperBuild {
    pub channel: Option<String>,
    pub name: Option<String>,
    pub url: Option<String>,
}

/// Whether a build is on the stable channel.
pub open spec fn is_stable(b: PaperBuild) -> bool {
    b.channel matches Some(c) && c@ == "STABLE"@
}

/// The build a PaperMC download uses: the first stable one, else (when falling back is
/// allowed) the first one.
pub open spec fn papermc_choice(builds: Seq<PaperBuild>, nonstable_fallback: bool) -> Option<int> {
    if exists|i: int| 0 <= i < builds.len() && is_stable(builds[i]) {
        Some(choose|i: int| 0 <= i < builds.len() && is_stable(builds[i]) && forall|j: int| 0 <= j < i ==> !is_stable(builds[j]))
    } else if nonstable_fallback && builds.len() > 0 {
        Some(0)
    } else {
        None
    }
}

/// The chosen build is the first stable one; without any, the first build when falling back
/// is allowed, and none otherwise.
pub proof fn lemma_papermc_choice(builds: Seq<PaperBuild>, nonstable_fallback: bool)
    ensures
        match papermc_choice(builds, nonstable_fallback) {
            Some(i) => 0 <= i < builds.len() && ((is_stable(builds[i]) && forall|j: int| 0 <= j < i ==> !is_stable(
                #[trigger] builds[j],
            )) || (i == 0 && nonstable_fallback && forall|j: int| 0 <= j < builds.len() ==> !is_stable(#[trigger] builds[j]))),
            None => builds.len() == 0 || (!nonstable_fallback && forall|j: int| 0 <= j < builds.len() ==> !is_stable(
                #[trigger] builds[j],
            )),
        },
{
    if exists|i: int| 0 <= i < builds.len() && is_stable(builds[i]) {
        let p = |i: int| is_stable(builds[i]);
        let w = choose|i: int| 0 <= i < builds.len() && is_stable(builds[i]);
        assert(p(w));
        lemma_least_index(p, builds.len() as int);
        let k = choose|i: int| 0 <= i < builds.len() && #[trigger] p(i) && forall|j: int| 0 <= j < i ==> !#[trigger] p(j);
        assert(forall|j: int| 0 <= j < k ==> !is_stable(#[trigger] builds[j])) by {
            assert forall|j: int| 0 <= j < k implies !is_stable(#[trigger] builds[j]) by {
                assert(!p(j));
            }
        }
        assert(p(k));
    }
}

/// The build a PaperMC download takes: when some build's channel is `STABLE`, the first
/// such build; a build on another channel only when no build is on `STABLE`, and then the
/// first build when falling back is allowed, none otherwise.
pub proof fn lemma_papermc_stable_channel(builds: Seq<PaperBuild>, nonstable_fallback: bool)
    ensures
        (exists|j: int| 0 <= j < builds.len() && ((#[trigger] builds[j]).channel matches Some(c) && c@ == "STABLE"@)) ==> (
        papermc_choice(builds, nonstable_fallback) matches Some(i) && 0 <= i < builds.len() && (builds[i].channel matches Some(c)
            && c@ == "STABLE"@) && forall|j: int| 0 <= j < i ==> !((#[trigger] builds[j]).channel matches Some(c) && c@ == "STABLE"@)),
        !(exists|j: int| 0 <= j < builds.len() && ((#[trigger] builds[j]).channel matches Some(c) && c@ == "STABLE"@)) ==> (
        papermc_choice(builds, nonstable_fallback) == if nonstable_fallback && builds.len() > 0 {
            Some(0int)
        } else {
            None
        }),
{
    lemma_papermc_choice(builds, nonstable_fallback);
    if exists|j: int| 0 <= j < builds.len() && ((#[trigger] builds[j]).channel matches Some(c) && c@ == "STABLE"@) {
        let j = choose|j: int| 0 <= j < builds.len() && ((#[trigger] builds[j]).channel matches Some(c) && c@ == "STABLE"@);
        assert(is_stable(builds[j]));
    } else {
        assert forall|j: int| 0 <= j < builds.len() implies !is_stable(#[trigger] builds[j]) by {}
    }
}

fn build_is_stable(b: &PaperBuild) -> (res: bool)
    ensures
        res == is_stable(*b),
{
    match &b.channel {
        Some(c) => str_eq(c.as_str(), "STABLE"),
        None => false,
    }
}

/// The index of the first stable build, if any.
fn first_stable(builds: &Vec<PaperBuild>) -> (res: Option<usize>)
    ensures
        match res {
            Some(k) => k < builds@.len() && is_stable(builds@[k as int]) && forall|j: int| 0 <= j < k ==> !is_stable(builds@[j]),
            None => forall|j: int| 0 <= j < builds@.len() ==> !is_stable(builds@[j]),
        },
{
    let n = builds.len();
    for i in 0..n
        invariant
            n == builds@.len(),
            forall|j: int| 0 <= j < i ==> !is_stable(builds@[j]),
    {
        if build_is_stable(&builds[i]) {
            return Some(i);
        }
    }
    None
}

/// The PaperMC server jar to download from the listed builds.
pub fn papermc_download(builds: &Vec<PaperBuild>, mc_version: &str, nonstable_fallback: bool) -> (res: Result<(String, String), ResolveError>)
    ensures
        match papermc_choice(builds@, nonstable_fallback) {
            Some(i) => match (builds@[i].name, builds@[i].url) {
                (Some(name), Some(url)) => res matches Ok(d) && download_view(d) == (url@, name@),
                (None, _) => res matches Err(ResolveError::MissingName),
                (Some(_), None) => res matches Err(ResolveError::MissingUrl),
            },
            None => if nonstable_fallback {
                res matches Err(ResolveError::NoFoliaBuild(m)) && m@ == mc_version@
            } else {
                res matches Err(ResolveError::NoStablePaperBuild(m)) && m@ == mc_version@
            },
        },
{
    let chosen = first_stable(builds);
    let n = builds.len();
    let k = match chosen {
        Some(k) => {
            proof {
                let c = choose|c: int| 0 <= c < builds@.len() && is_stable(builds@[c]) && forall|j: int| 0 <= j < c ==> !is_stable(builds@[j]);
                if c < k {
                } else if c > k {
                    assert(!is_stable(builds@[k as int]));
                }
            }
            k
        },
        None => {
            if nonstable_fallback && n > 0 {
                0
            } else if nonstable_fallback {
                return Err(ResolveError::NoFoliaBuild(owned(mc_version)));
            } else {
                return Err(ResolveError::NoStablePaperBuild(owned(mc_version)));
            }
        },
    };
    let b = &builds[k];
    let name = match &b.name {
        Some(x) => x.clone(),
        None => return Err(ResolveError::MissingName),
    };
    let url = match &b.url {
        Some(x) => x.clone(),
        None => return Err(ResolveError::MissingUrl),
    };
    Ok((url, name))
}

} // verus!
