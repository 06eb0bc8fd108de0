//! The settings file: the data directory, the servers and the folder groups, and where
//! each of them lives on disk.
use vstd::prelude::*;
use crate::paths::{join, path_join};
use crate::software::Software as ServerSoftware;
use crate::text::{owned, str_eq};

verus! {

/// The whole configuration of the manager.
pub struct Config {
    pub app: Settings,
    pub servers: Vec<ServerEntry>,
    pub folder_syncs: Vec<FolderLinks>,
}

/// Settings that apply to the application and to every server.
pub struct Settings {
    /// Directory under which software jars, servers and folder groups are kept.
    pub data_dir: String,
    /// Java executable used when a server names none of its own.
    pub java_path: String,
    /// Whether server logs are shown in the shortened, marked form.
    pub cleaner_log: bool,
}

/// One managed server.
pub struct ServerEntry {
    pub id: String,
    pub name: String,
    pub path: String,
    pub software: ServerSoftware,
    pub mc_version: String,
    pub ram_mb: u32,
    pub extra_jvm_args: Vec<String>,
    pub jar_name: Option<String>,
    pub java_path: Option<String>,
    /// Whether the installer of an installer-based software has already run.
    pub installed: bool,
}

/// The kinds of server software a configuration can name.
#[derive(Debug, Clone, Copy, PartialEq, Eq, Structural)]
pub enum Software {
    Paper,
    Vanilla,
    Fabric,
    Custom,
}

/// A group of folders and files shared by several servers.
pub struct FolderLinks {
    pub name: String,
    /// Identifiers of the servers the group is synced to.
    pub servers: Vec<String>,
    pub mode: LinkMode,
}

/// How the entries of a folder group are placed into a server.
#[derive(Debug, Clone, Copy, PartialEq, Eq, Structural)]
pub enum LinkMode {
    Symlink,
    Copy,
}

/// The lower-case identifier of a software kind.
pub open spec fn software_id(s: Software) -> Seq<char> {
    match s {
        Software::Paper => "paper"@,
        Software::Vanilla => "vanilla"@,
        Software::Fabric => "fabric"@,
        Software::Custom => "custom"@,
    }
}

/// The software kind an identifier names; anything unknown is `Custom`.
pub open spec fn software_from_id(s: Seq<char>) -> Software {
    if s == "vanilla"@ {
        Software::Vanilla
    } else if s == "paper"@ {
        Software::Paper
    } else if s == "fabric"@ {
        Software::Fabric
    } else {
        Software::Custom
    }
}

/// The order in which the software kinds are offered.
pub open spec fn software_menu_order() -> Seq<Software> {
    seq![Software::Vanilla, Software::Paper, Software::Fabric, Software::Custom]
}

/// The menu label of a software kind.
pub open spec fn software_label(s: Software) -> Seq<char> {
    match s {
        Software::Paper => "Paper - Plugin support"@,
        Software::Vanilla => "Vanilla - Mojang server"@,
        Software::Fabric => "Fabric - Mod support"@,
        Software::Custom => "Custom - Your own jar"@,
    }
}

impl Software {
    /// The lower-case identifier of this software kind.
    pub fn as_str(&self) -> (res: &'static str)
        ensures
            res@ == software_id(*self),
    {
        match self {
            Software::Paper => "paper",
            Software::Vanilla => "vanilla",
            Software::Fabric => "fabric",
            Software::Custom => "custom",
        }
    }

    /// Whether the jar of this software kind can be downloaded automatically.
    pub fn auto_download(&self) -> (res: bool)
        ensures
            res == (*self != Software::Custom),
    {
        !matches!(self, Software::Custom)
    }

    /// The identifiers of the software kinds, each with its menu label, in menu order.
    pub fn variants() -> (res: &'static [(&'static str, &'static str)])
        ensures
            res@.len() == software_menu_order().len(),
            forall|i: int|
                0 <= i < res@.len() ==> (#[trigger] res@[i]).0@ == software_id(
                    software_menu_order()[i],
                ) && res@[i].1@ == software_label(software_menu_order()[i]),
    {
        &[
            ("vanilla", "Vanilla - Mojang server"),
            ("paper", "Paper - Plugin support"),
            ("fabric", "Fabric - Mod support"),
            ("custom", "Custom - Your own jar"),
        ]
    }

    /// The software kind an identifier names; anything unknown is `Custom`.
    pub fn from_str(string: &str) -> (res: Self)
        ensures
            res == software_from_id(string@),
    {
        if str_eq(string, "vanilla") {
            Software::Vanilla
        } else if str_eq(string, "paper") {
            Software::Paper
        } else if str_eq(string, "fabric") {
            Software::Fabric
        } else {
            Software::Custom
        }
    }
}

/// Reading back the identifier of a software kind gives that kind.
pub proof fn lemma_software_id_round_trip(s: Software)
    ensures
        software_from_id(software_id(s)) == s,
{
    reveal_strlit("vanilla");
    reveal_strlit("paper");
    reveal_strlit("fabric");
    reveal_strlit("custom");
    assert("paper"@.len() != "vanilla"@.len());
    assert("fabric"@.len() != "vanilla"@.len() && "fabric"@.len() != "paper"@.len());
    assert("custom"@.len() != "vanilla"@.len() && "custom"@.len() != "paper"@.len());
    assert("custom"@[0] != "fabric"@[0]);
}

/// The word a link mode is shown and stored as.
pub open spec fn link_mode_name(m: LinkMode) -> Seq<char> {
    match m {
        LinkMode::Symlink => "symlink"@,
        LinkMode::Copy => "copy"@,
    }
}

impl LinkMode {
    /// The word this link mode is shown as.
    pub fn to_string(&self) -> (res: String)
        ensures
            res@ == link_mode_name(*self),
    {
        match self {
            LinkMode::Symlink => owned("symlink"),
            LinkMode::Copy => owned("copy"),
        }
    }
}

impl Default for LinkMode {
    fn default() -> (res: Self)
        ensures
            res == LinkMode::Symlink,
    {
        LinkMode::Symlink
    }
}

/// The directory a platform directory sits in when the system names none.
pub open spec fn fallback_dir() -> Seq<char> {
    "."@
}

/// `dir` when the system named one, the current directory otherwise.
pub open spec fn dir_or_fallback(dir: Option<Seq<char>>) -> Seq<char> {
    match dir {
        Some(d) => d,
        None => fallback_dir(),
    }
}

/// Where the configuration file lives, given the system configuration directory.
pub open spec fn config_path_in(config_dir: Option<Seq<char>>) -> Seq<char> {
    path_join(path_join(dir_or_fallback(config_dir), "platform"@), "config.toml"@)
}

/// The data directory of a fresh configuration, given the system local data directory.
pub open spec fn default_data_dir(data_local_dir: Option<Seq<char>>) -> Seq<char> {
    path_join(dir_or_fallback(data_local_dir), "platform"@)
}

/// The view of an optional string.
pub open spec fn opt_view(s: Option<String>) -> Option<Seq<char>> {
    match s {
        Some(x) => Some(x@),
        None => None,
    }
}

/// Calls `dirs::config_dir`, the system's per-user configuration directory, as a string
/// (`to_string_lossy`, so a directory whose name is not valid Unicode comes back with
/// replacement characters). What it is depends on the platform and the environment, so
/// nothing is stated of it.
#[verifier::external_body]
fn system_config_dir() -> (res: Option<String>) {
    match dirs::config_dir() {
        Some(p) => Some(p.to_string_lossy().into_owned()),
        None => None,
    }
}

/// Calls `dirs::data_local_dir`, the system's per-user local data directory, as a string
/// (`to_string_lossy`, so a directory whose name is not valid Unicode comes back with
/// replacement characters). What it is depends on the platform and the environment, so
/// nothing is stated of it.
#[verifier::external_body]
fn system_data_local_dir() -> (res: Option<String>) {
    match dirs::data_local_dir() {
        Some(p) => Some(p.to_string_lossy().into_owned()),
        None => None,
    }
}

fn dir_or_current(dir: Option<String>) -> (res: String)
    ensures
        res@ == dir_or_fallback(opt_view(dir)),
{
    match dir {
        Some(d) => d,
        None => owned("."),
    }
}

impl Config {
    /// The configuration file inside the given system configuration directory (or the
    /// current directory when there is none).
    pub fn config_path_from(config_dir: Option<String>) -> (res: String)
        ensures
            res@ == config_path_in(opt_view(config_dir)),
    {
        let base = dir_or_current(config_dir);
        let dir = join(base.as_str(), "platform");
        join(dir.as_str(), "config.toml")
    }

    /// The configuration file: `platform/config.toml` inside the system configuration
    /// directory.
    pub fn config_path() -> (res: String)
        ensures
            exists|d: Option<Seq<char>>| res@ == config_path_in(d),
    {
        let d = system_config_dir();
        Self::config_path_from(d)
    }

    /// A fresh configuration whose data directory is `platform` inside the given local
    /// data directory (or the current directory when there is none).
    pub fn default_from(data_local_dir: Option<String>) -> (res: Config)
        ensures
            res.app.data_dir@ == default_data_dir(opt_view(data_local_dir)),
            res.app.java_path@ == "java"@,
            res.app.cleaner_log == false,
            res.servers@.len() == 0,
            res.folder_syncs@.len() == 0,
    {
        let base = dir_or_current(data_local_dir);
        let data_dir = join(base.as_str(), "platform");
        Config {
            app: Settings { data_dir, java_path: owned("java"), cleaner_log: false },
            servers: Vec::new(),
            folder_syncs: Vec::new(),
        }
    }

    /// Directory holding downloaded software jars.
    pub fn software_dir(&self) -> (res: String)
        ensures
            res@ == path_join(self.app.data_dir@, "software"@),
    {
        join(self.app.data_dir.as_str(), "software")
    }

    /// Directory holding newly created servers.
    pub fn servers_dir(&self) -> (res: String)
        ensures
            res@ == path_join(self.app.data_dir@, "servers"@),
    {
        join(self.app.data_dir.as_str(), "servers")
    }

    /// Directory holding the folder groups.
    pub fn synced_folders_dir(&self) -> (res: String)
        ensures
            res@ == path_join(self.app.data_dir@, "syncedFolders"@),
    {
        join(self.app.data_dir.as_str(), "syncedFolders")
    }

    /// Directory holding the files of one folder group.
    pub fn group_dir(&self, group: &FolderLinks) -> (res: String)
        ensures
            res@ == path_join(path_join(self.app.data_dir@, "syncedFolders"@), group.name@),
    {
        let dir = self.synced_folders_dir();
        join(dir.as_str(), group.name.as_str())
    }
}

impl Default for Config {
    /// A fresh configuration: no servers, no groups, `java` as the Java executable, and
    /// `platform` inside the system local data directory as data directory.
    fn default() -> (res: Self)
        ensures
            exists|d: Option<Seq<char>>| res.app.data_dir@ == default_data_dir(d),
            res.app.java_path@ == "java"@,
            res.app.cleaner_log == false,
            res.servers@.len() == 0,
            res.folder_syncs@.len() == 0,
    {
        let d = system_data_local_dir();
        Config::default_from(d)
    }
}

} // verus!
