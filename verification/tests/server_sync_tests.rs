use platform::config::{FolderLinks, LinkMode, ServerEntry};
use platform::foldersync::{
    groups_with_server, servers_in_group, sync_entry_action, unsync_entry_action, SyncAction,
    SyncReport, TargetState, UnsyncAction,
};
use platform::menus::{
    group_menu_choice, java_path_setting, main_menu_choice, new_server_entry, parse_ram,
    selected_ids, slugify, subscription_flags, GroupChoice, MainChoice, DEFAULT_RAM_MB,
};
use platform::server::{
    find_server_jar, format_line, get_custom_jar, jvm_args, launch_args, remove_term_noise,
    set_serverstarter, starter_args, user_jvm_args_text, LogLevel, LogLine,
};
use platform::software::Software;
use platform::ui::menu_default;

fn entry(id: &str) -> ServerEntry {
    new_server_entry(id.to_string(), format!("/srv/{id}"), Software::Paper, "1.21".to_string())
}

fn target(exists: bool, is_dir: bool, is_symlink: bool, link: Option<&str>) -> TargetState {
    TargetState { exists, is_dir, is_symlink, link_target: link.map(String::from) }
}

#[test]
fn server_jvm_arguments() {
    let extra = vec!["-Dx=1".to_string()];
    assert_eq!(jvm_args(2048, &extra), vec!["-Xms1024M", "-Xmx2048M", "-Dx=1"]);
    assert_eq!(jvm_args(3, &vec![]), vec!["-Xms1M", "-Xmx3M"]);
    assert_eq!(launch_args(1000, &extra, "/s/p.jar"), vec!["-Xms500M", "-Xmx1000M", "-Dx=1", "-jar", "/s/p.jar", "--nogui"]);
    assert_eq!(user_jvm_args_text(&jvm_args(2048, &extra)), "-Xms1024M\n-Xmx2048M\n-Dx=1\n");
    assert_eq!(starter_args("/s/user_jvm_args.txt", "/d/server_starter.jar"), vec!["@/s/user_jvm_args.txt", "-jar", "/d/server_starter.jar", "--nogui"]);
}

#[test]
fn server_terminal_noise() {
    assert_eq!(remove_term_noise("\u{1b}[32m[12:00:00 INFO]: Done\u{1b}[0m\n"), "[12:00:00 INFO]: Done");
    assert_eq!(remove_term_noise("  plain  "), "plain");
    assert_eq!(remove_term_noise("a\u{7}b \u{1}"), "ab ");
    assert_eq!(remove_term_noise("\u{1b}[1;31m\u{1b}[0m"), "");
}

#[test]
fn server_log_lines() {
    let paper = Software::log_regex(&Software::Paper);
    match format_line("[12:34:56 INFO]: Done (3.2s)!", paper) {
        LogLine::Marked(LogLevel::Info, m) => assert_eq!(m, "Done (3.2s)!"),
        other => panic!("{other:?}"),
    }
    match format_line("[12:34:56 TRACE]: noisy", paper) {
        LogLine::Plain(m) => assert_eq!(m, "noisy"),
        other => panic!("{other:?}"),
    }
    match format_line("no header", paper) {
        LogLine::Plain(m) => assert_eq!(m, "no header"),
        other => panic!("{other:?}"),
    }
    let vanilla = Software::log_regex(&Software::Vanilla);
    match format_line("[01:02:03] [Server thread/WARN]: Can't keep up!", vanilla) {
        LogLine::Marked(LogLevel::Warn, m) => assert_eq!(m, "Can't keep up!"),
        other => panic!("{other:?}"),
    }
    let forge = Software::log_regex(&Software::Forge);
    match format_line("[01:02:03] [main/ERROR] [mixin]: boom", forge) {
        LogLine::Marked(LogLevel::Error, m) => assert_eq!(m, "boom"),
        other => panic!("{other:?}"),
    }
}

#[test]
fn server_jar_lookup() {
    let entries = vec!["/s/logs".to_string(), "/s/.jar".to_string(), "/s/mods.jar".to_string(), "/s/forge-server.jar".to_string()];
    assert_eq!(get_custom_jar(&entries).as_deref(), Some("/s/mods.jar"));
    assert_eq!(find_server_jar(&entries).as_deref(), Some("/s/forge-server.jar"));
    assert_eq!(get_custom_jar(&vec!["/s/readme.txt".to_string()]), None);
    assert_eq!(find_server_jar(&vec!["/s/client.jar".to_string()]), None);
}

#[test]
fn server_starter_is_set_once() {
    let mut slot = None;
    set_serverstarter(&mut slot, "/a.jar".to_string());
    set_serverstarter(&mut slot, "/b.jar".to_string());
    assert_eq!(slot.as_deref(), Some("/a.jar"));
}

#[test]
fn sync_report_counts() {
    let mut r = SyncReport::default();
    assert_eq!(r.to_string(), "0 synced, 0 overridden");
    r.record_step(SyncKind::Place(false), None);
    r.record_step(SyncKind::Place(true), None);
    r.record_step(SyncKind::Keep, None);
    r.record_step(SyncKind::Place(false), Some("x: failed".to_string()));
    r.record_step(SyncKind::Unlistable, None);
    assert_eq!(r.to_string(), "2 synced, 1 overridden");
    assert_eq!(r.errors, vec!["x: failed"]);
}

#[test]
fn sync_never_replaces_own_files() {
    let src = "/d/syncedFolders/mods";
    assert_eq!(sync_entry_action(&target(true, true, false, None), src), SyncAction::Descend);
    assert_eq!(sync_entry_action(&target(true, false, false, None), src), SyncAction::Keep);
    assert_eq!(sync_entry_action(&target(true, true, true, Some("/elsewhere")), src), SyncAction::Keep);
    assert_eq!(sync_entry_action(&target(false, false, true, Some("/d/syncedFolders/mods/a")), src), SyncAction::Place { remove_link: true });
    assert_eq!(sync_entry_action(&target(false, false, false, None), src), SyncAction::Place { remove_link: false });
}

#[test]
fn unsync_removes_only_managed_links() {
    let src = "/d/syncedFolders/mods";
    assert_eq!(unsync_entry_action(true, &target(true, true, false, None), src), UnsyncAction::Descend);
    assert_eq!(unsync_entry_action(false, &target(true, false, true, Some("/d/syncedFolders/mods/a.jar")), src), UnsyncAction::Remove);
    assert_eq!(unsync_entry_action(false, &target(true, false, false, None), src), UnsyncAction::Leave);
    assert_eq!(unsync_entry_action(false, &target(true, false, true, Some("/other/a.jar")), src), UnsyncAction::Leave);
}

#[test]
fn sync_group_membership() {
    let servers = vec![entry("a"), entry("b"), entry("c")];
    let g = FolderLinks { name: "g".to_string(), servers: vec!["c".to_string(), "a".to_string()], mode: LinkMode::Symlink };
    assert_eq!(servers_in_group(&g, &servers), vec![0, 2]);
    let h = FolderLinks { name: "h".to_string(), servers: vec!["b".to_string()], mode: LinkMode::Copy };
    let groups = vec![g, h];
    assert_eq!(groups_with_server(&groups, "a"), vec![0]);
    assert_eq!(groups_with_server(&groups, "b"), vec![1]);
    assert!(groups_with_server(&groups, "z").is_empty());
}

#[test]
fn menus_slugify() {
    assert_eq!(slugify("My Cool Server!"), "my_cool_server");
    assert_eq!(slugify("__a--b__"), "a_b");
    assert_eq!(slugify("!!!"), "");
    assert_eq!(slugify("Ünïcode Straße"), "ünïcode_straße");
}

#[test]
fn menus_settings_input() {
    assert_eq!(parse_ram(" 4096 "), Some(4096));
    assert_eq!(parse_ram("4k"), None);
    assert_eq!(parse_ram(&2048u32.to_string()), Some(2048));
    assert_eq!(java_path_setting("  /usr/bin/java "), Some("/usr/bin/java".to_string()));
    assert_eq!(java_path_setting("   "), None);
}

#[test]
fn menus_choices() {
    assert_eq!(main_menu_choice(1, 2), MainChoice::Server(1));
    assert_eq!(main_menu_choice(2, 2), MainChoice::AddServer);
    assert_eq!(main_menu_choice(3, 2), MainChoice::FolderSync);
    assert_eq!(main_menu_choice(4, 2), MainChoice::GlobalSettings);
    assert_eq!(main_menu_choice(5, 2), MainChoice::Quit);
    assert_eq!(group_menu_choice(0, 1), GroupChoice::Group(0));
    assert_eq!(group_menu_choice(1, 1), GroupChoice::Create);
    assert_eq!(group_menu_choice(2, 1), GroupChoice::Back);
    assert_eq!(menu_default(0, 3), None);
    assert_eq!(menu_default(2, 5), Some(1));
    assert_eq!(menu_default(4, 2), Some(2));
}

#[test]
fn menus_new_entry_and_subscriptions() {
    let e = new_server_entry("My Server".to_string(), "/srv/my_server".to_string(), Software::Fabric, "1.21".to_string());
    assert_eq!(e.id, "my_server");
    assert_eq!(e.ram_mb, DEFAULT_RAM_MB);
    assert!(e.extra_jvm_args.is_empty() && e.jar_name.is_none() && e.java_path.is_none() && !e.installed);
    let servers = vec![entry("a"), entry("b"), entry("c")];
    assert_eq!(subscription_flags(&servers, &vec!["c".to_string()]), vec![false, false, true]);
    assert_eq!(selected_ids(&servers, &vec![2, 0]), vec!["c", "a"]);
}

use platform::foldersync::{sync, unsync, GroupEntry, SyncKind, UnsyncStep};

fn node(name: &str, is_dir: bool, t: TargetState, children: Vec<GroupEntry>) -> GroupEntry {
    GroupEntry { name: name.to_string(), is_dir, listed: is_dir, target: t, children }
}

fn plan_tree() -> Vec<GroupEntry> {
    let src = "/d/syncedFolders/g";
    vec![
        // the server has its own config file: kept
        node("server.properties", false, target(true, false, false, None), vec![]),
        // a managed link from an earlier sync: replaced
        node("mods", true, target(true, true, true, Some(&format!("{src}/mods"))), vec![]),
        // the server has a real directory: descended into
        node("config", true, target(true, true, false, None), vec![
            node("a.toml", false, target(false, false, false, None), vec![]),
            node("b.toml", false, target(true, false, false, None), vec![]),
            node("c.toml", false, target(true, false, true, Some(&format!("{src}/config/c.toml"))), vec![]),
        ]),
        // a link that points elsewhere: kept
        node("world", true, target(true, true, true, Some("/backups/world")), vec![]),
    ]
}

#[test]
fn sync_plan_over_a_tree() {
    let steps: Vec<(SyncKind, Vec<String>)> = sync(&plan_tree(), "/d/syncedFolders/g").into_iter().map(|s| (s.kind, s.path)).collect();
    let p = |v: &[&str]| v.iter().map(|s| s.to_string()).collect::<Vec<String>>();
    assert_eq!(steps, vec![
        (SyncKind::Keep, p(&["server.properties"])),
        (SyncKind::Place(true), p(&["mods"])),
        (SyncKind::Place(false), p(&["config", "a.toml"])),
        (SyncKind::Keep, p(&["config", "b.toml"])),
        (SyncKind::Place(true), p(&["config", "c.toml"])),
        (SyncKind::Keep, p(&["world"])),
    ]);
}

#[test]
fn sync_plan_file_over_server_directory() {
    let tree = vec![node("x", false, target(true, true, false, None), vec![])];
    let steps = sync(&tree, "/g");
    assert_eq!(steps.len(), 1);
    assert_eq!(steps[0].kind, SyncKind::Unlistable);
}

#[test]
fn unsync_plan_over_a_tree() {
    let steps: Vec<(bool, Vec<String>)> = unsync(&plan_tree(), "/d/syncedFolders/g").into_iter().map(|s| match s {
        UnsyncStep::Remove(p) => (true, p),
        UnsyncStep::Unlistable(p) => (false, p),
    }).collect();
    assert_eq!(steps, vec![
        (true, vec!["mods".to_string()]),
        (true, vec!["config".to_string(), "c.toml".to_string()]),
    ]);
}

#[test]
fn unsync_undoes_a_sync_with_links() {
    let src = "/d/syncedFolders/g";
    let link = |path: &str| target(true, false, true, Some(&format!("{src}/{path}")));
    // the tree of `plan_tree` once every placement was made as a link
    let after = vec![
        node("server.properties", false, target(true, false, false, None), vec![]),
        node("mods", true, link("mods"), vec![]),
        node("config", true, target(true, true, false, None), vec![
            node("a.toml", false, link("config/a.toml"), vec![]),
            node("b.toml", false, target(true, false, false, None), vec![]),
            node("c.toml", false, link("config/c.toml"), vec![]),
        ]),
        node("world", true, target(true, true, true, Some("/backups/world")), vec![]),
    ];
    let placed: Vec<(bool, Vec<String>)> = sync(&plan_tree(), src).into_iter()
        .filter(|s| matches!(s.kind, SyncKind::Place(_)))
        .map(|s| (true, s.path))
        .collect();
    let removed: Vec<(bool, Vec<String>)> = unsync(&after, src).into_iter().map(|s| match s {
        UnsyncStep::Remove(p) => (true, p),
        UnsyncStep::Unlistable(p) => (false, p),
    }).collect();
    assert_eq!(placed.len(), 3);
    assert_eq!(removed, placed);
}

use platform::menus::{apply_software_change, apply_update, slug_of_lowercase};
use platform::server::{asks_eula, clean_stripped, eula_path, format_captured, java_program};

#[test]
fn server_cleaning_after_strip() {
    assert_eq!(clean_stripped("ignored", Some("  [x] ok\u{7} ".to_string())), "[x] ok");
    assert_eq!(clean_stripped(" \u{1b}[0m raw ", None), "[0m raw");
    assert_eq!(clean_stripped("", Some(String::new())), "");
}

#[test]
fn server_formatting_captured_groups() {
    let both = |a: &str, b: &str| Some(Some((Some(a.to_string()), Some(b.to_string()))));
    match format_captured("line", both("INFO", "Done")) {
        LogLine::Marked(LogLevel::Info, m) => assert_eq!(m, "Done"),
        other => panic!("{other:?}"),
    }
    match format_captured("line", both("DEBUG", "d")) {
        LogLine::Marked(LogLevel::Debug, m) => assert_eq!(m, "d"),
        other => panic!("{other:?}"),
    }
    match format_captured("line", both("FATAL", "x")) {
        LogLine::Plain(m) => assert_eq!(m, "x"),
        other => panic!("{other:?}"),
    }
    match format_captured("line", Some(Some((None, None)))) {
        LogLine::Plain(m) => assert_eq!(m, ""),
        other => panic!("{other:?}"),
    }
    match format_captured("line", Some(None)) {
        LogLine::Plain(m) => assert_eq!(m, "line"),
        other => panic!("{other:?}"),
    }
    match format_captured("line", None) {
        LogLine::Plain(m) => assert_eq!(m, "line"),
        other => panic!("{other:?}"),
    }
}

#[test]
fn menus_slug_of_lowercased_and_empty() {
    assert_eq!(slug_of_lowercase("my cool server!"), "my_cool_server");
    assert_eq!(slug_of_lowercase("a__b"), "a_b");
    assert_eq!(slug_of_lowercase("___"), "");
    assert_eq!(slug_of_lowercase(""), "");
    assert_eq!(slugify(" - "), "");
    assert_eq!(slugify("x"), "x");
    assert_eq!(slugify(&slugify("My Cool Server!")), "my_cool_server");
}

#[test]
fn server_start_helpers() {
    assert_eq!(java_program(&Some("/opt/jdk/bin/java".to_string()), "java"), "/opt/jdk/bin/java");
    assert_eq!(java_program(&None, "java"), "java");
    assert_eq!(eula_path("/srv/a"), "/srv/a/eula.txt");
    assert!(asks_eula(Software::Paper, false));
    assert!(!asks_eula(Software::Paper, true));
    assert!(!asks_eula(Software::Custom, false));
}

#[test]
fn menus_software_changes() {
    let mut e = entry("a");
    assert!(apply_update(&mut e, "paper-1.jar".to_string()));
    assert_eq!(e.jar_name.as_deref(), Some("paper-1.jar"));
    assert!(!apply_update(&mut e, "paper-1.jar".to_string()));
    assert!(!apply_software_change(&mut e, Software::Paper, "1.21".to_string(), "paper-1.jar".to_string()));
    assert!(apply_software_change(&mut e, Software::Paper, "1.20".to_string(), "paper-1.jar".to_string()));
    assert_eq!(e.mc_version, "1.20");
    assert!(apply_software_change(&mut e, Software::Fabric, "1.20".to_string(), "paper-1.jar".to_string()));
    assert_eq!(e.software, Software::Fabric);
    assert_eq!(e.id, "a");
}

use platform::foldersync::SyncStep;
use platform::server::{console_line, launch_kind, needs_install, Launch};

#[test]
fn sync_report_from_steps() {
    let step = |kind: SyncKind, name: &str| SyncStep { kind, path: vec![name.to_string()] };
    let steps = vec![
        step(SyncKind::Place(false), "a"),
        step(SyncKind::Keep, "b"),
        step(SyncKind::Place(true), "c"),
        step(SyncKind::Place(false), "d"),
    ];
    let failures = vec![None, None, Some("c: denied".to_string()), None];
    let mut r = SyncReport::default();
    assert!(r.record_steps(&steps, &failures));
    assert_eq!((r.synced, r.overridden), (2, 1));
    assert_eq!(r.errors, vec!["c: denied"]);
    assert_eq!(r.synced as usize + r.overridden as usize + r.errors.len(), steps.len());
    let mut full = SyncReport { synced: u32::MAX, overridden: 0, errors: vec![] };
    assert!(!full.record_steps(&steps, &failures));
    assert_eq!(full.synced, u32::MAX);
    assert!(full.errors.is_empty());
}

#[test]
fn server_console_lines() {
    let paper = Software::log_regex(&Software::Paper);
    assert!(console_line(" \u{1b}[0m \n", true, paper).is_none());
    match console_line("[12:00:00 INFO]: Done\n", false, paper) {
        Some(LogLine::Plain(m)) => assert_eq!(m, "[12:00:00 INFO]: Done"),
        other => panic!("{other:?}"),
    }
    match console_line("\u{1b}[33m[12:00:00 WARN]: Slow\u{1b}[0m\n", true, paper) {
        Some(LogLine::Marked(LogLevel::Warn, m)) => assert_eq!(m, "Slow"),
        other => panic!("{other:?}"),
    }
}

#[test]
fn server_start_decisions() {
    assert!(needs_install(Software::Forge, false));
    assert!(!needs_install(Software::NeoForge, true));
    assert!(!needs_install(Software::Paper, false));
    assert_eq!(launch_kind(Software::NeoForge, true), Launch::Starter);
    assert_eq!(launch_kind(Software::Forge, false), Launch::ServerJar);
    assert_eq!(launch_kind(Software::Vanilla, true), Launch::Jar);
}

#[test]
fn menus_slugify_ascii_laws() {
    for s in ["My Cool Server!", "__A--b__", "x", "123 GO", "", "!!!"] {
        let r = slugify(s);
        assert_eq!(slugify(&r), r, "input {s:?}");
        assert_eq!(r.is_empty(), !s.to_lowercase().chars().any(|c| c.is_alphanumeric()));
    }
    assert_eq!(slugify("a_b"), "a_b");
}
