use platform::config::{Config, FolderLinks, LinkMode, Settings, Software};

fn config_at(data_dir: &str) -> Config {
    Config {
        app: Settings { data_dir: data_dir.to_string(), java_path: "java".to_string(), cleaner_log: false },
        servers: vec![],
        folder_syncs: vec![],
    }
}

#[test]
fn config_software_ids() {
    assert_eq!(Software::Paper.as_str(), "paper");
    assert_eq!(Software::Custom.as_str(), "custom");
    assert_eq!(Software::from_str("vanilla"), Software::Vanilla);
    assert_eq!(Software::from_str("fabric"), Software::Fabric);
    assert_eq!(Software::from_str("forge"), Software::Custom);
    assert!(Software::Vanilla.auto_download());
    assert!(!Software::Custom.auto_download());
}

#[test]
fn config_software_round_trip() {
    for s in [Software::Paper, Software::Vanilla, Software::Fabric, Software::Custom] {
        assert_eq!(Software::from_str(s.as_str()), s);
    }
}

#[test]
fn config_variants_table() {
    let v = Software::variants();
    assert_eq!(v.len(), 4);
    assert_eq!(v[0], ("vanilla", "Vanilla - Mojang server"));
    assert_eq!(v[3], ("custom", "Custom - Your own jar"));
}

#[test]
fn config_dirs() {
    let c = config_at("/data/platform");
    assert_eq!(c.software_dir(), "/data/platform/software");
    assert_eq!(c.servers_dir(), "/data/platform/servers");
    assert_eq!(c.synced_folders_dir(), "/data/platform/syncedFolders");
    let g = FolderLinks { name: "mods".to_string(), servers: vec![], mode: LinkMode::Copy };
    assert_eq!(c.group_dir(&g), "/data/platform/syncedFolders/mods");
}

#[test]
fn config_dirs_trailing_separator() {
    let c = config_at("/data/");
    assert_eq!(c.servers_dir(), "/data/servers");
    let g = FolderLinks { name: "/elsewhere".to_string(), servers: vec![], mode: LinkMode::Symlink };
    assert_eq!(c.group_dir(&g), "/elsewhere");
}

#[test]
fn config_default_paths() {
    let c = Config::default_from(Some("/home/u/.local/share".to_string()));
    assert_eq!(c.app.data_dir, "/home/u/.local/share/platform");
    assert_eq!(c.app.java_path, "java");
    assert!(c.servers.is_empty() && c.folder_syncs.is_empty());
    let d = Config::default_from(None);
    assert_eq!(d.app.data_dir, "./platform");
    assert_eq!(Config::config_path_from(Some("/etc".to_string())), "/etc/platform/config.toml");
    assert_eq!(Config::config_path_from(None), "./platform/config.toml");
    assert!(Config::config_path().ends_with("platform/config.toml"));
    assert!(Config::default().app.data_dir.ends_with("platform"));
}

#[test]
fn config_link_mode_words() {
    assert_eq!(LinkMode::Symlink.to_string(), "symlink");
    assert_eq!(LinkMode::Copy.to_string(), "copy");
    assert_eq!(LinkMode::default(), LinkMode::Symlink);
}
