use platform::software::{
    fabric_download, filter_releases, forge_download, jar_destination, jar_source,
    neoforge_download, neoforge_version_prefix, papermc_builds_url, papermc_download,
    resolve_maven_version, serverstarter_destination, update_available, vanilla_download,
    vanilla_meta_url, JarSource, ManifestVersion, PaperBuild, ResolveError, Software,
    SERVERSTARTER_JAR,
};

fn mv(id: &str, kind: &str) -> ManifestVersion {
    ManifestVersion { id: id.to_string(), kind: kind.to_string(), url: format!("https://meta/{id}") }
}

#[test]
fn software_catalogue() {
    let all = Software::everything();
    assert_eq!(all.len(), 7);
    assert_eq!(all[2], (Software::Folia, "folia", "Folia", "Multithreaded & Plugin support"));
    assert_eq!(Software::NeoForge.as_str(), "NeoForge");
    assert_eq!(Software::from_str("neoforge"), Software::NeoForge);
    assert_eq!(Software::from_str("NeoForge"), Software::Custom);
    assert_eq!(Software::from_str("whatever"), Software::Custom);
    for (s, id, _, _) in all {
        assert_eq!(Software::from_str(id), *s);
    }
    assert!(Software::Forge.is_installer() && Software::NeoForge.is_installer());
    assert!(!Software::Paper.is_installer());
    assert!(!Software::Custom.auto_download() && Software::Fabric.auto_download());
    let labels = Software::menu_labels();
    assert_eq!(labels.len(), 7);
    assert_eq!(labels[0], "Vanilla - Mojang server");
    assert_eq!(labels[6], "Custom - Your own jar");
}

#[test]
fn software_log_patterns() {
    assert_eq!(Software::log_regex(&Software::Paper), Software::log_regex(&Software::Folia));
    assert_eq!(Software::log_regex(&Software::Forge), Software::log_regex(&Software::NeoForge));
    assert_eq!(Software::log_regex(&Software::Vanilla), r"^\[\d{2}:\d{2}:\d{2}\]\s+\[[^/\]]+/([A-Z]+)\]:\s*(.*)$");
}

#[test]
fn software_jar_places() {
    assert_eq!(jar_destination("/d/software", Software::NeoForge, "x.jar"), "/d/software/neoforge/x.jar");
    assert_eq!(serverstarter_destination("/d/software"), "/d/software/server_starter.jar");
    assert_eq!(SERVERSTARTER_JAR, "server_starter.jar");
}

#[test]
fn software_release_filter() {
    let m = vec![mv("1.21", "release"), mv("24w10a", "snapshot"), mv("1.20", "release"), mv("b1.7", "old_beta"), mv("a1.0", "old_alpha"), mv("x", "weird")];
    assert_eq!(filter_releases(&m, 10, false, false), vec!["1.21", "1.20"]);
    assert_eq!(filter_releases(&m, 10, true, false), vec!["1.21", "24w10a", "1.20"]);
    assert_eq!(filter_releases(&m, 10, false, true), vec!["1.21", "1.20", "b1.7", "a1.0"]);
    assert_eq!(filter_releases(&m, 1, true, true), vec!["1.21"]);
    assert!(filter_releases(&m, 0, true, true).is_empty());
}

#[test]
fn software_update_check() {
    assert_eq!(update_available(Some("a.jar"), "a.jar".to_string()), None);
    assert_eq!(update_available(Some("a.jar"), "b.jar".to_string()), Some((Some("a.jar".to_string()), "b.jar".to_string())));
    assert_eq!(update_available(None, "b.jar".to_string()), Some((None, "b.jar".to_string())));
}

const XML: &str = "<metadata>\n  <versioning>\n    <versions>\n      <version>20.1.1</version>\n      <version>20.1.2-beta</version>\n      <version>20.4.1</version>\n      <version>21.0.3-beta</version>\r\n    </versions>\n  </versioning>\n</metadata>\n";

#[test]
fn software_maven_versions() {
    assert_eq!(resolve_maven_version(XML, "20.1.", true).as_deref(), Some("20.1.1"));
    assert_eq!(resolve_maven_version(XML, "20.1.", false).as_deref(), Some("20.1.2-beta"));
    assert_eq!(resolve_maven_version(XML, "21.0.", true), None);
    assert_eq!(resolve_maven_version(XML, "21.0.", false).as_deref(), Some("21.0.3-beta"));
    assert_eq!(resolve_maven_version(XML, "", false).as_deref(), Some("21.0.3-beta"));
    assert_eq!(resolve_maven_version("<version></version>", "", false).as_deref(), Some(""));
    assert_eq!(resolve_maven_version("<version>", "", false), None);
}

#[test]
fn software_neoforge() {
    assert_eq!(neoforge_version_prefix("1.20.1"), "20.1.");
    assert_eq!(neoforge_version_prefix("1.21"), "21.0.");
    assert_eq!(neoforge_version_prefix("1.1.5"), "5.0.");
    assert_eq!(neoforge_version_prefix(""), ".0.");
    let (url, name) = neoforge_download(XML, "1.21").unwrap();
    assert_eq!(name, "neoforge-21.0.3-beta-installer.jar");
    assert_eq!(url, "https://maven.neoforged.net/releases/net/neoforged/neoforge/21.0.3-beta/neoforge-21.0.3-beta-installer.jar");
    let (_, name) = neoforge_download(XML, "1.20.1").unwrap();
    assert_eq!(name, "neoforge-20.1.1-installer.jar");
    let e = neoforge_download(XML, "1.19").unwrap_err();
    assert_eq!(e.message(), "No NeoForge version for 1.19");
}

#[test]
fn software_forge() {
    let xml = "<version>1.20.1-47.1.0</version>\n<version>1.20.1-47.2.0</version>\n<version>1.20.2-48.0.0</version>";
    let (url, name) = forge_download(xml, "1.20.1").unwrap();
    assert_eq!(name, "forge-1.20.1-47.2.0-installer.jar");
    assert_eq!(url, "https://maven.minecraftforge.net/net/minecraftforge/forge/1.20.1-47.2.0/forge-1.20.1-47.2.0-installer.jar");
    assert!(matches!(forge_download(xml, "1.19"), Err(ResolveError::NoForgeVersion(v)) if v == "1.19"));
}

#[test]
fn software_vanilla() {
    let m = vec![mv("1.21", "release"), mv("1.20", "release"), mv("1.20", "snapshot")];
    assert_eq!(vanilla_meta_url(&m, "1.20").unwrap(), "https://meta/1.20");
    let e = vanilla_meta_url(&m, "9.9").unwrap_err();
    assert_eq!(e.message(), "Version 9.9 not in manifest");
    let (url, name) = vanilla_download(Some("https://dl/server.jar".to_string()), "1.21").unwrap();
    assert_eq!((url.as_str(), name.as_str()), ("https://dl/server.jar", "minecraft_server.1.21.jar"));
    assert_eq!(vanilla_download(None, "1.21").unwrap_err().message(), "Missing server download for 1.21");
}

#[test]
fn software_fabric() {
    let loaders = vec!["0.16.0".to_string(), "0.15.0".to_string()];
    let installers = vec!["1.0.1".to_string()];
    let (url, name) = fabric_download(&loaders, &installers, "1.21").unwrap();
    assert_eq!(url, "https://meta.fabricmc.net/v2/versions/loader/1.21/0.16.0/1.0.1/server/jar");
    assert_eq!(name, "fabric-server-mc.1.21-loader.0.16.0-launcher.1.0.1.jar");
    assert!(matches!(fabric_download(&vec![], &installers, "1.21"), Err(ResolveError::NoFabricLoaders)));
    assert!(matches!(fabric_download(&loaders, &vec![], "1.21"), Err(ResolveError::NoFabricInstallers)));
}

fn build(channel: Option<&str>, name: Option<&str>, url: Option<&str>) -> PaperBuild {
    PaperBuild { channel: channel.map(String::from), name: name.map(String::from), url: url.map(String::from) }
}

#[test]
fn software_papermc() {
    assert_eq!(papermc_builds_url("paper", "1.21"), "https://fill.papermc.io/v3/projects/paper/versions/1.21/builds");
    let builds = vec![build(Some("ALPHA"), Some("a.jar"), Some("u/a")), build(Some("STABLE"), Some("s.jar"), Some("u/s")), build(Some("STABLE"), Some("t.jar"), Some("u/t"))];
    assert_eq!(papermc_download(&builds, "1.21", true).unwrap(), ("u/s".to_string(), "s.jar".to_string()));
    let unstable = vec![build(None, Some("a.jar"), Some("u/a"))];
    assert_eq!(papermc_download(&unstable, "1.21", true).unwrap(), ("u/a".to_string(), "a.jar".to_string()));
    assert_eq!(papermc_download(&unstable, "1.21", false).unwrap_err().message(), "No stable Paper build for 1.21");
    assert_eq!(papermc_download(&vec![], "1.21", true).unwrap_err().message(), "No Folia build for 1.21");
    assert!(matches!(papermc_download(&vec![build(Some("STABLE"), None, Some("u"))], "1", false), Err(ResolveError::MissingName)));
    assert!(matches!(papermc_download(&vec![build(Some("STABLE"), Some("n"), None)], "1", false), Err(ResolveError::MissingUrl)));
}

#[test]
fn software_sources() {
    assert!(matches!(jar_source(Software::Vanilla), Ok(JarSource::Mojang)));
    assert!(matches!(jar_source(Software::Folia), Ok(JarSource::PaperMc { project: "folia" })));
    assert!(matches!(jar_source(Software::Paper), Ok(JarSource::PaperMc { project: "paper" })));
    assert!(matches!(jar_source(Software::Forge), Ok(JarSource::ForgeMaven)));
    assert_eq!(jar_source(Software::Custom).unwrap_err().message(), "Unknown software!");
}

#[test]
fn software_error_messages() {
    let v = || "1.21".to_string();
    let cases = [
        (ResolveError::VersionNotInManifest(v()), "Version 1.21 not in manifest"),
        (ResolveError::MissingServerDownload(v()), "Missing server download for 1.21"),
        (ResolveError::NoFabricLoaders, "No Fabric loaders"),
        (ResolveError::NoFabricInstallers, "No Fabric installers"),
        (ResolveError::NoNeoForgeVersion(v()), "No NeoForge version for 1.21"),
        (ResolveError::NoForgeVersion(v()), "No Forge version for 1.21"),
        (ResolveError::NoFoliaBuild(v()), "No Folia build for 1.21"),
        (ResolveError::NoStablePaperBuild(v()), "No stable Paper build for 1.21"),
        (ResolveError::MissingName, "Missing name"),
        (ResolveError::MissingUrl, "Missing url"),
        (ResolveError::UnknownSoftware, "Unknown software!"),
    ];
    for (e, m) in cases {
        assert_eq!(e.message(), m);
    }
}

#[test]
fn software_lowercase_name_reads_back() {
    let all = [
        Software::Vanilla, Software::Paper, Software::Folia, Software::Fabric,
        Software::NeoForge, Software::Forge, Software::Custom,
    ];
    let ids = ["vanilla", "paper", "folia", "fabric", "neoforge", "forge", "custom"];
    for (s, id) in all.iter().zip(ids) {
        assert_eq!(s.lowercase_name(), id);
        assert_eq!(s.lowercase_name(), s.as_str().to_lowercase());
        assert_eq!(Software::from_str(&s.lowercase_name()), *s);
    }
    assert_eq!(Software::from_str("NeoForge"), Software::Custom);
    assert_eq!(jar_destination("/d/software", Software::Vanilla, "minecraft_server.1.21.jar"), "/d/software/vanilla/minecraft_server.1.21.jar");
}
