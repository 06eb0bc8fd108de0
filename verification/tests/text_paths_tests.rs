use platform::file_utils::is_managed_symlink;
use platform::paths::{extension_of, file_name_of, join, join_all, path_components, starts_with_path};
use platform::text::{
    join_strings, parse_u32_str, split_whitespace, str_eq, trim_str, u32_to_decimal,
};

fn comps(p: &str) -> Vec<String> {
    path_components(p).into_iter().map(|c| c.into_iter().collect()).collect()
}

#[test]
fn text_trim_matches_std() {
    for s in ["  a b  ", "\t\n x\r\n", "", "   ", "\u{3000}y\u{85}", "a\u{1}"] {
        assert_eq!(trim_str(s), s.trim());
    }
}

#[test]
fn text_trim_twice_is_trim_once() {
    for s in ["  a  ", "\u{2003}b\u{2003}", "c"] {
        assert_eq!(trim_str(&trim_str(s)), trim_str(s));
    }
}

#[test]
fn text_decimal_and_parse() {
    assert_eq!(u32_to_decimal(0), "0");
    assert_eq!(u32_to_decimal(2048), "2048");
    assert_eq!(u32_to_decimal(u32::MAX), "4294967295");
    for s in ["0", "007", "+12", "4294967295", "4294967296", "", "+", "-1", "1 2", "12a", "99999999999"] {
        assert_eq!(parse_u32_str(s), s.parse::<u32>().ok(), "input {s:?}");
    }
}

#[test]
fn text_words_and_join() {
    assert_eq!(split_whitespace("  -Xss1M \t -Dfoo=bar\n"), vec!["-Xss1M", "-Dfoo=bar"]);
    assert!(split_whitespace("   ").is_empty());
    let args = vec!["-a".to_string(), "-b".to_string()];
    assert_eq!(join_strings(&args, " "), "-a -b");
    assert_eq!(split_whitespace(&join_strings(&args, " ")), args);
    assert_eq!(join_strings(&vec![], "\n"), "");
}

#[test]
fn text_equality_and_case() {
    assert!(str_eq("abc", "abc"));
    assert!(!str_eq("abc", "abd"));
    assert!(!str_eq("ab", "abc"));
}

#[test]
fn paths_join_like_pathbuf() {
    assert_eq!(join("/a", "b"), "/a/b");
    assert_eq!(join("/a/", "b"), "/a/b");
    assert_eq!(join("", "b"), "b");
    assert_eq!(join("/a", "/b"), "/b");
    assert_eq!(join("a", ""), "a/");
    for (b, s) in [("/x/y", "z"), ("rel", "../up"), ("/", "etc")] {
        assert_eq!(join(b, s), std::path::Path::new(b).join(s).to_string_lossy());
    }
}

#[test]
fn paths_components_like_std() {
    assert_eq!(comps("/a//b/./c/"), vec!["/", "a", "b", "c"]);
    assert_eq!(comps("./a"), vec![".", "a"]);
    assert_eq!(comps("a/../b"), vec!["a", "..", "b"]);
    assert_eq!(comps(""), Vec::<String>::new());
    for p in ["/", ".", "./", "//x", "a/./", "../..", "/./a"] {
        let expected: Vec<String> = std::path::Path::new(p)
            .components()
            .map(|c| c.as_os_str().to_string_lossy().into_owned())
            .collect();
        assert_eq!(comps(p), expected, "path {p:?}");
    }
}

#[test]
fn paths_starts_with_by_components() {
    assert!(starts_with_path("/data/groups/mods/a.jar", "/data/groups/mods"));
    assert!(starts_with_path("/data/groups/mods/", "/data/groups/mods"));
    assert!(!starts_with_path("/data/groups/modsx/a", "/data/groups/mods"));
    assert!(starts_with_path("/data//groups/./mods/a", "/data/groups/mods/"));
    assert!(!starts_with_path("data/groups", "/data"));
}

#[test]
fn paths_file_name_and_extension() {
    assert_eq!(file_name_of("/srv/x/server.jar").as_deref(), Some("server.jar"));
    assert_eq!(file_name_of("/srv/x/.."), None);
    assert_eq!(file_name_of("/"), None);
    assert_eq!(extension_of("/srv/a.b.jar").as_deref(), Some("jar"));
    assert_eq!(extension_of("/srv/.jar"), None);
    assert_eq!(extension_of("/srv/noext"), None);
    assert_eq!(extension_of("/srv/trailing."), Some(String::new()));
    for p in ["a.tar.gz", ".hidden", "x/y.", "z/..", "file.JAR"] {
        let std_ext = std::path::Path::new(p).extension().map(|e| e.to_string_lossy().into_owned());
        assert_eq!(extension_of(p), std_ext, "path {p:?}");
    }
}

#[test]
fn managed_symlink_decision() {
    assert!(is_managed_symlink(true, Some("/data/syncedFolders/mods/x"), "/data/syncedFolders/mods"));
    assert!(!is_managed_symlink(false, Some("/data/syncedFolders/mods/x"), "/data/syncedFolders/mods"));
    assert!(!is_managed_symlink(true, None, "/data/syncedFolders/mods"));
    assert!(!is_managed_symlink(true, Some("/home/user/x"), "/data/syncedFolders/mods"));
}

#[test]
fn paths_join_all_stays_under_base() {
    let names = vec!["mods".to_string(), "a.jar".to_string()];
    let joined = join_all("/data/groups/g", &names);
    assert_eq!(joined, "/data/groups/g/mods/a.jar");
    assert!(starts_with_path(&joined, "/data/groups/g"));
    assert!(is_managed_symlink(true, Some(&joined), "/data/groups/g"));
    assert_eq!(join_all("base/", &vec![]), "base/");
    assert_eq!(join_all("", &vec!["x".to_string()]), "x");
}
