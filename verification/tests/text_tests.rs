use openwith::apps::{
    collect_app_paths, find_apps_for_extension, find_fuzzy_matches, get_extension_category,
    get_hardcoded_uti,
};
use openwith::names::{get_common_suffix, get_friendly_name};
use openwith::order::{contains_string, insert_sorted, str_eq, str_le};
use openwith::platform::{GenericPlatform, PlatformSpecific};
use openwith::text::{lower_string, normalize_suffix, str_contains, str_ends_with, trim_str};
use openwith::{AppScanner, PlistParser};

fn strs(v: &[&str]) -> Vec<String> {
    v.iter().map(|x| x.to_string()).collect()
}

#[test]
fn test_trim_and_predicates() {
    assert_eq!(trim_str("  hello \r\n"), "hello");
    assert_eq!(trim_str("\t\n "), "");
    assert_eq!(trim_str("x"), "x");
    assert!(str_ends_with("/Applications/Safari.app", ".app"));
    assert!(!str_ends_with("notes.txt", ".app"));
    assert!(str_contains("CFBundleTypeExtensions Dict", "Dict"));
    assert!(!str_contains("mp4", "Dict"));
    assert!(str_contains("anything", ""));
}

#[test]
fn test_lexicographic_order_helpers() {
    assert!(str_le("abc", "abd"));
    assert!(str_le("ab", "abc"));
    assert!(!str_le("b", "abc"));
    assert!(str_eq("same", "same"));
    assert!(!str_eq("same", "Same"));
    let mut v = strs(&["m", "a"]);
    let mut sorted = Vec::new();
    insert_sorted(&mut sorted, "m");
    insert_sorted(&mut sorted, "a");
    insert_sorted(&mut sorted, "m");
    assert_eq!(sorted, strs(&["a", "m"]));
    v.sort();
    assert_eq!(v, sorted);
    assert!(contains_string(&sorted, "a"));
    assert!(!contains_string(&sorted, "z"));
}

#[test]
fn test_lowercase_and_normalize() {
    assert_eq!(lower_string("MiXeD123"), "mixed123");
    assert_eq!(normalize_suffix(".MP4"), "mp4");
    assert_eq!(normalize_suffix("...TaR"), "tar");
    assert_eq!(normalize_suffix("txt"), "txt");
}

#[test]
fn test_app_display_name_from_path() {
    let scanner = AppScanner::new();
    assert_eq!(
        scanner.get_app_display_name("/Applications/Safari.app"),
        Some("Safari".to_string())
    );
    assert_eq!(
        scanner.get_app_display_name("QuickTime Player.app"),
        Some("QuickTime Player".to_string())
    );
    assert_eq!(scanner.get_app_display_name("/Applications/"), None);
    assert_eq!(
        scanner.get_app_display_name("/tmp/.hidden"),
        Some(".hidden".to_string())
    );
}

#[test]
fn test_collect_app_paths_filters_and_sorts() {
    let lines = strs(&[
        "  /Applications/Zoom.app  ",
        "",
        "/Applications/Safari.app",
        "not an app path",
        "/Applications/Safari.app",
    ]);
    assert_eq!(
        collect_app_paths(&lines),
        strs(&["/Applications/Safari.app", "/Applications/Zoom.app"])
    );
}

#[test]
fn test_extract_extensions_skips_structure_lines() {
    let parser = PlistParser::new();
    let lines = strs(&["Array {", "    mp4", "    mov", "    mp4", "}", "  Dict", ""]);
    assert_eq!(parser.extract_extensions(&lines), strs(&["mov", "mp4"]));
}

#[test]
fn test_accept_display_name() {
    let parser = PlistParser::new();
    assert_eq!(
        parser.accept_display_name(" TextEdit \n"),
        Some("TextEdit".to_string())
    );
    assert_eq!(parser.accept_display_name("   \n"), None);
    assert_eq!(
        parser.accept_display_name("Print: Entry, \":CFBundleDisplayName\", Does Not Exist"),
        None
    );
}

#[test]
fn test_find_apps_for_extension_matches_with_or_without_dot() {
    let table = vec![
        ("Zed".to_string(), strs(&["rs", "toml"])),
        ("Preview".to_string(), strs(&["pdf", "png"])),
        ("Acrobat".to_string(), strs(&["pdf"])),
    ];
    assert_eq!(
        find_apps_for_extension(&table, ".pdf"),
        strs(&["Acrobat", "Preview"])
    );
    assert_eq!(find_apps_for_extension(&table, "pdf"), strs(&["Acrobat", "Preview"]));
    assert_eq!(find_apps_for_extension(&table, "doc"), Vec::<String>::new());
}

#[test]
fn test_fuzzy_matches_on_name_or_extension() {
    let table = vec![
        ("Zed".to_string(), strs(&["rs", "toml"])),
        ("Preview".to_string(), strs(&["pdf", "png"])),
        ("PDF Expert".to_string(), strs(&["pdf"])),
    ];
    // Matches by name, without regard to case, ordered by name.
    let by_name = find_fuzzy_matches(&table, &"pdf".to_string());
    let names: Vec<&str> = by_name.iter().map(|(n, _)| n.as_str()).collect();
    assert_eq!(names, vec!["PDF Expert", "Preview"]);
    // Matches by extension.
    let by_ext = find_fuzzy_matches(&table, &"toml".to_string());
    assert_eq!(by_ext, vec![("Zed".to_string(), strs(&["rs", "toml"]))]);
    assert!(find_fuzzy_matches(&table, &"xyzzy".to_string()).is_empty());
}

#[test]
fn test_extension_categories() {
    assert_eq!(get_extension_category("py"), "Programming Languages");
    assert_eq!(get_extension_category("RS"), "Programming Languages");
    assert_eq!(get_extension_category("mp4"), "Audio/Video Files");
    assert_eq!(get_extension_category("docx"), "Office Documents");
    assert_eq!(get_extension_category("unknown42"), "Other Files");
}

#[test]
fn test_hardcoded_uti_table() {
    assert_eq!(get_hardcoded_uti("pdf"), Some("com.adobe.pdf".to_string()));
    assert_eq!(get_hardcoded_uti("PDF"), Some("com.adobe.pdf".to_string()));
    assert_eq!(get_hardcoded_uti("mov"), Some("com.apple.quicktime-movie".to_string()));
    assert_eq!(get_hardcoded_uti("jpeg"), Some("public.jpeg".to_string()));
    assert_eq!(get_hardcoded_uti("xyzzy"), None);
}

#[test]
fn test_friendly_names() {
    assert_eq!(get_friendly_name("public.mp4"), "MP4 Video");
    assert_eq!(get_friendly_name("com.adobe.pdf"), "PDF Document");
    assert_eq!(get_friendly_name("dyn.unknown"), "dyn.unknown");
}

#[test]
fn test_common_suffix_presentation() {
    assert_eq!(get_common_suffix("public.mpeg-4", "mp4"), ".mp4");
}

#[test]
fn test_generic_platform_reports_nothing() {
    let p = GenericPlatform::new();
    assert!(p.find_apps_for_mime_type("video/mp4").is_empty());
    assert!(p.find_apps_for_extension(".mp4").is_empty());
    assert_eq!(p.scan_system_applications(), Ok(Vec::new()));
}
