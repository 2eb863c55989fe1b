use openwith::registry::{get_common_role_handlers, RegistryError};
use openwith::resolver::{build_group_map, classify_resolution, resolve, Suffix};

fn s(t: &str) -> String {
    t.to_string()
}

fn strs(v: &[&str]) -> Vec<String> {
    v.iter().map(|x| x.to_string()).collect()
}

#[test]
fn test_suffix_normalization() {
    assert_eq!(Suffix::from(".MP4").as_str(), "mp4");
    assert_eq!(Suffix::from("..TAR").as_str(), "tar");
    assert_eq!(Suffix::from("mov").as_str(), "mov");
    assert_eq!(Suffix::from("").as_str(), "");
    assert!(Suffix::from("...").is_empty());
    assert!(!Suffix::from("txt").is_empty());
}

#[test]
fn test_resolve_empty_suffix_rejected() {
    // An empty suffix never resolves, whatever the service would answer.
    let r = resolve(&Suffix::from(""), Some(s("public.data")));
    assert_eq!(r, None);
    assert_eq!(resolve(&Suffix::from(""), None), None);
}

#[test]
fn test_resolve_totality_for_non_empty() {
    // The service answers every non-empty tag, so resolution succeeds and
    // passes the identifier through untouched.
    let r = resolve(&Suffix::from("mp4"), Some(s("public.mpeg-4")));
    assert_eq!(r, Some(s("public.mpeg-4")));
    let r = resolve(
        &Suffix::from("nonexistentsuffix123456789"),
        Some(s("dyn.ah62d4sv4ge81g5pe")),
    );
    assert_eq!(r, Some(s("dyn.ah62d4sv4ge81g5pe")));
}

#[test]
fn test_classify_resolution_taxonomy() {
    let r = classify_resolution(&Suffix::from(""), Some(s("public.data")));
    assert!(matches!(r, Err(RegistryError::EmptySuffix)));
    let r = classify_resolution(&Suffix::from("mp4"), None);
    assert!(matches!(r, Err(RegistryError::ResolutionExhausted)));
    let r = classify_resolution(&Suffix::from("mp4"), Some(s("public.mpeg-4")));
    assert_eq!(r, Ok(s("public.mpeg-4")));
}

#[test]
fn test_group_partial_failure_tolerated() {
    // One of three suffixes fails resolution: the group proceeds with the
    // other two and reports exactly the one failure.
    let suffixes = vec![Suffix::from("mp4"), Suffix::from("xyzzy"), Suffix::from("mov")];
    let ids = vec![
        Some(s("public.mpeg-4")),
        None,
        Some(s("com.apple.quicktime-movie")),
    ];
    let (map, failures) = build_group_map(&suffixes, &ids);
    assert_eq!(failures, vec![1usize]);
    assert_eq!(map.len(), 2);
    assert_eq!(map.get_by_key(&s("public.mpeg-4")), Some(&s("mp4")));
    assert_eq!(map.get_by_key(&s("com.apple.quicktime-movie")), Some(&s("mov")));
}

#[test]
fn test_group_shared_identifier_last_wins() {
    // Two suffixes resolving to one identifier leave one pair, keyed by
    // that identifier and valued by the later suffix.
    let suffixes = vec![Suffix::from("mp4"), Suffix::from("mpeg4")];
    let ids = vec![Some(s("public.mpeg-4")), Some(s("public.mpeg-4"))];
    let (map, failures) = build_group_map(&suffixes, &ids);
    assert!(failures.is_empty());
    assert_eq!(map.len(), 1);
    assert_eq!(map.get_by_key(&s("public.mpeg-4")), Some(&s("mpeg4")));
}

#[test]
fn test_end_to_end_group_assignment() {
    // Two suffixes resolve, their handler sets intersect to the one
    // QuickTime player, assignment succeeds for both identifiers, and the
    // map retains exactly the two pairs.
    let suffixes = vec![Suffix::from("mp4"), Suffix::from("mov")];
    let ids = vec![
        Some(s("public.mpeg-4")),
        Some(s("com.apple.quicktime-movie")),
    ];
    let (map, failures) = build_group_map(&suffixes, &ids);
    assert!(failures.is_empty());
    assert_eq!(map.len(), 2);

    let handler_sets = vec![
        Some(strs(&["com.apple.quicktime-player", "org.videolan.vlc"])),
        Some(strs(&["com.apple.quicktime-player", "com.apple.tv"])),
    ];
    let common = get_common_role_handlers(&handler_sets);
    assert_eq!(common, Some(strs(&["com.apple.quicktime-player"])));

    let chosen = &common.unwrap()[0];
    for (id, suffix) in map.iter() {
        let config = openwith::Config::new(id.clone(), suffix.clone());
        assert!(openwith::registry::check_assignment_inputs(&config, chosen).is_ok());
        assert!(openwith::registry::assignment_outcome(0).is_ok());
    }
    assert_eq!(map.get_by_value(&s("mp4")), Some(&s("public.mpeg-4")));
    assert_eq!(map.get_by_value(&s("mov")), Some(&s("com.apple.quicktime-movie")));
}
