use openwith::registry::{
    assignment_outcome, check_assignment_inputs, check_group_has_identifiers,
    classify_common_handlers, get_common_role_handlers, query_allowed, HandlerQuery,
    RegistryError,
};
use openwith::text::i32_to_string;
use openwith::{BiMap, Config};

fn s(t: &str) -> String {
    t.to_string()
}

fn strs(v: &[&str]) -> Vec<String> {
    v.iter().map(|x| x.to_string()).collect()
}

#[test]
fn test_get_common_role_handlers() {
    // Create a test BiMap pairing identifiers with the suffixes that
    // produced them, as a group resolution would.
    let mut uti2suf = BiMap::new();
    uti2suf.insert(s("public.plain-text"), s("txt"));
    uti2suf.insert(s("public.html"), s("html"));
    assert_eq!(uti2suf.len(), 2);

    // One queried handler list per identifier of the map.
    let handler_sets = vec![
        Some(strs(&["com.apple.TextEdit", "com.apple.Safari"])),
        Some(strs(&["com.apple.Safari"])),
    ];
    let common_handlers = get_common_role_handlers(&handler_sets);
    assert!(common_handlers.is_some());

    // Test with empty BiMap: no identifiers means no handler lists.
    let empty_map = BiMap::new();
    assert!(empty_map.is_empty());
    let no_sets: Vec<Option<Vec<String>>> = Vec::new();
    let common_handlers = get_common_role_handlers(&no_sets);
    assert!(common_handlers.is_none()); // Empty map should return None
}

#[test]
fn test_group_intersection_values() {
    let sets = vec![Some(strs(&["x", "y"])), Some(strs(&["y", "z"]))];
    assert_eq!(get_common_role_handlers(&sets), Some(strs(&["y"])));

    let disjoint = vec![Some(strs(&["x"])), Some(strs(&["z"]))];
    assert_eq!(get_common_role_handlers(&disjoint), None);
}

#[test]
fn test_group_intersection_failed_query_fails_group() {
    let sets = vec![Some(strs(&["x", "y"])), None, Some(strs(&["y"]))];
    assert_eq!(get_common_role_handlers(&sets), None);
}

#[test]
fn test_query_accumulator_union_sorted() {
    let mut q = HandlerQuery::new();
    q.observe(&strs(&["b", "a", "b"]));
    q.observe(&strs(&[]));
    q.observe(&strs(&["c", "a"]));
    assert_eq!(q.finish(), Some(strs(&["a", "b", "c"])));
}

#[test]
fn test_query_accumulator_empty_is_none() {
    let mut q = HandlerQuery::new();
    q.observe(&strs(&[]));
    assert_eq!(q.finish(), None);
}

#[test]
fn test_query_stability_across_observation_orders() {
    // Two rounds of reads that saw the same handlers in different orders
    // and groupings present identical results.
    let mut q1 = HandlerQuery::new();
    q1.observe(&strs(&["com.b", "com.a"]));
    q1.observe(&strs(&["com.c"]));
    let mut q2 = HandlerQuery::new();
    q2.observe(&strs(&["com.c", "com.a"]));
    q2.observe(&strs(&["com.b", "com.c"]));
    assert_eq!(q1.finish(), q2.finish());
}

#[test]
fn test_query_allowed_rejects_empty_identifier() {
    assert!(!query_allowed(""));
    assert!(query_allowed("public.plain-text"));
}

#[test]
fn test_assignment_empty_inputs_rejected() {
    let empty_suffix = Config::new(s("public.plain-text"), s(""));
    let r = check_assignment_inputs(&empty_suffix, "com.apple.textedit");
    assert!(matches!(r, Err(RegistryError::EmptySuffix)));
    assert_eq!(r.unwrap_err().message(), "Suffix cannot be empty");

    let config = Config::new(s("public.plain-text"), s("txt"));
    let r = check_assignment_inputs(&config, "");
    assert!(matches!(r, Err(RegistryError::EmptyHandler)));
    assert_eq!(r.unwrap_err().message(), "Bundle ID cannot be empty");

    assert!(check_assignment_inputs(&config, "com.apple.textedit").is_ok());
}

#[test]
fn test_group_without_identifiers_fails() {
    let empty = BiMap::new();
    let r = check_group_has_identifiers(&empty);
    assert!(matches!(r, Err(RegistryError::NoValidIdentifiers)));

    let mut m = BiMap::new();
    m.insert(s("public.plain-text"), s("txt"));
    assert!(check_group_has_identifiers(&m).is_ok());
}

#[test]
fn test_classify_common_handlers() {
    let r = classify_common_handlers(None);
    assert!(matches!(r, Err(RegistryError::NoCommonHandler)));
    let r = classify_common_handlers(Some(Vec::new()));
    assert!(matches!(r, Err(RegistryError::NoCommonHandler)));
    let r = classify_common_handlers(Some(strs(&["com.apple.Safari"])));
    assert_eq!(r, Ok(strs(&["com.apple.Safari"])));
}

#[test]
fn test_assignment_outcome_last_code_authoritative() {
    assert!(assignment_outcome(0).is_ok());
    let r = assignment_outcome(-54);
    assert!(matches!(r, Err(RegistryError::Assignment { code: -54 })));
}

#[test]
fn test_assignment_error_rendering() {
    let e = RegistryError::Assignment { code: -54 };
    assert_eq!(e.render(), "Failed to set default application. Error code: -54");
    let e = RegistryError::Assignment { code: 200 };
    assert_eq!(e.render(), "Failed to set default application. Error code: 200");
    assert_eq!(
        RegistryError::EmptySuffix.render(),
        "Suffix cannot be empty"
    );
}

#[test]
fn test_decimal_rendering() {
    assert_eq!(i32_to_string(0), "0");
    assert_eq!(i32_to_string(7), "7");
    assert_eq!(i32_to_string(200), "200");
    assert_eq!(i32_to_string(-1), "-1");
    assert_eq!(i32_to_string(i32::MAX), "2147483647");
    assert_eq!(i32_to_string(i32::MIN), "-2147483648");
}
