use domstyle::toolchain::builtins::{
    all_builtins, console_mappings, date_mappings, dom_mappings, history_mappings, location_mappings,
    lookup_builtin, math_mappings, object_mappings, phase2_builtins, phase3_builtins,
    typed_array_mappings,
};


#[test]
fn test_lookup_console_log() {
    let result = lookup_builtin("console.log");
    assert!(result.is_some());
    assert!(result.unwrap().contains("println!"));
}

#[test]
fn test_lookup_console_error() {
    let result = lookup_builtin("console.error");
    assert!(result.is_some());
    assert!(result.unwrap().contains("eprintln!"));
}

#[test]
fn test_lookup_unknown_api() {
    let result = lookup_builtin("non.existent");
    assert!(result.is_none());
}

#[test]
fn test_lookup_create_element() {
    let result = lookup_builtin("document.createElement");
    assert!(result.is_some());
    assert!(result.unwrap().contains("create_element"));
}

#[test]
fn test_lookup_add_event_listener() {
    let result = lookup_builtin("element.addEventListener");
    assert!(result.is_some());
    assert!(result.unwrap().contains("add_event_listener"));
}

#[test]
fn test_lookup_math_abs() {
    let result = lookup_builtin("Math.abs");
    assert!(result.is_some());
    assert!(result.unwrap().contains("abs()"));
}

#[test]
fn test_console_mappings_count() {
    assert_eq!(console_mappings().len(), 3);
}

#[test]
fn test_dom_mappings_count() {
    assert_eq!(dom_mappings().len(), 8);
}

#[test]
fn test_math_mappings_count() {
    assert_eq!(math_mappings().len(), 7);
}

#[test]
fn test_all_builtins_non_empty() {
    let all = all_builtins();
    assert!(all.len() >= 20);
}

#[test]
fn test_typed_array_mappings_count() {
    let mappings = typed_array_mappings();
    assert_eq!(mappings.len(), 11);
}

#[test]
fn test_object_mappings_count() {
    assert_eq!(object_mappings().len(), 10);
}

#[test]
fn test_history_mappings_count() {
    assert_eq!(history_mappings().len(), 7);
}

#[test]
fn test_location_mappings_count() {
    assert_eq!(location_mappings().len(), 9);
}

#[test]
fn test_date_mappings_count() {
    assert_eq!(date_mappings().len(), 13);
}

#[test]
fn test_phase2_builtins_non_empty() {
    let all = phase2_builtins();
    assert!(all.len() >= 15);
}

#[test]
fn test_phase3_builtins_non_empty() {
    let all = phase3_builtins();
    assert!(all.len() >= 40);
}
