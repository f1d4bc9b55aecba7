use nesfab_language_server::cfg::{collect_cfg_map, dep_entry, extract_inputs, parse_input_line};
use nesfab_language_server::text::{has_fab_extension, rfind_char, str_eq, trim};

#[test]
fn trim_strips_both_sides() {
    assert_eq!(trim("  foo.fab \t"), "foo.fab");
    assert_eq!(trim("foo"), "foo");
    assert_eq!(trim("   "), "");
    assert_eq!(trim(""), "");
    assert_eq!(trim("\tinput\r\n"), "input");
}

#[test]
fn str_eq_compares_characters() {
    assert!(str_eq("abc", "abc"));
    assert!(!str_eq("abc", "abd"));
    assert!(!str_eq("abc", "abcd"));
    assert!(str_eq("", ""));
}

#[test]
fn rfind_char_finds_last_occurrence() {
    assert_eq!(rfind_char("a/b/c", '/'), Some(3));
    assert_eq!(rfind_char("abc", '/'), None);
    assert_eq!(rfind_char("/", '/'), Some(0));
}

#[test]
fn fab_extension_is_exactly_fab() {
    assert!(has_fab_extension("/proj/foo.fab"));
    assert!(has_fab_extension("bar.fab"));
    assert!(!has_fab_extension("/proj/foo.macrofab"));
    assert!(!has_fab_extension("/proj/foo.fabx"));
    assert!(!has_fab_extension("/proj/foo"));
    assert!(!has_fab_extension("/proj/.fab"));
    assert!(!has_fab_extension("/proj.fab/foo"));
}

#[test]
fn input_line_parses_key_and_value() {
    assert_eq!(parse_input_line("input = foo.fab"), Some("foo.fab".to_string()));
    assert_eq!(parse_input_line("input=foo.fab"), Some("foo.fab".to_string()));
    assert_eq!(parse_input_line("  input =  lib/bar.fab  "), Some("lib/bar.fab".to_string()));
}

#[test]
fn input_line_rejects_other_shapes() {
    assert_eq!(parse_input_line("output = foo.fab"), None);
    assert_eq!(parse_input_line("inputx = foo.fab"), None);
    assert_eq!(parse_input_line("input : foo.fab"), None);
    assert_eq!(parse_input_line("input = a = b"), None);
    assert_eq!(parse_input_line(""), None);
}

#[test]
fn extract_inputs_keeps_declared_order() {
    let lines = vec![
        "name = game".to_string(),
        "input = a.fab".to_string(),
        "# comment".to_string(),
        "input = b.fab".to_string(),
    ];
    assert_eq!(extract_inputs(&lines), vec!["a.fab".to_string(), "b.fab".to_string()]);
}

#[test]
fn dep_entry_keeps_first_existing_candidate() {
    let cands = vec![
        (Some("/d/a.fab".to_string()), Some("/base/a.fab".to_string())),
        (None, Some("/base/b.fab".to_string())),
        (None, None),
        (Some("/d/m.macrofab".to_string()), None),
        (Some("/d/a.fab".to_string()), None),
    ];
    let entry = dep_entry(&cands);
    assert_eq!(entry, vec!["/d/a.fab".to_string(), "/base/b.fab".to_string()]);
}

#[test]
fn dep_entry_of_unresolvable_reference_is_empty() {
    let cands = vec![(None, None)];
    assert_eq!(dep_entry(&cands), Vec::<String>::new());
}

#[test]
fn cfg_map_holds_one_entry_per_directory() {
    let entries = vec![
        ("/p1".to_string(), vec![(Some("/p1/a.fab".to_string()), None)]),
        ("/p2".to_string(), vec![(None, None)]),
    ];
    let m = collect_cfg_map(&entries);
    assert_eq!(m.len(), 2);
    assert_eq!(m[0].0, "/p1");
    assert_eq!(m[0].1, vec!["/p1/a.fab".to_string()]);
    assert_eq!(m[1].0, "/p2");
    assert!(m[1].1.is_empty());
}
