use nrs::codec::parse_profile;
use nrs::error::NrsError;
use nrs::npmrc::read_registry_url;
use nrs::npmrc::strip_registry_lines;
use nrs::profile::Config;
use nrs::reconcile::derive_registry_name;

#[test]
fn save_then_parse_restores_every_field() {
    let mut cfg = Config::new();
    cfg.add_registry("corp", "https://corp.example/npm/").unwrap();
    cfg.add_registry("odd", "https://odd.example/a\"b\\c/").unwrap();
    cfg.set_current("corp").unwrap();
    let text = cfg.save();
    let back = parse_profile(&text).unwrap();
    assert_eq!(back.registries, cfg.registries);
    assert_eq!(back.custom_registries, cfg.custom_registries);
    assert_eq!(back.registry_order, cfg.registry_order);
    assert_eq!(back.current, cfg.current);
}

#[test]
fn save_writes_the_canonical_object() {
    let mut cfg = Config::new();
    cfg.registries.clear();
    cfg.custom_registries.clear();
    cfg.registry_order.clear();
    cfg.custom_registries
        .push(("one".to_string(), "https://one.example/".to_string()));
    cfg.registry_order.push("one".to_string());
    let text = cfg.save();
    assert_eq!(
        text,
        "{\"registries\":{},\"custom_registries\":{\"one\":\"https://one.example/\"},\
         \"registry_order\":[\"one\"],\"current\":null}"
    );
}

#[test]
fn parse_refuses_malformed_text() {
    assert!(matches!(parse_profile(""), Err(NrsError::CorruptProfile)));
    assert!(matches!(
        parse_profile("not json at all"),
        Err(NrsError::CorruptProfile)
    ));
    assert!(matches!(
        parse_profile("{\"registries\":{\"a\":\"u\"}"),
        Err(NrsError::CorruptProfile)
    ));
}

#[test]
fn load_without_stored_profile_starts_from_defaults() {
    let cfg = Config::load(None, None).unwrap();
    assert_eq!(cfg.registries.len(), 6);
    assert_eq!(cfg.custom_registries.len(), 0);
    assert_eq!(cfg.current, None);
}

#[test]
fn load_refuses_corrupt_stored_profile() {
    let garbage = "{\"registries\":oops".to_string();
    let r = Config::load(Some(&garbage), None);
    assert!(matches!(r, Err(NrsError::CorruptProfile)));
}

#[test]
fn load_rebuilds_empty_order_sorted() {
    let mut cfg = Config::new();
    cfg.registry_order.clear();
    let text = cfg.save();
    let back = Config::load(Some(&text), None).unwrap();
    let mut expected: Vec<String> = back
        .registries
        .iter()
        .map(|(n, _)| n.clone())
        .collect();
    expected.sort();
    assert_eq!(back.registry_order, expected);
}

#[test]
fn load_matches_builtin_url_and_selects_it() {
    let npmrc = "registry=https://registry.npmjs.org/\n".to_string();
    let cfg = Config::load(None, Some(&npmrc)).unwrap();
    assert_eq!(cfg.current.as_deref(), Some("npm"));
    assert_eq!(cfg.custom_registries.len(), 0);
}

#[test]
fn load_adopts_unknown_url_under_derived_name() {
    let npmrc = "some=other\nregistry=https://unknown.example/deep/path\n".to_string();
    let cfg = Config::load(None, Some(&npmrc)).unwrap();
    assert_eq!(cfg.current.as_deref(), Some("unknown-example"));
    assert_eq!(cfg.custom_registries.len(), 1);
    assert_eq!(cfg.custom_registries[0].0, "unknown-example");
    assert_eq!(cfg.custom_registries[0].1, "https://unknown.example/deep/path");
    assert!(cfg.registry_order.iter().any(|n| n == "unknown-example"));
}

#[test]
fn load_without_registry_line_keeps_current_untouched() {
    let mut cfg = Config::new();
    cfg.set_current("yarn").unwrap();
    let text = cfg.save();
    let npmrc = "just=settings\n".to_string();
    let back = Config::load(Some(&text), Some(&npmrc)).unwrap();
    assert_eq!(back.current.as_deref(), Some("yarn"));
}

#[test]
fn derived_name_dashes_host_and_port() {
    let none: Vec<(String, String)> = Vec::new();
    assert_eq!(
        derive_registry_name("https://registry.npmjs.org/path", &none),
        "registry-npmjs-org"
    );
    assert_eq!(derive_registry_name("http://host:8080/x", &none), "host-8080");
    assert_eq!(derive_registry_name("https://plain/", &none), "plain");
}

#[test]
fn derived_name_avoids_collisions_with_numeric_suffixes() {
    let taken = vec![
        ("host-example".to_string(), "https://a/".to_string()),
        ("host-example-1".to_string(), "https://b/".to_string()),
    ];
    assert_eq!(
        derive_registry_name("https://host.example/", &taken),
        "host-example-2"
    );
}

#[test]
fn add_then_use_puts_exactly_that_url_into_the_file() {
    let mut cfg = Config::new();
    cfg.add_registry("corp", "https://corp.example/npm/").unwrap();
    cfg.set_current("corp").unwrap();
    let content = cfg.update_npmrc(None).unwrap();
    assert_eq!(
        read_registry_url(&content).as_deref(),
        Some("https://corp.example/npm/")
    );
}

#[test]
fn rewriting_preserves_other_lines_verbatim_in_order() {
    let mut cfg = Config::new();
    cfg.set_current("npm").unwrap();
    let existing = "email=a@example.com\nregistry=https://old.example/\nstrict-ssl=false\n"
        .to_string();
    let content = cfg.update_npmrc(Some(&existing)).unwrap();
    assert_eq!(
        content,
        "email=a@example.com\nstrict-ssl=false\nregistry=https://registry.npmjs.org/\n"
    );
}

#[test]
fn switching_leaves_exactly_one_registry_line() {
    let mut cfg = Config::new();
    cfg.set_current("npm").unwrap();
    let existing = "registry=https://old/\n".to_string();
    let content = cfg.update_npmrc(Some(&existing)).unwrap();
    let registry_lines: Vec<&str> = content
        .lines()
        .filter(|l| l.trim().starts_with("registry="))
        .collect();
    assert_eq!(registry_lines, vec!["registry=https://registry.npmjs.org/"]);
}

#[test]
fn no_selection_means_nothing_to_write() {
    let cfg = Config::new();
    assert!(cfg.update_npmrc(None).is_none());
}

#[test]
fn read_registry_url_trims_and_takes_the_first_match() {
    let text = "a=1\n  registry=https://x.example/  \nregistry=https://y.example/\n";
    assert_eq!(read_registry_url(text).as_deref(), Some("https://x.example/"));
    assert_eq!(read_registry_url("a=1\nb=2\n"), None);
    assert_eq!(read_registry_url(""), None);
}

#[test]
fn stripping_registry_lines_keeps_the_rest_or_empties_the_file() {
    let text = "a=1\nregistry=https://x/\nb=2\n";
    assert_eq!(strip_registry_lines(text).as_deref(), Some("a=1\nb=2\n"));
    assert_eq!(strip_registry_lines("registry=https://x/\n"), None);
    assert_eq!(strip_registry_lines(""), None);
}
