use nrs::error::NrsError;
use nrs::ops::is_success_status;
use nrs::ops::reset;
use nrs::profile::Config;
use nrs::sort::SortOrder;

fn url_of<'a>(cfg: &'a Config, name: &str) -> Option<&'a String> {
    cfg.registries
        .iter()
        .chain(cfg.custom_registries.iter())
        .find(|(n, _)| n == name)
        .map(|(_, u)| u)
}

#[test]
fn new_profile_has_builtin_defaults() {
    let cfg = Config::new();
    assert_eq!(cfg.registries.len(), 6);
    assert_eq!(cfg.custom_registries.len(), 0);
    assert_eq!(
        url_of(&cfg, "npm").map(String::as_str),
        Some("https://registry.npmjs.org/")
    );
    assert_eq!(
        url_of(&cfg, "github").map(String::as_str),
        Some("https://npm.pkg.github.com/")
    );
    assert_eq!(cfg.registry_order.len(), 6);
    assert_eq!(cfg.current, None);
}

#[test]
fn add_rejects_non_http_url_and_leaves_profile_unchanged() {
    let mut cfg = Config::new();
    let before_custom = cfg.custom_registries.clone();
    let before_order = cfg.registry_order.clone();
    let r = cfg.add_registry("corp", "ftp://corp.example/");
    assert!(matches!(r, Err(NrsError::InvalidRegistryUrl(u)) if u == "ftp://corp.example/"));
    assert_eq!(cfg.custom_registries, before_custom);
    assert_eq!(cfg.registry_order, before_order);
    let r2 = cfg.add_registry("corp", "registry.example.com");
    assert!(matches!(r2, Err(NrsError::InvalidRegistryUrl(_))));
}

#[test]
fn add_of_known_url_under_other_name_is_accepted_noop() {
    let mut cfg = Config::new();
    let before_custom = cfg.custom_registries.clone();
    let r = cfg.add_registry("mirror", "https://registry.npmjs.org/");
    assert!(r.is_ok());
    assert_eq!(cfg.custom_registries, before_custom);
    assert!(url_of(&cfg, "mirror").is_none());
}

#[test]
fn add_inserts_custom_entry_and_extends_order() {
    let mut cfg = Config::new();
    cfg.add_registry("corp", "https://corp.example/npm/").unwrap();
    assert_eq!(
        url_of(&cfg, "corp").map(String::as_str),
        Some("https://corp.example/npm/")
    );
    assert_eq!(cfg.registry_order.last().map(String::as_str), Some("corp"));
    cfg.add_registry("corp", "http://corp.example/other/").unwrap();
    assert_eq!(
        url_of(&cfg, "corp").map(String::as_str),
        Some("http://corp.example/other/")
    );
    assert_eq!(cfg.custom_registries.len(), 1);
}

#[test]
fn edit_checks_name_then_url() {
    let mut cfg = Config::new();
    let r = cfg.edit_registry("ghost", "https://x.example/");
    assert!(matches!(r, Err(NrsError::RegistryNotFound(n)) if n == "ghost"));
    let r2 = cfg.edit_registry("npm", "garbage");
    assert!(matches!(r2, Err(NrsError::InvalidRegistryUrl(_))));
    cfg.edit_registry("npm", "https://mirror.example/npm/").unwrap();
    assert_eq!(
        url_of(&cfg, "npm").map(String::as_str),
        Some("https://mirror.example/npm/")
    );
}

#[test]
fn remove_of_active_registry_clears_current() {
    let mut cfg = Config::new();
    cfg.add_registry("corp", "https://corp.example/").unwrap();
    cfg.set_current("corp").unwrap();
    assert_eq!(cfg.current.as_deref(), Some("corp"));
    cfg.remove_registry("corp").unwrap();
    assert_eq!(cfg.current, None);
    assert!(cfg.current_registry().is_none());
    assert!(url_of(&cfg, "corp").is_none());
    assert!(!cfg.registry_order.iter().any(|n| n == "corp"));
    let r = cfg.remove_registry("corp");
    assert!(matches!(r, Err(NrsError::RegistryNotFound(_))));
}

#[test]
fn remove_of_inactive_registry_keeps_current() {
    let mut cfg = Config::new();
    cfg.set_current("yarn").unwrap();
    cfg.remove_registry("npm").unwrap();
    assert_eq!(cfg.current.as_deref(), Some("yarn"));
    let (name, url) = cfg.current_registry().unwrap();
    assert_eq!(name, "yarn");
    assert_eq!(url, "https://registry.yarnpkg.com/");
}

#[test]
fn set_current_requires_known_name() {
    let mut cfg = Config::new();
    let r = cfg.set_current("nope");
    assert!(matches!(r, Err(NrsError::RegistryNotFound(n)) if n == "nope"));
    assert_eq!(cfg.current, None);
}

#[test]
fn reset_needs_confirmation() {
    let cfg = Config::new();
    assert!(reset(&cfg, false, false).is_none());
    assert!(reset(&cfg, false, true).is_none());
}

#[test]
fn reset_all_returns_pristine_defaults() {
    let mut cfg = Config::new();
    cfg.add_registry("corp", "https://corp.example/").unwrap();
    cfg.set_current("corp").unwrap();
    let fresh = reset(&cfg, true, true).unwrap();
    assert_eq!(fresh.custom_registries.len(), 0);
    assert_eq!(fresh.current, None);
    assert_eq!(fresh.registries.len(), 6);
}

#[test]
fn reset_keeping_customs_preserves_entries_and_current() {
    let mut cfg = Config::new();
    cfg.add_registry("corp", "https://corp.example/").unwrap();
    cfg.set_current("corp").unwrap();
    let fresh = reset(&cfg, true, false).unwrap();
    assert_eq!(fresh.custom_registries, cfg.custom_registries);
    assert_eq!(fresh.current.as_deref(), Some("corp"));
    let mut expected: Vec<String> = fresh
        .registries
        .iter()
        .chain(fresh.custom_registries.iter())
        .map(|(n, _)| n.clone())
        .collect();
    expected.sort();
    assert_eq!(fresh.registry_order, expected);
}

#[test]
fn prune_drops_unreachable_customs_and_clears_current() {
    let mut cfg = Config::new();
    cfg.add_registry("alpha", "https://alpha.example/").unwrap();
    cfg.add_registry("beta", "https://beta.example/").unwrap();
    cfg.set_current("beta").unwrap();
    let targets = cfg.prune_targets();
    assert_eq!(targets, vec!["alpha".to_string(), "beta".to_string()]);
    cfg.apply_prune(&vec!["beta".to_string()]);
    assert!(url_of(&cfg, "beta").is_none());
    assert_eq!(
        url_of(&cfg, "alpha").map(String::as_str),
        Some("https://alpha.example/")
    );
    assert_eq!(cfg.current, None);
    assert!(!cfg.registry_order.iter().any(|n| n == "beta"));
}

#[test]
fn sorted_registries_by_each_order() {
    let mut cfg = Config::new();
    cfg.add_registry("aaa", "https://zzz.example/").unwrap();
    let by_name = cfg.sorted_registries(SortOrder::Name);
    assert_eq!(by_name.first().map(|(n, _)| n.as_str()), Some("aaa"));
    let mut names: Vec<&str> = by_name.iter().map(|(n, _)| n.as_str()).collect();
    let mut sorted = names.clone();
    sorted.sort();
    assert_eq!(names, sorted);
    let by_url = cfg.sorted_registries(SortOrder::Url);
    assert_eq!(
        by_url.last().map(|(_, u)| u.as_str()),
        Some("https://zzz.example/")
    );
    let by_default = cfg.sorted_registries(SortOrder::Default);
    assert_eq!(by_default.first().map(|(n, _)| n.as_str()), Some("npm"));
    assert_eq!(by_default.last().map(|(n, _)| n.as_str()), Some("aaa"));
    names = by_default.iter().map(|(n, _)| n.as_str()).collect();
    assert_eq!(names.len(), 7);
}

#[test]
fn probe_verdict_follows_success_statuses() {
    assert!(is_success_status(200));
    assert!(is_success_status(204));
    assert!(is_success_status(299));
    assert!(!is_success_status(199));
    assert!(!is_success_status(301));
    assert!(!is_success_status(404));
    assert!(!is_success_status(500));
}

#[test]
fn test_registry_judges_probe_outcomes() {
    let cfg = Config::new();
    assert!(matches!(cfg.test_registry("npm", Some(200)), Ok(true)));
    assert!(matches!(cfg.test_registry("npm", Some(503)), Ok(false)));
    assert!(matches!(cfg.test_registry("npm", None), Ok(false)));
    assert!(matches!(
        cfg.test_registry("ghost", Some(200)),
        Err(NrsError::RegistryNotFound(n)) if n == "ghost"
    ));
}

#[test]
fn error_messages_name_the_offender() {
    let e = NrsError::RegistryNotFound("corp".to_string());
    assert_eq!(e.message(), "Registry not found: corp");
    let e2 = NrsError::InvalidRegistryUrl("ftp://x/".to_string());
    assert_eq!(e2.message(), "Invalid registry URL: ftp://x/");
    let e3 = NrsError::CorruptProfile;
    assert_eq!(e3.message(), "The profile file is malformed");
}
