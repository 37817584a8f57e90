use jjump::config::Config;
use jjump::config::Portal;
use jjump::config::PortalNotFound;

#[test]
fn default_registry_is_empty() {
    let c = Config::default();
    assert!(c.portals.is_empty());
    assert_eq!(c.resolve("anything"), Err(PortalNotFound));
}

#[test]
fn register_fresh_path_sorts_and_dedups() {
    let mut c = Config::default();
    c.register(
        "/home/u/proj".to_string(),
        vec!["b".to_string(), "a".to_string(), "a".to_string()],
    );
    assert_eq!(c.portals.len(), 1);
    assert_eq!(c.portals[0].path, "/home/u/proj");
    assert_eq!(c.portals[0].names, vec!["a".to_string(), "b".to_string()]);
}

#[test]
fn register_existing_path_merges_without_new_entry() {
    let mut c = Config::default();
    c.register("/srv/data".to_string(), vec!["data".to_string(), "d".to_string()]);
    c.register("/srv/data".to_string(), vec!["data".to_string(), "x".to_string()]);
    assert_eq!(c.portals.len(), 1);
    assert_eq!(
        c.portals[0].names,
        vec!["d".to_string(), "data".to_string(), "x".to_string()]
    );
}

#[test]
fn register_orders_by_unicode_scalar_value() {
    let mut c = Config::default();
    c.register("/tmp/x".to_string(), vec!["a".to_string(), "B".to_string()]);
    assert_eq!(c.portals[0].names, vec!["B".to_string(), "a".to_string()]);
}

#[test]
fn register_zero_names_keeps_an_empty_entry() {
    let mut c = Config::default();
    c.register("/opt/tool".to_string(), Vec::new());
    assert_eq!(c.portals.len(), 1);
    assert!(c.portals[0].names.is_empty());
    assert_eq!(c.resolve("tool"), Err(PortalNotFound));
}

#[test]
fn register_same_name_for_two_paths_keeps_both() {
    let mut c = Config::default();
    c.register("/first".to_string(), vec!["shared".to_string()]);
    c.register("/second".to_string(), vec!["shared".to_string()]);
    assert_eq!(c.portals.len(), 2);
    assert!(c.portals[0].names.contains(&"shared".to_string()));
    assert!(c.portals[1].names.contains(&"shared".to_string()));
    assert_eq!(c.resolve("shared"), Ok("/first".to_string()));
}

#[test]
fn resolve_finds_a_name_in_any_entry() {
    let mut c = Config::default();
    c.register("/home/u/proj".to_string(), vec!["proj".to_string()]);
    c.register("/var/log".to_string(), vec!["logs".to_string(), "l".to_string()]);
    assert_eq!(c.resolve("proj"), Ok("/home/u/proj".to_string()));
    assert_eq!(c.resolve("l"), Ok("/var/log".to_string()));
    assert_eq!(c.resolve("logs"), Ok("/var/log".to_string()));
    assert_eq!(c.resolve("missing"), Err(PortalNotFound));
}

#[test]
fn resolve_is_case_sensitive_and_exact() {
    let mut c = Config::default();
    c.register("/home/u/proj".to_string(), vec!["proj".to_string()]);
    assert_eq!(c.resolve("Proj"), Err(PortalNotFound));
    assert_eq!(c.resolve("pro"), Err(PortalNotFound));
    assert_eq!(c.resolve("projx"), Err(PortalNotFound));
}

#[test]
fn remove_deletes_the_whole_entry() {
    let mut c = Config::default();
    c.register("/home/u/proj".to_string(), vec!["proj".to_string(), "p".to_string()]);
    c.register("/var/log".to_string(), vec!["logs".to_string()]);
    assert_eq!(c.remove("p"), Ok(()));
    assert_eq!(c.portals.len(), 1);
    assert_eq!(c.resolve("proj"), Err(PortalNotFound));
    assert_eq!(c.resolve("p"), Err(PortalNotFound));
    assert_eq!(c.resolve("logs"), Ok("/var/log".to_string()));
}

#[test]
fn remove_unknown_name_fails_and_changes_nothing() {
    let mut c = Config::default();
    c.register("/home/u/proj".to_string(), vec!["proj".to_string()]);
    let before = c.clone();
    assert_eq!(c.remove("nope"), Err(PortalNotFound));
    assert_eq!(c, before);
}

#[test]
fn example_session() {
    let mut c = Config::default();
    c.register(
        "/home/u/proj".to_string(),
        vec!["proj".to_string(), "p".to_string()],
    );
    assert_eq!(c.portals.len(), 1);
    assert_eq!(c.portals[0].path, "/home/u/proj");
    assert_eq!(c.portals[0].names, vec!["p".to_string(), "proj".to_string()]);

    c.register(
        "/home/u/proj".to_string(),
        vec!["proj".to_string(), "x".to_string()],
    );
    assert_eq!(c.portals.len(), 1);
    assert_eq!(
        c.portals[0].names,
        vec!["p".to_string(), "proj".to_string(), "x".to_string()]
    );

    assert_eq!(c.resolve("p"), Ok("/home/u/proj".to_string()));

    assert_eq!(c.remove("x"), Ok(()));
    assert!(c.portals.is_empty());
    assert_eq!(c.resolve("p"), Err(PortalNotFound));
}

#[test]
fn portals_can_be_built_directly() {
    let entry = Portal { path: "/a".to_string(), names: vec!["a".to_string()] };
    let c = Config::from_portals(vec![entry]);
    assert_eq!(c.resolve("a"), Ok("/a".to_string()));
}
