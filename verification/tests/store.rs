use jjump::config::Config;
use jjump::config::Portal;

#[test]
fn round_trip_reproduces_the_mapping() {
    let mut c = Config::default();
    c.register("/home/u/proj".to_string(), vec!["proj".to_string(), "p".to_string()]);
    c.register("/var/log".to_string(), vec!["logs".to_string()]);

    let r = Config::from_portals(c.portals.clone());

    assert_eq!(r.portals.len(), c.portals.len());
    for entry in &c.portals {
        for name in &entry.names {
            assert_eq!(r.resolve(name), Ok(entry.path.clone()));
        }
    }
    for entry in &r.portals {
        for name in &entry.names {
            assert_eq!(c.resolve(name), Ok(entry.path.clone()));
        }
    }
}

#[test]
fn loading_merges_entries_with_the_same_path() {
    let entries = vec![
        Portal { path: "/dup".to_string(), names: vec!["b".to_string()] },
        Portal { path: "/other".to_string(), names: vec!["o".to_string()] },
        Portal { path: "/dup".to_string(), names: vec!["a".to_string(), "b".to_string()] },
    ];
    let c = Config::from_portals(entries);
    assert_eq!(c.portals.len(), 2);
    assert_eq!(c.resolve("a"), Ok("/dup".to_string()));
    assert_eq!(c.resolve("b"), Ok("/dup".to_string()));
    assert_eq!(c.resolve("o"), Ok("/other".to_string()));
}

#[test]
fn loading_sorts_and_dedups_each_name_list() {
    let entries = vec![Portal {
        path: "/dir".to_string(),
        names: vec!["c".to_string(), "a".to_string(), "c".to_string(), "b".to_string()],
    }];
    let c = Config::from_portals(entries);
    assert_eq!(c.portals.len(), 1);
    assert_eq!(
        c.portals[0].names,
        vec!["a".to_string(), "b".to_string(), "c".to_string()]
    );
}

#[test]
fn loading_nothing_gives_the_empty_registry() {
    let c = Config::from_portals(Vec::new());
    assert!(c.portals.is_empty());
}
