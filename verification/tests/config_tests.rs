use hop_ssh::config::Config;
use hop_ssh::error::HopError;
use hop_ssh::host::Host;

fn sample() -> Config {
    let mut c = Config::new();
    let mut prod = Host::new("prod", "192.168.1.1", "root", 22);
    prod.tags.push("web".to_string());
    prod.group = Some("live".to_string());
    c.add_host(prod).unwrap();
    let mut db = Host::new("db", "10.0.0.5", "admin", 2222);
    db.identity = Some("~/.ssh/db".to_string());
    db.group = Some("live".to_string());
    c.add_host(db).unwrap();
    c.add_host(Host::new("alpha", "alpha.example.com", "me", 22)).unwrap();
    c
}

#[test]
fn host_new_has_no_extras() {
    let h = Host::new("prod", "192.168.1.1", "root", 22);
    assert_eq!(h.name, "prod");
    assert_eq!(h.hostname, "192.168.1.1");
    assert_eq!(h.user, "root");
    assert_eq!(h.port, 22);
    assert!(h.identity.is_none());
    assert!(h.tags.is_empty());
    assert!(h.group.is_none());
}

#[test]
fn connection_string_is_user_at_host() {
    let h = Host::new("prod", "192.168.1.1", "root", 22);
    assert_eq!(h.connection_string(), "root@192.168.1.1");
}

#[test]
fn clone_keeps_every_field() {
    let mut h = Host::new("prod", "192.168.1.1", "root", 22);
    h.tags.push("a".to_string());
    h.identity = Some("key".to_string());
    h.group = Some("g".to_string());
    let c = h.clone();
    assert_eq!(c.name, "prod");
    assert_eq!(c.tags, vec!["a".to_string()]);
    assert_eq!(c.identity.as_deref(), Some("key"));
    assert_eq!(c.group.as_deref(), Some("g"));
}

#[test]
fn add_then_get() {
    let c = sample();
    assert_eq!(c.len(), 3);
    assert!(!c.is_empty());
    let h = c.get_host("db").unwrap();
    assert_eq!(h.hostname, "10.0.0.5");
    assert_eq!(h.port, 2222);
}

#[test]
fn add_existing_name_is_refused() {
    let mut c = sample();
    let err = c.add_host(Host::new("prod", "other", "x", 1)).unwrap_err();
    assert!(matches!(err, HopError::HostExists(ref n) if n == "prod"));
    assert_eq!(err.message(), "Host 'prod' already exists");
    assert_eq!(c.get_host("prod").unwrap().hostname, "192.168.1.1");
    assert_eq!(c.len(), 3);
}

#[test]
fn get_missing_host() {
    let c = sample();
    let err = c.get_host("nope").unwrap_err();
    assert!(matches!(err, HopError::HostNotFound(ref n) if n == "nope"));
    assert_eq!(err.message(), "Host 'nope' not found");
}

#[test]
fn empty_config() {
    let c = Config::new();
    assert!(c.is_empty());
    assert_eq!(c.len(), 0);
    let d = Config::default();
    assert!(d.is_empty());
    assert!(c.list(None).is_empty());
}

#[test]
fn get_host_mut_changes_in_place() {
    let mut c = sample();
    {
        let h = c.get_host_mut("alpha").unwrap();
        h.port = 2200;
    }
    assert_eq!(c.get_host("alpha").unwrap().port, 2200);
    assert!(matches!(c.get_host_mut("zzz"), Err(HopError::HostNotFound(_))));
}

#[test]
fn remove_host_gives_it_back() {
    let mut c = sample();
    let h = c.remove_host("db").unwrap();
    assert_eq!(h.name, "db");
    assert_eq!(c.len(), 2);
    assert!(c.get_host("db").is_err());
    assert!(matches!(c.remove_host("db"), Err(HopError::HostNotFound(ref n)) if n == "db"));
}

#[test]
fn remove_undoes_add() {
    let mut c = sample();
    c.add_host(Host::new("new", "h", "u", 1)).unwrap();
    c.remove_host("new").unwrap();
    assert_eq!(c.len(), 3);
    assert!(c.get_host("new").is_err());
}

#[test]
fn insert_replaces() {
    let mut c = sample();
    c.insert("prod".to_string(), Host::new("prod", "new-addr", "root", 22));
    assert_eq!(c.len(), 3);
    assert_eq!(c.get_host("prod").unwrap().hostname, "new-addr");
    c.insert("key".to_string(), Host::new("other-name", "h", "u", 1));
    assert_eq!(c.get_host("key").unwrap().name, "other-name");
}

#[test]
fn rename_moves_and_renames() {
    let mut c = sample();
    c.rename_host("prod", "production".to_string()).unwrap();
    assert!(c.get_host("prod").is_err());
    let h = c.get_host("production").unwrap();
    assert_eq!(h.name, "production");
    assert_eq!(h.hostname, "192.168.1.1");
    assert_eq!(h.tags, vec!["web".to_string()]);
    assert_eq!(c.len(), 3);
}

#[test]
fn rename_and_back_restores() {
    let mut c = sample();
    c.rename_host("prod", "p2".to_string()).unwrap();
    c.rename_host("p2", "prod".to_string()).unwrap();
    let h = c.get_host("prod").unwrap();
    assert_eq!(h.name, "prod");
    assert_eq!(h.hostname, "192.168.1.1");
    assert_eq!(c.len(), 3);
}

#[test]
fn rename_over_existing_replaces_it() {
    let mut c = sample();
    c.rename_host("alpha", "db".to_string()).unwrap();
    assert_eq!(c.len(), 2);
    assert_eq!(c.get_host("db").unwrap().hostname, "alpha.example.com");
}

#[test]
fn rename_missing_host() {
    let mut c = sample();
    let err = c.rename_host("ghost", "x".to_string()).unwrap_err();
    assert!(matches!(err, HopError::HostNotFound(ref n) if n == "ghost"));
    assert_eq!(c.len(), 3);
}

#[test]
fn copy_keeps_source() {
    let mut c = sample();
    c.copy_host("db", "db2".to_string()).unwrap();
    assert_eq!(c.len(), 4);
    let a = c.get_host("db").unwrap();
    let b = c.get_host("db2").unwrap();
    assert_eq!(a.name, "db");
    assert_eq!(b.name, "db2");
    assert_eq!(b.hostname, a.hostname);
    assert_eq!(b.identity, a.identity);
    assert!(matches!(c.copy_host("zzz", "y".to_string()), Err(HopError::HostNotFound(_))));
}

#[test]
fn edit_changes_given_fields_only() {
    let mut c = sample();
    c.edit_host("db", None, Some("dba".to_string()), Some(2022), None).unwrap();
    let h = c.get_host("db").unwrap();
    assert_eq!(h.user, "dba");
    assert_eq!(h.port, 2022);
    assert_eq!(h.hostname, "10.0.0.5");
    assert_eq!(h.identity.as_deref(), Some("~/.ssh/db"));
    c.edit_host("db", Some("10.0.0.6".to_string()), None, None, Some("k2".to_string())).unwrap();
    let h = c.get_host("db").unwrap();
    assert_eq!(h.hostname, "10.0.0.6");
    assert_eq!(h.identity.as_deref(), Some("k2"));
    assert!(c.edit_host("nope", None, None, None, None).is_err());
}

#[test]
fn empty_edit_changes_nothing() {
    let mut c = sample();
    c.edit_host("prod", None, None, None, None).unwrap();
    let h = c.get_host("prod").unwrap();
    assert_eq!(h.hostname, "192.168.1.1");
    assert_eq!(h.user, "root");
    assert_eq!(h.port, 22);
}

#[test]
fn tag_is_added_once() {
    let mut c = sample();
    c.tag_host("alpha", "dev".to_string()).unwrap();
    c.tag_host("alpha", "dev".to_string()).unwrap();
    c.tag_host("alpha", "eu".to_string()).unwrap();
    assert_eq!(c.get_host("alpha").unwrap().tags, vec!["dev".to_string(), "eu".to_string()]);
    assert!(matches!(c.tag_host("nope", "x".to_string()), Err(HopError::HostNotFound(_))));
}

#[test]
fn assign_group_and_list_groups() {
    let mut c = sample();
    c.assign_group("alpha", "staging".to_string()).unwrap();
    assert_eq!(c.get_host("alpha").unwrap().group.as_deref(), Some("staging"));
    let mut g = c.groups();
    g.sort();
    assert_eq!(g, vec!["live".to_string(), "staging".to_string()]);
    assert!(c.assign_group("nope", "x".to_string()).is_err());
}

#[test]
fn no_groups() {
    let mut c = Config::new();
    c.add_host(Host::new("a", "h", "u", 1)).unwrap();
    assert!(c.groups().is_empty());
}

#[test]
fn list_is_sorted_by_name() {
    let c = sample();
    let names: Vec<String> = c.list(None).into_iter().map(|h| h.name).collect();
    assert_eq!(names, vec!["alpha".to_string(), "db".to_string(), "prod".to_string()]);
}

#[test]
fn list_of_a_group() {
    let c = sample();
    let names: Vec<String> = c.list(Some("live")).into_iter().map(|h| h.name).collect();
    assert_eq!(names, vec!["db".to_string(), "prod".to_string()]);
    assert!(c.list(Some("none")).is_empty());
}

#[test]
fn list_orders_by_code_point() {
    let mut c = Config::new();
    for n in ["b", "B", "a", "ab", "A", "é"] {
        c.add_host(Host::new(n, "h", "u", 1)).unwrap();
    }
    let names: Vec<String> = c.list(None).into_iter().map(|h| h.name).collect();
    assert_eq!(names, vec!["A", "B", "a", "ab", "b", "é"]);
}

#[test]
fn search_ignores_case() {
    let c = sample();
    let r = c.search("PROD");
    assert_eq!(r.len(), 1);
    assert_eq!(r[0].name, "prod");
    let r = c.search("EXAMPLE");
    assert_eq!(r.len(), 1);
    assert_eq!(r[0].name, "alpha");
}

#[test]
fn search_by_tag_and_group() {
    let c = sample();
    let r = c.search("WeB");
    assert_eq!(r.len(), 1);
    assert_eq!(r[0].name, "prod");
    let mut names: Vec<String> = c.search("liv").into_iter().map(|h| h.name).collect();
    names.sort();
    assert_eq!(names, vec!["db".to_string(), "prod".to_string()]);
    assert!(c.search("zzz").is_empty());
}

#[test]
fn empty_search_finds_all() {
    let c = sample();
    assert_eq!(c.search("").len(), 3);
}

#[test]
fn import_merges_and_counts() {
    let mut c = sample();
    let mut other = Config::new();
    other.add_host(Host::new("prod", "replaced", "root", 22)).unwrap();
    other.add_host(Host::new("extra", "e", "u", 1)).unwrap();
    let n = c.import(&other);
    assert_eq!(n, 2);
    assert_eq!(c.len(), 4);
    assert_eq!(c.get_host("prod").unwrap().hostname, "replaced");
    assert_eq!(c.get_host("db").unwrap().hostname, "10.0.0.5");
    let n2 = c.import(&other);
    assert_eq!(n2, 2);
    assert_eq!(c.len(), 4);
}

#[test]
fn pairs_hold_every_entry() {
    let c = sample();
    let mut keys: Vec<String> = c.to_pairs().into_iter().map(|(k, h)| {
        assert_eq!(k, h.name);
        k
    }).collect();
    keys.sort();
    assert_eq!(keys, vec!["alpha".to_string(), "db".to_string(), "prod".to_string()]);
}

#[test]
fn row_labels() {
    let c = sample();
    let p = c.get_host("prod").unwrap();
    assert_eq!(p.group_label().as_deref(), Some(" [live]"));
    assert_eq!(p.tags_label(), " #web");
    let a = c.get_host("alpha").unwrap();
    assert_eq!(a.group_label(), None);
    assert_eq!(a.tags_label(), "");
    let mut h = Host::new("x", "y", "z", 1);
    h.tags = vec!["a".to_string(), "b".to_string(), "c".to_string()];
    assert_eq!(h.tags_label(), " #a #b #c");
}
