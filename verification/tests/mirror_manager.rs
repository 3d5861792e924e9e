use indexmap::IndexMap;
use oma_sources::mirror::{Mirror, MirrorError, MirrorManager, Status};

fn table() -> ahash::HashMap<String, Mirror> {
    let mut t = ahash::HashMap::default();
    t.insert(
        "aosc".to_string(),
        Mirror { desc: "AOSC main".to_string(), url: "https://repo.aosc.io/".to_string() },
    );
    t.insert(
        "tuna".to_string(),
        Mirror { desc: "TUNA".to_string(), url: "https://mirrors.tuna.tsinghua.edu.cn/anthon/".to_string() },
    );
    t.insert(
        "ustc".to_string(),
        Mirror { desc: "USTC".to_string(), url: "https://mirrors.ustc.edu.cn/anthon/".to_string() },
    );
    t
}

fn manager(enabled: &[(&str, &str)]) -> MirrorManager {
    let mut mirror = IndexMap::new();
    for (k, v) in enabled {
        mirror.insert(k.to_string(), v.to_string());
    }
    MirrorManager::new(Status {
        branch: "stable".to_string(),
        component: vec!["main".to_string(), "bsp-x86".to_string()],
        mirror,
    })
}

fn enabled(m: &MirrorManager) -> Vec<(String, String)> {
    m.enabled_mirrors().iter().map(|(k, v)| (k.clone(), v.clone())).collect()
}

fn pairs(v: &[(&str, &str)]) -> Vec<(String, String)> {
    v.iter().map(|(k, u)| (k.to_string(), u.to_string())).collect()
}

#[test]
fn add_appends_a_known_mirror_with_its_url() {
    let mut m = manager(&[("aosc", "https://repo.aosc.io/")]);
    assert!(matches!(m.add("tuna", Ok(&table())), Ok(true)));
    assert_eq!(
        enabled(&m),
        pairs(&[("aosc", "https://repo.aosc.io/"), ("tuna", "https://mirrors.tuna.tsinghua.edu.cn/anthon/")])
    );
}

#[test]
fn add_of_an_enabled_mirror_changes_nothing() {
    let mut m = manager(&[("aosc", "custom-url")]);
    assert!(matches!(m.add("aosc", Ok(&table())), Ok(false)));
    assert_eq!(enabled(&m), pairs(&[("aosc", "custom-url")]));
}

#[test]
fn add_of_an_unknown_mirror_fails() {
    let mut m = manager(&[("aosc", "https://repo.aosc.io/")]);
    match m.add("nowhere", Ok(&table())) {
        Err(MirrorError::MirrorNotExist { mirror_name }) => assert_eq!(mirror_name, "nowhere"),
        _ => panic!("expected MirrorNotExist"),
    }
    assert_eq!(enabled(&m), pairs(&[("aosc", "https://repo.aosc.io/")]));
}

#[test]
fn set_replaces_all_mirrors() {
    let mut m = manager(&[("aosc", "https://repo.aosc.io/"), ("tuna", "t")]);
    assert!(matches!(m.set("ustc", Ok(&table())), Ok(true)));
    assert_eq!(enabled(&m), pairs(&[("ustc", "https://mirrors.ustc.edu.cn/anthon/")]));
}

#[test]
fn set_of_an_enabled_mirror_changes_nothing() {
    let mut m = manager(&[("aosc", "a"), ("tuna", "t")]);
    assert!(matches!(m.set("tuna", Ok(&table())), Ok(false)));
    assert_eq!(enabled(&m), pairs(&[("aosc", "a"), ("tuna", "t")]));
}

#[test]
fn set_of_an_unknown_mirror_leaves_none_enabled() {
    let mut m = manager(&[("aosc", "a"), ("tuna", "t")]);
    match m.set("nowhere", Ok(&table())) {
        Err(MirrorError::MirrorNotExist { mirror_name }) => assert_eq!(mirror_name, "nowhere"),
        _ => panic!("expected MirrorNotExist"),
    }
    assert!(enabled(&m).is_empty());
}

#[test]
fn remove_keeps_the_order_of_the_others() {
    let mut m = manager(&[("aosc", "a"), ("tuna", "t"), ("ustc", "u")]);
    assert!(m.remove("tuna"));
    assert_eq!(enabled(&m), pairs(&[("aosc", "a"), ("ustc", "u")]));
    assert!(!m.remove("tuna"));
    assert_eq!(enabled(&m), pairs(&[("aosc", "a"), ("ustc", "u")]));
}

#[test]
fn remove_undoes_add() {
    let mut m = manager(&[("aosc", "a"), ("ustc", "u")]);
    let before = enabled(&m);
    assert!(matches!(m.add("tuna", Ok(&table())), Ok(true)));
    assert!(m.remove("tuna"));
    assert_eq!(enabled(&m), before);
}

#[test]
fn set_order_moves_the_names_to_the_end_last_name_first() {
    let mut m = manager(&[("aosc", "a"), ("tuna", "t"), ("ustc", "u"), ("bfsu", "b")]);
    assert!(m.set_order(&["tuna", "aosc"]).is_ok());
    assert_eq!(enabled(&m), pairs(&[("ustc", "u"), ("bfsu", "b"), ("aosc", "a"), ("tuna", "t")]));
}

#[test]
fn set_order_stops_at_the_last_unknown_name() {
    let mut m = manager(&[("aosc", "a"), ("tuna", "t"), ("ustc", "u")]);
    match m.set_order(&["ustc", "nowhere", "aosc"]) {
        Err(MirrorError::MirrorNotExist { mirror_name }) => assert_eq!(mirror_name, "nowhere"),
        _ => panic!("expected MirrorNotExist"),
    }
    // "aosc" was moved before the unknown name was reached; "ustc" was not.
    assert_eq!(enabled(&m), pairs(&[("tuna", "t"), ("ustc", "u"), ("aosc", "a")]));
}

#[test]
fn sources_list_text_has_one_line_per_mirror() {
    let m = manager(&[("aosc", "https://repo.aosc.io/debs"), ("tuna", "https://t/debs")]);
    assert_eq!(
        m.sources_list_text(None),
        "Generate by oma-mirror, DO NOT EDIT!\n\
         deb https://repo.aosc.io/debs stablemain bsp-x86\n\
         deb https://t/debs stablemain bsp-x86\n"
    );
    assert_eq!(m.sources_list_text(Some("# custom")), "# custom\ndeb https://repo.aosc.io/debs stablemain bsp-x86\ndeb https://t/debs stablemain bsp-x86\n");
}

#[test]
fn sources_list_text_without_mirrors_is_the_header() {
    let m = manager(&[]);
    assert_eq!(m.sources_list_text(Some("tips")), "tips\n");
}

#[test]
fn status_and_new_keep_the_fields() {
    let m = manager(&[("aosc", "a")]);
    assert_eq!(m.status().branch, "stable");
    assert_eq!(m.status().component, vec!["main".to_string(), "bsp-x86".to_string()]);
    assert_eq!(m.status().mirror.len(), 1);
}

#[test]
fn set_clears_the_mirrors_when_the_table_could_not_be_loaded() {
    let mut m = manager(&[("aosc", "a"), ("tuna", "t")]);
    let r = m.set("ustc", Err(MirrorError::ReadFile { path: "/mirrors.yml".to_string() }));
    match r {
        Err(MirrorError::ReadFile { path }) => assert_eq!(path, "/mirrors.yml"),
        _ => panic!("expected the loading error"),
    }
    assert!(enabled(&m).is_empty());
}

#[test]
fn add_keeps_the_mirrors_when_the_table_could_not_be_loaded() {
    let mut m = manager(&[("aosc", "a")]);
    assert!(matches!(m.add("ustc", Err(MirrorError::Parse { path: "p".to_string() })), Err(MirrorError::Parse { .. })));
    assert_eq!(enabled(&m), pairs(&[("aosc", "a")]));
    // An enabled mirror needs no table.
    assert!(matches!(m.add("aosc", Err(MirrorError::SerializeJson)), Ok(false)));
    assert!(matches!(m.set("aosc", Err(MirrorError::WriteFile { path: "w".to_string() })), Ok(false)));
    assert_eq!(enabled(&m), pairs(&[("aosc", "a")]));
}

#[test]
fn set_order_twice_is_set_order_once() {
    let mut m = manager(&[("aosc", "a"), ("tuna", "t"), ("ustc", "u"), ("bfsu", "b")]);
    assert!(m.set_order(&["ustc", "aosc", "ustc"]).is_ok());
    let once = enabled(&m);
    assert!(m.set_order(&["ustc", "aosc", "ustc"]).is_ok());
    assert_eq!(enabled(&m), once);
}
