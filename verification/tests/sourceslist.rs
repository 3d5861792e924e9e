use oma_sources::sourceslist::{
    collect_sources_list, human_download_url, Event, MirrorSources, OmaSourceEntry,
    OmaSourceEntryFrom, RefreshError, Signature, SourceEntry, SourceLine, SourceListType,
    SourcesListAction, SourcesListOutcome,
};

fn entry(url: &str, suite: &str, components: &[&str]) -> SourceEntry {
    SourceEntry {
        enabled: true,
        source: false,
        options: vec![],
        url: url.to_string(),
        suite: suite.to_string(),
        components: components.iter().map(|c| c.to_string()).collect(),
        is_deb822: false,
        archs: None,
        signed_by: None,
        trusted: false,
    }
}

#[test]
fn test_ose() {
    // Flat repository tests.

    // deb file:///debs/ /
    let entry = SourceEntry {
        enabled: true,
        source: false,
        options: vec![],
        url: "file:///debs/".to_string(),
        suite: "/".to_string(),
        components: vec![],
        is_deb822: false,
        archs: None,
        signed_by: None,
        trusted: false,
    };

    let arch = "amd64".to_string();
    let ose = OmaSourceEntry::new(entry, &arch);
    assert_eq!(ose.url(), "file:///debs/");
    assert_eq!(ose.dist_path(), "file:///debs/");

    // deb file:///debs/ ./
    let entry = SourceEntry {
        enabled: true,
        source: false,
        options: vec![],
        url: "file:///debs/".to_string(),
        suite: "./".to_string(),
        components: vec![],
        is_deb822: false,
        archs: None,
        signed_by: None,
        trusted: false,
    };

    let ose = OmaSourceEntry::new(entry, &arch);
    assert_eq!(ose.url(), "file:///debs/");
    assert_eq!(ose.dist_path(), "file:///debs/./");

    // deb file:/debs/ /
    let entry = SourceEntry {
        enabled: true,
        source: false,
        options: vec![],
        url: "file:/debs/".to_string(),
        suite: "/".to_string(),
        components: vec![],
        is_deb822: false,
        archs: None,
        signed_by: None,
        trusted: false,
    };

    let ose = OmaSourceEntry::new(entry, &arch);
    assert_eq!(ose.url(), "file:/debs/");
    assert_eq!(ose.dist_path(), "file:/debs/");

    // deb file:/debs /
    //
    // APT will append implicitly a / at the end of the URL.
    let entry = SourceEntry {
        enabled: true,
        source: false,
        options: vec![],
        url: "file:/debs".to_string(),
        suite: "/".to_string(),
        components: vec![],
        is_deb822: false,
        archs: None,
        signed_by: None,
        trusted: false,
    };

    let ose = OmaSourceEntry::new(entry, &arch);
    assert_eq!(ose.url(), "file:/debs");
    assert_eq!(ose.dist_path(), "file:/debs/");

    // deb file:/debs/ ./././
    let entry = SourceEntry {
        enabled: true,
        source: false,
        options: vec![],
        url: "file:/debs/".to_string(),
        suite: "./././".to_string(),
        components: vec![],
        is_deb822: false,
        archs: None,
        signed_by: None,
        trusted: false,
    };

    let ose = OmaSourceEntry::new(entry, &arch);
    assert_eq!(ose.url(), "file:/debs/");
    assert_eq!(ose.dist_path(), "file:/debs/./././");

    // deb file:/debs/ .//
    let entry = SourceEntry {
        enabled: true,
        source: false,
        options: vec![],
        url: "file:/debs/".to_string(),
        suite: ".//".to_string(),
        components: vec![],
        is_deb822: false,
        archs: None,
        signed_by: None,
        trusted: false,
    };

    let ose = OmaSourceEntry::new(entry, &arch);
    assert_eq!(ose.url(), "file:/debs/");
    assert_eq!(ose.dist_path(), "file:/debs/.//");

    // deb file:/debs/ //
    let entry = SourceEntry {
        enabled: true,
        source: false,
        options: vec![],
        url: "file:/debs/".to_string(),
        suite: "//".to_string(),
        components: vec![],
        is_deb822: false,
        archs: None,
        signed_by: None,
        trusted: false,
    };

    let ose = OmaSourceEntry::new(entry, &arch);
    assert_eq!(ose.url(), "file:/debs/");
    assert_eq!(ose.dist_path(), "file:/debs///");

    // deb file:/./debs/ ./
    let entry = SourceEntry {
        enabled: true,
        source: false,
        options: vec![],
        url: "file:/./debs/".to_string(),
        suite: "./".to_string(),
        components: vec![],
        is_deb822: false,
        archs: None,
        signed_by: None,
        trusted: false,
    };

    let ose = OmaSourceEntry::new(entry, &arch);
    assert_eq!(ose.url(), "file:/./debs/");
    assert_eq!(ose.dist_path(), "file:/./debs/./");

    // deb file:/usr/../debs/ ./
    let entry = SourceEntry {
        enabled: true,
        source: false,
        options: vec![],
        url: "file:/usr/../debs/".to_string(),
        suite: "./".to_string(),
        components: vec![],
        is_deb822: false,
        archs: None,
        signed_by: None,
        trusted: false,
    };

    let ose = OmaSourceEntry::new(entry, &arch);
    assert_eq!(ose.url(), "file:/usr/../debs/");
    assert_eq!(ose.dist_path(), "file:/usr/../debs/./");
}

#[test]
fn flat_entry_with_a_suite_gets_a_slash_between() {
    let ose = OmaSourceEntry::new(entry("file:/debs", "sub", &[]), "amd64");
    assert_eq!(ose.dist_path(), "file:/debs/sub");
}

#[test]
fn non_flat_entry_uses_the_dists_path_without_trailing_slashes() {
    let ose = OmaSourceEntry::new(entry("https://repo.aosc.io/debs//", "stable", &["main"]), "amd64");
    assert_eq!(ose.dist_path(), "https://repo.aosc.io/debs/dists/stable");
}

#[test]
fn arch_placeholder_is_filled_in() {
    let ose = OmaSourceEntry::new(
        entry("https://example.org/$(ARCH)/x$(ARCH)", "$(ARCH)-$(ARCH", &["main"]),
        "arm64",
    );
    assert_eq!(ose.url(), "https://example.org/arm64/xarm64");
    assert_eq!(ose.suite(), "arm64-$(ARCH");
    // The dist path of a non-flat entry keeps the placeholder, as its sources list entry has it.
    assert_eq!(ose.dist_path(), "https://example.org/$(ARCH)/x$(ARCH)/dists/$(ARCH)-$(ARCH");
}

#[test]
fn from_tells_http_local_and_unsupported_apart() {
    let http = OmaSourceEntry::new(entry("https://repo.aosc.io/debs", "stable", &["main"]), "amd64");
    assert_eq!(http.from().ok(), Some(OmaSourceEntryFrom::Http));
    let local = OmaSourceEntry::new(entry("file:///debs/", "/", &[]), "amd64");
    assert_eq!(local.from().ok(), Some(OmaSourceEntryFrom::Local));
    let other = OmaSourceEntry::new(entry("ftp://example.org/debs//", "stable", &["main"]), "amd64");
    match other.from() {
        Err(RefreshError::UnsupportedProtocol(u)) => assert_eq!(u, "ftp://example.org/debs"),
        _ => panic!("expected UnsupportedProtocol"),
    }
}

#[test]
fn accessors_give_the_fields() {
    let mut e = entry("https://repo.aosc.io/debs", "stable", &["main", "contrib"]);
    e.trusted = true;
    e.source = true;
    e.archs = Some(vec!["amd64".to_string()]);
    e.signed_by = Some(Signature::KeyBlock("KEY".to_string()));
    let ose = OmaSourceEntry::new(e, "amd64");
    assert_eq!(ose.components(), &["main".to_string(), "contrib".to_string()]);
    assert!(ose.trusted());
    assert!(ose.is_source());
    assert!(!ose.is_flat());
    assert_eq!(ose.archs(), &Some(vec!["amd64".to_string()]));
    assert!(matches!(ose.signed_by(), Some(Signature::KeyBlock(k)) if k == "KEY"));
}

#[test]
fn source_entry_url_and_dist_path() {
    let e = entry("http://us.archive.ubuntu.com/ubuntu/", "cosmic", &["main"]);
    assert_eq!(e.url(), "http://us.archive.ubuntu.com/ubuntu");
    assert_eq!(e.dist_path(), "http://us.archive.ubuntu.com/ubuntu/dists/cosmic");
}

#[test]
fn human_download_url_uses_the_host() {
    let ose = OmaSourceEntry::new(entry("https://repo.aosc.io/debs", "stable", &["main"]), "amd64");
    assert_eq!(ose.get_human_download_url(None).ok(), Some("repo.aosc.io:stable".to_string()));
    assert_eq!(
        ose.get_human_download_url(Some("InRelease")).ok(),
        Some("repo.aosc.io:stable InRelease".to_string())
    );
}

#[test]
fn human_download_url_falls_back_to_the_path() {
    let ose = OmaSourceEntry::new(entry("file:/debs/", "/", &[]), "amd64");
    assert_eq!(ose.get_human_download_url(Some("Packages")).ok(), Some("/debs/:/ Packages".to_string()));
}

#[test]
fn human_download_url_of_an_invalid_url() {
    let ose = OmaSourceEntry::new(entry("not a url", "stable", &["main"]), "amd64");
    match ose.get_human_download_url(None) {
        Err(RefreshError::InvalidUrl(u)) => assert_eq!(u, "not a url"),
        _ => panic!("expected InvalidUrl"),
    }
}

#[test]
fn human_download_url_from_parsed_parts() {
    assert_eq!(
        human_download_url("u", Some((Some("h".to_string()), "/p".to_string())), "s", Some("f")).ok(),
        Some("h:s f".to_string())
    );
    assert_eq!(
        human_download_url("u", Some((None, "/p".to_string())), "s", None).ok(),
        Some("/p:s".to_string())
    );
    match human_download_url("u", None, "s", None) {
        Err(RefreshError::InvalidUrl(u)) => assert_eq!(u, "u"),
        _ => panic!("expected InvalidUrl"),
    }
}

fn list() -> Vec<OmaSourceEntry> {
    let mut a = entry("https://repo.aosc.io/debs", "stable", &["main"]);
    a.signed_by = None;
    let mut b = entry("https://repo.aosc.io/debs", "stable", &["bsp"]);
    b.trusted = true;
    b.signed_by = Some(Signature::KeyPath(vec!["/k1".to_string()]));
    let mut c = entry("file:///debs/", "/", &[]);
    c.signed_by = Some(Signature::KeyPath(vec!["/k2".to_string()]));
    let mut d = entry("https://repo.aosc.io/debs", "stable", &["contrib"]);
    d.signed_by = Some(Signature::KeyPath(vec!["/k3".to_string()]));
    vec![
        OmaSourceEntry::new(a, "amd64"),
        OmaSourceEntry::new(b, "amd64"),
        OmaSourceEntry::new(c, "amd64"),
        OmaSourceEntry::new(d, "amd64"),
    ]
}

#[test]
fn from_sourcelist_groups_by_database_name() {
    let l = list();
    let names = vec![Ok("repo".to_string()), Ok("repo".to_string()), Ok("local".to_string()), Ok("repo".to_string())];
    let ms = match MirrorSources::from_sourcelist(&l, names, None) {
        Ok(ms) => ms,
        Err(_) => panic!("expected groups"),
    };
    assert_eq!(ms.0.len(), 2);
    let repo = ms.0.iter().find(|m| m.sources.len() == 3).expect("repo group");
    let local = ms.0.iter().find(|m| m.sources.len() == 1).expect("local group");
    assert_eq!(repo.dist_path(), "https://repo.aosc.io/debs/dists/stable");
    assert_eq!(repo.sources[0].components(), &["main".to_string()]);
    assert_eq!(repo.sources[2].components(), &["contrib".to_string()]);
    assert!(repo.trusted());
    assert!(matches!(repo.signed_by(), Some(Signature::KeyPath(p)) if p == &vec!["/k1".to_string()]));
    assert!(repo.auth().is_none());
    assert!(repo.file_name().is_none());
    assert_eq!(local.dist_path(), "file:///debs/");
    assert!(local.is_flat());
    assert!(!local.trusted());
    assert_eq!(local.url(), "file:///debs/");
    assert_eq!(local.from().ok(), Some(OmaSourceEntryFrom::Local));
    assert_eq!(repo.get_human_download_url(Some("InRelease")).ok(), Some("repo.aosc.io:stable InRelease".to_string()));
}

#[test]
fn from_sourcelist_refuses_an_empty_list() {
    let l: Vec<OmaSourceEntry> = vec![];
    assert!(matches!(MirrorSources::from_sourcelist(&l, vec![], None), Err(RefreshError::SourceListsEmpty)));
}

#[test]
fn from_sourcelist_returns_the_first_name_error() {
    let l = list();
    let names = vec![
        Ok("repo".to_string()),
        Err(RefreshError::InvalidUrl("first".to_string())),
        Ok("local".to_string()),
        Err(RefreshError::InvalidUrl("second".to_string())),
    ];
    match MirrorSources::from_sourcelist(&l, names, None) {
        Err(RefreshError::InvalidUrl(u)) => assert_eq!(u, "first"),
        _ => panic!("expected the first error"),
    }
}

#[test]
fn from_sourcelist_looks_up_credentials() {
    let l = list();
    let config = apt_auth_config::AuthConfig(vec![]);
    let names = vec![Ok("a".to_string()), Ok("b".to_string()), Ok("c".to_string()), Ok("d".to_string())];
    let ms = match MirrorSources::from_sourcelist(&l, names, Some(&config)) {
        Ok(ms) => ms,
        Err(_) => panic!("expected groups"),
    };
    assert_eq!(ms.0.len(), 4);
    assert!(ms.0.iter().all(|m| m.auth().is_none() && m.sources.len() == 1));
}

#[test]
fn release_file_name_is_recorded_once() {
    let l = list();
    let names = vec![Ok("r".to_string()), Ok("r".to_string()), Ok("r".to_string()), Ok("r".to_string())];
    let mut ms = match MirrorSources::from_sourcelist(&l, names, None) {
        Ok(ms) => ms,
        Err(_) => panic!("expected groups"),
    };
    assert_eq!(ms.0.len(), 1);
    ms.0[0].set_release_file_name("InRelease".to_string());
    assert_eq!(ms.0[0].file_name(), Some("InRelease"));
    assert_eq!(ms.0[0].suite(), "stable");
}

#[test]
fn collect_sources_list_takes_the_entries_of_lines() {
    let mut res = vec![];
    let outcome = SourcesListOutcome::Parsed(SourceListType::SourceLine(vec![
        SourceLine::Comment("# c".to_string()),
        SourceLine::Entry(entry("https://a/$(ARCH)", "stable", &["main"])),
        SourceLine::Empty,
        SourceLine::Entry(entry("https://b", "stable", &["main"])),
    ]));
    assert!(matches!(collect_sources_list(&mut res, outcome, "riscv64"), SourcesListAction::Continue));
    assert_eq!(res.len(), 2);
    assert_eq!(res[0].url(), "https://a/riscv64");
    assert_eq!(res[1].url(), "https://b");
    let outcome = SourcesListOutcome::Parsed(SourceListType::Deb822(vec![entry("https://c", "s", &["m"])]));
    assert!(matches!(collect_sources_list(&mut res, outcome, "riscv64"), SourcesListAction::Continue));
    assert_eq!(res.len(), 3);
    assert_eq!(res[2].url(), "https://c");
}

#[test]
fn collect_sources_list_reports_unknown_files_and_stops_on_failure() {
    let mut res = vec![OmaSourceEntry::new(entry("https://a", "s", &["m"]), "amd64")];
    match collect_sources_list(&mut res, SourcesListOutcome::UnknownFile { path: "/etc/apt/x.bak".to_string() }, "amd64") {
        SourcesListAction::Notify(Event::SourceListFileNotSupport { path }) => assert_eq!(path, "/etc/apt/x.bak"),
        _ => panic!("expected a notification"),
    }
    assert!(matches!(collect_sources_list(&mut res, SourcesListOutcome::Failed, "amd64"), SourcesListAction::Abort));
    assert_eq!(res.len(), 1);
}
