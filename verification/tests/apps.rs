use atrium::apps::{
    app_from_manifest, catalogue_of, content_type, default_entry, resolve, sort_apps, valid_id, App, CatalogueEntry,
    ManifestFile, Problem,
};

fn manifest(id: &str, name: &str) -> ManifestFile {
    ManifestFile {
        id: id.into(),
        name: name.into(),
        description: String::new(),
        category: None,
        icon: Some("/icon.svg".into()),
        color: None,
        glyph: None,
        entry: default_entry(),
    }
}

#[test]
fn ids() {
    assert!(valid_id("org.peios.about"));
    assert!(valid_id("a-1"));
    assert!(!valid_id(""));
    assert!(!valid_id(".hidden"));
    assert!(!valid_id("-x"));
    assert!(!valid_id("x."));
    assert!(!valid_id("a..b"));
    assert!(!valid_id("Upper"));
    assert!(!valid_id("a/b"));
    assert!(valid_id(&"a".repeat(64)));
    assert!(!valid_id(&"a".repeat(65)));
}

#[test]
fn resolves_app_files() {
    assert_eq!(resolve("/apps/org.x/index.html"), Some(vec!["org.x".to_string(), "index.html".to_string()]));
    assert_eq!(resolve("/apps/org.x/img/a.png"), Some(vec!["org.x".to_string(), "img".to_string(), "a.png".to_string()]));
    assert_eq!(resolve("/apps/org.x/"), None);
    assert_eq!(resolve("/apps/org.x"), None);
    assert_eq!(resolve("/apps/../etc/passwd"), None);
    assert_eq!(resolve("/apps/org.x/../y"), None);
    assert_eq!(resolve("/apps/org.x/a//b"), None);
    assert_eq!(resolve("/apps/org.x/./b"), None);
    assert_eq!(resolve("/apps/org.x/a\\b"), None);
    assert_eq!(resolve("/other/org.x/a"), None);
}

#[test]
fn media_types() {
    assert_eq!(content_type("index.html"), "text/html; charset=utf-8");
    assert_eq!(content_type("a.b.css"), "text/css; charset=utf-8");
    assert_eq!(content_type("m.mjs"), "text/javascript; charset=utf-8");
    assert_eq!(content_type("x.woff2"), "font/woff2");
    assert_eq!(content_type("README.md"), "text/plain; charset=utf-8");
    assert_eq!(content_type(".html"), "application/octet-stream");
    assert_eq!(content_type("noext"), "application/octet-stream");
    assert_eq!(content_type("x.HTML"), "application/octet-stream");
    assert_eq!(content_type(".."), "application/octet-stream");
}

#[test]
fn manifests_become_apps() {
    let a = app_from_manifest("org.x", manifest("org.x", "X")).unwrap();
    assert_eq!(a.entry, "/apps/org.x/index.html");
    assert_eq!(a.icon.as_deref(), Some("/apps/org.x/icon.svg"));
    assert_eq!(a.name, "X");
    assert!(app_from_manifest("org.y", manifest("org.x", "X")).is_none());
}

#[test]
fn sorts_by_lowercased_name_stably() {
    let apps: Vec<App> = [("a", "beta"), ("b", "Alpha"), ("c", "alpha"), ("d", "Zed"), ("e", "ÉCLAIR"), ("f", "éclair")]
        .iter()
        .map(|(id, name)| app_from_manifest(id, manifest(id, name)).unwrap())
        .collect();
    let ids: Vec<String> = sort_apps(apps).into_iter().map(|a| a.id).collect();
    assert_eq!(ids, vec!["b", "c", "a", "d", "e", "f"]);
}

#[test]
fn catalogue_of_keeps_good_apps_and_reports_problems() {
    let entries = vec![
        CatalogueEntry { dir_id: Some("org.zeta".into()), manifest: Some(Ok(manifest("org.zeta", "zeta"))) },
        CatalogueEntry { dir_id: Some("org.bad".into()), manifest: Some(Err("expected `=`".into())) },
        CatalogueEntry { dir_id: None, manifest: None },
        CatalogueEntry { dir_id: Some("Org.Upper".into()), manifest: Some(Ok(manifest("Org.Upper", "Upper"))) },
        CatalogueEntry { dir_id: Some("org.other".into()), manifest: Some(Ok(manifest("org.elsewhere", "Other"))) },
        CatalogueEntry { dir_id: Some("org.empty".into()), manifest: None },
        CatalogueEntry { dir_id: Some("org.alpha".into()), manifest: Some(Ok(manifest("org.alpha", "Alpha"))) },
    ];
    let c = catalogue_of(entries);
    let ids: Vec<&str> = c.apps.iter().map(|a| a.id.as_str()).collect();
    assert_eq!(ids, vec!["org.alpha", "org.zeta"]);
    assert_eq!(c.apps[0].icon.as_deref(), Some("/apps/org.alpha/icon.svg"));
    assert_eq!(c.problems.len(), 2);
    match &c.problems[0] {
        Problem::Unparsable { dir_id, error } => assert_eq!((dir_id.as_str(), error.as_str()), ("org.bad", "expected `=`")),
        other => panic!("{other:?}"),
    }
    match &c.problems[1] {
        Problem::Mismatch { dir_id, claimed } => assert_eq!((dir_id.as_str(), claimed.as_str()), ("org.other", "org.elsewhere")),
        other => panic!("{other:?}"),
    }
}
