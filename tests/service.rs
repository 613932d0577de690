use manga_core::error::MangaError;
use manga_core::link::Link;
use manga_core::service::{Config, Manga};
use manga_core::sites::SiteKind;

const TITLE_URL: &str = "https://spoilerplus.tv/some-title/";

fn link(text: &str, url: &str) -> Link {
    Link::new(text.to_string(), url.to_string(), None)
}

#[test]
fn default_config() {
    assert_eq!(Config::default().database_url, "sqlite://database.db");
}

#[test]
fn refresh_without_handler() {
    let m = Manga::new();
    match m.plan_refresh(&"https://example.com/x/".to_string()) {
        Err(MangaError::NoHandlerForAddress { url }) => assert_eq!(url, "https://example.com/x/"),
        other => panic!("unexpected {:?}", other),
    }
}

#[test]
fn refresh_of_unknown_title() {
    let m = Manga::new();
    match m.plan_refresh(&TITLE_URL.to_string()) {
        Err(MangaError::UnknownTitle { url }) => assert_eq!(url, TITLE_URL),
        other => panic!("unexpected {:?}", other),
    }
    let mut m = Manga::new();
    let r = m.apply_refresh(&TITLE_URL.to_string(), Ok(vec![link("1", "x1")]), 1);
    assert!(matches!(r, Err(MangaError::UnknownTitle { .. })));
}

#[test]
fn refresh_round() {
    let mut m = Manga::new();
    let t = m.open_manga(&link("Some title", TITLE_URL), 1).unwrap();
    let plan = m.plan_refresh(&TITLE_URL.to_string()).unwrap();
    assert_eq!(plan.site, SiteKind::Spoilerplustv);
    assert_eq!(plan.manga, t.id);
    let list = m
        .apply_refresh(&TITLE_URL.to_string(), Ok(vec![link("1", "x1"), link("2", "x2")]), 2)
        .unwrap();
    let labels: Vec<String> = list.iter().map(|c| c.title.clone()).collect();
    assert_eq!(labels, vec!["2", "1"]);
    let cached = m.get_chapters_cache(&TITLE_URL.to_string());
    assert_eq!(cached.len(), 2);
    m.mark_chapter_read(cached[1].id, true, 3);
    assert!(m.get_chapter(cached[1].id).unwrap().is_read);
}

#[test]
fn failed_fetch_is_passed_on() {
    let mut m = Manga::new();
    m.open_manga(&link("Some title", TITLE_URL), 1).unwrap();
    let r = m.apply_refresh(
        &TITLE_URL.to_string(),
        Err(MangaError::NetworkError { msg: "down".to_string() }),
        2,
    );
    match r {
        Err(MangaError::NetworkError { msg }) => assert_eq!(msg, "down"),
        other => panic!("unexpected {:?}", other),
    }
    let r = m.apply_refresh(
        &TITLE_URL.to_string(),
        Err(MangaError::ParseError { msg: "bad".to_string() }),
        2,
    );
    assert!(matches!(r, Err(MangaError::ParseError { .. })));
    assert!(m.get_chapters_cache(&TITLE_URL.to_string()).is_empty());
}

#[test]
fn malformed_refresh_changes_nothing() {
    let mut m = Manga::new();
    m.open_manga(&link("Some title", TITLE_URL), 1).unwrap();
    m.apply_refresh(&TITLE_URL.to_string(), Ok(vec![link("1", "x1")]), 2).unwrap();
    let r = m.apply_refresh(&TITLE_URL.to_string(), Ok(vec![link("2", "x2"), link("Notice", "n")]), 3);
    assert!(matches!(r, Err(MangaError::MalformedChapterLabel { .. })));
    assert_eq!(m.get_chapters_cache(&TITLE_URL.to_string()).len(), 1);
}

#[test]
fn cache_of_unknown_title_is_empty() {
    let m = Manga::new();
    assert!(m.get_chapters_cache(&"nowhere".to_string()).is_empty());
}

#[test]
fn images_routing() {
    let m = Manga::new();
    assert_eq!(
        m.get_site(&"https://mangatopjp.com/manga/abc/ch-1/".to_string()),
        Some(SiteKind::MangaTopJp)
    );
    assert!(matches!(
        m.plan_images(&"https://example.com/".to_string()),
        Err(MangaError::NoHandlerForAddress { .. })
    ));
    assert_eq!(m.supported_sites().len(), 3);
}

#[test]
fn delete_and_reopen_by_id() {
    let mut m = Manga::new();
    let t = m.open_manga(&link("Some title", TITLE_URL), 1).unwrap();
    m.open_manga_with_id(t.id, 5);
    assert_eq!(m.get_manga(t.id).unwrap().updated_at, 5);
    assert_eq!(m.list_manga().len(), 1);
    m.delete_manga(t.id);
    assert!(m.get_manga(t.id).is_none());
}

#[test]
fn other_error_kinds_exist() {
    let e = MangaError::MigrateError { msg: "pending".to_string() };
    assert!(matches!(e, MangaError::MigrateError { .. }));
    let e = MangaError::InternalError { msg: "x".to_string() };
    assert!(matches!(e, MangaError::InternalError { .. }));
}
