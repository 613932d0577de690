use manga_core::error::MangaError;
use manga_core::sites::{combine_search_results, route_for_chapters, route_for_images, supported_sites, MangaSite, SiteKind};

#[test]
fn registry_order() {
    assert_eq!(
        supported_sites(),
        vec![SiteKind::Spoilerplustv, SiteKind::MangaTopJp, SiteKind::Jmangaorg]
    );
}

#[test]
fn chapter_addresses() {
    assert!(SiteKind::Jmangaorg.can_handle_chapters("https://jmanga.org/read/one-piece/"));
    assert!(!SiteKind::Jmangaorg.can_handle_chapters("https://jmanga.org/read/one/piece/"));
    assert!(SiteKind::MangaTopJp.can_handle_chapters("https://mangatopjp.com/manga/abc/"));
    assert!(SiteKind::Spoilerplustv.can_handle_chapters("https://spoilerplus.tv/abc/"));
    assert!(SiteKind::RawkuroNet.can_handle_chapters("https://rawkuro.net/manga/abc"));
    assert!(!SiteKind::RawkuroNet.can_handle_chapters("https://rawkuro.net/manga/abc/"));
}

#[test]
fn image_addresses() {
    assert!(SiteKind::Jmangaorg
        .can_handle_images("https://jmanga.org/json/chapter?mode=vertical&id=123"));
    assert!(!SiteKind::Jmangaorg
        .can_handle_images("https://jmanga.org/json/chapter?mode=vertical&id=abc"));
    assert!(SiteKind::MangaTopJp.can_handle_images("https://mangatopjp.com/manga/abc/ch-1/"));
    assert!(SiteKind::Spoilerplustv.can_handle_images("https://spoilerplus.tv/abc/ch-1/"));
    assert!(SiteKind::RawkuroNet.can_handle_images("https://rawkuro.net/manga/abc/ch-1"));
}

#[test]
fn route_picks_the_handler() {
    let sites = supported_sites();
    assert_eq!(
        route_for_chapters(&sites, "https://mangatopjp.com/manga/abc/"),
        Some(SiteKind::MangaTopJp)
    );
    assert_eq!(
        route_for_images(&sites, "https://spoilerplus.tv/abc/ch-1/"),
        Some(SiteKind::Spoilerplustv)
    );
}

#[test]
fn route_without_handler_is_none() {
    let sites = supported_sites();
    assert_eq!(route_for_chapters(&sites, "https://example.com/manga/abc/"), None);
    assert_eq!(route_for_images(&sites, "https://example.com/abc/ch-1/"), None);
    assert_eq!(route_for_chapters(&sites, "https://rawkuro.net/manga/abc"), None);
}

#[test]
fn first_matching_source_wins() {
    let sites = vec![SiteKind::RawkuroNet, SiteKind::RawkuroNet];
    assert_eq!(
        route_for_chapters(&sites, "https://rawkuro.net/manga/abc"),
        Some(SiteKind::RawkuroNet)
    );
}

#[test]
fn names_and_headers() {
    assert_eq!(SiteKind::Jmangaorg.name(), "jmanga.org");
    assert_eq!(MangaSite::name(&SiteKind::RawkuroNet), "rawkuro.net");
    assert_eq!(
        SiteKind::Spoilerplustv.request_headers(),
        vec![("Referer".to_string(), "https://spoilerplus.tv/".to_string())]
    );
    assert!(SiteKind::MangaTopJp.request_headers().is_empty());
}

fn links(labels: &[&str]) -> Vec<manga_core::link::Link> {
    labels
        .iter()
        .map(|l| manga_core::link::Link::new(l.to_string(), format!("u-{}", l), None))
        .collect()
}

#[test]
fn search_keeps_source_order_and_skips_failures() {
    let results = vec![
        Ok(links(&["a", "b"])),
        Err(MangaError::NetworkError { msg: "down".to_string() }),
        Ok(links(&["c"])),
    ];
    let out = combine_search_results(&results).unwrap();
    let texts: Vec<String> = out.iter().map(|l| l.text.clone()).collect();
    assert_eq!(texts, vec!["a", "b", "c"]);
    assert_eq!(out[2].url, "u-c");
}

#[test]
fn search_fails_only_when_all_fail() {
    let results: Vec<Result<Vec<manga_core::link::Link>, MangaError>> = vec![
        Err(MangaError::NetworkError { msg: "first".to_string() }),
        Err(MangaError::ParseError { msg: "second".to_string() }),
    ];
    match combine_search_results(&results) {
        Err(MangaError::ParseError { msg }) => assert_eq!(msg, "second"),
        other => panic!("unexpected {:?}", other),
    }
    let empty: Vec<Result<Vec<manga_core::link::Link>, MangaError>> = vec![];
    assert!(combine_search_results(&empty).unwrap().is_empty());
    let one_empty = vec![Ok(vec![]), Err(MangaError::NetworkError { msg: "x".to_string() })];
    assert!(combine_search_results(&one_empty).unwrap().is_empty());
}
