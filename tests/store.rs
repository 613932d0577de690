use manga_core::error::MangaError;
use manga_core::link::Link;
use manga_core::sort_key::SORT_KEY_SCALE;
use manga_core::store::{ChapterDb, Db};

fn link(text: &str, url: &str) -> Link {
    Link::new(text.to_string(), url.to_string(), None)
}

fn labels(list: &[ChapterDb]) -> Vec<String> {
    list.iter().map(|c| c.title.clone()).collect()
}

#[test]
fn open_twice_keeps_id_and_moves_time_up() {
    let mut db = Db::new();
    let a = db.open_manga(&link("A", "https://x/a"), 100).unwrap();
    assert_eq!(a.created_at, 100);
    assert_eq!(a.updated_at, 100);
    let b = db.open_manga(&link("A renamed", "https://x/a"), 200).unwrap();
    assert_eq!(b.id, a.id);
    assert_eq!(b.updated_at, 200);
    assert_eq!(b.created_at, 100);
    assert_eq!(b.title, "A");
    let c = db.open_manga(&link("A", "https://x/a"), 150).unwrap();
    assert_eq!(c.id, a.id);
    assert_eq!(c.updated_at, 200);
    assert_eq!(db.list_manga().len(), 1);
}

#[test]
fn open_keeps_thumbnail() {
    let mut db = Db::new();
    let l = Link::new("T".to_string(), "u".to_string(), Some("img".to_string()));
    let t = db.open_manga(&l, 1).unwrap();
    assert_eq!(t.image, Some("img".to_string()));
    assert_eq!(db.find_manga_by_url(&"u".to_string()).unwrap().id, t.id);
    assert_eq!(db.find_manga(t.id).unwrap().url, "u");
    assert!(db.find_manga(t.id + 1).is_none());
}

#[test]
fn titles_most_recent_first() {
    let mut db = Db::new();
    let a = db.open_manga(&link("A", "a"), 10).unwrap();
    let b = db.open_manga(&link("B", "b"), 20).unwrap();
    let c = db.open_manga(&link("C", "c"), 20).unwrap();
    let ids: Vec<i64> = db.list_manga().iter().map(|t| t.id).collect();
    assert_eq!(ids, vec![b.id, c.id, a.id]);
    db.update_manga_time(a.id, 30);
    let ids: Vec<i64> = db.list_manga().iter().map(|t| t.id).collect();
    assert_eq!(ids, vec![a.id, b.id, c.id]);
}

#[test]
fn end_to_end_refresh_example() {
    let mut db = Db::new();
    let t = db.open_manga(&link("Title", "A"), 1).unwrap();
    db.reconcile_chapters(t.id, &vec![link("1", "x1"), link("2", "x2")], 2).unwrap();
    let list = db.get_chapters(t.id);
    assert_eq!(labels(&list), vec!["2", "1"]);
    assert_eq!(list[0].title_number, 2 * SORT_KEY_SCALE);
    assert_eq!(list[1].title_number, SORT_KEY_SCALE);
    db.reconcile_chapters(t.id, &vec![link("2", "x2-new"), link("3", "x3")], 3).unwrap();
    let list = db.get_chapters(t.id);
    assert_eq!(labels(&list), vec!["3", "2", "1"]);
    assert_eq!(list[1].url, "x2-new");
    assert_eq!(list[2].url, "x1");
    assert_eq!(list[2].updated_at, 2);
}

#[test]
fn reconcile_twice_adds_nothing() {
    let mut db = Db::new();
    let t = db.open_manga(&link("Title", "A"), 1).unwrap();
    let fresh = vec![link("Ch 1", "u1"), link("Ch 2", "u2")];
    db.reconcile_chapters(t.id, &fresh, 5).unwrap();
    let first = db.get_chapters(t.id);
    db.mark_chapter_read(first[0].id, true, 6);
    db.reconcile_chapters(t.id, &fresh, 7).unwrap();
    let second = db.get_chapters(t.id);
    assert_eq!(second.len(), 2);
    for (a, b) in first.iter().zip(second.iter()) {
        assert_eq!(a.id, b.id);
        assert_eq!(a.created_at, b.created_at);
        assert_eq!(b.updated_at, 7);
    }
    assert!(second[0].is_read);
    assert!(!second[1].is_read);
}

#[test]
fn changed_address_keeps_read_flag() {
    let mut db = Db::new();
    let t = db.open_manga(&link("Title", "A"), 1).unwrap();
    db.reconcile_chapters(t.id, &vec![link("Ch 5", "old")], 2).unwrap();
    let c = db.find_chapter_by_title(t.id, &"Ch 5".to_string()).unwrap();
    db.mark_chapter_read(c.id, true, 3);
    db.reconcile_chapters(t.id, &vec![link("Ch 5", "new")], 4).unwrap();
    let d = db.find_chapter(c.id).unwrap();
    assert!(d.is_read);
    assert_eq!(d.url, "new");
    assert_eq!(d.created_at, 2);
    assert_eq!(d.updated_at, 4);
    assert_eq!(d.title_number, c.title_number);
}

#[test]
fn malformed_label_fails_whole_merge() {
    let mut db = Db::new();
    let t = db.open_manga(&link("Title", "A"), 1).unwrap();
    let r = db.reconcile_chapters(t.id, &vec![link("Ch 1", "u1"), link("Extra", "u2")], 2);
    match r {
        Err(MangaError::MalformedChapterLabel { label }) => assert_eq!(label, "Extra"),
        other => panic!("unexpected {:?}", other),
    }
    assert!(db.get_chapters(t.id).is_empty());
}

#[test]
fn chapters_missing_from_fetch_stay() {
    let mut db = Db::new();
    let t = db.open_manga(&link("Title", "A"), 1).unwrap();
    db.reconcile_chapters(t.id, &vec![link("1", "u1"), link("2", "u2")], 2).unwrap();
    db.reconcile_chapters(t.id, &vec![], 3).unwrap();
    assert_eq!(db.get_chapters(t.id).len(), 2);
}

#[test]
fn equal_keys_order_by_id() {
    let mut db = Db::new();
    let t = db.open_manga(&link("Title", "A"), 1).unwrap();
    db.reconcile_chapters(t.id, &vec![link("Ch 3 part b", "b"), link("Ch 3 part a", "a"), link("Ch 10", "c")], 2)
        .unwrap();
    let list = db.get_chapters(t.id);
    assert_eq!(labels(&list), vec!["Ch 10", "Ch 3 part b", "Ch 3 part a"]);
    assert!(list[1].id < list[2].id);
}

#[test]
fn repeated_label_in_one_fetch() {
    let mut db = Db::new();
    let t = db.open_manga(&link("Title", "A"), 1).unwrap();
    db.reconcile_chapters(t.id, &vec![link("1", "first"), link("1", "second")], 2).unwrap();
    let list = db.get_chapters(t.id);
    assert_eq!(list.len(), 1);
    assert_eq!(list[0].url, "second");
}

#[test]
fn chapters_are_per_title() {
    let mut db = Db::new();
    let a = db.open_manga(&link("A", "a"), 1).unwrap();
    let b = db.open_manga(&link("B", "b"), 1).unwrap();
    db.reconcile_chapters(a.id, &vec![link("1", "a1")], 2).unwrap();
    db.reconcile_chapters(b.id, &vec![link("1", "b1"), link("2", "b2")], 2).unwrap();
    assert_eq!(db.get_chapters(a.id).len(), 1);
    assert_eq!(db.get_chapters(b.id).len(), 2);
    assert_eq!(db.find_chapter_by_title(b.id, &"1".to_string()).unwrap().url, "b1");
}

#[test]
fn delete_removes_title_and_chapters() {
    let mut db = Db::new();
    let a = db.open_manga(&link("A", "a"), 1).unwrap();
    let b = db.open_manga(&link("B", "b"), 1).unwrap();
    db.reconcile_chapters(a.id, &vec![link("1", "a1")], 2).unwrap();
    db.reconcile_chapters(b.id, &vec![link("1", "b1")], 2).unwrap();
    db.delete_manga(a.id);
    assert!(db.find_manga(a.id).is_none());
    assert!(db.get_chapters(a.id).is_empty());
    assert_eq!(db.get_chapters(b.id).len(), 1);
    assert_eq!(db.list_manga().len(), 1);
    let again = db.open_manga(&link("A", "a"), 3).unwrap();
    assert!(again.id > b.id);
}

#[test]
fn mark_unknown_chapter_changes_nothing() {
    let mut db = Db::new();
    let t = db.open_manga(&link("Title", "A"), 1).unwrap();
    db.reconcile_chapters(t.id, &vec![link("1", "u")], 2).unwrap();
    db.mark_chapter_read(999, true, 3);
    assert!(!db.get_chapters(t.id)[0].is_read);
}
