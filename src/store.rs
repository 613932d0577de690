//! The durable record: titles the user has added and their chapters, with
//! the merge of freshly fetched chapter listings.
//!
//! Ids are handed out in increasing order and never reused. Timestamps are
//! whole seconds given by the caller.

use crate::error::MangaError;
use crate::link::{copy_opt, links_view, opt_view, Link, LinkView};
use crate::sort_key::{has_no_digit, label_sort_key, sort_key_of_label};
use vstd::prelude::*;

verus! {

/// A title the user has added.
#[derive(Debug)]
pub struct MangaDb {
    pub id: i64,
    pub title: String,
    pub url: String,
    pub image: Option<String>,
    pub created_at: i64,
    pub updated_at: i64,
}

pub struct TitleView {
    pub id: int,
    pub title: Seq<char>,
    pub url: Seq<char>,
    pub image: Option<Seq<char>>,
    pub created_at: int,
    pub updated_at: int,
}

impl View for MangaDb {
    type V = TitleView;

    open spec fn view(&self) -> TitleView {
        TitleView {
            id: self.id as int,
            title: self.title@,
            url: self.url@,
            image: opt_view(self.image),
            created_at: self.created_at as int,
            updated_at: self.updated_at as int,
        }
    }
}

impl MangaDb {
    pub fn copy(&self) -> (r: MangaDb)
        ensures
            r@ == self@,
    {
        MangaDb {
            id: self.id,
            title: self.title.clone(),
            url: self.url.clone(),
            image: copy_opt(&self.image),
            created_at: self.created_at,
            updated_at: self.updated_at,
        }
    }
}

/// A chapter of a title. `title_number` is the sort key of its label.
#[derive(Debug)]
pub struct ChapterDb {
    pub id: i64,
    pub manga: i64,
    pub title: String,
    pub title_number: u128,
    pub url: String,
    pub is_read: bool,
    pub created_at: i64,
    pub updated_at: i64,
}

pub struct ChapterView {
    pub id: int,
    pub manga: int,
    pub title: Seq<char>,
    pub title_number: int,
    pub url: Seq<char>,
    pub is_read: bool,
    pub created_at: int,
    pub updated_at: int,
}

impl View for ChapterDb {
    type V = ChapterView;

    open spec fn view(&self) -> ChapterView {
        ChapterView {
            id: self.id as int,
            manga: self.manga as int,
            title: self.title@,
            title_number: self.title_number as int,
            url: self.url@,
            is_read: self.is_read,
            created_at: self.created_at as int,
            updated_at: self.updated_at as int,
        }
    }
}

impl ChapterDb {
    pub fn copy(&self) -> (r: ChapterDb)
        ensures
            r@ == self@,
    {
        ChapterDb {
            id: self.id,
            manga: self.manga,
            title: self.title.clone(),
            title_number: self.title_number,
            url: self.url.clone(),
            is_read: self.is_read,
            created_at: self.created_at,
            updated_at: self.updated_at,
        }
    }
}

/// The index of the first element of `s` that satisfies `p`.
pub open spec fn first_index<A>(s: Seq<A>, p: spec_fn(A) -> bool) -> Option<int>
    decreases s.len(),
{
    if s.len() == 0 {
        None
    } else {
        match first_index(s.drop_last(), p) {
            Some(i) => Some(i),
            None => if p(s.last()) {
                Some(s.len() - 1)
            } else {
                None
            },
        }
    }
}

proof fn lemma_first_index_none_prefix<A>(s: Seq<A>, p: spec_fn(A) -> bool, i: int)
    requires
        0 <= i <= s.len(),
        forall|j: int| 0 <= j < i ==> !p(#[trigger] s[j]),
    ensures
        first_index(s.take(i), p) is None,
    decreases i,
{
    if i > 0 {
        lemma_first_index_none_prefix(s, p, i - 1);
        assert(s.take(i).drop_last() =~= s.take(i - 1));
    }
}

proof fn lemma_first_index_some_extend<A>(s: Seq<A>, p: spec_fn(A) -> bool, i: int)
    requires
        0 < i <= s.len(),
        first_index(s.take(i), p) is Some,
    ensures
        first_index(s, p) == first_index(s.take(i), p),
    decreases s.len() - i,
{
    if i < s.len() {
        assert(s.take(i + 1).drop_last() =~= s.take(i));
        lemma_first_index_some_extend(s, p, i + 1);
    } else {
        assert(s.take(i) =~= s);
    }
}

/// A linear search that stops at `i` determines `first_index`.
pub proof fn lemma_first_index_at<A>(s: Seq<A>, p: spec_fn(A) -> bool, i: int)
    requires
        0 <= i <= s.len(),
        forall|j: int| 0 <= j < i ==> !p(#[trigger] s[j]),
        i < s.len() ==> p(s[i]),
    ensures
        first_index(s, p) == (if i < s.len() { Some(i) } else { None::<int> }),
{
    lemma_first_index_none_prefix(s, p, i);
    if i < s.len() {
        assert(s.take(i + 1).drop_last() =~= s.take(i));
        lemma_first_index_some_extend(s, p, i + 1);
    } else {
        assert(s.take(i) =~= s);
    }
}

/// `first_index` finds an element exactly when one satisfies `p`.
pub proof fn lemma_first_index_spec<A>(s: Seq<A>, p: spec_fn(A) -> bool)
    ensures
        first_index(s, p) matches Some(i) ==> 0 <= i < s.len() && p(s[i]) && forall|j: int|
            0 <= j < i ==> !p(#[trigger] s[j]),
        first_index(s, p) is None ==> forall|j: int| 0 <= j < s.len() ==> !p(#[trigger] s[j]),
    decreases s.len(),
{
    if s.len() > 0 {
        lemma_first_index_spec(s.drop_last(), p);
        assert forall|j: int| 0 <= j < s.len() - 1 implies s.drop_last()[j] == s[j] by {}
    }
}

pub struct DbView {
    pub titles: Seq<TitleView>,
    pub chapters: Seq<ChapterView>,
    pub next_title_id: int,
    pub next_chapter_id: int,
}

/// The in-memory record of titles and chapters.
#[derive(Debug)]
pub struct Db {
    titles: Vec<MangaDb>,
    chapters: Vec<ChapterDb>,
    next_title_id: i64,
    next_chapter_id: i64,
}

impl View for Db {
    type V = DbView;

    closed spec fn view(&self) -> DbView {
        DbView {
            titles: self.titles@.map_values(|t: MangaDb| t@),
            chapters: self.chapters@.map_values(|c: ChapterDb| c@),
            next_title_id: self.next_title_id as int,
            next_chapter_id: self.next_chapter_id as int,
        }
    }
}

pub open spec fn url_is(url: Seq<char>) -> spec_fn(TitleView) -> bool {
    |t: TitleView| t.url == url
}

pub open spec fn title_id_is(id: int) -> spec_fn(TitleView) -> bool {
    |t: TitleView| t.id == id
}

pub open spec fn chapter_id_is(id: int) -> spec_fn(ChapterView) -> bool {
    |c: ChapterView| c.id == id
}

pub open spec fn chapter_label_is(manga: int, label: Seq<char>) -> spec_fn(ChapterView) -> bool {
    |c: ChapterView| c.manga == manga && c.title == label
}

pub open spec fn title_exists(titles: Seq<TitleView>, id: int) -> bool {
    exists|i: int| 0 <= i < titles.len() && #[trigger] titles[i].id == id
}

impl DbView {
    /// The record's invariant: ids increase along each table and stay below
    /// the next id to hand out, addresses of titles and labels of chapters
    /// within a title are unique, every chapter belongs to a title, and its
    /// sort key is that of its label.
    pub open spec fn wf(self) -> bool {
        &&& 1 <= self.next_title_id <= i64::MAX
        &&& 1 <= self.next_chapter_id <= i64::MAX
        &&& forall|i: int, j: int|
            0 <= i < j < self.titles.len() ==> self.titles[i].id < self.titles[j].id
        &&& forall|i: int|
            0 <= i < self.titles.len() ==> 1 <= #[trigger] self.titles[i].id < self.next_title_id
        &&& forall|i: int, j: int|
            0 <= i < j < self.titles.len() ==> self.titles[i].url != self.titles[j].url
        &&& forall|i: int, j: int|
            0 <= i < j < self.chapters.len() ==> self.chapters[i].id < self.chapters[j].id
        &&& forall|i: int|
            0 <= i < self.chapters.len() ==> 1 <= #[trigger] self.chapters[i].id
                < self.next_chapter_id
        &&& forall|i: int, j: int|
            0 <= i < j < self.chapters.len() ==> !(self.chapters[i].manga
                == self.chapters[j].manga && self.chapters[i].title == self.chapters[j].title)
        &&& forall|i: int|
            0 <= i < self.chapters.len() ==> self.has_title(#[trigger] self.chapters[i].manga)
        &&& forall|i: int|
            0 <= i < self.chapters.len() ==> label_sort_key(#[trigger] self.chapters[i].title)
                == Some(self.chapters[i].title_number as u128)
    }

    pub open spec fn has_title(self, id: int) -> bool {
        title_exists(self.titles, id)
    }
}

pub open spec fn max(a: int, b: int) -> int {
    if a >= b {
        a
    } else {
        b
    }
}

/// Opening a link: the title with the link's address gets its `updated_at`
/// moved up to `now` (never back); with no such title, a new one is made
/// with the next id and `created_at == updated_at == now`. None when ids are
/// used up.
pub open spec fn open_title(db: DbView, link: LinkView, now: int) -> (DbView, Option<TitleView>) {
    match first_index(db.titles, url_is(link.url)) {
        Some(i) => {
            let t = TitleView { updated_at: max(db.titles[i].updated_at, now), ..db.titles[i] };
            (DbView { titles: db.titles.update(i, t), ..db }, Some(t))
        },
        None => if db.next_title_id < i64::MAX {
            let t = TitleView {
                id: db.next_title_id,
                title: link.text,
                url: link.url,
                image: link.image,
                created_at: now,
                updated_at: now,
            };
            (
                DbView { titles: db.titles.push(t), next_title_id: db.next_title_id + 1, ..db },
                Some(t),
            )
        } else {
            (db, None)
        },
    }
}

/// Opening a link twice keeps the title's id, and its `updated_at` does not
/// go back.
pub proof fn lemma_open_twice(db: DbView, a: LinkView, b: LinkView, now1: int, now2: int)
    requires
        a.url == b.url,
    ensures
        open_title(db, a, now1).1 matches Some(t1) ==> open_title(open_title(db, a, now1).0, b, now2).1
            matches Some(t2) && t2.id == t1.id && t2.updated_at >= t1.updated_at,
{
    let (d1, r1) = open_title(db, a, now1);
    if r1 is Some {
        let t1 = r1->0;
        lemma_first_index_spec(db.titles, url_is(a.url));
        let i = match first_index(db.titles, url_is(a.url)) {
            Some(i) => i,
            None => db.titles.len() as int,
        };
        assert(d1.titles[i] == t1);
        assert(url_is(b.url)(d1.titles[i]));
        lemma_first_index_spec(d1.titles, url_is(b.url));
        let j = first_index(d1.titles, url_is(b.url))->0;
        if j < i {
            assert(d1.titles[j] == db.titles[j]);
        }
    }
}

/// A chapter made for a label seen for the first time.
pub open spec fn new_chapter(db: DbView, manga: int, link: LinkView, now: int) -> ChapterView {
    ChapterView {
        id: db.next_chapter_id,
        manga,
        title: link.text,
        title_number: label_sort_key(link.text)->0 as int,
        url: link.url,
        is_read: false,
        created_at: now,
        updated_at: now,
    }
}

/// Merging one fresh link into title `manga`: a chapter with the same label
/// gets the link's address and `updated_at == now`, nothing else of it
/// changes; with no such chapter, a new unread one is added.
pub open spec fn merge_one(db: DbView, manga: int, link: LinkView, now: int) -> DbView {
    match first_index(db.chapters, chapter_label_is(manga, link.text)) {
        Some(i) => DbView {
            chapters: db.chapters.update(
                i,
                ChapterView { url: link.url, updated_at: now, ..db.chapters[i] },
            ),
            ..db
        },
        None => DbView {
            chapters: db.chapters.push(new_chapter(db, manga, link, now)),
            next_chapter_id: db.next_chapter_id + 1,
            ..db
        },
    }
}

/// Merging fresh links one after the other, in their order.
pub open spec fn merge_all(db: DbView, manga: int, links: Seq<LinkView>, now: int) -> DbView
    decreases links.len(),
{
    if links.len() == 0 {
        db
    } else {
        merge_one(merge_all(db, manga, links.drop_last(), now), manga, links.last(), now)
    }
}

pub open spec fn is_malformed() -> spec_fn(LinkView) -> bool {
    |l: LinkView| label_sort_key(l.text) is None
}

/// Whether merging `count` new links would use up the chapter ids.
pub open spec fn ids_exhausted(db: DbView, count: int) -> bool {
    db.next_chapter_id + count > i64::MAX
}

proof fn lemma_merge_one_wf(db: DbView, manga: int, link: LinkView, now: int)
    requires
        db.wf(),
        db.has_title(manga),
        label_sort_key(link.text) is Some,
        db.next_chapter_id < i64::MAX,
    ensures
        merge_one(db, manga, link, now).wf(),
        merge_one(db, manga, link, now).titles == db.titles,
        merge_one(db, manga, link, now).next_chapter_id <= db.next_chapter_id + 1,
{
    let d = merge_one(db, manga, link, now);
    lemma_first_index_spec(db.chapters, chapter_label_is(manga, link.text));
    assert forall|k: int| 0 <= k < d.chapters.len() implies d.has_title(
        #[trigger] d.chapters[k].manga,
    ) by {
        if k < db.chapters.len() {
            assert(d.chapters[k].manga == db.chapters[k].manga);
            assert(db.has_title(db.chapters[k].manga));
        }
    }
}

/// `b` is `a` with at most its address and `updated_at` changed.
pub open spec fn same_but_address(a: ChapterView, b: ChapterView) -> bool {
    b == ChapterView { url: b.url, updated_at: b.updated_at, ..a }
}

proof fn lemma_merge_one_keeps(db: DbView, manga: int, link: LinkView, now: int)
    ensures
        merge_one(db, manga, link, now).titles == db.titles,
        merge_one(db, manga, link, now).chapters.len() >= db.chapters.len(),
        forall|i: int|
            0 <= i < db.chapters.len() ==> same_but_address(
                db.chapters[i],
                #[trigger] merge_one(db, manga, link, now).chapters[i],
            ),
        first_index(merge_one(db, manga, link, now).chapters, chapter_label_is(manga, link.text))
            is Some,
{
    let p = chapter_label_is(manga, link.text);
    let d = merge_one(db, manga, link, now);
    lemma_first_index_spec(db.chapters, p);
    lemma_first_index_spec(d.chapters, p);
    match first_index(db.chapters, p) {
        Some(i) => {
            assert(p(d.chapters[i]));
        },
        None => {
            assert(p(d.chapters[db.chapters.len() as int]));
        },
    }
}

/// Merging never removes a chapter, and of the chapters already there it
/// changes at most the address and `updated_at`: read flags, creation times
/// and sort keys stay as they were. Titles are not touched.
pub proof fn lemma_merge_keeps_user_state(db: DbView, manga: int, links: Seq<LinkView>, now: int)
    ensures
        merge_all(db, manga, links, now).titles == db.titles,
        merge_all(db, manga, links, now).chapters.len() >= db.chapters.len(),
        forall|i: int|
            0 <= i < db.chapters.len() ==> same_but_address(
                db.chapters[i],
                #[trigger] merge_all(db, manga, links, now).chapters[i],
            ),
    decreases links.len(),
{
    if links.len() > 0 {
        lemma_merge_keeps_user_state(db, manga, links.drop_last(), now);
        let d0 = merge_all(db, manga, links.drop_last(), now);
        lemma_merge_one_keeps(d0, manga, links.last(), now);
        assert forall|i: int| 0 <= i < db.chapters.len() implies same_but_address(
            db.chapters[i],
            #[trigger] merge_all(db, manga, links, now).chapters[i],
        ) by {
            assert(same_but_address(db.chapters[i], d0.chapters[i]));
        }
    }
}

/// After a merge, every merged label has a chapter under the title.
proof fn lemma_merge_all_present(db: DbView, manga: int, links: Seq<LinkView>, now: int)
    ensures
        forall|k: int|
            0 <= k < links.len() ==> first_index(
                merge_all(db, manga, links, now).chapters,
                chapter_label_is(manga, #[trigger] links[k].text),
            ) is Some,
    decreases links.len(),
{
    if links.len() > 0 {
        let front = links.drop_last();
        lemma_merge_all_present(db, manga, front, now);
        let d0 = merge_all(db, manga, front, now);
        let d = merge_all(db, manga, links, now);
        lemma_merge_one_keeps(d0, manga, links.last(), now);
        assert forall|k: int| 0 <= k < links.len() implies first_index(
            d.chapters,
            chapter_label_is(manga, #[trigger] links[k].text),
        ) is Some by {
            if k < links.len() - 1 {
                let p = chapter_label_is(manga, links[k].text);
                assert(front[k] == links[k]);
                lemma_first_index_spec(d0.chapters, p);
                let i = first_index(d0.chapters, p)->0;
                assert(same_but_address(d0.chapters[i], d.chapters[i]));
                assert(p(d.chapters[i]));
                lemma_first_index_spec(d.chapters, p);
            }
        }
    }
}

/// Merging links whose labels are all present already adds no chapter and
/// changes only addresses and `updated_at`.
proof fn lemma_merge_over_present(db: DbView, manga: int, links: Seq<LinkView>, now: int)
    requires
        forall|k: int|
            0 <= k < links.len() ==> first_index(
                db.chapters,
                chapter_label_is(manga, #[trigger] links[k].text),
            ) is Some,
    ensures
        merge_all(db, manga, links, now).chapters.len() == db.chapters.len(),
        merge_all(db, manga, links, now).next_chapter_id == db.next_chapter_id,
        merge_all(db, manga, links, now).titles == db.titles,
        forall|i: int|
            0 <= i < db.chapters.len() ==> same_but_address(
                db.chapters[i],
                #[trigger] merge_all(db, manga, links, now).chapters[i],
            ),
    decreases links.len(),
{
    if links.len() > 0 {
        let front = links.drop_last();
        assert forall|k: int| 0 <= k < front.len() implies first_index(
            db.chapters,
            chapter_label_is(manga, #[trigger] front[k].text),
        ) is Some by {
            assert(front[k] == links[k]);
        }
        lemma_merge_over_present(db, manga, front, now);
        let d0 = merge_all(db, manga, front, now);
        let link = links.last();
        let p = chapter_label_is(manga, link.text);
        assert(first_index(db.chapters, p) is Some);
        lemma_first_index_spec(db.chapters, p);
        let i = first_index(db.chapters, p)->0;
        assert(same_but_address(db.chapters[i], d0.chapters[i]));
        assert(p(d0.chapters[i]));
        lemma_first_index_spec(d0.chapters, p);
        let d = merge_all(db, manga, links, now);
        assert forall|j: int| 0 <= j < db.chapters.len() implies same_but_address(
            db.chapters[j],
            #[trigger] d.chapters[j],
        ) by {
            assert(same_but_address(db.chapters[j], d0.chapters[j]));
        }
    }
}

/// Merging the same links a second time adds no chapter and changes no read
/// flag, creation time, label or sort key: only addresses and `updated_at`.
pub proof fn lemma_merge_idempotent(
    db: DbView,
    manga: int,
    links: Seq<LinkView>,
    now1: int,
    now2: int,
)
    ensures
        ({
            let d1 = merge_all(db, manga, links, now1);
            let d2 = merge_all(d1, manga, links, now2);
            &&& d2.chapters.len() == d1.chapters.len()
            &&& d2.next_chapter_id == d1.next_chapter_id
            &&& d2.titles == d1.titles
            &&& forall|i: int|
                0 <= i < d1.chapters.len() ==> same_but_address(d1.chapters[i], #[trigger] d2.chapters[i])
        }),
{
    lemma_merge_all_present(db, manga, links, now1);
    lemma_merge_over_present(merge_all(db, manga, links, now1), manga, links, now2);
}

/// When a chapter's label comes once among the fresh links, the merge points
/// the chapter at that link's address and sets `updated_at`; its read flag,
/// creation time and sort key are kept.
pub proof fn lemma_merge_moves_address(
    db: DbView,
    manga: int,
    links: Seq<LinkView>,
    now: int,
    i: int,
    k: int,
)
    requires
        db.wf(),
        0 <= i < db.chapters.len(),
        0 <= k < links.len(),
        db.chapters[i].manga == manga,
        db.chapters[i].title == links[k].text,
        forall|j: int| 0 <= j < links.len() && j != k ==> #[trigger] links[j].text != links[k].text,
    ensures
        merge_all(db, manga, links, now).chapters[i] == (ChapterView {
            url: links[k].url,
            updated_at: now,
            ..db.chapters[i]
        }),
    decreases links.len(),
{
    let front = links.drop_last();
    let d0 = merge_all(db, manga, front, now);
    let link = links.last();
    let p = chapter_label_is(manga, link.text);
    lemma_merge_keeps_user_state(db, manga, front, now);
    lemma_first_index_spec(d0.chapters, p);
    if k < links.len() - 1 {
        assert forall|j: int| 0 <= j < front.len() && j != k implies #[trigger] front[j].text
            != front[k].text by {
            assert(front[j] == links[j]);
        }
        lemma_merge_moves_address(db, manga, front, now, i, k);
        assert(link.text != links[k].text);
        assert(!p(d0.chapters[i]));
    } else {
        lemma_merge_untouched(db, manga, front, now, i);
        assert(p(d0.chapters[i]));
        assert forall|j: int| 0 <= j < i implies !p(#[trigger] d0.chapters[j]) by {
            assert(same_but_address(db.chapters[j], d0.chapters[j]));
        }
    }
}

/// A chapter whose label is not among the links is left as it was.
proof fn lemma_merge_untouched(db: DbView, manga: int, links: Seq<LinkView>, now: int, i: int)
    requires
        0 <= i < db.chapters.len(),
        forall|j: int|
            0 <= j < links.len() ==> !chapter_label_is(manga, #[trigger] links[j].text)(
                db.chapters[i],
            ),
    ensures
        merge_all(db, manga, links, now).chapters[i] == db.chapters[i],
    decreases links.len(),
{
    if links.len() > 0 {
        let front = links.drop_last();
        assert forall|j: int| 0 <= j < front.len() implies !chapter_label_is(
            manga,
            #[trigger] front[j].text,
        )(db.chapters[i]) by {
            assert(front[j] == links[j]);
        }
        lemma_merge_untouched(db, manga, front, now, i);
        let d0 = merge_all(db, manga, front, now);
        lemma_merge_keeps_user_state(db, manga, front, now);
        assert(!chapter_label_is(manga, links.last().text)(d0.chapters[i]));
        lemma_first_index_spec(d0.chapters, chapter_label_is(manga, links.last().text));
    }
}

pub open spec fn chapters_view(s: Seq<ChapterDb>) -> Seq<ChapterView> {
    s.map_values(|c: ChapterDb| c@)
}

pub open spec fn titles_view(s: Seq<MangaDb>) -> Seq<TitleView> {
    s.map_values(|t: MangaDb| t@)
}

/// Listing order of chapters: higher sort key first, then lower id.
pub open spec fn chapter_before(a: ChapterView, b: ChapterView) -> bool {
    a.title_number > b.title_number || (a.title_number == b.title_number && a.id <= b.id)
}

pub open spec fn chapters_sorted(s: Seq<ChapterView>) -> bool {
    forall|i: int, j: int| 0 <= i < j < s.len() ==> chapter_before(s[i], s[j])
}

pub open spec fn belongs_to(manga: int) -> spec_fn(ChapterView) -> bool {
    |c: ChapterView| c.manga == manga
}

/// The chapters of title `manga`, in the record's order.
pub open spec fn chapters_of(db: DbView, manga: int) -> Seq<ChapterView> {
    db.chapters.filter(belongs_to(manga))
}

/// Listing order of titles: most recently opened first, then lower id.
pub open spec fn title_before(a: TitleView, b: TitleView) -> bool {
    a.updated_at > b.updated_at || (a.updated_at == b.updated_at && a.id <= b.id)
}

pub open spec fn titles_sorted(s: Seq<TitleView>) -> bool {
    forall|i: int, j: int| 0 <= i < j < s.len() ==> title_before(s[i], s[j])
}

fn chapter_goes_before(a: &ChapterDb, b: &ChapterDb) -> (r: bool)
    ensures
        r == chapter_before(a@, b@),
{
    a.title_number > b.title_number || (a.title_number == b.title_number && a.id <= b.id)
}

fn title_goes_before(a: &MangaDb, b: &MangaDb) -> (r: bool)
    ensures
        r == title_before(a@, b@),
{
    a.updated_at > b.updated_at || (a.updated_at == b.updated_at && a.id <= b.id)
}

/// Puts `c` into the sorted `res` where the listing order wants it.
fn insert_chapter_sorted(res: &mut Vec<ChapterDb>, c: ChapterDb)
    requires
        chapters_sorted(chapters_view(old(res)@)),
    ensures
        chapters_sorted(chapters_view(final(res)@)),
        chapters_view(final(res)@).to_multiset() == chapters_view(old(res)@).to_multiset().insert(
            c@,
        ),
{
    let ghost s = chapters_view(res@);
    let mut pos: usize = 0;
    while pos < res.len() && chapter_goes_before(&res[pos], &c)
        invariant
            pos <= res.len(),
            s == chapters_view(res@),
            forall|q: int| 0 <= q < pos ==> chapter_before(#[trigger] s[q], c@),
        decreases res.len() - pos,
    {
        pos = pos + 1;
    }
    let ghost x = c@;
    res.insert(pos, c);
    proof {
        assert(chapters_view(res@) =~= s.insert(pos as int, x));
        vstd::seq_lib::to_multiset_insert(s, pos as int, x);
        let t = s.insert(pos as int, x);
        assert forall|i: int, j: int| 0 <= i < j < t.len() implies chapter_before(t[i], t[j]) by {
            if pos < s.len() {
                assert(chapter_before(x, s[pos as int]));
            }
            if j < pos {
            } else if j == pos {
            } else if i < pos {
                assert(chapter_before(s[i], x));
                assert(chapter_before(x, s[j - 1])) by {
                    if j - 1 > pos {
                        assert(chapter_before(s[pos as int], s[j - 1]));
                    }
                }
            } else if i == pos {
                if j - 1 > pos {
                    assert(chapter_before(s[pos as int], s[j - 1]));
                }
            } else {
                assert(chapter_before(s[i - 1], s[j - 1]));
            }
        }
    }
}

/// Puts `t` into the sorted `res` where the listing order wants it.
fn insert_title_sorted(res: &mut Vec<MangaDb>, t: MangaDb)
    requires
        titles_sorted(titles_view(old(res)@)),
    ensures
        titles_sorted(titles_view(final(res)@)),
        titles_view(final(res)@).to_multiset() == titles_view(old(res)@).to_multiset().insert(t@),
{
    let ghost s = titles_view(res@);
    let mut pos: usize = 0;
    while pos < res.len() && title_goes_before(&res[pos], &t)
        invariant
            pos <= res.len(),
            s == titles_view(res@),
            forall|q: int| 0 <= q < pos ==> title_before(#[trigger] s[q], t@),
        decreases res.len() - pos,
    {
        pos = pos + 1;
    }
    let ghost x = t@;
    res.insert(pos, t);
    proof {
        assert(titles_view(res@) =~= s.insert(pos as int, x));
        vstd::seq_lib::to_multiset_insert(s, pos as int, x);
        let u = s.insert(pos as int, x);
        assert forall|i: int, j: int| 0 <= i < j < u.len() implies title_before(u[i], u[j]) by {
            if pos < s.len() {
                assert(title_before(x, s[pos as int]));
            }
            if j < pos {
            } else if j == pos {
            } else if i < pos {
                assert(title_before(s[i], x));
                assert(title_before(x, s[j - 1])) by {
                    if j - 1 > pos {
                        assert(title_before(s[pos as int], s[j - 1]));
                    }
                }
            } else if i == pos {
                if j - 1 > pos {
                    assert(title_before(s[pos as int], s[j - 1]));
                }
            } else {
                assert(title_before(s[i - 1], s[j - 1]));
            }
        }
    }
}

/// Setting the read flag of the chapter with id `id`, and its `updated_at`;
/// nothing changes when there is no such chapter.
pub open spec fn mark_read(db: DbView, id: int, is_read: bool, now: int) -> DbView {
    match first_index(db.chapters, chapter_id_is(id)) {
        Some(i) => DbView {
            chapters: db.chapters.update(
                i,
                ChapterView { is_read, updated_at: now, ..db.chapters[i] },
            ),
            ..db
        },
        None => db,
    }
}

/// Moving `updated_at` of the title with id `id` up to `now` (never back);
/// nothing changes when there is no such title.
pub open spec fn touch_title(db: DbView, id: int, now: int) -> DbView {
    match first_index(db.titles, title_id_is(id)) {
        Some(i) => DbView {
            titles: db.titles.update(
                i,
                TitleView { updated_at: max(db.titles[i].updated_at, now), ..db.titles[i] },
            ),
            ..db
        },
        None => db,
    }
}

pub open spec fn other_title(id: int) -> spec_fn(TitleView) -> bool {
    |t: TitleView| t.id != id
}

pub open spec fn other_manga(id: int) -> spec_fn(ChapterView) -> bool {
    |c: ChapterView| c.manga != id
}

/// Removing the title with id `id` and all of its chapters.
pub open spec fn delete_title(db: DbView, id: int) -> DbView {
    DbView {
        titles: db.titles.filter(other_title(id)),
        chapters: db.chapters.filter(other_manga(id)),
        ..db
    }
}

/// A relation that holds between every earlier and later element still
/// holds after filtering.
proof fn lemma_filter_pairwise<A>(s: Seq<A>, p: spec_fn(A) -> bool, rel: spec_fn(A, A) -> bool)
    requires
        forall|i: int, j: int| 0 <= i < j < s.len() ==> rel(s[i], s[j]),
    ensures
        forall|i: int, j: int|
            0 <= i < j < s.filter(p).len() ==> rel(s.filter(p)[i], s.filter(p)[j]),
    decreases s.len(),
{
    if s.len() > 0 {
        let front = s.drop_last();
        let x = s.last();
        assert(front.push(x) =~= s);
        lemma_filter_pairwise(front, p, rel);
        front.lemma_filter_push(x, p);
        let f = front.filter(p);
        assert forall|i: int, j: int| 0 <= i < j < s.filter(p).len() implies rel(
            s.filter(p)[i],
            s.filter(p)[j],
        ) by {
            if p(x) && j == f.len() {
                assert(f.contains(f[i]));
                front.lemma_filter_contains_rev(p, f[i]);
                let k = choose|k: int| 0 <= k < front.len() && front[k] == f[i];
                assert(s[k] == f[i]);
            }
        }
    }
}

proof fn lemma_delete_wf(db: DbView, id: int)
    requires
        db.wf(),
    ensures
        delete_title(db, id).wf(),
{
    let d = delete_title(db, id);
    lemma_filter_pairwise(db.titles, other_title(id), |a: TitleView, b: TitleView| a.id < b.id && a.url != b.url);
    lemma_filter_pairwise(
        db.chapters,
        other_manga(id),
        |a: ChapterView, b: ChapterView| a.id < b.id && !(a.manga == b.manga && a.title == b.title),
    );
    broadcast use vstd::seq_lib::group_filter_ensures;

    assert forall|i: int| 0 <= i < d.titles.len() implies 1 <= #[trigger] d.titles[i].id
        < d.next_title_id by {
        assert(d.titles.contains(d.titles[i]));
        db.titles.lemma_filter_contains_rev(other_title(id), d.titles[i]);
    }
    assert forall|i: int| 0 <= i < d.chapters.len() implies 1 <= (#[trigger] d.chapters[i]).id
        < d.next_chapter_id && d.has_title(d.chapters[i].manga) && label_sort_key(
        d.chapters[i].title,
    ) == Some(d.chapters[i].title_number as u128) by {
        assert(d.chapters.contains(d.chapters[i]));
        db.chapters.lemma_filter_contains_rev(other_manga(id), d.chapters[i]);
        let k = choose|k: int| 0 <= k < db.chapters.len() && db.chapters[k] == d.chapters[i];
        let m = db.chapters[k].manga;
        assert(db.has_title(m));
        let w = choose|w: int| 0 <= w < db.titles.len() && #[trigger] db.titles[w].id == m;
        assert(other_manga(id)(d.chapters[i]));
        db.titles.lemma_filter_contains(other_title(id), w);
        let v = choose|v: int| 0 <= v < d.titles.len() && d.titles[v] == db.titles[w];
        assert(d.titles[v].id == m);
    }
}

fn index_of_title_id(titles: &Vec<MangaDb>, id: i64) -> (r: Option<usize>)
    ensures
        r matches Some(i) ==> i < titles.len(),
        r matches Some(i) ==> first_index(titles_view(titles@), title_id_is(id as int)) == Some(
            i as int,
        ),
        r is None ==> first_index(titles_view(titles@), title_id_is(id as int)) is None,
{
    let ghost tv = titles_view(titles@);
    let mut i: usize = 0;
    while i < titles.len()
        invariant
            tv == titles_view(titles@),
            i <= titles.len(),
            forall|j: int| 0 <= j < i ==> !title_id_is(id as int)(#[trigger] tv[j]),
        decreases titles.len() - i,
    {
        if titles[i].id == id {
            proof {
                lemma_first_index_at(tv, title_id_is(id as int), i as int);
            }
            return Some(i);
        }
        i = i + 1;
    }
    proof {
        lemma_first_index_at(tv, title_id_is(id as int), i as int);
    }
    None
}

/// A record made of the given tables and next ids.
pub open spec fn rows_view(
    titles: Seq<TitleView>,
    chapters: Seq<ChapterView>,
    next_title_id: int,
    next_chapter_id: int,
) -> DbView {
    DbView { titles, chapters, next_title_id, next_chapter_id }
}

impl Db {
    pub closed spec fn wf(&self) -> bool {
        self@.wf()
    }

    /// An empty record.
    pub fn new() -> (r: Db)
        ensures
            r.wf(),
            r@.titles.len() == 0,
            r@.chapters.len() == 0,
    {
        Db { titles: Vec::new(), chapters: Vec::new(), next_title_id: 1, next_chapter_id: 1 }
    }

    fn title_index_by_url(&self, url: &String) -> (r: Option<usize>)
        ensures
            r matches Some(i) ==> i < self.titles.len(),
            r matches Some(i) ==> first_index(self@.titles, url_is(url@)) == Some(i as int),
            r is None ==> first_index(self@.titles, url_is(url@)) is None,
    {
        let mut i: usize = 0;
        while i < self.titles.len()
            invariant
                i <= self.titles.len(),
                forall|j: int| 0 <= j < i ==> !url_is(url@)(#[trigger] self@.titles[j]),
            decreases self.titles.len() - i,
        {
            if self.titles[i].url == *url {
                proof {
                    lemma_first_index_at(self@.titles, url_is(url@), i as int);
                }
                return Some(i);
            }
            i = i + 1;
        }
        proof {
            lemma_first_index_at(self@.titles, url_is(url@), i as int);
        }
        None
    }

    fn title_index_by_id(&self, id: i64) -> (r: Option<usize>)
        ensures
            r matches Some(i) ==> i < self.titles.len(),
            r matches Some(i) ==> first_index(self@.titles, title_id_is(id as int)) == Some(
                i as int,
            ),
            r is None ==> first_index(self@.titles, title_id_is(id as int)) is None,
    {
        index_of_title_id(&self.titles, id)
    }

    fn chapter_index_by_id(&self, id: i64) -> (r: Option<usize>)
        ensures
            r matches Some(i) ==> i < self.chapters.len(),
            r matches Some(i) ==> first_index(self@.chapters, chapter_id_is(id as int)) == Some(
                i as int,
            ),
            r is None ==> first_index(self@.chapters, chapter_id_is(id as int)) is None,
    {
        let mut i: usize = 0;
        while i < self.chapters.len()
            invariant
                i <= self.chapters.len(),
                forall|j: int|
                    0 <= j < i ==> !chapter_id_is(id as int)(#[trigger] self@.chapters[j]),
            decreases self.chapters.len() - i,
        {
            if self.chapters[i].id == id {
                proof {
                    lemma_first_index_at(self@.chapters, chapter_id_is(id as int), i as int);
                }
                return Some(i);
            }
            i = i + 1;
        }
        proof {
            lemma_first_index_at(self@.chapters, chapter_id_is(id as int), i as int);
        }
        None
    }

    fn chapter_index_by_label(&self, manga: i64, label: &String) -> (r: Option<usize>)
        ensures
            r matches Some(i) ==> i < self.chapters.len(),
            r matches Some(i) ==> first_index(self@.chapters, chapter_label_is(manga as int, label@))
                == Some(i as int),
            r is None ==> first_index(self@.chapters, chapter_label_is(manga as int, label@)) is None,
    {
        let mut i: usize = 0;
        while i < self.chapters.len()
            invariant
                i <= self.chapters.len(),
                forall|j: int|
                    0 <= j < i ==> !chapter_label_is(manga as int, label@)(
                        #[trigger] self@.chapters[j],
                    ),
            decreases self.chapters.len() - i,
        {
            if self.chapters[i].manga == manga && self.chapters[i].title == *label {
                proof {
                    lemma_first_index_at(
                        self@.chapters,
                        chapter_label_is(manga as int, label@),
                        i as int,
                    );
                }
                return Some(i);
            }
            i = i + 1;
        }
        proof {
            lemma_first_index_at(self@.chapters, chapter_label_is(manga as int, label@), i as int);
        }
        None
    }

    /// The title with the given id.
    pub fn find_manga(&self, id: i64) -> (r: Option<MangaDb>)
        ensures
            r matches Some(t) ==> first_index(self@.titles, title_id_is(id as int)) matches Some(i)
                && self@.titles[i] == t@,
            r is None ==> first_index(self@.titles, title_id_is(id as int)) is None,
    {
        match self.title_index_by_id(id) {
            Some(i) => Some(self.titles[i].copy()),
            None => None,
        }
    }

    /// The title with the given address.
    pub fn find_manga_by_url(&self, url: &String) -> (r: Option<MangaDb>)
        ensures
            r matches Some(t) ==> first_index(self@.titles, url_is(url@)) matches Some(i)
                && self@.titles[i] == t@,
            r is None ==> first_index(self@.titles, url_is(url@)) is None,
    {
        match self.title_index_by_url(url) {
            Some(i) => Some(self.titles[i].copy()),
            None => None,
        }
    }

    /// The chapter with the given id.
    pub fn find_chapter(&self, id: i64) -> (r: Option<ChapterDb>)
        ensures
            r matches Some(c) ==> first_index(self@.chapters, chapter_id_is(id as int)) matches Some(i)
                && self@.chapters[i] == c@,
            r is None ==> first_index(self@.chapters, chapter_id_is(id as int)) is None,
    {
        match self.chapter_index_by_id(id) {
            Some(i) => Some(self.chapters[i].copy()),
            None => None,
        }
    }

    /// The chapter of title `manga` with the given label.
    pub fn find_chapter_by_title(&self, manga: i64, title: &String) -> (r: Option<ChapterDb>)
        ensures
            r matches Some(c) ==> first_index(self@.chapters, chapter_label_is(manga as int, title@))
                matches Some(i) && self@.chapters[i] == c@,
            r is None ==> first_index(self@.chapters, chapter_label_is(manga as int, title@)) is None,
    {
        match self.chapter_index_by_label(manga, title) {
            Some(i) => Some(self.chapters[i].copy()),
            None => None,
        }
    }

    /// Opens `link`: see `open_title`. Fails only when ids are used up.
    pub fn open_manga(&mut self, link: &Link, now: i64) -> (r: Result<MangaDb, MangaError>)
        requires
            old(self).wf(),
        ensures
            final(self).wf(),
            final(self)@ == open_title(old(self)@, link@, now as int).0,
            r matches Ok(t) ==> open_title(old(self)@, link@, now as int).1 == Some(t@),
            r is Err ==> open_title(old(self)@, link@, now as int).1 is None,
            r matches Err(e) ==> e is InternalError,
    {
        let ghost db = self@;
        match self.title_index_by_url(&link.url) {
            Some(i) => {
                let old_updated = self.titles[i].updated_at;
                let updated = if old_updated >= now {
                    old_updated
                } else {
                    now
                };
                let t = MangaDb { updated_at: updated, ..self.titles[i].copy() };
                let out = t.copy();
                self.titles.set(i, t);
                proof {
                    assert(self@.titles =~= db.titles.update(i as int, out@));
                    assert forall|k: int| 0 <= k < self@.chapters.len() implies self@.has_title(
                        #[trigger] self@.chapters[k].manga,
                    ) by {
                        let w = choose|w: int|
                            0 <= w < db.titles.len() && #[trigger] db.titles[w].id
                                == db.chapters[k].manga;
                        assert(self@.titles[w].id == db.chapters[k].manga);
                    }
                }
                Ok(out)
            },
            None => {
                if self.next_title_id == i64::MAX {
                    return Err(MangaError::InternalError { msg: "title ids are used up".to_string() });
                }
                let t = MangaDb {
                    id: self.next_title_id,
                    title: link.text.clone(),
                    url: link.url.clone(),
                    image: copy_opt(&link.image),
                    created_at: now,
                    updated_at: now,
                };
                let out = t.copy();
                self.titles.push(t);
                self.next_title_id = self.next_title_id + 1;
                proof {
                    lemma_first_index_spec(db.titles, url_is(link@.url));
                    assert(self@.titles =~= db.titles.push(out@));
                    assert forall|k: int| 0 <= k < self@.chapters.len() implies self@.has_title(
                        #[trigger] self@.chapters[k].manga,
                    ) by {
                        let w = choose|w: int|
                            0 <= w < db.titles.len() && #[trigger] db.titles[w].id
                                == db.chapters[k].manga;
                        assert(self@.titles[w].id == db.chapters[k].manga);
                    }
                }
                Ok(out)
            },
        }
    }

    /// Merges freshly fetched chapter links into title `manga` (see
    /// `merge_all`), as one step: when a label has no sort key, or the new
    /// chapters would use up the ids, nothing changes. A label without a
    /// digit always fails the merge.
    pub fn reconcile_chapters(&mut self, manga: i64, fresh: &Vec<Link>, now: i64) -> (r: Result<
        (),
        MangaError,
    >)
        requires
            old(self).wf(),
            old(self)@.has_title(manga as int),
        ensures
            final(self).wf(),
            match first_index(links_view(fresh@), is_malformed()) {
                Some(k) => r matches Err(MangaError::MalformedChapterLabel { label }) && label@
                    == fresh@[k].text@ && final(self)@ == old(self)@,
                None => if ids_exhausted(old(self)@, fresh@.len() as int) {
                    r matches Err(e) && e is InternalError && final(self)@ == old(self)@
                } else {
                    r is Ok && final(self)@ == merge_all(
                        old(self)@,
                        manga as int,
                        links_view(fresh@),
                        now as int,
                    )
                },
            },
            (exists|k: int| 0 <= k < fresh@.len() && has_no_digit(#[trigger] fresh@[k].text@))
                ==> r is Err && final(self)@ == old(self)@,
    {
        let ghost links = links_view(fresh@);
        let ghost db0 = self@;
        let mut keys: Vec<u128> = Vec::new();
        let mut k: usize = 0;
        while k < fresh.len()
            invariant
                links == links_view(fresh@),
                self.wf(),
                self@ == db0,
                db0 == old(self)@,
                k <= fresh.len(),
                keys.len() == k,
                forall|j: int| 0 <= j < k ==> !is_malformed()(#[trigger] links[j]),
                forall|j: int| 0 <= j < k ==> !has_no_digit(#[trigger] fresh@[j].text@),
                forall|j: int| 0 <= j < k ==> label_sort_key(fresh@[j].text@) == Some(#[trigger] keys@[j]),
            decreases fresh.len() - k,
        {
            match sort_key_of_label(fresh[k].text.as_str()) {
                Some(key) => {
                    keys.push(key);
                },
                None => {
                    proof {
                        lemma_first_index_at(links, is_malformed(), k as int);
                    }
                    return Err(MangaError::MalformedChapterLabel { label: fresh[k].text.clone() });
                },
            }
            k = k + 1;
        }
        proof {
            lemma_first_index_at(links, is_malformed(), k as int);
        }
        if fresh.len() as u128 + self.next_chapter_id as u128 > i64::MAX as u128 {
            return Err(MangaError::InternalError { msg: "chapter ids are used up".to_string() });
        }
        let ghost db = self@;
        let mut k: usize = 0;
        while k < fresh.len()
            invariant
                links == links_view(fresh@),
                k <= fresh.len(),
                keys.len() == fresh.len(),
                forall|j: int| 0 <= j < fresh.len() ==> label_sort_key(fresh@[j].text@) == Some(#[trigger] keys@[j]),
                db.next_chapter_id + fresh.len() <= i64::MAX,
                self.wf(),
                self@.has_title(manga as int),
                self@.next_chapter_id <= db.next_chapter_id + k,
                self@ == merge_all(db, manga as int, links.take(k as int), now as int),
            decreases fresh.len() - k,
        {
            let ghost before = self@;
            let link = &fresh[k];
            proof {
                assert(label_sort_key(fresh@[k as int].text@) == Some(keys@[k as int]));
                assert(links.take(k + 1).drop_last() =~= links.take(k as int));
                assert(links.take(k + 1).last() == link@);
                lemma_merge_one_wf(before, manga as int, link@, now as int);
                lemma_first_index_spec(before.chapters, chapter_label_is(manga as int, link@.text));
            }
            match self.chapter_index_by_label(manga, &link.text) {
                Some(i) => {
                    let c = ChapterDb { url: link.url.clone(), updated_at: now, ..self.chapters[i].copy() };
                    self.chapters.set(i, c);
                    proof {
                        assert(self@.chapters =~= merge_one(before, manga as int, link@, now as int).chapters);
                    }
                },
                None => {
                    let c = ChapterDb {
                        id: self.next_chapter_id,
                        manga,
                        title: link.text.clone(),
                        title_number: keys[k],
                        url: link.url.clone(),
                        is_read: false,
                        created_at: now,
                        updated_at: now,
                    };
                    self.chapters.push(c);
                    self.next_chapter_id = self.next_chapter_id + 1;
                    proof {
                        assert(self@.chapters =~= merge_one(before, manga as int, link@, now as int).chapters);
                    }
                },
            }
            proof {
                assert(self@.titles =~= before.titles);
                assert(self@ == merge_one(before, manga as int, link@, now as int));
                let d = self@;
                assert(d.has_title(manga as int)) by {
                    let w = choose|w: int| 0 <= w < before.titles.len() && #[trigger] before.titles[w].id == manga;
                    assert(d.titles[w].id == manga);
                }
            }
            k = k + 1;
        }
        proof {
            assert(links.take(k as int) =~= links);
        }
        Ok(())
    }

    /// The chapters of title `manga`, highest sort key first and, among
    /// equal keys, lowest id first.
    pub fn get_chapters(&self, manga: i64) -> (r: Vec<ChapterDb>)
        ensures
            chapters_sorted(chapters_view(r@)),
            chapters_view(r@).to_multiset() == chapters_of(self@, manga as int).to_multiset(),
    {
        let mut res: Vec<ChapterDb> = Vec::new();
        let mut i: usize = 0;
        proof {
            let e = self@.chapters.take(0);
            e.lemma_filter_len(belongs_to(manga as int));
            assert(e.filter(belongs_to(manga as int)) =~= chapters_view(res@));
        }
        while i < self.chapters.len()
            invariant
                i <= self.chapters.len(),
                chapters_sorted(chapters_view(res@)),
                chapters_view(res@).to_multiset() == self@.chapters.take(i as int).filter(
                    belongs_to(manga as int),
                ).to_multiset(),
            decreases self.chapters.len() - i,
        {
            proof {
                assert(self@.chapters.take(i + 1) =~= self@.chapters.take(i as int).push(
                    self@.chapters[i as int],
                ));
                self@.chapters.take(i as int).lemma_filter_push(
                    self@.chapters[i as int],
                    belongs_to(manga as int),
                );
                vstd::seq_lib::to_multiset_build(
                    self@.chapters.take(i as int).filter(belongs_to(manga as int)),
                    self@.chapters[i as int],
                );
            }
            if self.chapters[i].manga == manga {
                insert_chapter_sorted(&mut res, self.chapters[i].copy());
            }
            i = i + 1;
        }
        proof {
            assert(self@.chapters.take(i as int) =~= self@.chapters);
        }
        res
    }

    /// All titles, most recently opened first and, among equal times, lowest
    /// id first.
    pub fn list_manga(&self) -> (r: Vec<MangaDb>)
        ensures
            titles_sorted(titles_view(r@)),
            titles_view(r@).to_multiset() == self@.titles.to_multiset(),
    {
        let mut res: Vec<MangaDb> = Vec::new();
        let mut i: usize = 0;
        proof {
            assert(self@.titles.take(0) =~= titles_view(res@));
        }
        while i < self.titles.len()
            invariant
                i <= self.titles.len(),
                titles_sorted(titles_view(res@)),
                titles_view(res@).to_multiset() == self@.titles.take(i as int).to_multiset(),
            decreases self.titles.len() - i,
        {
            proof {
                assert(self@.titles.take(i + 1) =~= self@.titles.take(i as int).push(
                    self@.titles[i as int],
                ));
                vstd::seq_lib::to_multiset_build(
                    self@.titles.take(i as int),
                    self@.titles[i as int],
                );
            }
            insert_title_sorted(&mut res, self.titles[i].copy());
            i = i + 1;
        }
        proof {
            assert(self@.titles.take(i as int) =~= self@.titles);
        }
        res
    }

    /// Sets the read flag of the chapter with id `id` (see `mark_read`).
    pub fn mark_chapter_read(&mut self, id: i64, is_read: bool, now: i64)
        requires
            old(self).wf(),
        ensures
            final(self).wf(),
            final(self)@ == mark_read(old(self)@, id as int, is_read, now as int),
    {
        let ghost db = self@;
        match self.chapter_index_by_id(id) {
            Some(i) => {
                let c = ChapterDb { is_read, updated_at: now, ..self.chapters[i].copy() };
                self.chapters.set(i, c);
                proof {
                    assert(self@.chapters =~= mark_read(db, id as int, is_read, now as int).chapters);
                    assert(self@.titles =~= db.titles);
                }
            },
            None => {},
        }
    }

    /// Moves `updated_at` of the title with id `id` up to `now` (see
    /// `touch_title`).
    pub fn update_manga_time(&mut self, id: i64, now: i64)
        requires
            old(self).wf(),
        ensures
            final(self).wf(),
            final(self)@ == touch_title(old(self)@, id as int, now as int),
    {
        let ghost db = self@;
        match self.title_index_by_id(id) {
            Some(i) => {
                let old_updated = self.titles[i].updated_at;
                let updated = if old_updated >= now {
                    old_updated
                } else {
                    now
                };
                let t = MangaDb { updated_at: updated, ..self.titles[i].copy() };
                self.titles.set(i, t);
                proof {
                    assert(self@.titles =~= touch_title(db, id as int, now as int).titles);
                    assert(self@.chapters =~= db.chapters);
                    assert forall|k: int| 0 <= k < self@.chapters.len() implies self@.has_title(
                        #[trigger] self@.chapters[k].manga,
                    ) by {
                        let w = choose|w: int|
                            0 <= w < db.titles.len() && #[trigger] db.titles[w].id
                                == db.chapters[k].manga;
                        assert(self@.titles[w].id == db.chapters[k].manga);
                    }
                }
            },
            None => {},
        }
    }

    /// Removes the title with id `id` and all of its chapters.
    pub fn delete_manga(&mut self, id: i64)
        requires
            old(self).wf(),
        ensures
            final(self).wf(),
            final(self)@ == delete_title(old(self)@, id as int),
    {
        let ghost db = self@;
        let mut titles: Vec<MangaDb> = Vec::new();
        let mut i: usize = 0;
        proof {
            assert(db.titles.take(0).filter(other_title(id as int)) =~= titles_view(titles@)) by {
                db.titles.take(0).lemma_filter_len(other_title(id as int));
            }
        }
        while i < self.titles.len()
            invariant
                i <= self.titles.len(),
                self@ == db,
                titles_view(titles@) == db.titles.take(i as int).filter(other_title(id as int)),
            decreases self.titles.len() - i,
        {
            proof {
                assert(db.titles.take(i + 1) =~= db.titles.take(i as int).push(db.titles[i as int]));
                db.titles.take(i as int).lemma_filter_push(db.titles[i as int], other_title(id as int));
            }
            if self.titles[i].id != id {
                let t = self.titles[i].copy();
                titles.push(t);
                proof {
                    assert(titles_view(titles@) =~= db.titles.take(i + 1).filter(other_title(id as int)));
                }
            }
            i = i + 1;
        }
        let mut chapters: Vec<ChapterDb> = Vec::new();
        let mut i: usize = 0;
        proof {
            assert(db.titles.take(self.titles.len() as int) =~= db.titles);
            assert(db.chapters.take(0).filter(other_manga(id as int)) =~= chapters_view(chapters@)) by {
                db.chapters.take(0).lemma_filter_len(other_manga(id as int));
            }
        }
        while i < self.chapters.len()
            invariant
                i <= self.chapters.len(),
                self@ == db,
                chapters_view(chapters@) == db.chapters.take(i as int).filter(other_manga(id as int)),
            decreases self.chapters.len() - i,
        {
            proof {
                assert(db.chapters.take(i + 1) =~= db.chapters.take(i as int).push(db.chapters[i as int]));
                db.chapters.take(i as int).lemma_filter_push(db.chapters[i as int], other_manga(id as int));
            }
            if self.chapters[i].manga != id {
                let c = self.chapters[i].copy();
                chapters.push(c);
                proof {
                    assert(chapters_view(chapters@) =~= db.chapters.take(i + 1).filter(other_manga(id as int)));
                }
            }
            i = i + 1;
        }
        proof {
            assert(db.chapters.take(self.chapters.len() as int) =~= db.chapters);
        }
        self.titles = titles;
        self.chapters = chapters;
        proof {
            assert(self@ == delete_title(db, id as int));
            lemma_delete_wf(db, id as int);
        }
    }

    /// A record over stored rows, with the next ids one past the largest
    /// ones; none when no choice of next ids makes the rows a well-formed
    /// record.
    pub fn restore(titles: Vec<MangaDb>, chapters: Vec<ChapterDb>) -> (r: Option<Db>)
        ensures
            r matches Some(db) ==> db.wf() && db@.titles == titles_view(titles@) && db@.chapters
                == chapters_view(chapters@),
            r is None ==> forall|t: int, c: int|
                !(#[trigger] rows_view(titles_view(titles@), chapters_view(chapters@), t, c)).wf(),
    {
        let ghost tv = titles_view(titles@);
        let ghost cv = chapters_view(chapters@);
        let mut i: usize = 0;
        while i < titles.len()
            invariant
                tv == titles_view(titles@),
                i <= titles.len(),
                forall|a: int, b: int| 0 <= a < b < i ==> tv[a].id < tv[b].id,
                forall|a: int| 0 <= a < i ==> 1 <= #[trigger] tv[a].id,
                forall|a: int, b: int| 0 <= a < b < i ==> tv[a].url != tv[b].url,
                cv == chapters_view(chapters@),
            decreases titles.len() - i,
        {
            if titles[i].id < 1 || (i > 0 && titles[i - 1].id >= titles[i].id) {
                proof {
                    assert forall|t: int, c: int|
                        !(#[trigger] rows_view(tv, cv, t, c)).wf() by {
                        let d = rows_view(tv, cv, t, c);
                        if i > 0 {
                            assert(d.titles[i - 1].id == tv[i - 1].id);
                        }
                        assert(d.titles[i as int].id == tv[i as int].id);
                    }
                }
                return None;
            }
            let mut j: usize = 0;
            while j < i
                invariant
                    tv == titles_view(titles@),
                    cv == chapters_view(chapters@),
                    j <= i < titles.len(),
                    forall|b: int| 0 <= b < j ==> tv[b].url != tv[i as int].url,
                decreases i - j,
            {
                if titles[j].url == titles[i].url {
                    proof {
                        assert forall|t: int, c: int|
                            !(#[trigger] rows_view(tv, cv, t, c)).wf() by {
                            let d = rows_view(tv, cv, t, c);
                            assert(d.titles[j as int].url == d.titles[i as int].url);
                        }
                    }
                    return None;
                }
                j = j + 1;
            }
            i = i + 1;
        }
        let next_title_id: i64 = if titles.len() == 0 {
            1
        } else if titles[titles.len() - 1].id == i64::MAX {
            proof {
                assert forall|t: int, c: int| !(#[trigger] rows_view(tv, cv, t, c)).wf() by {
                    let d = rows_view(tv, cv, t, c);
                    assert(d.titles[tv.len() - 1].id == i64::MAX);
                }
            }
            return None;
        } else {
            titles[titles.len() - 1].id + 1
        };
        proof {
            if tv.len() > 0 {
                assert(tv[tv.len() - 1] == titles@[tv.len() - 1]@);
            }
            assert forall|a: int| 0 <= a < tv.len() implies 1 <= #[trigger] tv[a].id
                < next_title_id by {
                if a < tv.len() - 1 {
                    assert(tv[a].id < tv[tv.len() - 1].id);
                }
            }
        }
        let mut i: usize = 0;
        while i < chapters.len()
            invariant
                tv == titles_view(titles@),
                cv == chapters_view(chapters@),
                1 <= next_title_id <= i64::MAX,
                forall|a: int, b: int| 0 <= a < b < tv.len() ==> tv[a].id < tv[b].id,
                forall|a: int| 0 <= a < tv.len() ==> 1 <= #[trigger] tv[a].id < next_title_id,
                forall|a: int, b: int| 0 <= a < b < tv.len() ==> tv[a].url != tv[b].url,
                i <= chapters.len(),
                forall|a: int, b: int| 0 <= a < b < i ==> cv[a].id < cv[b].id,
                forall|a: int| 0 <= a < i ==> 1 <= #[trigger] cv[a].id,
                forall|a: int, b: int|
                    0 <= a < b < i ==> !(cv[a].manga == cv[b].manga && cv[a].title == cv[b].title),
                forall|a: int| 0 <= a < i ==> title_exists(tv, #[trigger] cv[a].manga),
                forall|a: int|
                    0 <= a < i ==> label_sort_key(#[trigger] cv[a].title) == Some(
                        cv[a].title_number as u128,
                    ),
            decreases chapters.len() - i,
        {
            proof {
                assert(cv[i as int] == chapters@[i as int]@);
                if i > 0 {
                    assert(cv[i - 1] == chapters@[i - 1]@);
                }
            }
            let c = &chapters[i];
            if c.id < 1 || (i > 0 && chapters[i - 1].id >= c.id) {
                proof {
                    assert forall|t: int, n: int|
                        !(#[trigger] rows_view(tv, cv, t, n)).wf() by {
                        let d = rows_view(tv, cv, t, n);
                        if i > 0 {
                            assert(d.chapters[i - 1].id == cv[i - 1].id);
                        }
                        assert(d.chapters[i as int].id == cv[i as int].id);
                    }
                }
                return None;
            }
            let mut j: usize = 0;
            while j < i
                invariant
                    cv == chapters_view(chapters@),
                    tv == titles_view(titles@),
                    j <= i < chapters.len(),
                    forall|b: int|
                        0 <= b < j ==> !(cv[b].manga == cv[i as int].manga && cv[b].title
                            == cv[i as int].title),
                decreases i - j,
            {
                if chapters[j].manga == chapters[i].manga && chapters[j].title == chapters[i].title {
                    proof {
                        assert forall|t: int, n: int|
                            !(#[trigger] rows_view(tv, cv, t, n)).wf() by {
                            let d = rows_view(tv, cv, t, n);
                            assert(d.chapters[j as int] == cv[j as int]);
                            assert(d.chapters[i as int] == cv[i as int]);
                        }
                    }
                    return None;
                }
                j = j + 1;
            }
            match index_of_title_id(&titles, chapters[i].manga) {
                Some(_) => {},
                None => {
                    proof {
                        lemma_first_index_spec(tv, title_id_is(cv[i as int].manga));
                        assert forall|t: int, n: int|
                            !(#[trigger] rows_view(tv, cv, t, n)).wf() by {
                            let d = rows_view(tv, cv, t, n);
                            assert(d.chapters[i as int].manga == cv[i as int].manga);
                            assert(!d.has_title(cv[i as int].manga));
                        }
                    }
                    return None;
                },
            }
            proof {
                let m = cv[i as int].manga;
                lemma_first_index_spec(tv, title_id_is(m));
                let w = first_index(tv, title_id_is(m))->0;
                assert(tv[w].id == m);
                assert(title_exists(tv, m));
            }
            match sort_key_of_label(chapters[i].title.as_str()) {
                Some(key) => {
                    if key != chapters[i].title_number {
                        proof {
                            assert forall|t: int, n: int|
                                !(#[trigger] rows_view(tv, cv, t, n)).wf() by {
                                let d = rows_view(tv, cv, t, n);
                                assert(d.chapters[i as int] == cv[i as int]);
                                assert(label_sort_key(d.chapters[i as int].title) != Some(
                                    d.chapters[i as int].title_number as u128,
                                ));
                            }
                        }
                        return None;
                    }
                },
                None => {
                    proof {
                        assert forall|t: int, n: int|
                            !(#[trigger] rows_view(tv, cv, t, n)).wf() by {
                            let d = rows_view(tv, cv, t, n);
                            assert(d.chapters[i as int] == cv[i as int]);
                            assert(label_sort_key(d.chapters[i as int].title) is None);
                        }
                    }
                    return None;
                },
            }
            i = i + 1;
        }
        let next_chapter_id: i64 = if chapters.len() == 0 {
            1
        } else if chapters[chapters.len() - 1].id == i64::MAX {
            proof {
                assert forall|t: int, n: int| !(#[trigger] rows_view(tv, cv, t, n)).wf() by {
                    let d = rows_view(tv, cv, t, n);
                    assert(d.chapters[cv.len() - 1].id == i64::MAX);
                }
            }
            return None;
        } else {
            chapters[chapters.len() - 1].id + 1
        };
        proof {
            if cv.len() > 0 {
                assert(cv[cv.len() - 1] == chapters@[cv.len() - 1]@);
            }
        }
        let db = Db { titles, chapters, next_title_id, next_chapter_id };
        proof {
            assert(db@.titles == tv);
            assert(db@.chapters == cv);
            assert forall|a: int| 0 <= a < cv.len() implies 1 <= #[trigger] cv[a].id
                < next_chapter_id by {
                if a < cv.len() - 1 {
                    assert(cv[a].id < cv[cv.len() - 1].id);
                }
            }
        }
        Some(db)
    }
}

} // verus!
