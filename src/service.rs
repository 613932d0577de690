//! The operations offered to callers. A refresh of a title's chapters is
//! split around the fetch, which the caller performs: `plan_refresh` routes
//! the address and finds the title, the caller asks the chosen source for the
//! chapter links, and `apply_refresh` merges them and reads the list back.

use crate::error::MangaError;
use crate::link::{links_view, Link};
use crate::sites::{
    chapter_handler, image_handler, registry, route_for_chapters, route_for_images,
    supported_sites, SiteKind,
};
use crate::store::{
    chapters_of, chapters_sorted, chapters_view, first_index, is_malformed, merge_all,
    open_title, touch_title, mark_read, delete_title, ids_exhausted, titles_sorted, titles_view,
    url_is, title_id_is, chapter_id_is, ChapterDb, Db, DbView, MangaDb,
};
use vstd::prelude::*;

verus! {

/// Where the record is kept.
#[derive(Debug)]
pub struct Config {
    pub database_url: String,
}

impl Default for Config {
    fn default() -> (r: Config)
        ensures
            r.database_url@ == "sqlite://database.db"@,
    {
        Config { database_url: "sqlite://database.db".to_string() }
    }
}

/// Receives the library's log lines.
pub trait Logger {
    fn log(&self, text: String);
}

/// What a refresh needs fetched: the source to ask and the title the
/// result belongs to.
#[derive(Debug)]
pub struct RefreshPlan {
    pub site: SiteKind,
    pub manga: i64,
}

/// The record together with the registered sources.
#[derive(Debug)]
pub struct Manga {
    db: Db,
    sites: Vec<SiteKind>,
}

impl View for Manga {
    type V = DbView;

    closed spec fn view(&self) -> DbView {
        self.db@
    }
}

impl Manga {
    pub closed spec fn wf(&self) -> bool {
        self.db.wf() && self.sites@ == registry()
    }

    /// A service over an empty record.
    pub fn new() -> (r: Manga)
        ensures
            r.wf(),
            r@.titles.len() == 0,
            r@.chapters.len() == 0,
    {
        Manga { db: Db::new(), sites: supported_sites() }
    }

    /// A service over a record already made, such as one restored from
    /// storage.
    pub fn with_db(db: Db) -> (r: Manga)
        requires
            db.wf(),
        ensures
            r.wf(),
            r@ == db@,
    {
        Manga { db, sites: supported_sites() }
    }

    /// The registered sources, in dispatch order.
    pub fn supported_sites(&self) -> (r: Vec<SiteKind>)
        ensures
            r@ == registry(),
    {
        supported_sites()
    }

    /// All titles, most recently opened first.
    pub fn list_manga(&self) -> (r: Vec<MangaDb>)
        requires
            self.wf(),
        ensures
            titles_sorted(titles_view(r@)),
            titles_view(r@).to_multiset() == self@.titles.to_multiset(),
    {
        self.db.list_manga()
    }

    /// Opens a link: finds or makes the title with its address.
    pub fn open_manga(&mut self, link: &Link, now: i64) -> (r: Result<MangaDb, MangaError>)
        requires
            old(self).wf(),
        ensures
            final(self).wf(),
            final(self)@ == open_title(old(self)@, link@, now as int).0,
            r matches Ok(t) ==> open_title(old(self)@, link@, now as int).1 == Some(t@),
            r is Err ==> open_title(old(self)@, link@, now as int).1 is None,
    {
        self.db.open_manga(link, now)
    }

    /// Marks the title with id `id` as opened now.
    pub fn open_manga_with_id(&mut self, id: i64, now: i64)
        requires
            old(self).wf(),
        ensures
            final(self).wf(),
            final(self)@ == touch_title(old(self)@, id as int, now as int),
    {
        self.db.update_manga_time(id, now)
    }

    /// The title with id `id`.
    pub fn get_manga(&self, id: i64) -> (r: Option<MangaDb>)
        ensures
            r matches Some(t) ==> first_index(self@.titles, title_id_is(id as int)) matches Some(i)
                && self@.titles[i] == t@,
            r is None ==> first_index(self@.titles, title_id_is(id as int)) is None,
    {
        self.db.find_manga(id)
    }

    /// Removes the title with id `id` and its chapters.
    pub fn delete_manga(&mut self, id: i64)
        requires
            old(self).wf(),
        ensures
            final(self).wf(),
            final(self)@ == delete_title(old(self)@, id as int),
    {
        self.db.delete_manga(id)
    }

    /// The chapter with id `id`.
    pub fn get_chapter(&self, id: i64) -> (r: Option<ChapterDb>)
        ensures
            r matches Some(c) ==> first_index(self@.chapters, chapter_id_is(id as int)) matches Some(i)
                && self@.chapters[i] == c@,
            r is None ==> first_index(self@.chapters, chapter_id_is(id as int)) is None,
    {
        self.db.find_chapter(id)
    }

    /// Sets the read flag of the chapter with id `id`.
    pub fn mark_chapter_read(&mut self, id: i64, is_read: bool, now: i64)
        requires
            old(self).wf(),
        ensures
            final(self).wf(),
            final(self)@ == mark_read(old(self)@, id as int, is_read, now as int),
    {
        self.db.mark_chapter_read(id, is_read, now)
    }

    /// The recorded chapters of the title at `url`, without asking any
    /// source; empty when no title has that address.
    pub fn get_chapters_cache(&self, url: &String) -> (r: Vec<ChapterDb>)
        ensures
            chapters_sorted(chapters_view(r@)),
            match first_index(self@.titles, url_is(url@)) {
                Some(i) => chapters_view(r@).to_multiset() == chapters_of(
                    self@,
                    self@.titles[i].id,
                ).to_multiset(),
                None => r@.len() == 0,
            },
    {
        match self.db.find_manga_by_url(url) {
            Some(m) => self.db.get_chapters(m.id),
            None => {
                let r: Vec<ChapterDb> = Vec::new();
                assert(chapters_view(r@) =~= Seq::empty());
                r
            },
        }
    }

    /// The first step of a refresh: the source that lists chapters for `url`
    /// and the title recorded at `url`.
    pub fn plan_refresh(&self, url: &String) -> (r: Result<RefreshPlan, MangaError>)
        requires
            self.wf(),
        ensures
            match first_index(registry(), chapter_handler(url@)) {
                None => r matches Err(MangaError::NoHandlerForAddress { url: u }) && u@ == url@,
                Some(k) => match first_index(self@.titles, url_is(url@)) {
                    None => r matches Err(MangaError::UnknownTitle { url: u }) && u@ == url@,
                    Some(i) => r matches Ok(p) && p.site == registry()[k] && p.manga
                        == self@.titles[i].id,
                },
            },
    {
        let site = match route_for_chapters(&self.sites, url.as_str()) {
            Some(s) => s,
            None => {
                return Err(MangaError::NoHandlerForAddress { url: url.clone() });
            },
        };
        match self.db.find_manga_by_url(url) {
            Some(m) => Ok(RefreshPlan { site, manga: m.id }),
            None => Err(MangaError::UnknownTitle { url: url.clone() }),
        }
    }

    /// The last step of a refresh: merges what the source returned for the
    /// title at `url` and returns the title's full chapter list. A failed
    /// fetch is passed on unchanged; a failed merge changes nothing.
    pub fn apply_refresh(
        &mut self,
        url: &String,
        fetched: Result<Vec<Link>, MangaError>,
        now: i64,
    ) -> (r: Result<Vec<ChapterDb>, MangaError>)
        requires
            old(self).wf(),
        ensures
            final(self).wf(),
            match first_index(old(self)@.titles, url_is(url@)) {
                None => r matches Err(MangaError::UnknownTitle { url: u }) && u@ == url@
                    && final(self)@ == old(self)@,
                Some(i) => {
                    let id = old(self)@.titles[i].id;
                    match fetched {
                        Err(e) => r == Err::<Vec<ChapterDb>, MangaError>(e) && final(self)@
                            == old(self)@,
                        Ok(links) => match first_index(links_view(links@), is_malformed()) {
                            Some(k) => r matches Err(MangaError::MalformedChapterLabel { label })
                                && label@ == links@[k].text@ && final(self)@ == old(self)@,
                            None => if ids_exhausted(old(self)@, links@.len() as int) {
                                r matches Err(e) && e is InternalError && final(self)@
                                    == old(self)@
                            } else {
                                &&& final(self)@ == merge_all(
                                    old(self)@,
                                    id,
                                    links_view(links@),
                                    now as int,
                                )
                                &&& r matches Ok(list) && chapters_sorted(chapters_view(list@))
                                    && chapters_view(list@).to_multiset() == chapters_of(
                                    final(self)@,
                                    id,
                                ).to_multiset()
                            },
                        },
                    }
                },
            },
    {
        let m = match self.db.find_manga_by_url(url) {
            Some(m) => m,
            None => {
                return Err(MangaError::UnknownTitle { url: url.clone() });
            },
        };
        let links = match fetched {
            Ok(links) => links,
            Err(e) => {
                return Err(e);
            },
        };
        proof {
            crate::store::lemma_first_index_spec(self@.titles, url_is(url@));
            let i = first_index(self@.titles, url_is(url@))->0;
            assert(self@.titles[i].id == m.id);
        }
        match self.db.reconcile_chapters(m.id, &links, now) {
            Ok(()) => Ok(self.db.get_chapters(m.id)),
            Err(e) => Err(e),
        }
    }

    /// The source that lists images for `url`.
    pub fn get_site(&self, url: &String) -> (r: Option<SiteKind>)
        requires
            self.wf(),
        ensures
            r == (match first_index(registry(), image_handler(url@)) {
                Some(i) => Some(registry()[i]),
                None => None,
            }),
    {
        route_for_images(&self.sites, url.as_str())
    }

    /// The source that lists images for `url`, or the error that reports
    /// an address no source handles.
    pub fn plan_images(&self, url: &String) -> (r: Result<SiteKind, MangaError>)
        requires
            self.wf(),
        ensures
            match first_index(registry(), image_handler(url@)) {
                Some(i) => r == Ok::<SiteKind, MangaError>(registry()[i]),
                None => r matches Err(MangaError::NoHandlerForAddress { url: u }) && u@ == url@,
            },
    {
        match self.get_site(url) {
            Some(s) => Ok(s),
            None => Err(MangaError::NoHandlerForAddress { url: url.clone() }),
        }
    }
}

} // verus!
