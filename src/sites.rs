//! The remote sources and the routing of an address to the one that
//! handles it.

use crate::error::MangaError;
use crate::link::{links_view, Link, LinkView};
use crate::pattern::{is_match, regex_matches};
use crate::store::first_index;
use vstd::prelude::*;

verus! {

/// A remote source. Each recognises the addresses it can list chapters and
/// images for by a pattern over the address.
#[derive(Clone, Copy, Debug, PartialEq, Eq, Structural)]
pub enum SiteKind {
    Spoilerplustv,
    MangaTopJp,
    Jmangaorg,
    RawkuroNet,
}

/// The pattern of the title addresses a source lists chapters for.
pub open spec fn chapter_pattern(site: SiteKind) -> Seq<char> {
    match site {
        SiteKind::Spoilerplustv => "^https://spoilerplus\\.tv/[^/]+/$"@,
        SiteKind::MangaTopJp => "^https://mangatopjp\\.com/manga/[^/]+/$"@,
        SiteKind::Jmangaorg => "^https://jmanga\\.org/read/[^/]+/$"@,
        SiteKind::RawkuroNet => "^https://rawkuro.net/manga/[^/]+$"@,
    }
}

/// The pattern of the chapter addresses a source lists images for.
pub open spec fn image_pattern(site: SiteKind) -> Seq<char> {
    match site {
        SiteKind::Spoilerplustv => "^https://spoilerplus\\.tv/[^/]+/[^/]+/$"@,
        SiteKind::MangaTopJp => "^https://mangatopjp\\.com/manga/[^/]+/[^/]+/$"@,
        SiteKind::Jmangaorg => "^https://jmanga\\.org/json/chapter\\?mode=vertical&id=\\d+$"@,
        SiteKind::RawkuroNet => "^https://rawkuro.net/manga/[^/]+/[^/]+$"@,
    }
}

/// The stable name of a source.
pub open spec fn site_name(site: SiteKind) -> Seq<char> {
    match site {
        SiteKind::Spoilerplustv => "spoilerplus.tv"@,
        SiteKind::MangaTopJp => "mangatopjp.com"@,
        SiteKind::Jmangaorg => "jmanga.org"@,
        SiteKind::RawkuroNet => "rawkuro.net"@,
    }
}

pub open spec fn handles_chapters(site: SiteKind, url: Seq<char>) -> bool {
    regex_matches(chapter_pattern(site), url)
}

pub open spec fn handles_images(site: SiteKind, url: Seq<char>) -> bool {
    regex_matches(image_pattern(site), url)
}

pub open spec fn chapter_handler(url: Seq<char>) -> spec_fn(SiteKind) -> bool {
    |s: SiteKind| handles_chapters(s, url)
}

pub open spec fn image_handler(url: Seq<char>) -> spec_fn(SiteKind) -> bool {
    |s: SiteKind| handles_images(s, url)
}

impl SiteKind {
    /// A stable name of the source, for diagnostics.
    pub fn name(&self) -> (r: String)
        ensures
            r@ == site_name(*self),
    {
        match self {
            SiteKind::Spoilerplustv => "spoilerplus.tv".to_string(),
            SiteKind::MangaTopJp => "mangatopjp.com".to_string(),
            SiteKind::Jmangaorg => "jmanga.org".to_string(),
            SiteKind::RawkuroNet => "rawkuro.net".to_string(),
        }
    }

    fn chapter_pattern_str(&self) -> (r: &'static str)
        ensures
            r@ == chapter_pattern(*self),
    {
        match self {
            SiteKind::Spoilerplustv => "^https://spoilerplus\\.tv/[^/]+/$",
            SiteKind::MangaTopJp => "^https://mangatopjp\\.com/manga/[^/]+/$",
            SiteKind::Jmangaorg => "^https://jmanga\\.org/read/[^/]+/$",
            SiteKind::RawkuroNet => "^https://rawkuro.net/manga/[^/]+$",
        }
    }

    fn image_pattern_str(&self) -> (r: &'static str)
        ensures
            r@ == image_pattern(*self),
    {
        match self {
            SiteKind::Spoilerplustv => "^https://spoilerplus\\.tv/[^/]+/[^/]+/$",
            SiteKind::MangaTopJp => "^https://mangatopjp\\.com/manga/[^/]+/[^/]+/$",
            SiteKind::Jmangaorg => "^https://jmanga\\.org/json/chapter\\?mode=vertical&id=\\d+$",
            SiteKind::RawkuroNet => "^https://rawkuro.net/manga/[^/]+/[^/]+$",
        }
    }

    /// Whether the source lists chapters for `url`.
    pub fn can_handle_chapters(&self, url: &str) -> (r: bool)
        ensures
            r == handles_chapters(*self, url@),
    {
        is_match(self.chapter_pattern_str(), url)
    }

    /// Whether the source lists images for `url`.
    pub fn can_handle_images(&self, url: &str) -> (r: bool)
        ensures
            r == handles_images(*self, url@),
    {
        is_match(self.image_pattern_str(), url)
    }

    /// Headers that fetches of this source's addresses must carry.
    pub fn request_headers(&self) -> (r: Vec<(String, String)>)
        ensures
            *self == SiteKind::Spoilerplustv ==> r@.len() == 1 && r@[0].0@ == "Referer"@
                && r@[0].1@ == "https://spoilerplus.tv/"@,
            *self != SiteKind::Spoilerplustv ==> r@.len() == 0,
    {
        let mut h: Vec<(String, String)> = Vec::new();
        match self {
            SiteKind::Spoilerplustv => {
                h.push(("Referer".to_string(), "https://spoilerplus.tv/".to_string()));
            },
            _ => {},
        }
        h
    }
}

/// What a source offers that does not need the network: its name, which
/// addresses it handles, and the headers its fetches need.
pub trait MangaSite {
    fn name(&self) -> String;

    fn can_handle_chapters(&self, url: &str) -> bool;

    fn can_handle_images(&self, url: &str) -> bool;

    fn request_headers(&self) -> Vec<(String, String)>;
}

impl MangaSite for SiteKind {
    fn name(&self) -> String {
        SiteKind::name(self)
    }

    fn can_handle_chapters(&self, url: &str) -> bool {
        SiteKind::can_handle_chapters(self, url)
    }

    fn can_handle_images(&self, url: &str) -> bool {
        SiteKind::can_handle_images(self, url)
    }

    fn request_headers(&self) -> Vec<(String, String)> {
        SiteKind::request_headers(self)
    }
}

/// The registry in dispatch order.
pub open spec fn registry() -> Seq<SiteKind> {
    seq![SiteKind::Spoilerplustv, SiteKind::MangaTopJp, SiteKind::Jmangaorg]
}

/// The registered sources, in the order in which they are tried.
pub fn supported_sites() -> (r: Vec<SiteKind>)
    ensures
        r@ == registry(),
{
    let r = vec![SiteKind::Spoilerplustv, SiteKind::MangaTopJp, SiteKind::Jmangaorg];
    assert(r@ =~= registry());
    r
}

/// The first source in `sites` that lists chapters for `url`; none when no
/// source does.
pub fn route_for_chapters(sites: &Vec<SiteKind>, url: &str) -> (r: Option<SiteKind>)
    ensures
        r == (match first_index(sites@, chapter_handler(url@)) {
            Some(i) => Some(sites@[i]),
            None => None,
        }),
{
    let mut i: usize = 0;
    while i < sites.len()
        invariant
            i <= sites.len(),
            forall|j: int| 0 <= j < i ==> !chapter_handler(url@)(#[trigger] sites@[j]),
        decreases sites.len() - i,
    {
        if sites[i].can_handle_chapters(url) {
            proof {
                crate::store::lemma_first_index_at(sites@, chapter_handler(url@), i as int);
            }
            return Some(sites[i]);
        }
        i = i + 1;
    }
    proof {
        crate::store::lemma_first_index_at(sites@, chapter_handler(url@), i as int);
    }
    None
}

/// The first source in `sites` that lists images for `url`; none when no
/// source does.
pub fn route_for_images(sites: &Vec<SiteKind>, url: &str) -> (r: Option<SiteKind>)
    ensures
        r == (match first_index(sites@, image_handler(url@)) {
            Some(i) => Some(sites@[i]),
            None => None,
        }),
{
    let mut i: usize = 0;
    while i < sites.len()
        invariant
            i <= sites.len(),
            forall|j: int| 0 <= j < i ==> !image_handler(url@)(#[trigger] sites@[j]),
        decreases sites.len() - i,
    {
        if sites[i].can_handle_images(url) {
            proof {
                crate::store::lemma_first_index_at(sites@, image_handler(url@), i as int);
            }
            return Some(sites[i]);
        }
        i = i + 1;
    }
    proof {
        crate::store::lemma_first_index_at(sites@, image_handler(url@), i as int);
    }
    None
}

/// The links of the sources that answered, in the order of the sources.
pub open spec fn answered_links(results: Seq<Result<Vec<Link>, MangaError>>) -> Seq<LinkView>
    decreases results.len(),
{
    if results.len() == 0 {
        Seq::empty()
    } else {
        answered_links(results.drop_last()) + match results.last() {
            Ok(v) => links_view(v@),
            Err(_) => Seq::empty(),
        }
    }
}

/// Every source failed, and there was at least one.
pub open spec fn all_failed(results: Seq<Result<Vec<Link>, MangaError>>) -> bool {
    results.len() > 0 && forall|i: int| 0 <= i < results.len() ==> (#[trigger] results[i]) is Err
}

/// Combines the answers of a search sent to every source, given in the
/// order of the sources: the links of those that answered, one after the
/// other. A failing source adds nothing; only when all failed is the search
/// a failure, with the last source's error.
pub fn combine_search_results(results: &Vec<Result<Vec<Link>, MangaError>>) -> (r: Result<
    Vec<Link>,
    MangaError,
>)
    ensures
        all_failed(results@) ==> r == results@.last(),
        !all_failed(results@) ==> (r matches Ok(v) && links_view(v@) == answered_links(results@)),
{
    let mut out: Vec<Link> = Vec::new();
    let mut any_ok = false;
    let mut i: usize = 0;
    while i < results.len()
        invariant
            i <= results.len(),
            links_view(out@) == answered_links(results@.take(i as int)),
            any_ok == exists|j: int| 0 <= j < i && (#[trigger] results@[j]) is Ok,
        decreases results.len() - i,
    {
        assert(results@.take(i + 1).drop_last() =~= results@.take(i as int));
        match &results[i] {
            Ok(links) => {
                let ghost before = out@;
                let mut k: usize = 0;
                while k < links.len()
                    invariant
                        k <= links.len(),
                        out@.len() == before.len() + k,
                        links_view(out@) == links_view(before) + links_view(links@.take(k as int)),
                    decreases links.len() - k,
                {
                    let ghost prev = out@;
                    let c = links[k].copy();
                    out.push(c);
                    assert(links@.take(k + 1) =~= links@.take(k as int).push(links@[k as int]));
                    assert(links_view(out@) =~= links_view(prev).push(c@));
                    assert(links_view(links@.take(k + 1)) =~= links_view(links@.take(k as int)).push(
                        links@[k as int]@,
                    ));
                    assert(links_view(out@) =~= links_view(before) + links_view(links@.take(k + 1)));
                    k = k + 1;
                }
                assert(links@.take(k as int) =~= links@);
                any_ok = true;
            },
            Err(_) => {
                assert(links_view(out@) =~= answered_links(results@.take(i + 1)));
            },
        }
        i = i + 1;
    }
    assert(results@.take(i as int) =~= results@);
    if !any_ok && results.len() > 0 {
        match &results[results.len() - 1] {
            Err(e) => Err(e.copy()),
            Ok(_) => Ok(out),
        }
    } else {
        Ok(out)
    }
}

} // verus!
