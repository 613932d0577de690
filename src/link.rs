//! Locators: what a source reports about a piece of remote content.

use vstd::prelude::*;

verus! {

/// A piece of remote content: a display label, an address, and an optional
/// thumbnail address. Two links with equal addresses denote the same remote
/// entity.
#[derive(Debug)]
pub struct Link {
    pub text: String,
    pub url: String,
    pub image: Option<String>,
}

pub struct LinkView {
    pub text: Seq<char>,
    pub url: Seq<char>,
    pub image: Option<Seq<char>>,
}

pub open spec fn opt_view(o: Option<String>) -> Option<Seq<char>> {
    match o {
        Some(s) => Some(s@),
        None => None,
    }
}

pub fn copy_opt(o: &Option<String>) -> (r: Option<String>)
    ensures
        opt_view(r) == opt_view(*o),
{
    match o {
        Some(s) => Some(s.clone()),
        None => None,
    }
}

impl View for Link {
    type V = LinkView;

    open spec fn view(&self) -> LinkView {
        LinkView { text: self.text@, url: self.url@, image: opt_view(self.image) }
    }
}

impl Link {
    pub fn new(text: String, url: String, image: Option<String>) -> (r: Link)
        ensures
            r.text == text,
            r.url == url,
            r.image == image,
    {
        Link { text, url, image }
    }

    pub fn copy(&self) -> (r: Link)
        ensures
            r@ == self@,
    {
        Link { text: self.text.clone(), url: self.url.clone(), image: copy_opt(&self.image) }
    }
}

/// The views of a sequence of links.
pub open spec fn links_view(s: Seq<Link>) -> Seq<LinkView> {
    s.map_values(|l: Link| l@)
}

} // verus!
