//! Reading order of a chapter's images when a source hands them out in
//! numbered blocks.

use crate::store::{first_index, lemma_first_index_at};
use vstd::prelude::*;

verus! {

/// A block of images: its number and the image addresses in it, in order.
pub type Page = (u64, Vec<String>);

pub type PageView = (u64, Seq<String>);

pub open spec fn pages_view(pages: Seq<Page>) -> Seq<PageView> {
    pages.map_values(|p: Page| (p.0, p.1@))
}

pub open spec fn after(x: PageView) -> spec_fn(PageView) -> bool {
    |y: PageView| y.0 > x.0
}

/// Puts `x` into the ordered `s` behind every block whose number is not
/// larger than its own.
pub open spec fn place(s: Seq<PageView>, x: PageView) -> Seq<PageView> {
    match first_index(s, after(x)) {
        Some(k) => s.insert(k, x),
        None => s.push(x),
    }
}

/// The blocks ordered by number; blocks with equal numbers keep their order.
pub open spec fn by_number(s: Seq<PageView>) -> Seq<PageView>
    decreases s.len(),
{
    if s.len() == 0 {
        s
    } else {
        place(by_number(s.drop_last()), s.last())
    }
}

/// The image addresses of the blocks, one block after the other.
pub open spec fn flatten(s: Seq<PageView>) -> Seq<String>
    decreases s.len(),
{
    if s.len() == 0 {
        Seq::empty()
    } else {
        flatten(s.drop_last()) + s.last().1
    }
}

fn copy_strings(v: &Vec<String>) -> (r: Vec<String>)
    ensures
        r@ == v@,
{
    let mut r: Vec<String> = Vec::new();
    let mut i: usize = 0;
    while i < v.len()
        invariant
            i <= v.len(),
            r@ == v@.take(i as int),
        decreases v.len() - i,
    {
        r.push(v[i].clone());
        assert(v@.take(i + 1) =~= v@.take(i as int).push(v@[i as int]));
        i = i + 1;
    }
    assert(v@.take(i as int) =~= v@);
    r
}

/// The images of a chapter in reading order: the blocks ordered by number,
/// blocks with equal numbers in the order given, each block's images in its
/// own order.
pub fn pages_in_order(pages: &Vec<Page>) -> (r: Vec<String>)
    ensures
        r@ == flatten(by_number(pages_view(pages@))),
{
    let ghost pv = pages_view(pages@);
    let mut sorted: Vec<Page> = Vec::new();
    let mut i: usize = 0;
    proof {
        assert(pages_view(sorted@) =~= by_number(pv.take(0)));
    }
    while i < pages.len()
        invariant
            pv == pages_view(pages@),
            i <= pages.len(),
            pages_view(sorted@) == by_number(pv.take(i as int)),
        decreases pages.len() - i,
    {
        let ghost s = pages_view(sorted@);
        let ghost x = pv[i as int];
        let number = pages[i].0;
        let mut k: usize = 0;
        while k < sorted.len() && sorted[k].0 <= number
            invariant
                s == pages_view(sorted@),
                x.0 == number,
                k <= sorted.len(),
                forall|j: int| 0 <= j < k ==> !after(x)(#[trigger] s[j]),
            decreases sorted.len() - k,
        {
            k = k + 1;
        }
        proof {
            lemma_first_index_at(s, after(x), k as int);
            assert(pv.take(i + 1).drop_last() =~= pv.take(i as int));
        }
        let block = (number, copy_strings(&pages[i].1));
        sorted.insert(k, block);
        proof {
            if k < s.len() {
                assert(pages_view(sorted@) =~= s.insert(k as int, x));
            } else {
                assert(pages_view(sorted@) =~= s.push(x));
            }
        }
        i = i + 1;
    }
    proof {
        assert(pv.take(i as int) =~= pv);
    }
    let ghost sv = pages_view(sorted@);
    let mut out: Vec<String> = Vec::new();
    let mut j: usize = 0;
    while j < sorted.len()
        invariant
            sv == pages_view(sorted@),
            j <= sorted.len(),
            out@ == flatten(sv.take(j as int)),
        decreases sorted.len() - j,
    {
        let ghost before = out@;
        let mut k: usize = 0;
        while k < sorted[j].1.len()
            invariant
                sv == pages_view(sorted@),
                j < sorted.len(),
                k <= sorted@[j as int].1.len(),
                out@ == before + sorted@[j as int].1@.take(k as int),
            decreases sorted@[j as int].1.len() - k,
        {
            out.push(sorted[j].1[k].clone());
            assert(sorted@[j as int].1@.take(k + 1) =~= sorted@[j as int].1@.take(k as int).push(
                sorted@[j as int].1@[k as int],
            ));
            k = k + 1;
        }
        proof {
            assert(sorted@[j as int].1@.take(k as int) =~= sorted@[j as int].1@);
            assert(sv.take(j + 1).drop_last() =~= sv.take(j as int));
        }
        j = j + 1;
    }
    proof {
        assert(sv.take(j as int) =~= sv);
    }
    out
}

} // verus!
