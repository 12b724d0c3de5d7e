//! One output per content page.

use vstd::prelude::*;
use crate::output::{Body, Output, OutputKind};
use crate::page::Page;
use crate::template::{page_template_of, render_page, TemplateContext};

verus! {

/// `o` is the output of content page `p`: `page.html` at the page's slug.
pub open spec fn is_page_output(o: Output, p: Page) -> bool {
    &&& o.kind matches OutputKind::Page { slug, date } && slug@ == p.slug@ && date == p.date
    &&& o.body matches Body::Template { name, context: TemplateContext::Page(t) } && name@
        == "page.html"@ && page_template_of(t, p)
}

/// One `page.html` output per page, in page order.
pub fn build(pages: &Vec<Page>) -> (r: Vec<Output>)
    ensures
        r@.len() == pages@.len(),
        forall|i: int| 0 <= i < pages@.len() ==> is_page_output(#[trigger] r@[i], pages@[i]),
{
    let mut r: Vec<Output> = Vec::new();
    let mut i: usize = 0;
    while i < pages.len()
        invariant
            i <= pages@.len(),
            r@.len() == i,
            forall|k: int| 0 <= k < i ==> is_page_output(#[trigger] r@[k], pages@[k]),
        decreases pages@.len() - i,
    {
        r.push(render_page(&pages[i]));
        i += 1;
    }
    r
}

} // verus!
