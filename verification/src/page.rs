//! Page identifiers and navigation requests.
//!
//! `Page` is a closed, finite set of section identifiers with value
//! equality; `Request` is the deferred "open or focus this page" command
//! that content emits during a render pass.

use vstd::prelude::*;

verus! {

/// One resume section. Equality is by value: two `Page` values naming the
/// same section are interchangeable for lookup purposes.
#[derive(Clone, Copy, Debug, PartialEq, Eq, Structural)]
pub enum Page {
    Home,
    Help,
    Contact,
    Skills,
    Experience,
    Portfolio,
    WorkHistory,
    Education,
    Goals,
    Project1,
    Project2,
    Project3,
}

/// A deferred navigation command, consumed exactly once during resolution.
#[derive(Clone, Copy, Debug, PartialEq, Eq, Structural)]
pub enum Request {
    OpenPage(Page),
}

impl Request {
    /// The page this request asks to open or focus.
    pub open spec fn page_spec(self) -> Page {
        match self {
            Request::OpenPage(p) => p,
        }
    }

    /// Executable accessor for the requested page.
    pub fn page(&self) -> (p: Page)
        ensures
            p == self.page_spec(),
    {
        match self {
            Request::OpenPage(p) => *p,
        }
    }
}

/// The number of distinct `Page` values.
pub const PAGE_COUNT: usize = 12;

/// The full set of page identifiers.
pub open spec fn all_pages() -> Set<Page> {
    set![
        Page::Home,
        Page::Help,
        Page::Contact,
        Page::Skills,
        Page::Experience,
        Page::Portfolio,
        Page::WorkHistory,
        Page::Education,
        Page::Goals,
        Page::Project1,
        Page::Project2,
        Page::Project3,
    ]
}

/// Every page belongs to the universe `all_pages()`.
pub proof fn lemma_all_pages_complete(p: Page)
    ensures
        all_pages().contains(p),
{
    match p {
        Page::Home => assert(all_pages().contains(Page::Home)),
        Page::Help => assert(all_pages().contains(Page::Help)),
        Page::Contact => assert(all_pages().contains(Page::Contact)),
        Page::Skills => assert(all_pages().contains(Page::Skills)),
        Page::Experience => assert(all_pages().contains(Page::Experience)),
        Page::Portfolio => assert(all_pages().contains(Page::Portfolio)),
        Page::WorkHistory => assert(all_pages().contains(Page::WorkHistory)),
        Page::Education => assert(all_pages().contains(Page::Education)),
        Page::Goals => assert(all_pages().contains(Page::Goals)),
        Page::Project1 => assert(all_pages().contains(Page::Project1)),
        Page::Project2 => assert(all_pages().contains(Page::Project2)),
        Page::Project3 => assert(all_pages().contains(Page::Project3)),
    }
}

/// The page universe is finite and holds exactly `PAGE_COUNT` pages.
pub proof fn lemma_all_pages_card()
    ensures
        all_pages().finite(),
        all_pages().len() == PAGE_COUNT,
{
}

/// A sequence of pairwise-distinct pages can never be longer than the
/// page universe itself.
pub proof fn lemma_distinct_pages_bounded(s: Seq<Page>)
    requires
        s.no_duplicates(),
    ensures
        s.len() <= PAGE_COUNT,
{
    s.unique_seq_to_set();
    assert forall|p: Page| s.to_set().contains(p) implies all_pages().contains(p) by {
        lemma_all_pages_complete(p);
    }
    lemma_all_pages_card();
    vstd::set_lib::lemma_len_subset(s.to_set(), all_pages());
}

} // verus!
