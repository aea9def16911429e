//! The tab content router: the pure, total mapping from a page to its
//! display title, its breadcrumb trail, and the fixed list of related
//! pages its footer links to. Totality is enforced by exhaustive
//! matching: a page without an entry cannot compile.

use vstd::prelude::*;
use crate::page::Page;

verus! {

/// Display title of each page.
pub open spec fn title_spec(p: Page) -> Seq<char> {
    match p {
        Page::Home => "Home"@,
        Page::Help => "Help"@,
        Page::Contact => "Contact"@,
        Page::Skills => "Skills"@,
        Page::Experience => "Experience"@,
        Page::Portfolio => "Portfolio"@,
        Page::WorkHistory => "Work History"@,
        Page::Education => "Education"@,
        Page::Goals => "Goals"@,
        Page::Project1 => "Markdown Editor"@,
        Page::Project2 => "Modular Programming Model"@,
        Page::Project3 => "EEV Data Model"@,
    }
}

/// The title shown on a page's tab and heading.
pub fn page_title(p: Page) -> (t: &'static str)
    ensures
        t@ == title_spec(p),
{
    match p {
        Page::Home => "Home",
        Page::Help => "Help",
        Page::Contact => "Contact",
        Page::Skills => "Skills",
        Page::Experience => "Experience",
        Page::Portfolio => "Portfolio",
        Page::WorkHistory => "Work History",
        Page::Education => "Education",
        Page::Goals => "Goals",
        Page::Project1 => "Markdown Editor",
        Page::Project2 => "Modular Programming Model",
        Page::Project3 => "EEV Data Model",
    }
}

/// The hand-curated "Related:" links of each page's footer.
pub open spec fn related_spec(p: Page) -> Seq<Page> {
    match p {
        Page::Home => seq![Page::Help, Page::Contact],
        Page::Help => seq![Page::Home, Page::Contact],
        Page::Contact => seq![Page::Help],
        Page::Skills => seq![Page::Experience],
        Page::Experience => seq![Page::Skills, Page::Portfolio, Page::WorkHistory],
        Page::Portfolio => seq![Page::Experience, Page::WorkHistory],
        Page::WorkHistory => seq![Page::Experience, Page::Portfolio],
        Page::Education => seq![Page::Experience, Page::Portfolio],
        Page::Goals => seq![Page::Skills, Page::Portfolio],
        Page::Project1 => seq![Page::Portfolio, Page::Skills],
        Page::Project2 => seq![Page::Portfolio, Page::Skills],
        Page::Project3 => seq![Page::Portfolio, Page::Skills],
    }
}

/// The related pages a page's footer links to, in display order.
pub fn related_pages(p: Page) -> (v: Vec<Page>)
    ensures
        v@ == related_spec(p),
{
    let mut v: Vec<Page> = Vec::new();
    match p {
        Page::Home => {
            v.push(Page::Help);
            v.push(Page::Contact);
        },
        Page::Help => {
            v.push(Page::Home);
            v.push(Page::Contact);
        },
        Page::Contact => {
            v.push(Page::Help);
        },
        Page::Skills => {
            v.push(Page::Experience);
        },
        Page::Experience => {
            v.push(Page::Skills);
            v.push(Page::Portfolio);
            v.push(Page::WorkHistory);
        },
        Page::Portfolio => {
            v.push(Page::Experience);
            v.push(Page::WorkHistory);
        },
        Page::WorkHistory => {
            v.push(Page::Experience);
            v.push(Page::Portfolio);
        },
        Page::Education => {
            v.push(Page::Experience);
            v.push(Page::Portfolio);
        },
        Page::Goals => {
            v.push(Page::Skills);
            v.push(Page::Portfolio);
        },
        Page::Project1 => {
            v.push(Page::Portfolio);
            v.push(Page::Skills);
        },
        Page::Project2 => {
            v.push(Page::Portfolio);
            v.push(Page::Skills);
        },
        Page::Project3 => {
            v.push(Page::Portfolio);
            v.push(Page::Skills);
        },
    }
    proof {
        assert(v@ =~= related_spec(p));
    }
    v
}

/// Breadcrumb trail of a page's header: a "Home" shortcut ending in the
/// page itself.
pub open spec fn breadcrumb_spec(p: Page) -> Seq<Page> {
    if p == Page::Home {
        seq![Page::Home]
    } else {
        seq![Page::Home, p]
    }
}

/// The breadcrumb trail rendered in a page's header.
pub fn breadcrumb(p: Page) -> (v: Vec<Page>)
    ensures
        v@ == breadcrumb_spec(p),
{
    let mut v: Vec<Page> = Vec::new();
    v.push(Page::Home);
    if !matches!(p, Page::Home) {
        v.push(p);
    }
    proof {
        assert(v@ =~= breadcrumb_spec(p));
    }
    v
}

} // verus!
