use resume_dock::page::Page;
use resume_dock::router::{breadcrumb, page_title, related_pages};

const ALL_PAGES: [Page; 12] = [
    Page::Home,
    Page::Help,
    Page::Contact,
    Page::Skills,
    Page::Experience,
    Page::Portfolio,
    Page::WorkHistory,
    Page::Education,
    Page::Goals,
    Page::Project1,
    Page::Project2,
    Page::Project3,
];

#[test]
fn titles_match_the_content_mapping() {
    assert_eq!(page_title(Page::Home), "Home");
    assert_eq!(page_title(Page::Help), "Help");
    assert_eq!(page_title(Page::Contact), "Contact");
    assert_eq!(page_title(Page::Skills), "Skills");
    assert_eq!(page_title(Page::Experience), "Experience");
    assert_eq!(page_title(Page::Portfolio), "Portfolio");
    assert_eq!(page_title(Page::WorkHistory), "Work History");
    assert_eq!(page_title(Page::Education), "Education");
    assert_eq!(page_title(Page::Goals), "Goals");
    assert_eq!(page_title(Page::Project1), "Markdown Editor");
    assert_eq!(page_title(Page::Project2), "Modular Programming Model");
    assert_eq!(page_title(Page::Project3), "EEV Data Model");
}

#[test]
fn titles_are_total_and_nonempty() {
    for p in ALL_PAGES {
        assert!(!page_title(p).is_empty());
    }
}

#[test]
fn related_links_match_the_footers() {
    assert_eq!(related_pages(Page::Home), vec![Page::Help, Page::Contact]);
    assert_eq!(related_pages(Page::Help), vec![Page::Home, Page::Contact]);
    assert_eq!(related_pages(Page::Contact), vec![Page::Help]);
    assert_eq!(related_pages(Page::Skills), vec![Page::Experience]);
    assert_eq!(
        related_pages(Page::Experience),
        vec![Page::Skills, Page::Portfolio, Page::WorkHistory]
    );
    assert_eq!(
        related_pages(Page::Portfolio),
        vec![Page::Experience, Page::WorkHistory]
    );
    assert_eq!(
        related_pages(Page::WorkHistory),
        vec![Page::Experience, Page::Portfolio]
    );
    assert_eq!(
        related_pages(Page::Education),
        vec![Page::Experience, Page::Portfolio]
    );
    assert_eq!(related_pages(Page::Goals), vec![Page::Skills, Page::Portfolio]);
    assert_eq!(
        related_pages(Page::Project1),
        vec![Page::Portfolio, Page::Skills]
    );
    assert_eq!(
        related_pages(Page::Project2),
        vec![Page::Portfolio, Page::Skills]
    );
    assert_eq!(
        related_pages(Page::Project3),
        vec![Page::Portfolio, Page::Skills]
    );
}

#[test]
fn related_links_never_point_at_their_own_page() {
    for p in ALL_PAGES {
        for r in related_pages(p) {
            assert_ne!(r, p);
        }
    }
}

#[test]
fn breadcrumbs_lead_home_and_end_at_the_page() {
    assert_eq!(breadcrumb(Page::Home), vec![Page::Home]);
    assert_eq!(breadcrumb(Page::Skills), vec![Page::Home, Page::Skills]);
    for p in ALL_PAGES {
        let trail = breadcrumb(p);
        assert_eq!(trail[0], Page::Home);
        assert_eq!(*trail.last().unwrap(), p);
    }
}
