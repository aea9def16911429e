use resume_dock::dock::DockState;
use resume_dock::nav::{initial_layout, resolve_one, resolve_requests, PageViewer, State};
use resume_dock::page::{Page, Request};

#[test]
fn state_queue_collects_requests_in_order() {
    let mut state = State::new();
    assert_eq!(state.pending(), 0);
    state.push(Request::OpenPage(Page::Help));
    state.push(Request::OpenPage(Page::Contact));
    assert_eq!(state.pending(), 2);
}

#[test]
fn open_existing_page_focuses_it() {
    // Seeded layout; submitting the Contact page focuses its existing
    // tab, touches no other leaf, creates nothing, and highlights it.
    let (mut dock, mut viewer) = initial_layout();
    viewer.request_open(Page::Contact);
    resolve_requests(&mut dock, &mut viewer);
    assert_eq!(dock.leaf_count(), 3);
    assert_eq!(dock.tabs_of(0), vec![Page::Contact]);
    assert_eq!(dock.tabs_of(1), vec![Page::Help]);
    assert_eq!(dock.tabs_of(2), vec![Page::Home]);
    assert_eq!(dock.active_page_of(0), Some(Page::Contact));
    assert_eq!(dock.active_page_of(2), Some(Page::Home));
    assert_eq!(viewer.highlight(), Some(Page::Contact));
    assert_eq!(viewer.pending(), 0);
}

#[test]
fn open_new_page_appends_to_focused_leaf() {
    // Skills is not open: a new tab lands in the focused leaf (the Help
    // leaf of the seeded layout), becomes active, and is found there.
    let (mut dock, mut viewer) = initial_layout();
    assert_eq!(dock.find_tab(Page::Skills), None);
    viewer.request_open(Page::Skills);
    resolve_requests(&mut dock, &mut viewer);
    assert_eq!(dock.leaf_count(), 3);
    assert_eq!(dock.tabs_of(1), vec![Page::Help, Page::Skills]);
    assert_eq!(dock.active_of(1), Some(1));
    assert_eq!(dock.find_tab(Page::Skills), Some((1, 1)));
    // Inserting does not touch the highlight.
    assert_eq!(viewer.highlight(), Some(Page::Help));
}

#[test]
fn resolution_never_duplicates_a_page() {
    let (mut dock, mut viewer) = initial_layout();
    viewer.request_open(Page::Skills);
    viewer.request_open(Page::Contact);
    viewer.request_open(Page::Skills);
    viewer.request_open(Page::Skills);
    viewer.request_open(Page::Help);
    resolve_requests(&mut dock, &mut viewer);
    // Each page is open exactly once across the whole tree.
    let mut seen: Vec<Page> = Vec::new();
    for l in 0..dock.leaf_count() {
        for p in dock.tabs_of(l) {
            assert!(!seen.contains(&p), "page open twice: {:?}", p);
            seen.push(p);
        }
    }
    assert_eq!(dock.tabs_of(1), vec![Page::Help, Page::Skills]);
    assert_eq!(dock.leaf_count(), 3);
}

#[test]
fn focus_precedence_over_insertion() {
    // A page already open is focused, not re-inserted, wherever the
    // request comes from.
    let (mut dock, mut viewer) = initial_layout();
    let before = dock.leaf_count();
    viewer.request_open(Page::Home);
    resolve_requests(&mut dock, &mut viewer);
    assert_eq!(dock.leaf_count(), before);
    assert_eq!(dock.tabs_of(2), vec![Page::Home]);
    assert_eq!(viewer.highlight(), Some(Page::Home));
}

#[test]
fn repeated_requests_for_one_page_collapse() {
    // Several requests for the same page in one pass end as one open
    // tab, focused; net effect of the last one processed.
    let (mut dock, mut viewer) = initial_layout();
    viewer.request_open(Page::Goals);
    viewer.request_open(Page::Goals);
    viewer.request_open(Page::Goals);
    resolve_requests(&mut dock, &mut viewer);
    assert_eq!(dock.tabs_of(1), vec![Page::Help, Page::Goals]);
    assert_eq!(dock.find_tab(Page::Goals), Some((1, 1)));
    // The later requests focused the tab the first one inserted.
    assert_eq!(viewer.highlight(), Some(Page::Goals));
}

#[test]
fn resolve_one_inserts_then_focuses() {
    let mut dock = DockState::new(vec![Page::Home]);
    let mut viewer = PageViewer::new(None);
    resolve_one(&mut dock, &mut viewer, Request::OpenPage(Page::Contact));
    assert_eq!(dock.tabs_of(0), vec![Page::Home, Page::Contact]);
    assert_eq!(viewer.highlight(), None);
    resolve_one(&mut dock, &mut viewer, Request::OpenPage(Page::Contact));
    assert_eq!(dock.tabs_of(0), vec![Page::Home, Page::Contact]);
    assert_eq!(viewer.highlight(), Some(Page::Contact));
}

#[test]
fn queue_is_cleared_even_when_nothing_changes() {
    let (mut dock, mut viewer) = initial_layout();
    viewer.request_open(Page::Home);
    viewer.request_open(Page::Home);
    resolve_requests(&mut dock, &mut viewer);
    assert_eq!(viewer.pending(), 0);
    resolve_requests(&mut dock, &mut viewer);
    assert_eq!(viewer.pending(), 0);
    assert_eq!(dock.leaf_count(), 3);
}

#[test]
fn request_accessor_returns_its_page() {
    let r = Request::OpenPage(Page::Education);
    assert_eq!(r.page(), Page::Education);
}
