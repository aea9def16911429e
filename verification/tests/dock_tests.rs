use resume_dock::dock::{DockState, Orientation, SplitDirection};
use resume_dock::nav::initial_layout;
use resume_dock::page::Page;

#[test]
fn seeded_layout_geometry() {
    let (dock, viewer) = initial_layout();
    assert_eq!(dock.leaf_count(), 3);
    assert_eq!(dock.tabs_of(0), vec![Page::Contact]);
    assert_eq!(dock.tabs_of(1), vec![Page::Help]);
    assert_eq!(dock.tabs_of(2), vec![Page::Home]);
    assert_eq!(dock.active_of(0), Some(0));
    assert_eq!(dock.active_of(1), Some(0));
    assert_eq!(dock.active_of(2), Some(0));
    assert_eq!(dock.focused_leaf(), 1);
    assert_eq!(viewer.highlight(), Some(Page::Help));
    assert_eq!(viewer.pending(), 0);
    let mut ratios = dock.ratio_values();
    ratios.sort();
    assert_eq!(ratios, vec![300, 500]);
}

#[test]
fn find_tab_locates_every_open_page() {
    let (dock, _viewer) = initial_layout();
    assert_eq!(dock.find_tab(Page::Contact), Some((0, 0)));
    assert_eq!(dock.find_tab(Page::Help), Some((1, 0)));
    assert_eq!(dock.find_tab(Page::Home), Some((2, 0)));
    assert_eq!(dock.find_tab(Page::Skills), None);
    assert_eq!(dock.find_tab(Page::Project3), None);
}

#[test]
fn find_tab_reports_index_within_leaf() {
    let mut dock = DockState::new(vec![Page::Home]);
    dock.push_to_focused_leaf(Page::Skills);
    dock.push_to_focused_leaf(Page::Goals);
    assert_eq!(dock.find_tab(Page::Home), Some((0, 0)));
    assert_eq!(dock.find_tab(Page::Skills), Some((0, 1)));
    assert_eq!(dock.find_tab(Page::Goals), Some((0, 2)));
}

#[test]
fn set_active_tab_round_trip() {
    let mut dock = DockState::new(vec![Page::Home]);
    dock.push_to_focused_leaf(Page::Skills);
    dock.push_to_focused_leaf(Page::Goals);
    let (leaf, idx) = dock.find_tab(Page::Skills).unwrap();
    dock.set_active_tab(leaf, idx);
    assert_eq!(dock.active_of(leaf), Some(idx));
    assert_eq!(dock.active_page_of(leaf), Some(Page::Skills));
}

#[test]
fn set_active_tab_out_of_range_is_a_no_op() {
    let mut dock = DockState::new(vec![Page::Home, Page::Skills]);
    dock.set_active_tab(0, 7);
    assert_eq!(dock.active_of(0), Some(0));
    dock.set_active_tab(9, 0);
    assert_eq!(dock.active_of(0), Some(0));
    assert_eq!(dock.leaf_count(), 1);
}

#[test]
fn push_to_focused_leaf_appends_and_activates() {
    let mut dock = DockState::new(vec![Page::Home]);
    dock.push_to_focused_leaf(Page::Contact);
    assert_eq!(dock.tabs_of(0), vec![Page::Home, Page::Contact]);
    assert_eq!(dock.active_of(0), Some(1));
}

#[test]
fn split_ratio_is_clamped_into_bounds() {
    // Requested shares below 5% or above 95% are pulled to the floor.
    let mut dock = DockState::new(vec![Page::Home]);
    dock.split(0, SplitDirection::Left, 5, vec![Page::Contact]);
    assert_eq!(dock.ratio_values(), vec![50]);

    let mut dock2 = DockState::new(vec![Page::Home]);
    dock2.split(0, SplitDirection::Right, 999, vec![Page::Contact]);
    assert_eq!(dock2.ratio_values(), vec![950]);

    let mut dock3 = DockState::new(vec![Page::Home]);
    dock3.split(0, SplitDirection::Above, 421, vec![Page::Contact]);
    assert_eq!(dock3.ratio_values(), vec![421]);
}

#[test]
fn split_places_new_leaf_on_requested_side() {
    let mut dock = DockState::new(vec![Page::Home]);
    dock.split(0, SplitDirection::Below, 500, vec![Page::Help]);
    assert_eq!(dock.tabs_of(0), vec![Page::Home]);
    assert_eq!(dock.tabs_of(1), vec![Page::Help]);
    assert_eq!(dock.focused_leaf(), 1);

    let mut dock2 = DockState::new(vec![Page::Home]);
    dock2.split(0, SplitDirection::Above, 500, vec![Page::Help]);
    assert_eq!(dock2.tabs_of(0), vec![Page::Help]);
    assert_eq!(dock2.tabs_of(1), vec![Page::Home]);
    assert_eq!(dock2.focused_leaf(), 0);
}

#[test]
fn split_direction_decides_orientation() {
    let mut dock = DockState::new(vec![Page::Home]);
    dock.split(0, SplitDirection::Left, 300, vec![Page::Contact]);
    assert_eq!(dock.orientation_values(), vec![Orientation::Horizontal]);
    dock.split(1, SplitDirection::Below, 500, vec![Page::Help]);
    let orients = dock.orientation_values();
    assert_eq!(orients.len(), 2);
    assert!(orients.contains(&Orientation::Horizontal));
    assert!(orients.contains(&Orientation::Vertical));
}

#[test]
fn close_tab_removes_within_leaf() {
    let mut dock = DockState::new(vec![Page::Home]);
    dock.push_to_focused_leaf(Page::Skills);
    dock.push_to_focused_leaf(Page::Goals);
    dock.close_tab(0, 1);
    assert_eq!(dock.tabs_of(0), vec![Page::Home, Page::Goals]);
    assert_eq!(dock.find_tab(Page::Skills), None);
}

#[test]
fn close_tab_out_of_range_is_a_no_op() {
    let (mut dock, _viewer) = initial_layout();
    dock.close_tab(7, 0);
    dock.close_tab(0, 7);
    assert_eq!(dock.leaf_count(), 3);
    assert_eq!(dock.tabs_of(0), vec![Page::Contact]);
}

#[test]
fn closing_last_tab_prunes_the_leaf() {
    let (mut dock, _viewer) = initial_layout();
    assert_eq!(dock.leaf_count(), 3);
    dock.close_tab(1, 0);
    // The Help leaf is gone; no empty leaf survives.
    assert_eq!(dock.leaf_count(), 2);
    assert_eq!(dock.tabs_of(0), vec![Page::Contact]);
    assert_eq!(dock.tabs_of(1), vec![Page::Home]);
    assert_eq!(dock.find_tab(Page::Help), None);
    for l in 0..dock.leaf_count() {
        assert!(!dock.tabs_of(l).is_empty());
    }
}

#[test]
fn repeated_pruning_leaves_no_empty_leaf() {
    let (mut dock, _viewer) = initial_layout();
    dock.close_tab(1, 0);
    dock.close_tab(0, 0);
    assert_eq!(dock.leaf_count(), 1);
    assert_eq!(dock.tabs_of(0), vec![Page::Home]);
    // Only the lone root leaf may end up empty: no split remains.
    dock.close_tab(0, 0);
    assert_eq!(dock.leaf_count(), 1);
    assert!(dock.tabs_of(0).is_empty());
    assert_eq!(dock.ratio_values(), Vec::<u32>::new());
}

#[test]
fn move_last_tab_collapses_parent_split() {
    // Move the only tab out of the Help leaf into the Contact leaf:
    // the Help leaf is pruned, its parent split collapses, and the
    // depth along that path shrinks by one.
    let (mut dock, _viewer) = initial_layout();
    assert_eq!(dock.leaf_depth(0), 2);
    assert_eq!(dock.leaf_depth(1), 2);
    assert_eq!(dock.leaf_depth(2), 1);
    let before_splits = dock.ratio_values().len();
    dock.move_tab(1, 0, 0, 1);
    assert_eq!(dock.leaf_count(), 2);
    assert_eq!(dock.tabs_of(0), vec![Page::Contact, Page::Help]);
    assert_eq!(dock.tabs_of(1), vec![Page::Home]);
    assert_eq!(dock.leaf_depth(0), 1);
    assert_eq!(dock.leaf_depth(1), 1);
    assert_eq!(dock.ratio_values().len(), before_splits - 1);
    assert_eq!(dock.active_of(0), Some(1));
    assert_eq!(dock.find_tab(Page::Help), Some((0, 1)));
}

#[test]
fn move_tab_between_leaves_keeps_source_when_not_emptied() {
    let (mut dock, _viewer) = initial_layout();
    dock.push_to_focused_leaf(Page::Skills);
    assert_eq!(dock.tabs_of(1), vec![Page::Help, Page::Skills]);
    dock.move_tab(1, 0, 2, 0);
    assert_eq!(dock.leaf_count(), 3);
    assert_eq!(dock.tabs_of(1), vec![Page::Skills]);
    assert_eq!(dock.tabs_of(2), vec![Page::Help, Page::Home]);
    assert_eq!(dock.active_of(2), Some(0));
}

#[test]
fn move_tab_within_leaf_reorders() {
    let mut dock = DockState::new(vec![Page::Home]);
    dock.push_to_focused_leaf(Page::Skills);
    dock.push_to_focused_leaf(Page::Goals);
    dock.move_tab(0, 0, 0, 2);
    assert_eq!(dock.tabs_of(0), vec![Page::Skills, Page::Goals, Page::Home]);
    assert_eq!(dock.active_of(0), Some(2));
}

#[test]
fn move_tab_onto_its_own_position_changes_nothing() {
    let mut dock = DockState::new(vec![Page::Home]);
    dock.push_to_focused_leaf(Page::Skills);
    dock.move_tab(0, 1, 0, 1);
    assert_eq!(dock.tabs_of(0), vec![Page::Home, Page::Skills]);
    assert_eq!(dock.leaf_count(), 1);
}
