//! A verified docking/tab-layout engine for a single-window resume viewer.
//!
//! The library models a binary tree of panes whose leaves hold ordered tabs
//! of resume pages, together with the navigation protocol that opens or
//! focuses pages against that tree. The central invariant: no page is ever
//! open in two places at once, and no operation leaves an empty pane
//! behind under a split.

pub mod page;
pub mod dock;
pub mod nav;
pub mod router;
pub mod anim;
