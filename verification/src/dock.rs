//! The pane tree: a binary tree of splits over leaf panes, each leaf
//! holding an ordered sequence of open tabs and an active-tab index.
//!
//! Leaves are addressed by their ordinal in left-to-right order. The tree
//! keeps three invariants: no page is open in two places at once, every
//! leaf under a split holds at least one tab (only a lone root leaf may be
//! empty), and every split ratio stays inside the minimum-visible-size
//! bounds.

use vstd::prelude::*;
use crate::page::{Page, PAGE_COUNT, lemma_distinct_pages_bounded};

verus! {

/// Axis of a split: `Horizontal` places the children side by side,
/// `Vertical` stacks them.
#[derive(Clone, Copy, Debug, PartialEq, Eq, Structural)]
pub enum Orientation {
    Horizontal,
    Vertical,
}

/// Where the freshly created leaf of a `split` goes, relative to the leaf
/// being split.
#[derive(Clone, Copy, Debug, PartialEq, Eq, Structural)]
pub enum SplitDirection {
    Left,
    Right,
    Above,
    Below,
}

/// Ratios are stored in per-mille of the region given to the first
/// (left or top) child.
pub const RATIO_SCALE: u32 = 1000;

/// No pane may take less than this share of its split, so that no region
/// ever becomes invisibly small.
pub const MIN_RATIO: u32 = 50;

/// One node of the pane tree.
pub enum PaneNode {
    /// An inner node dividing its region between two children.
    Split {
        orientation: Orientation,
        /// Share of the first child, in per-mille; always within
        /// `[MIN_RATIO, RATIO_SCALE - MIN_RATIO]` in a well-formed tree.
        ratio: u32,
        first: Box<PaneNode>,
        second: Box<PaneNode>,
    },
    /// A pane holding the ordered open tabs; `active` indexes the visible
    /// tab and is kept at 0 while the leaf is (transiently) empty.
    Leaf { tabs: Vec<Page>, active: usize },
}

/// The tab sequences of all leaves, in left-to-right leaf order.
pub open spec fn leaf_tabs(n: PaneNode) -> Seq<Seq<Page>>
    decreases n,
{
    match n {
        PaneNode::Leaf { tabs, .. } => seq![tabs@],
        PaneNode::Split { first, second, .. } => leaf_tabs(*first) + leaf_tabs(*second),
    }
}

/// The active-tab index of each leaf, in leaf order.
pub open spec fn leaf_actives(n: PaneNode) -> Seq<int>
    decreases n,
{
    match n {
        PaneNode::Leaf { active, .. } => seq![active as int],
        PaneNode::Split { first, second, .. } => leaf_actives(*first) + leaf_actives(*second),
    }
}

/// Every open tab of the subtree, in leaf order.
pub open spec fn all_tabs(n: PaneNode) -> Seq<Page>
    decreases n,
{
    match n {
        PaneNode::Leaf { tabs, .. } => tabs@,
        PaneNode::Split { first, second, .. } => all_tabs(*first) + all_tabs(*second),
    }
}

/// Number of leaves of the subtree.
pub open spec fn num_leaves(n: PaneNode) -> int {
    leaf_tabs(n).len() as int
}

/// The stored ratio of every split of the subtree, in node order.
pub open spec fn split_ratios(n: PaneNode) -> Seq<int>
    decreases n,
{
    match n {
        PaneNode::Leaf { .. } => seq![],
        PaneNode::Split { ratio, first, second, .. } => seq![ratio as int] + split_ratios(*first)
            + split_ratios(*second),
    }
}

/// The stored orientation of every split of the subtree, in node order.
pub open spec fn split_orients(n: PaneNode) -> Seq<Orientation>
    decreases n,
{
    match n {
        PaneNode::Leaf { .. } => seq![],
        PaneNode::Split { orientation, first, second, .. } => seq![orientation] + split_orients(
            *first,
        ) + split_orients(*second),
    }
}

/// The split axis a drop direction asks for: side by side for `Left` and
/// `Right`, stacked for `Above` and `Below`.
pub open spec fn orientation_of(direction: SplitDirection) -> Orientation {
    match direction {
        SplitDirection::Left | SplitDirection::Right => Orientation::Horizontal,
        SplitDirection::Above | SplitDirection::Below => Orientation::Vertical,
    }
}

/// Depth of each leaf below this node, in leaf order.
pub open spec fn leaf_depths(n: PaneNode) -> Seq<int>
    decreases n,
{
    match n {
        PaneNode::Leaf { .. } => seq![0],
        PaneNode::Split { first, second, .. } => (leaf_depths(*first) + leaf_depths(
            *second,
        )).map_values(|d: int| d + 1),
    }
}

/// Every leaf of the subtree holds at least one tab.
pub open spec fn leaves_nonempty(n: PaneNode) -> bool
    decreases n,
{
    match n {
        PaneNode::Leaf { tabs, .. } => tabs@.len() > 0,
        PaneNode::Split { first, second, .. } => leaves_nonempty(*first) && leaves_nonempty(
            *second,
        ),
    }
}

/// Structural well-formedness of a subtree: active indices in range,
/// ratios within bounds, and no empty leaf below any split.
pub open spec fn node_wf(n: PaneNode) -> bool
    decreases n,
{
    match n {
        PaneNode::Leaf { tabs, active } => if tabs@.len() == 0 {
            active == 0
        } else {
            active < tabs@.len()
        },
        PaneNode::Split { ratio, first, second, .. } => {
            &&& MIN_RATIO <= ratio
            &&& ratio + MIN_RATIO <= RATIO_SCALE
            &&& node_wf(*first)
            &&& node_wf(*second)
            &&& leaves_nonempty(*first)
            &&& leaves_nonempty(*second)
        },
    }
}

/// Two trees with the same split skeleton (orientations and ratios
/// included); the leaf contents may differ.
pub open spec fn same_shape(a: PaneNode, b: PaneNode) -> bool
    decreases a,
{
    match (a, b) {
        (PaneNode::Leaf { .. }, PaneNode::Leaf { .. }) => true,
        (
            PaneNode::Split { orientation: o1, ratio: r1, first: f1, second: s1 },
            PaneNode::Split { orientation: o2, ratio: r2, first: f2, second: s2 },
        ) => o1 == o2 && r1 == r2 && same_shape(*f1, *f2) && same_shape(*s1, *s2),
        _ => false,
    }
}

// ------------------------------------------------------------------
// Lemmas about the tree model.
// ------------------------------------------------------------------

/// Membership in a concatenation splits into membership in a part.
proof fn lemma_concat_contains<A>(a: Seq<A>, b: Seq<A>, x: A)
    ensures
        (a + b).contains(x) <==> a.contains(x) || b.contains(x),
{
    if (a + b).contains(x) {
        let k = choose|k: int| 0 <= k < (a + b).len() && (a + b)[k] == x;
        if k < a.len() {
            assert(a[k] == x);
        } else {
            assert(b[k - a.len()] == x);
        }
    }
    if a.contains(x) {
        let k = choose|k: int| 0 <= k < a.len() && a[k] == x;
        assert((a + b)[k] == x);
    }
    if b.contains(x) {
        let k = choose|k: int| 0 <= k < b.len() && b[k] == x;
        assert((a + b)[a.len() + k] == x);
    }
}

/// A duplicate-free concatenation has duplicate-free, disjoint parts.
proof fn lemma_no_dup_concat<A>(a: Seq<A>, b: Seq<A>)
    requires
        (a + b).no_duplicates(),
    ensures
        a.no_duplicates(),
        b.no_duplicates(),
        forall|x: A| !(a.contains(x) && b.contains(x)),
{
    assert forall|i: int, j: int| 0 <= i < a.len() && 0 <= j < a.len() && i != j implies a[i]
        != a[j] by {
        assert((a + b)[i] == a[i]);
        assert((a + b)[j] == a[j]);
    }
    assert forall|i: int, j: int| 0 <= i < b.len() && 0 <= j < b.len() && i != j implies b[i]
        != b[j] by {
        assert((a + b)[a.len() + i] == b[i]);
        assert((a + b)[a.len() + j] == b[j]);
    }
    assert forall|x: A| !(a.contains(x) && b.contains(x)) by {
        if a.contains(x) && b.contains(x) {
            let i = choose|i: int| 0 <= i < a.len() && a[i] == x;
            let j = choose|j: int| 0 <= j < b.len() && b[j] == x;
            assert((a + b)[i] == x);
            assert((a + b)[a.len() + j] == x);
        }
    }
}

/// `same_shape` is reflexive.
pub proof fn lemma_same_shape_refl(n: PaneNode)
    ensures
        same_shape(n, n),
    decreases n,
{
    match n {
        PaneNode::Leaf { .. } => {},
        PaneNode::Split { first, second, .. } => {
            lemma_same_shape_refl(*first);
            lemma_same_shape_refl(*second);
        },
    }
}

/// `same_shape` is transitive.
pub proof fn lemma_same_shape_trans(a: PaneNode, b: PaneNode, c: PaneNode)
    requires
        same_shape(a, b),
        same_shape(b, c),
    ensures
        same_shape(a, c),
    decreases a,
{
    match (a, b, c) {
        (
            PaneNode::Split { first: f1, second: s1, .. },
            PaneNode::Split { first: f2, second: s2, .. },
            PaneNode::Split { first: f3, second: s3, .. },
        ) => {
            lemma_same_shape_trans(*f1, *f2, *f3);
            lemma_same_shape_trans(*s1, *s2, *s3);
        },
        _ => {},
    }
}

/// Trees of the same shape store the same split ratios.
pub proof fn lemma_same_shape_ratios(a: PaneNode, b: PaneNode)
    requires
        same_shape(a, b),
    ensures
        split_ratios(a) == split_ratios(b),
    decreases a,
{
    match (a, b) {
        (
            PaneNode::Split { first: f1, second: s1, .. },
            PaneNode::Split { first: f2, second: s2, .. },
        ) => {
            lemma_same_shape_ratios(*f1, *f2);
            lemma_same_shape_ratios(*s1, *s2);
        },
        _ => {},
    }
}

/// The model keeps one depth per leaf.
pub proof fn lemma_depths_len(n: PaneNode)
    ensures
        leaf_depths(n).len() == leaf_tabs(n).len(),
    decreases n,
{
    match n {
        PaneNode::Leaf { .. } => {},
        PaneNode::Split { first, second, .. } => {
            lemma_depths_len(*first);
            lemma_depths_len(*second);
        },
    }
}

/// The model keeps one active index per leaf.
pub proof fn lemma_actives_len(n: PaneNode)
    ensures
        leaf_actives(n).len() == leaf_tabs(n).len(),
    decreases n,
{
    match n {
        PaneNode::Leaf { .. } => {},
        PaneNode::Split { first, second, .. } => {
            lemma_actives_len(*first);
            lemma_actives_len(*second);
        },
    }
}

/// Adding one fresh element keeps a sequence duplicate-free, whatever
/// position it lands in.
proof fn lemma_no_dup_after_insert<A>(s: Seq<A>, t: Seq<A>, p: A)
    requires
        s.no_duplicates(),
        !s.contains(p),
        t.to_multiset() == s.to_multiset().insert(p),
    ensures
        t.no_duplicates(),
        forall|q: A| t.contains(q) <==> s.contains(q) || q == p,
{
    broadcast use vstd::seq_lib::group_to_multiset_ensures;
    broadcast use vstd::multiset::group_multiset_axioms;

    s.lemma_multiset_has_no_duplicates();
    assert(s.to_multiset().count(p) == 0);
    assert forall|x: A| t.to_multiset().contains(x) implies t.to_multiset().count(x) == 1 by {
        if x != p {
            assert(t.to_multiset().count(x) == s.to_multiset().count(x));
        }
    }
    t.lemma_multiset_has_no_duplicates_conv();
    assert forall|q: A| t.contains(q) <==> s.contains(q) || q == p by {
        assert(t.contains(q) <==> t.to_multiset().count(q) > 0);
        assert(s.contains(q) <==> s.to_multiset().count(q) > 0);
        if q == p {
            assert(t.to_multiset().count(q) == s.to_multiset().count(q) + 1);
        } else {
            assert(t.to_multiset().count(q) == s.to_multiset().count(q));
        }
    }
}

/// Removing one occurrence keeps a sequence duplicate-free; membership
/// shrinks by exactly the removed element.
proof fn lemma_no_dup_after_remove<A>(s: Seq<A>, t: Seq<A>, p: A)
    requires
        s.no_duplicates(),
        s.contains(p),
        t.to_multiset() == s.to_multiset().remove(p),
    ensures
        t.no_duplicates(),
        forall|q: A| t.contains(q) <==> s.contains(q) && q != p,
{
    broadcast use vstd::seq_lib::group_to_multiset_ensures;
    broadcast use vstd::multiset::group_multiset_axioms;

    s.lemma_multiset_has_no_duplicates();
    assert(s.to_multiset().count(p) == 1);
    assert forall|x: A| t.to_multiset().contains(x) implies t.to_multiset().count(x) == 1 by {
        if x != p {
            assert(t.to_multiset().count(x) == s.to_multiset().count(x));
        }
    }
    t.lemma_multiset_has_no_duplicates_conv();
    assert forall|q: A| t.contains(q) <==> s.contains(q) && q != p by {
        assert(t.contains(q) <==> t.to_multiset().count(q) > 0);
        assert(s.contains(q) <==> s.to_multiset().count(q) > 0);
        if q == p {
            assert(t.to_multiset().count(q) == 0);
        } else {
            assert(t.to_multiset().count(q) == s.to_multiset().count(q));
        }
    }
}

/// Merging two duplicate-free, disjoint collections stays duplicate-free,
/// whatever positions the new elements land in.
proof fn lemma_no_dup_after_add<A>(s: Seq<A>, t: Seq<A>, u: Seq<A>)
    requires
        s.no_duplicates(),
        u.no_duplicates(),
        forall|q: A| !(s.contains(q) && u.contains(q)),
        t.to_multiset() == s.to_multiset().add(u.to_multiset()),
    ensures
        t.no_duplicates(),
        forall|q: A| t.contains(q) <==> s.contains(q) || u.contains(q),
{
    broadcast use vstd::seq_lib::group_to_multiset_ensures;
    broadcast use vstd::multiset::group_multiset_axioms;

    s.lemma_multiset_has_no_duplicates();
    u.lemma_multiset_has_no_duplicates();
    assert forall|x: A| t.to_multiset().contains(x) implies t.to_multiset().count(x) == 1 by {
        assert(t.to_multiset().count(x) == s.to_multiset().count(x) + u.to_multiset().count(x));
        assert(s.contains(x) <==> s.to_multiset().count(x) > 0);
        assert(u.contains(x) <==> u.to_multiset().count(x) > 0);
    }
    t.lemma_multiset_has_no_duplicates_conv();
    assert forall|q: A| t.contains(q) <==> s.contains(q) || u.contains(q) by {
        assert(t.contains(q) <==> t.to_multiset().count(q) > 0);
        assert(s.contains(q) <==> s.to_multiset().count(q) > 0);
        assert(u.contains(q) <==> u.to_multiset().count(q) > 0);
        assert(t.to_multiset().count(q) == s.to_multiset().count(q) + u.to_multiset().count(q));
    }
}

/// A multiset-preserving rewrite keeps duplicate-freedom and membership.
proof fn lemma_no_dup_after_permute<A>(s: Seq<A>, t: Seq<A>)
    requires
        s.no_duplicates(),
        t.to_multiset() == s.to_multiset(),
    ensures
        t.no_duplicates(),
        forall|q: A| t.contains(q) <==> s.contains(q),
{
    broadcast use vstd::seq_lib::group_to_multiset_ensures;
    broadcast use vstd::multiset::group_multiset_axioms;

    s.lemma_multiset_has_no_duplicates();
    assert forall|x: A| t.to_multiset().contains(x) implies t.to_multiset().count(x) == 1 by {}
    t.lemma_multiset_has_no_duplicates_conv();
    assert forall|q: A| t.contains(q) <==> s.contains(q) by {
        assert(t.contains(q) <==> t.to_multiset().count(q) > 0);
        assert(s.contains(q) <==> s.to_multiset().count(q) > 0);
    }
}

/// Every tree has at least one leaf.
pub proof fn lemma_num_leaves_pos(n: PaneNode)
    ensures
        num_leaves(n) >= 1,
    decreases n,
{
    match n {
        PaneNode::Leaf { .. } => {},
        PaneNode::Split { first, second, .. } => {
            lemma_num_leaves_pos(*first);
            lemma_num_leaves_pos(*second);
        },
    }
}

/// A tab at a leaf position is an open tab of the subtree.
pub proof fn lemma_position_implies_open(n: PaneNode, l: int, i: int)
    requires
        0 <= l < leaf_tabs(n).len(),
        0 <= i < leaf_tabs(n)[l].len(),
    ensures
        all_tabs(n).contains(leaf_tabs(n)[l][i]),
    decreases n,
{
    match n {
        PaneNode::Leaf { tabs, .. } => {
            assert(leaf_tabs(n)[0] == tabs@);
        },
        PaneNode::Split { first, second, .. } => {
            if l < leaf_tabs(*first).len() {
                assert(leaf_tabs(n)[l] == leaf_tabs(*first)[l]);
                lemma_position_implies_open(*first, l, i);
            } else {
                let l2 = l - leaf_tabs(*first).len();
                assert(leaf_tabs(n)[l] == leaf_tabs(*second)[l2]);
                lemma_position_implies_open(*second, l2, i);
            }
            lemma_concat_contains(all_tabs(*first), all_tabs(*second), leaf_tabs(n)[l][i]);
        },
    }
}

/// In a tree without duplicate tabs, a page sits at one leaf position at
/// most: the no-duplicate invariant made positional.
pub proof fn lemma_position_unique(n: PaneNode, p: Page, l1: int, i1: int, l2: int, i2: int)
    requires
        all_tabs(n).no_duplicates(),
        0 <= l1 < leaf_tabs(n).len(),
        0 <= i1 < leaf_tabs(n)[l1].len(),
        leaf_tabs(n)[l1][i1] == p,
        0 <= l2 < leaf_tabs(n).len(),
        0 <= i2 < leaf_tabs(n)[l2].len(),
        leaf_tabs(n)[l2][i2] == p,
    ensures
        l1 == l2,
        i1 == i2,
    decreases n,
{
    match n {
        PaneNode::Leaf { tabs, .. } => {
            assert(leaf_tabs(n)[0] == tabs@);
        },
        PaneNode::Split { first, second, .. } => {
            let a = all_tabs(*first);
            let b = all_tabs(*second);
            lemma_no_dup_concat(a, b);
            let nl = leaf_tabs(*first).len();
            if l1 < nl && l2 < nl {
                assert(leaf_tabs(n)[l1] == leaf_tabs(*first)[l1]);
                assert(leaf_tabs(n)[l2] == leaf_tabs(*first)[l2]);
                lemma_position_unique(*first, p, l1, i1, l2, i2);
            } else if l1 >= nl && l2 >= nl {
                assert(leaf_tabs(n)[l1] == leaf_tabs(*second)[l1 - nl]);
                assert(leaf_tabs(n)[l2] == leaf_tabs(*second)[l2 - nl]);
                lemma_position_unique(*second, p, l1 - nl, i1, l2 - nl, i2);
            } else if l1 < nl {
                assert(leaf_tabs(n)[l1] == leaf_tabs(*first)[l1]);
                assert(leaf_tabs(n)[l2] == leaf_tabs(*second)[l2 - nl]);
                lemma_position_implies_open(*first, l1, i1);
                lemma_position_implies_open(*second, l2 - nl, i2);
            } else {
                assert(leaf_tabs(n)[l2] == leaf_tabs(*first)[l2]);
                assert(leaf_tabs(n)[l1] == leaf_tabs(*second)[l1 - nl]);
                lemma_position_implies_open(*first, l2, i2);
                lemma_position_implies_open(*second, l1 - nl, i1);
            }
        },
    }
}

/// With every leaf nonempty, there are no more leaves than open tabs.
pub proof fn lemma_leaves_le_tabs(n: PaneNode)
    requires
        leaves_nonempty(n),
    ensures
        num_leaves(n) <= all_tabs(n).len(),
    decreases n,
{
    match n {
        PaneNode::Leaf { .. } => {},
        PaneNode::Split { first, second, .. } => {
            lemma_leaves_le_tabs(*first);
            lemma_leaves_le_tabs(*second);
        },
    }
}

/// A well-formed, duplicate-free tree has at most `PAGE_COUNT` leaves.
pub proof fn lemma_num_leaves_bounded(n: PaneNode)
    requires
        node_wf(n),
        all_tabs(n).no_duplicates(),
    ensures
        num_leaves(n) <= PAGE_COUNT,
{
    match n {
        PaneNode::Leaf { .. } => {},
        PaneNode::Split { first, second, .. } => {
            lemma_leaves_le_tabs(*first);
            lemma_leaves_le_tabs(*second);
            lemma_distinct_pages_bounded(all_tabs(n));
        },
    }
}

/// In a tree whose leaves are all nonempty, every well-formed leaf slot
/// has its active tab in range.
pub proof fn lemma_wf_actives_in_range(n: PaneNode)
    requires
        node_wf(n),
    ensures
        leaf_actives(n).len() == leaf_tabs(n).len(),
        forall|l: int|
            0 <= l < leaf_tabs(n).len() && leaf_tabs(n)[l].len() > 0 ==> 0 <= #[trigger] leaf_actives(
                n,
            )[l] < leaf_tabs(n)[l].len(),
        forall|l: int|
            0 <= l < leaf_tabs(n).len() && leaf_tabs(n)[l].len() == 0 ==> #[trigger] leaf_actives(
                n,
            )[l] == 0,
    decreases n,
{
    match n {
        PaneNode::Leaf { .. } => {},
        PaneNode::Split { first, second, .. } => {
            lemma_wf_actives_in_range(*first);
            lemma_wf_actives_in_range(*second);
            assert forall|l: int|
                0 <= l < leaf_tabs(n).len() && leaf_tabs(n)[l].len() > 0 implies 0
                <= #[trigger] leaf_actives(n)[l] < leaf_tabs(n)[l].len() by {
                let nl = leaf_tabs(*first).len();
                if l < nl {
                    assert(leaf_tabs(n)[l] == leaf_tabs(*first)[l]);
                    assert(leaf_actives(n)[l] == leaf_actives(*first)[l]);
                } else {
                    assert(leaf_tabs(n)[l] == leaf_tabs(*second)[l - nl]);
                    assert(leaf_actives(n)[l] == leaf_actives(*second)[l - nl]);
                }
            }
            assert forall|l: int|
                0 <= l < leaf_tabs(n).len() && leaf_tabs(n)[l].len() == 0 implies #[trigger] leaf_actives(
                n,
            )[l] == 0 by {
                let nl = leaf_tabs(*first).len();
                if l < nl {
                    assert(leaf_tabs(n)[l] == leaf_tabs(*first)[l]);
                    assert(leaf_actives(n)[l] == leaf_actives(*first)[l]);
                } else {
                    assert(leaf_tabs(n)[l] == leaf_tabs(*second)[l - nl]);
                    assert(leaf_actives(n)[l] == leaf_actives(*second)[l - nl]);
                }
            }
        },
    }
}

/// Under a split, every leaf holds at least one tab.
pub proof fn lemma_nonempty_leaves_positional(n: PaneNode)
    requires
        leaves_nonempty(n),
    ensures
        forall|l: int| 0 <= l < leaf_tabs(n).len() ==> #[trigger] leaf_tabs(n)[l].len() > 0,
    decreases n,
{
    match n {
        PaneNode::Leaf { .. } => {},
        PaneNode::Split { first, second, .. } => {
            lemma_nonempty_leaves_positional(*first);
            lemma_nonempty_leaves_positional(*second);
            assert forall|l: int| 0 <= l < leaf_tabs(n).len() implies #[trigger] leaf_tabs(
                n,
            )[l].len() > 0 by {
                let nl = leaf_tabs(*first).len();
                if l < nl {
                    assert(leaf_tabs(n)[l] == leaf_tabs(*first)[l]);
                } else {
                    assert(leaf_tabs(n)[l] == leaf_tabs(*second)[l - nl]);
                }
            }
        },
    }
}

/// All stored split ratios of a well-formed tree sit inside the bounds.
pub proof fn lemma_wf_ratios_bounded(n: PaneNode)
    requires
        node_wf(n),
    ensures
        forall|k: int|
            0 <= k < split_ratios(n).len() ==> MIN_RATIO <= #[trigger] split_ratios(n)[k]
                <= RATIO_SCALE - MIN_RATIO,
    decreases n,
{
    match n {
        PaneNode::Leaf { .. } => {},
        PaneNode::Split { ratio, first, second, .. } => {
            lemma_wf_ratios_bounded(*first);
            lemma_wf_ratios_bounded(*second);
            assert forall|k: int| 0 <= k < split_ratios(n).len() implies MIN_RATIO
                <= #[trigger] split_ratios(n)[k] <= RATIO_SCALE - MIN_RATIO by {
                let a = seq![ratio as int] + split_ratios(*first);
                assert(split_ratios(n) == a + split_ratios(*second));
                if k < a.len() {
                    assert(split_ratios(n)[k] == a[k]);
                    if k >= 1 {
                        assert(a[k] == split_ratios(*first)[k - 1]);
                    }
                } else {
                    assert(split_ratios(n)[k] == split_ratios(*second)[k - a.len()]);
                }
            }
        },
    }
}

// ------------------------------------------------------------------
// Executable helpers over the tree.
// ------------------------------------------------------------------

/// Count the leaves of a subtree.
fn count_leaves(n: &PaneNode) -> (r: usize)
    requires
        num_leaves(*n) <= usize::MAX,
    ensures
        r == num_leaves(*n),
    decreases *n,
{
    match n {
        PaneNode::Leaf { .. } => 1,
        PaneNode::Split { first, second, .. } => {
            let a = count_leaves(first);
            let b = count_leaves(second);
            a + b
        },
    }
}

/// Search one subtree for a page; positions are relative to the subtree.
fn find_in(n: &PaneNode, page: Page) -> (r: Option<(usize, usize)>)
    requires
        num_leaves(*n) <= usize::MAX,
    ensures
        match r {
            Some(loc) => 0 <= (loc.0 as int) < leaf_tabs(*n).len() && (loc.1 as int) < leaf_tabs(
                *n,
            )[loc.0 as int].len() && leaf_tabs(*n)[loc.0 as int][loc.1 as int] == page,
            None => !all_tabs(*n).contains(page),
        },
    decreases *n,
{
    match n {
        PaneNode::Leaf { tabs, .. } => {
            let mut i: usize = 0;
            while i < tabs.len()
                invariant
                    i <= tabs.len(),
                    leaf_tabs(*n) == seq![tabs@],
                    forall|j: int| 0 <= j < i ==> tabs@[j] != page,
                decreases tabs.len() - i,
            {
                if tabs[i] == page {
                    proof {
                        assert(leaf_tabs(*n)[0] == tabs@);
                    }
                    return Some((0, i));
                }
                i += 1;
            }
            None
        },
        PaneNode::Split { first, second, .. } => {
            match find_in(first, page) {
                Some(loc) => {
                    proof {
                        assert(leaf_tabs(*n)[loc.0 as int] == leaf_tabs(**first)[loc.0 as int]);
                    }
                    Some(loc)
                },
                None => {
                    match find_in(second, page) {
                        Some(loc) => {
                            let off = count_leaves(first);
                            proof {
                                assert(leaf_tabs(*n)[off + loc.0] == leaf_tabs(
                                    **second,
                                )[loc.0 as int]);
                            }
                            Some((off + loc.0, loc.1))
                        },
                        None => {
                            proof {
                                lemma_concat_contains(
                                    all_tabs(**first),
                                    all_tabs(**second),
                                    page,
                                );
                            }
                            None
                        },
                    }
                },
            }
        },
    }
}

/// Set the active tab of the leaf with ordinal `leaf` (relative to this
/// subtree) to `idx`; leave everything untouched when out of range.
fn set_active_in(n: PaneNode, leaf: usize, idx: usize) -> (r: PaneNode)
    requires
        num_leaves(n) <= usize::MAX,
    ensures
        same_shape(r, n),
        leaf_tabs(r) == leaf_tabs(n),
        all_tabs(r) == all_tabs(n),
        leaf_actives(r) == if 0 <= (leaf as int) < leaf_tabs(n).len() && (idx as int) < leaf_tabs(
            n,
        )[leaf as int].len() {
            leaf_actives(n).update(leaf as int, idx as int)
        } else {
            leaf_actives(n)
        },
        leaves_nonempty(n) ==> leaves_nonempty(r),
        node_wf(n) ==> node_wf(r),
    decreases n,
{
    let ghost n0 = n;
    proof {
        lemma_actives_len(n0);
    }
    match n {
        PaneNode::Leaf { tabs, active } => {
            if leaf == 0 && idx < tabs.len() {
                proof {
                    assert(seq![idx as int] =~= leaf_actives(n0).update(0, idx as int));
                }
                PaneNode::Leaf { tabs, active: idx }
            } else {
                PaneNode::Leaf { tabs, active }
            }
        },
        PaneNode::Split { orientation, ratio, first, second } => {
            let ghost f0 = *first;
            let ghost s0 = *second;
            let c = count_leaves(&first);
            proof {
                lemma_actives_len(f0);
                lemma_actives_len(s0);
            }
            if leaf < c {
                let f = set_active_in(*first, leaf, idx);
                proof {
                    lemma_same_shape_refl(s0);
                    assert(leaf_tabs(n0)[leaf as int] == leaf_tabs(f0)[leaf as int]);
                    if (idx as int) < leaf_tabs(f0)[leaf as int].len() {
                        assert(leaf_actives(f) + leaf_actives(s0) =~= (leaf_actives(f0)
                            + leaf_actives(s0)).update(leaf as int, idx as int));
                    }
                }
                PaneNode::Split { orientation, ratio, first: Box::new(f), second }
            } else {
                let s = set_active_in(*second, leaf - c, idx);
                proof {
                    lemma_same_shape_refl(f0);
                    if (leaf as int) < leaf_tabs(n0).len() {
                        assert(leaf_tabs(n0)[leaf as int] == leaf_tabs(s0)[leaf - c]);
                        if (idx as int) < leaf_tabs(s0)[leaf - c].len() {
                            assert(leaf_actives(f0) + leaf_actives(s) =~= (leaf_actives(f0)
                                + leaf_actives(s0)).update(leaf as int, idx as int));
                        }
                    }
                }
                PaneNode::Split { orientation, ratio, first, second: Box::new(s) }
            }
        },
    }
}

/// Append `page` to the leaf with ordinal `leaf` and make it the active
/// tab there.
fn push_in(n: PaneNode, leaf: usize, page: Page) -> (r: PaneNode)
    requires
        num_leaves(n) <= usize::MAX,
        0 <= (leaf as int) < leaf_tabs(n).len(),
    ensures
        same_shape(r, n),
        leaf_tabs(r) == leaf_tabs(n).update(leaf as int, leaf_tabs(n)[leaf as int].push(page)),
        leaf_actives(r) == leaf_actives(n).update(
            leaf as int,
            leaf_tabs(n)[leaf as int].len() as int,
        ),
        all_tabs(r).to_multiset() == all_tabs(n).to_multiset().insert(page),
        leaves_nonempty(n) ==> leaves_nonempty(r),
        node_wf(n) ==> node_wf(r),
    decreases n,
{
    let ghost n0 = n;
    proof {
        lemma_actives_len(n0);
        broadcast use vstd::seq_lib::group_to_multiset_ensures;
        broadcast use vstd::multiset::group_multiset_axioms;

    }
    match n {
        PaneNode::Leaf { mut tabs, .. } => {
            let ghost old_tabs = tabs@;
            let new_active = tabs.len();
            tabs.push(page);
            let r = PaneNode::Leaf { tabs, active: new_active };
            proof {
                assert(leaf_tabs(r) =~= leaf_tabs(n0).update(0, old_tabs.push(page)));
                assert(leaf_actives(r) =~= leaf_actives(n0).update(0, old_tabs.len() as int));
            }
            r
        },
        PaneNode::Split { orientation, ratio, first, second } => {
            let ghost f0 = *first;
            let ghost s0 = *second;
            let c = count_leaves(&first);
            proof {
                lemma_actives_len(f0);
                lemma_actives_len(s0);
            }
            if leaf < c {
                let f = push_in(*first, leaf, page);
                proof {
                    lemma_same_shape_refl(s0);
                    assert(leaf_tabs(n0)[leaf as int] == leaf_tabs(f0)[leaf as int]);
                    assert(leaf_tabs(f) + leaf_tabs(s0) =~= (leaf_tabs(f0) + leaf_tabs(
                        s0,
                    )).update(leaf as int, leaf_tabs(n0)[leaf as int].push(page)));
                    assert(leaf_actives(f) + leaf_actives(s0) =~= (leaf_actives(f0)
                        + leaf_actives(s0)).update(
                        leaf as int,
                        leaf_tabs(n0)[leaf as int].len() as int,
                    ));
                    vstd::seq_lib::lemma_multiset_commutative(all_tabs(f), all_tabs(s0));
                    vstd::seq_lib::lemma_multiset_commutative(all_tabs(f0), all_tabs(s0));
                    assert(all_tabs(f0).to_multiset().insert(page).add(
                        all_tabs(s0).to_multiset(),
                    ) =~= all_tabs(f0).to_multiset().add(all_tabs(s0).to_multiset()).insert(
                        page,
                    ));
                }
                PaneNode::Split { orientation, ratio, first: Box::new(f), second }
            } else {
                let s = push_in(*second, leaf - c, page);
                proof {
                    lemma_same_shape_refl(f0);
                    assert(leaf_tabs(n0)[leaf as int] == leaf_tabs(s0)[leaf - c]);
                    assert(leaf_tabs(f0) + leaf_tabs(s) =~= (leaf_tabs(f0) + leaf_tabs(
                        s0,
                    )).update(leaf as int, leaf_tabs(n0)[leaf as int].push(page)));
                    assert(leaf_actives(f0) + leaf_actives(s) =~= (leaf_actives(f0)
                        + leaf_actives(s0)).update(
                        leaf as int,
                        leaf_tabs(n0)[leaf as int].len() as int,
                    ));
                    vstd::seq_lib::lemma_multiset_commutative(all_tabs(f0), all_tabs(s));
                    vstd::seq_lib::lemma_multiset_commutative(all_tabs(f0), all_tabs(s0));
                    assert(all_tabs(f0).to_multiset().add(
                        all_tabs(s0).to_multiset().insert(page),
                    ) =~= all_tabs(f0).to_multiset().add(all_tabs(s0).to_multiset()).insert(
                        page,
                    ));
                }
                PaneNode::Split { orientation, ratio, first, second: Box::new(s) }
            }
        },
    }
}

/// A leaf that has (transiently) lost all its tabs.
pub open spec fn is_empty_leaf_spec(n: PaneNode) -> bool {
    match n {
        PaneNode::Leaf { tabs, .. } => tabs@.len() == 0,
        PaneNode::Split { .. } => false,
    }
}

/// A tree with a single leaf is that leaf.
pub proof fn lemma_single_leaf_is_leaf(n: PaneNode)
    requires
        num_leaves(n) == 1,
    ensures
        n is Leaf,
{
    match n {
        PaneNode::Leaf { .. } => {},
        PaneNode::Split { first, second, .. } => {
            lemma_num_leaves_pos(*first);
            lemma_num_leaves_pos(*second);
        },
    }
}

/// Test whether a node is an empty leaf.
fn is_empty_leaf(n: &PaneNode) -> (b: bool)
    ensures
        b == is_empty_leaf_spec(*n),
{
    match n {
        PaneNode::Leaf { tabs, .. } => tabs.len() == 0,
        PaneNode::Split { .. } => false,
    }
}

/// Number of tabs of the leaf with ordinal `leaf`.
fn leaf_len_in(n: &PaneNode, leaf: usize) -> (r: usize)
    requires
        num_leaves(*n) <= usize::MAX,
        0 <= (leaf as int) < leaf_tabs(*n).len(),
    ensures
        r == leaf_tabs(*n)[leaf as int].len(),
    decreases *n,
{
    match n {
        PaneNode::Leaf { tabs, .. } => tabs.len(),
        PaneNode::Split { first, second, .. } => {
            let c = count_leaves(first);
            if leaf < c {
                let r = leaf_len_in(first, leaf);
                proof {
                    assert(leaf_tabs(*n)[leaf as int] == leaf_tabs(**first)[leaf as int]);
                }
                r
            } else {
                let r = leaf_len_in(second, leaf - c);
                proof {
                    assert(leaf_tabs(*n)[leaf as int] == leaf_tabs(**second)[leaf - c]);
                }
                r
            }
        },
    }
}

/// The page at position `idx` of the leaf with ordinal `leaf`.
fn get_tab_in(n: &PaneNode, leaf: usize, idx: usize) -> (r: Page)
    requires
        num_leaves(*n) <= usize::MAX,
        0 <= (leaf as int) < leaf_tabs(*n).len(),
        (idx as int) < leaf_tabs(*n)[leaf as int].len(),
    ensures
        r == leaf_tabs(*n)[leaf as int][idx as int],
    decreases *n,
{
    match n {
        PaneNode::Leaf { tabs, .. } => tabs[idx],
        PaneNode::Split { first, second, .. } => {
            let c = count_leaves(first);
            if leaf < c {
                proof {
                    assert(leaf_tabs(*n)[leaf as int] == leaf_tabs(**first)[leaf as int]);
                }
                get_tab_in(first, leaf, idx)
            } else {
                proof {
                    assert(leaf_tabs(*n)[leaf as int] == leaf_tabs(**second)[leaf - c]);
                }
                get_tab_in(second, leaf - c, idx)
            }
        },
    }
}

/// The active index a leaf is left with after removing the tab at `idx`:
/// tabs behind the removal shift left, and the index is clamped so that
/// a nonempty leaf keeps a valid visible tab.
pub open spec fn active_after_remove(a: int, idx: int, new_len: int) -> int {
    if new_len == 0 {
        0
    } else if a > idx {
        a - 1
    } else if a < new_len {
        a
    } else {
        new_len - 1
    }
}

/// The ratio actually stored for a requested split ratio: forced into
/// `[MIN_RATIO, RATIO_SCALE - MIN_RATIO]`.
pub open spec fn clamped_ratio(r: int) -> int {
    if r < MIN_RATIO {
        MIN_RATIO as int
    } else if r > RATIO_SCALE - MIN_RATIO {
        (RATIO_SCALE - MIN_RATIO) as int
    } else {
        r
    }
}

/// Clamp a requested ratio into the minimum-visible-size bounds.
pub fn clamp_ratio(r: u32) -> (c: u32)
    ensures
        c == clamped_ratio(r as int),
        MIN_RATIO <= c <= RATIO_SCALE - MIN_RATIO,
{
    if r < MIN_RATIO {
        MIN_RATIO
    } else if r > RATIO_SCALE - MIN_RATIO {
        RATIO_SCALE - MIN_RATIO
    } else {
        r
    }
}

/// Insert `page` at position `idx` of the leaf with ordinal `leaf` and
/// make it the active tab there.
fn insert_in(n: PaneNode, leaf: usize, idx: usize, page: Page) -> (r: PaneNode)
    requires
        num_leaves(n) <= usize::MAX,
        0 <= (leaf as int) < leaf_tabs(n).len(),
        (idx as int) <= leaf_tabs(n)[leaf as int].len(),
    ensures
        same_shape(r, n),
        leaf_tabs(r) == leaf_tabs(n).update(
            leaf as int,
            leaf_tabs(n)[leaf as int].insert(idx as int, page),
        ),
        leaf_actives(r) == leaf_actives(n).update(leaf as int, idx as int),
        all_tabs(r).to_multiset() == all_tabs(n).to_multiset().insert(page),
        leaves_nonempty(n) ==> leaves_nonempty(r),
        node_wf(n) ==> node_wf(r),
    decreases n,
{
    let ghost n0 = n;
    proof {
        lemma_actives_len(n0);
        broadcast use vstd::seq_lib::group_to_multiset_ensures;
        broadcast use vstd::multiset::group_multiset_axioms;

    }
    match n {
        PaneNode::Leaf { mut tabs, .. } => {
            let ghost ot = tabs@;
            tabs.insert(idx, page);
            let r = PaneNode::Leaf { tabs, active: idx };
            proof {
                assert(leaf_tabs(r) =~= leaf_tabs(n0).update(0, ot.insert(idx as int, page)));
                assert(leaf_actives(r) =~= leaf_actives(n0).update(0, idx as int));
            }
            r
        },
        PaneNode::Split { orientation, ratio, first, second } => {
            let ghost f0 = *first;
            let ghost s0 = *second;
            let c = count_leaves(&first);
            proof {
                lemma_actives_len(f0);
                lemma_actives_len(s0);
            }
            if leaf < c {
                let f = insert_in(*first, leaf, idx, page);
                proof {
                    lemma_same_shape_refl(s0);
                    assert(leaf_tabs(n0)[leaf as int] == leaf_tabs(f0)[leaf as int]);
                    assert(leaf_tabs(f) + leaf_tabs(s0) =~= (leaf_tabs(f0) + leaf_tabs(
                        s0,
                    )).update(leaf as int, leaf_tabs(n0)[leaf as int].insert(idx as int, page)));
                    assert(leaf_actives(f) + leaf_actives(s0) =~= (leaf_actives(f0)
                        + leaf_actives(s0)).update(leaf as int, idx as int));
                    vstd::seq_lib::lemma_multiset_commutative(all_tabs(f), all_tabs(s0));
                    vstd::seq_lib::lemma_multiset_commutative(all_tabs(f0), all_tabs(s0));
                    assert(all_tabs(f0).to_multiset().insert(page).add(
                        all_tabs(s0).to_multiset(),
                    ) =~= all_tabs(f0).to_multiset().add(all_tabs(s0).to_multiset()).insert(
                        page,
                    ));
                }
                PaneNode::Split { orientation, ratio, first: Box::new(f), second }
            } else {
                let s = insert_in(*second, leaf - c, idx, page);
                proof {
                    lemma_same_shape_refl(f0);
                    assert(leaf_tabs(n0)[leaf as int] == leaf_tabs(s0)[leaf - c]);
                    assert(leaf_tabs(f0) + leaf_tabs(s) =~= (leaf_tabs(f0) + leaf_tabs(
                        s0,
                    )).update(leaf as int, leaf_tabs(n0)[leaf as int].insert(idx as int, page)));
                    assert(leaf_actives(f0) + leaf_actives(s) =~= (leaf_actives(f0)
                        + leaf_actives(s0)).update(leaf as int, idx as int));
                    vstd::seq_lib::lemma_multiset_commutative(all_tabs(f0), all_tabs(s));
                    vstd::seq_lib::lemma_multiset_commutative(all_tabs(f0), all_tabs(s0));
                    assert(all_tabs(f0).to_multiset().add(
                        all_tabs(s0).to_multiset().insert(page),
                    ) =~= all_tabs(f0).to_multiset().add(all_tabs(s0).to_multiset()).insert(
                        page,
                    ));
                }
                PaneNode::Split { orientation, ratio, first, second: Box::new(s) }
            }
        },
    }
}

/// Remove the tab at `idx` of the leaf with ordinal `leaf`. A leaf left
/// empty is pruned: its parent split collapses and the sibling takes the
/// parent's place. Only a lone root leaf stays behind empty.
#[verifier::rlimit(80)]
fn remove_in(n: PaneNode, leaf: usize, idx: usize) -> (res: (PaneNode, Page))
    requires
        num_leaves(n) <= usize::MAX,
        node_wf(n),
        0 <= (leaf as int) < leaf_tabs(n).len(),
        (idx as int) < leaf_tabs(n)[leaf as int].len(),
    ensures
        res.1 == leaf_tabs(n)[leaf as int][idx as int],
        node_wf(res.0),
        all_tabs(res.0).to_multiset() == all_tabs(n).to_multiset().remove(res.1),
        leaf_tabs(n)[leaf as int].len() > 1 ==> {
            &&& same_shape(res.0, n)
            &&& leaf_tabs(res.0) == leaf_tabs(n).update(
                leaf as int,
                leaf_tabs(n)[leaf as int].remove(idx as int),
            )
            &&& leaf_actives(res.0) == leaf_actives(n).update(
                leaf as int,
                active_after_remove(
                    leaf_actives(n)[leaf as int],
                    idx as int,
                    leaf_tabs(n)[leaf as int].len() - 1,
                ),
            )
            &&& (leaves_nonempty(n) ==> leaves_nonempty(res.0))
        },
        (leaf_tabs(n)[leaf as int].len() <= 1 && leaf_tabs(n).len() == 1) ==> {
            &&& res.0 is Leaf
            &&& leaf_tabs(res.0) == seq![Seq::<Page>::empty()]
            &&& leaf_actives(res.0) == seq![0int]
        },
        (leaf_tabs(n)[leaf as int].len() <= 1 && leaf_tabs(n).len() > 1) ==> {
            &&& leaf_tabs(res.0) == leaf_tabs(n).remove(leaf as int)
            &&& leaf_actives(res.0) == leaf_actives(n).remove(leaf as int)
            &&& leaves_nonempty(res.0)
            &&& split_ratios(res.0).len() == split_ratios(n).len() - 1
        },
    decreases n,
{
    let ghost n0 = n;
    proof {
        lemma_actives_len(n0);
    }
    match n {
        PaneNode::Leaf { mut tabs, active } => {
            let ghost ot = tabs@;
            let page = tabs.remove(idx);
            let new_len = tabs.len();
            let new_active = if new_len == 0 {
                0
            } else if active > idx {
                active - 1
            } else if active < new_len {
                active
            } else {
                new_len - 1
            };
            let r = PaneNode::Leaf { tabs, active: new_active };
            proof {
                broadcast use vstd::seq_lib::group_to_multiset_ensures;
                broadcast use vstd::multiset::group_multiset_axioms;

                assert(leaf_tabs(r) == seq![ot.remove(idx as int)]);
                if ot.len() > 1 {
                    assert(leaf_tabs(r) =~= leaf_tabs(n0).update(0, ot.remove(idx as int)));
                    assert(leaf_actives(r) =~= leaf_actives(n0).update(
                        0,
                        active_after_remove(active as int, idx as int, ot.len() - 1),
                    ));
                } else {
                    assert(ot.remove(idx as int) =~= Seq::<Page>::empty());
                    assert(leaf_tabs(r) =~= seq![Seq::<Page>::empty()]);
                    assert(leaf_actives(r) =~= seq![0int]);
                }
            }
            (r, page)
        },
        PaneNode::Split { orientation, ratio, first, second } => {
            let ghost f0 = *first;
            let ghost s0 = *second;
            let c = count_leaves(&first);
            proof {
                lemma_actives_len(f0);
                lemma_actives_len(s0);
                lemma_num_leaves_pos(f0);
                lemma_num_leaves_pos(s0);
            }
            if leaf < c {
                proof {
                    assert(leaf_tabs(n0)[leaf as int] == leaf_tabs(f0)[leaf as int]);
                }
                let (f, page) = remove_in(*first, leaf, idx);
                if is_empty_leaf(&f) {
                    let r = *second;
                    proof {
                        broadcast use vstd::seq_lib::group_to_multiset_ensures;
                        broadcast use vstd::multiset::group_multiset_axioms;

                        // The child was a lone leaf losing its only tab.
                        if leaf_tabs(f0)[leaf as int].len() > 1 {
                            lemma_nonempty_leaves_positional(f);
                        }
                        if leaf_tabs(f0).len() > 1 {
                            lemma_nonempty_leaves_positional(f);
                        }
                        assert(leaf_tabs(f0).len() == 1);
                        lemma_single_leaf_is_leaf(f0);
                        assert(all_tabs(f0) == leaf_tabs(f0)[0]);
                        assert(all_tabs(f0).len() == 1);
                        assert(all_tabs(f0) =~= seq![page]);
                        assert(leaf_tabs(n0) =~= (leaf_tabs(f0) + leaf_tabs(s0)));
                        assert(leaf_tabs(r) =~= leaf_tabs(n0).remove(leaf as int));
                        assert(leaf_actives(r) =~= leaf_actives(n0).remove(leaf as int));
                        assert(seq![page] =~= Seq::<Page>::empty().push(page));
                        vstd::seq_lib::lemma_multiset_commutative(all_tabs(f0), all_tabs(s0));
                        assert(all_tabs(r).to_multiset() =~= all_tabs(n0).to_multiset().remove(
                            page,
                        ));
                        assert(split_ratios(f0) =~= Seq::<int>::empty());
                        assert(split_ratios(n0) == seq![ratio as int] + split_ratios(f0)
                            + split_ratios(s0));
                        assert(split_ratios(r).len() == split_ratios(n0).len() - 1);
                    }
                    (r, page)
                } else {
                    let r = PaneNode::Split {
                        orientation,
                        ratio,
                        first: Box::new(f),
                        second,
                    };
                    proof {
                        lemma_same_shape_refl(s0);
                        vstd::seq_lib::lemma_multiset_commutative(all_tabs(f), all_tabs(s0));
                        vstd::seq_lib::lemma_multiset_commutative(all_tabs(f0), all_tabs(s0));
                        lemma_position_implies_open(f0, leaf as int, idx as int);
                        assert(all_tabs(f0).to_multiset().remove(page).add(
                            all_tabs(s0).to_multiset(),
                        ) =~= all_tabs(f0).to_multiset().add(all_tabs(s0).to_multiset()).remove(
                            page,
                        )) by {
                            broadcast use vstd::seq_lib::group_to_multiset_ensures;
                            broadcast use vstd::multiset::group_multiset_axioms;

                            assert(all_tabs(f0).contains(page));
                            assert(all_tabs(f0).to_multiset().count(page) > 0);
                        }
                        if leaf_tabs(f0)[leaf as int].len() > 1 {
                            assert(leaf_tabs(f) + leaf_tabs(s0) =~= (leaf_tabs(f0) + leaf_tabs(
                                s0,
                            )).update(
                                leaf as int,
                                leaf_tabs(n0)[leaf as int].remove(idx as int),
                            ));
                            assert(leaf_actives(n0)[leaf as int] == leaf_actives(
                                f0,
                            )[leaf as int]);
                            assert(leaf_actives(f) + leaf_actives(s0) =~= (leaf_actives(f0)
                                + leaf_actives(s0)).update(
                                leaf as int,
                                active_after_remove(
                                    leaf_actives(n0)[leaf as int],
                                    idx as int,
                                    leaf_tabs(n0)[leaf as int].len() - 1,
                                ),
                            ));
                        } else {
                            // the leaf inside `first` was pruned
                            if leaf_tabs(f0).len() == 1 {
                                assert(f is Leaf);
                                assert(leaf_tabs(f)[0].len() == 0);
                                assert(is_empty_leaf_spec(f));
                            }
                            assert(leaf_tabs(f0).len() > 1);
                            assert(leaf_tabs(f) + leaf_tabs(s0) =~= (leaf_tabs(f0) + leaf_tabs(
                                s0,
                            )).remove(leaf as int));
                            assert(leaf_actives(f) + leaf_actives(s0) =~= (leaf_actives(f0)
                                + leaf_actives(s0)).remove(leaf as int));
                            assert(split_ratios(r) == seq![ratio as int] + split_ratios(f)
                                + split_ratios(s0));
                            assert(split_ratios(n0) == seq![ratio as int] + split_ratios(f0)
                                + split_ratios(s0));
                        }
                    }
                    (r, page)
                }
            } else {
                proof {
                    assert(leaf_tabs(n0)[leaf as int] == leaf_tabs(s0)[leaf - c]);
                }
                let (s, page) = remove_in(*second, leaf - c, idx);
                if is_empty_leaf(&s) {
                    let r = *first;
                    proof {
                        broadcast use vstd::seq_lib::group_to_multiset_ensures;
                        broadcast use vstd::multiset::group_multiset_axioms;

                        if leaf_tabs(s0)[leaf - c].len() > 1 {
                            lemma_nonempty_leaves_positional(s);
                        }
                        if leaf_tabs(s0).len() > 1 {
                            lemma_nonempty_leaves_positional(s);
                        }
                        assert(leaf_tabs(s0).len() == 1);
                        lemma_single_leaf_is_leaf(s0);
                        assert(all_tabs(s0) == leaf_tabs(s0)[0]);
                        assert(all_tabs(s0) =~= seq![page]);
                        assert(leaf_tabs(r) =~= leaf_tabs(n0).remove(leaf as int));
                        assert(leaf_actives(r) =~= leaf_actives(n0).remove(leaf as int));
                        assert(seq![page] =~= Seq::<Page>::empty().push(page));
                        vstd::seq_lib::lemma_multiset_commutative(all_tabs(f0), all_tabs(s0));
                        assert(all_tabs(r).to_multiset() =~= all_tabs(n0).to_multiset().remove(
                            page,
                        ));
                        assert(split_ratios(s0) =~= Seq::<int>::empty());
                        assert(split_ratios(n0) == seq![ratio as int] + split_ratios(f0)
                            + split_ratios(s0));
                        assert(split_ratios(r).len() == split_ratios(n0).len() - 1);
                    }
                    (r, page)
                } else {
                    let r = PaneNode::Split {
                        orientation,
                        ratio,
                        first,
                        second: Box::new(s),
                    };
                    proof {
                        lemma_same_shape_refl(f0);
                        vstd::seq_lib::lemma_multiset_commutative(all_tabs(f0), all_tabs(s));
                        vstd::seq_lib::lemma_multiset_commutative(all_tabs(f0), all_tabs(s0));
                        lemma_position_implies_open(s0, leaf - c, idx as int);
                        assert(all_tabs(f0).to_multiset().add(
                            all_tabs(s0).to_multiset().remove(page),
                        ) =~= all_tabs(f0).to_multiset().add(all_tabs(s0).to_multiset()).remove(
                            page,
                        )) by {
                            broadcast use vstd::seq_lib::group_to_multiset_ensures;
                            broadcast use vstd::multiset::group_multiset_axioms;

                            assert(all_tabs(s0).contains(page));
                            assert(all_tabs(s0).to_multiset().count(page) > 0);
                        }
                        if leaf_tabs(s0)[leaf - c].len() > 1 {
                            assert(leaf_tabs(f0) + leaf_tabs(s) =~= (leaf_tabs(f0) + leaf_tabs(
                                s0,
                            )).update(
                                leaf as int,
                                leaf_tabs(n0)[leaf as int].remove(idx as int),
                            ));
                            assert(leaf_actives(n0)[leaf as int] == leaf_actives(s0)[leaf - c]);
                            assert(leaf_actives(f0) + leaf_actives(s) =~= (leaf_actives(f0)
                                + leaf_actives(s0)).update(
                                leaf as int,
                                active_after_remove(
                                    leaf_actives(n0)[leaf as int],
                                    idx as int,
                                    leaf_tabs(n0)[leaf as int].len() - 1,
                                ),
                            ));
                        } else {
                            if leaf_tabs(s0).len() == 1 {
                                assert(s is Leaf);
                                assert(leaf_tabs(s)[0].len() == 0);
                                assert(is_empty_leaf_spec(s));
                            }
                            assert(leaf_tabs(s0).len() > 1);
                            assert(leaf_tabs(f0) + leaf_tabs(s) =~= (leaf_tabs(f0) + leaf_tabs(
                                s0,
                            )).remove(leaf as int));
                            assert(leaf_actives(f0) + leaf_actives(s) =~= (leaf_actives(f0)
                                + leaf_actives(s0)).remove(leaf as int));
                            assert(split_ratios(r) == seq![ratio as int] + split_ratios(f0)
                                + split_ratios(s));
                            assert(split_ratios(n0) == seq![ratio as int] + split_ratios(f0)
                                + split_ratios(s0));
                        }
                    }
                    (r, page)
                }
            }
        },
    }
}

/// Move the tab at `from_idx` of leaf `leaf` so that it ends at position
/// `to_idx` of the same leaf, and make it the active tab.
fn reorder_in(n: PaneNode, leaf: usize, from_idx: usize, to_idx: usize) -> (r: PaneNode)
    requires
        num_leaves(n) <= usize::MAX,
        0 <= (leaf as int) < leaf_tabs(n).len(),
        (from_idx as int) < leaf_tabs(n)[leaf as int].len(),
        (to_idx as int) < leaf_tabs(n)[leaf as int].len(),
    ensures
        same_shape(r, n),
        leaf_tabs(r) == leaf_tabs(n).update(
            leaf as int,
            leaf_tabs(n)[leaf as int].remove(from_idx as int).insert(
                to_idx as int,
                leaf_tabs(n)[leaf as int][from_idx as int],
            ),
        ),
        leaf_actives(r) == leaf_actives(n).update(leaf as int, to_idx as int),
        all_tabs(r).to_multiset() == all_tabs(n).to_multiset(),
        leaves_nonempty(n) ==> leaves_nonempty(r),
        node_wf(n) ==> node_wf(r),
    decreases n,
{
    let ghost n0 = n;
    proof {
        lemma_actives_len(n0);
    }
    match n {
        PaneNode::Leaf { mut tabs, .. } => {
            let ghost ot = tabs@;
            let p = tabs.remove(from_idx);
            tabs.insert(to_idx, p);
            let r = PaneNode::Leaf { tabs, active: to_idx };
            proof {
                broadcast use vstd::seq_lib::group_to_multiset_ensures;
                broadcast use vstd::multiset::group_multiset_axioms;

                assert(leaf_tabs(r) =~= leaf_tabs(n0).update(
                    0,
                    ot.remove(from_idx as int).insert(to_idx as int, ot[from_idx as int]),
                ));
                assert(leaf_actives(r) =~= leaf_actives(n0).update(0, to_idx as int));
                assert(ot.contains(ot[from_idx as int]));
                assert(ot.to_multiset().count(ot[from_idx as int]) > 0);
                assert(ot.remove(from_idx as int).to_multiset().insert(ot[from_idx as int])
                    =~= ot.to_multiset());
            }
            r
        },
        PaneNode::Split { orientation, ratio, first, second } => {
            let ghost f0 = *first;
            let ghost s0 = *second;
            let c = count_leaves(&first);
            proof {
                lemma_actives_len(f0);
                lemma_actives_len(s0);
            }
            if leaf < c {
                let f = reorder_in(*first, leaf, from_idx, to_idx);
                proof {
                    lemma_same_shape_refl(s0);
                    assert(leaf_tabs(n0)[leaf as int] == leaf_tabs(f0)[leaf as int]);
                    assert(leaf_tabs(f) + leaf_tabs(s0) =~= (leaf_tabs(f0) + leaf_tabs(
                        s0,
                    )).update(
                        leaf as int,
                        leaf_tabs(n0)[leaf as int].remove(from_idx as int).insert(
                            to_idx as int,
                            leaf_tabs(n0)[leaf as int][from_idx as int],
                        ),
                    ));
                    assert(leaf_actives(f) + leaf_actives(s0) =~= (leaf_actives(f0)
                        + leaf_actives(s0)).update(leaf as int, to_idx as int));
                    vstd::seq_lib::lemma_multiset_commutative(all_tabs(f), all_tabs(s0));
                    vstd::seq_lib::lemma_multiset_commutative(all_tabs(f0), all_tabs(s0));
                }
                PaneNode::Split { orientation, ratio, first: Box::new(f), second }
            } else {
                let s = reorder_in(*second, leaf - c, from_idx, to_idx);
                proof {
                    lemma_same_shape_refl(f0);
                    assert(leaf_tabs(n0)[leaf as int] == leaf_tabs(s0)[leaf - c]);
                    assert(leaf_tabs(f0) + leaf_tabs(s) =~= (leaf_tabs(f0) + leaf_tabs(
                        s0,
                    )).update(
                        leaf as int,
                        leaf_tabs(n0)[leaf as int].remove(from_idx as int).insert(
                            to_idx as int,
                            leaf_tabs(n0)[leaf as int][from_idx as int],
                        ),
                    ));
                    assert(leaf_actives(f0) + leaf_actives(s) =~= (leaf_actives(f0)
                        + leaf_actives(s0)).update(leaf as int, to_idx as int));
                    vstd::seq_lib::lemma_multiset_commutative(all_tabs(f0), all_tabs(s));
                    vstd::seq_lib::lemma_multiset_commutative(all_tabs(f0), all_tabs(s0));
                }
                PaneNode::Split { orientation, ratio, first, second: Box::new(s) }
            }
        },
    }
}

/// Replace the leaf with ordinal `leaf` by a split holding that leaf and
/// a fresh leaf seeded with `tabs`; the fresh leaf becomes the first
/// child when `new_first` is set.
#[verifier::rlimit(60)]
fn split_in(
    n: PaneNode,
    leaf: usize,
    orientation: Orientation,
    new_first: bool,
    ratio: u32,
    tabs: Vec<Page>,
) -> (r: PaneNode)
    requires
        num_leaves(n) <= usize::MAX,
        node_wf(n),
        0 <= (leaf as int) < leaf_tabs(n).len(),
        leaf_tabs(n)[leaf as int].len() > 0,
        tabs@.len() > 0,
        MIN_RATIO <= ratio,
        ratio + MIN_RATIO <= RATIO_SCALE,
    ensures
        ({
            let pos = if new_first {
                leaf as int
            } else {
                leaf as int + 1
            };
            &&& leaf_tabs(r) == leaf_tabs(n).insert(pos, tabs@)
            &&& leaf_actives(r) == leaf_actives(n).insert(pos, 0int)
            &&& all_tabs(r).to_multiset() == all_tabs(n).to_multiset().add(tabs@.to_multiset())
            &&& split_ratios(r).to_multiset() == split_ratios(n).to_multiset().insert(
                ratio as int,
            )
            &&& split_orients(r).to_multiset() == split_orients(n).to_multiset().insert(
                orientation,
            )
            &&& node_wf(r)
            &&& leaves_nonempty(n) ==> leaves_nonempty(r)
        }),
    decreases n,
{
    let ghost n0 = n;
    proof {
        lemma_actives_len(n0);
        broadcast use vstd::seq_lib::group_to_multiset_ensures;
        broadcast use vstd::multiset::group_multiset_axioms;

    }
    match n {
        PaneNode::Leaf { tabs: old_tabs, active } => {
            let ghost ot = old_tabs@;
            let ghost tv = tabs@;
            let fresh = PaneNode::Leaf { tabs, active: 0 };
            let kept = PaneNode::Leaf { tabs: old_tabs, active };
            let ghost fresh0 = fresh;
            let ghost kept0 = kept;
            let r = if new_first {
                PaneNode::Split {
                    orientation,
                    ratio,
                    first: Box::new(fresh),
                    second: Box::new(kept),
                }
            } else {
                PaneNode::Split {
                    orientation,
                    ratio,
                    first: Box::new(kept),
                    second: Box::new(fresh),
                }
            };
            proof {
                let pos = if new_first {
                    0int
                } else {
                    1int
                };
                assert(leaf_tabs(fresh0) == seq![tv]);
                assert(leaf_tabs(kept0) == seq![ot]);
                assert(leaf_actives(fresh0) == seq![0int]);
                assert(leaf_actives(kept0) == seq![active as int]);
                assert(split_ratios(fresh0) =~= Seq::<int>::empty());
                assert(split_ratios(kept0) =~= Seq::<int>::empty());
                assert(all_tabs(fresh0) == tv);
                assert(all_tabs(kept0) == ot);
                assert(leaves_nonempty(fresh0));
                assert(leaves_nonempty(kept0));
                assert(node_wf(fresh0));
                assert(node_wf(kept0));
                assert(leaf_tabs(r) =~= leaf_tabs(n0).insert(pos, tv));
                assert(leaf_actives(r) =~= leaf_actives(n0).insert(pos, 0int));
                if new_first {
                    assert(all_tabs(r) == all_tabs(fresh0) + all_tabs(kept0));
                    vstd::seq_lib::lemma_multiset_commutative(
                        all_tabs(fresh0),
                        all_tabs(kept0),
                    );
                    assert(all_tabs(r).to_multiset() =~= all_tabs(n0).to_multiset().add(
                        all_tabs(fresh0).to_multiset(),
                    ));
                } else {
                    assert(all_tabs(r) == all_tabs(kept0) + all_tabs(fresh0));
                    vstd::seq_lib::lemma_multiset_commutative(
                        all_tabs(kept0),
                        all_tabs(fresh0),
                    );
                }
                assert(split_ratios(r) =~= seq![ratio as int]);
                assert(seq![ratio as int] =~= Seq::<int>::empty().push(ratio as int));
                assert(Seq::<int>::empty().push(ratio as int).to_multiset() =~= Seq::<
                    int,
                >::empty().to_multiset().insert(ratio as int));
                assert(split_ratios(n0).to_multiset() =~= Seq::<int>::empty().to_multiset());
                assert(split_orients(fresh0) =~= Seq::<Orientation>::empty());
                assert(split_orients(kept0) =~= Seq::<Orientation>::empty());
                assert(split_orients(r) =~= seq![orientation]);
                assert(seq![orientation] =~= Seq::<Orientation>::empty().push(orientation));
                assert(Seq::<Orientation>::empty().push(orientation).to_multiset() =~= Seq::<
                    Orientation,
                >::empty().to_multiset().insert(orientation));
                assert(split_orients(n0).to_multiset() =~= Seq::<
                    Orientation,
                >::empty().to_multiset());
            }
            r
        },
        PaneNode::Split { orientation: o, ratio: rt, first, second } => {
            let ghost f0 = *first;
            let ghost s0 = *second;
            let c = count_leaves(&first);
            proof {
                lemma_actives_len(f0);
                lemma_actives_len(s0);
            }
            if leaf < c {
                let ghost tv = tabs@;
                let f = split_in(*first, leaf, orientation, new_first, ratio, tabs);
                let r = PaneNode::Split {
                    orientation: o,
                    ratio: rt,
                    first: Box::new(f),
                    second,
                };
                proof {
                    let pos = if new_first {
                        leaf as int
                    } else {
                        leaf as int + 1
                    };
                    assert(leaf_tabs(n0)[leaf as int] == leaf_tabs(f0)[leaf as int]);
                    assert(leaf_tabs(f) + leaf_tabs(s0) =~= (leaf_tabs(f0) + leaf_tabs(
                        s0,
                    )).insert(pos, tv));
                    assert(leaf_actives(f) + leaf_actives(s0) =~= (leaf_actives(f0)
                        + leaf_actives(s0)).insert(pos, 0int));
                    vstd::seq_lib::lemma_multiset_commutative(all_tabs(f), all_tabs(s0));
                    vstd::seq_lib::lemma_multiset_commutative(all_tabs(f0), all_tabs(s0));
                    assert(all_tabs(r).to_multiset() =~= all_tabs(n0).to_multiset().add(
                        tv.to_multiset(),
                    ));
                    let base = seq![rt as int];
                    assert(split_ratios(n0) == base + split_ratios(f0) + split_ratios(s0));
                    assert(split_ratios(r) == base + split_ratios(f) + split_ratios(s0));
                    vstd::seq_lib::lemma_multiset_commutative(base, split_ratios(f0));
                    vstd::seq_lib::lemma_multiset_commutative(base, split_ratios(f));
                    vstd::seq_lib::lemma_multiset_commutative(
                        base + split_ratios(f0),
                        split_ratios(s0),
                    );
                    vstd::seq_lib::lemma_multiset_commutative(
                        base + split_ratios(f),
                        split_ratios(s0),
                    );
                    assert(split_ratios(r).to_multiset() =~= split_ratios(
                        n0,
                    ).to_multiset().insert(ratio as int));
                    let base_o = seq![o];
                    assert(split_orients(n0) == base_o + split_orients(f0) + split_orients(s0));
                    assert(split_orients(r) == base_o + split_orients(f) + split_orients(s0));
                    vstd::seq_lib::lemma_multiset_commutative(base_o, split_orients(f0));
                    vstd::seq_lib::lemma_multiset_commutative(base_o, split_orients(f));
                    vstd::seq_lib::lemma_multiset_commutative(
                        base_o + split_orients(f0),
                        split_orients(s0),
                    );
                    vstd::seq_lib::lemma_multiset_commutative(
                        base_o + split_orients(f),
                        split_orients(s0),
                    );
                    assert(split_orients(r).to_multiset() =~= split_orients(
                        n0,
                    ).to_multiset().insert(orientation));
                }
                r
            } else {
                let ghost tv = tabs@;
                let s = split_in(*second, leaf - c, orientation, new_first, ratio, tabs);
                let r = PaneNode::Split {
                    orientation: o,
                    ratio: rt,
                    first,
                    second: Box::new(s),
                };
                proof {
                    let pos = if new_first {
                        leaf as int
                    } else {
                        leaf as int + 1
                    };
                    assert(leaf_tabs(n0)[leaf as int] == leaf_tabs(s0)[leaf - c]);
                    assert(leaf_tabs(f0) + leaf_tabs(s) =~= (leaf_tabs(f0) + leaf_tabs(
                        s0,
                    )).insert(pos, tv));
                    assert(leaf_actives(f0) + leaf_actives(s) =~= (leaf_actives(f0)
                        + leaf_actives(s0)).insert(pos, 0int));
                    vstd::seq_lib::lemma_multiset_commutative(all_tabs(f0), all_tabs(s));
                    vstd::seq_lib::lemma_multiset_commutative(all_tabs(f0), all_tabs(s0));
                    assert(all_tabs(r).to_multiset() =~= all_tabs(n0).to_multiset().add(
                        tv.to_multiset(),
                    ));
                    let base = seq![rt as int];
                    assert(split_ratios(n0) == base + split_ratios(f0) + split_ratios(s0));
                    assert(split_ratios(r) == base + split_ratios(f0) + split_ratios(s));
                    vstd::seq_lib::lemma_multiset_commutative(
                        base + split_ratios(f0),
                        split_ratios(s0),
                    );
                    vstd::seq_lib::lemma_multiset_commutative(
                        base + split_ratios(f0),
                        split_ratios(s),
                    );
                    assert(split_ratios(r).to_multiset() =~= split_ratios(
                        n0,
                    ).to_multiset().insert(ratio as int));
                    let base_o = seq![o];
                    assert(split_orients(n0) == base_o + split_orients(f0) + split_orients(s0));
                    assert(split_orients(r) == base_o + split_orients(f0) + split_orients(s));
                    vstd::seq_lib::lemma_multiset_commutative(
                        base_o + split_orients(f0),
                        split_orients(s0),
                    );
                    vstd::seq_lib::lemma_multiset_commutative(
                        base_o + split_orients(f0),
                        split_orients(s),
                    );
                    assert(split_orients(r).to_multiset() =~= split_orients(
                        n0,
                    ).to_multiset().insert(orientation));
                }
                r
            }
        },
    }
}

// ------------------------------------------------------------------
// The dock state itself.
// ------------------------------------------------------------------

/// The mutable dock model: the root pane tree plus the ordinal of the
/// focused leaf, the default insertion target for new tabs.
pub struct DockState {
    root: PaneNode,
    focused: usize,
}

impl DockState {
    /// The root pane tree, as a mathematical value.
    pub closed spec fn root_spec(self) -> PaneNode {
        self.root
    }

    /// Ordinal of the focused leaf.
    pub closed spec fn focused_spec(self) -> int {
        self.focused as int
    }

    /// The tab sequences of all leaves, in leaf order.
    pub open spec fn leaves(self) -> Seq<Seq<Page>> {
        leaf_tabs(self.root_spec())
    }

    /// The active-tab index of every leaf, in leaf order.
    pub open spec fn actives(self) -> Seq<int> {
        leaf_actives(self.root_spec())
    }

    /// Every open tab, in leaf order.
    pub open spec fn open_pages(self) -> Seq<Page> {
        all_tabs(self.root_spec())
    }

    /// Whether `p` is open somewhere in the tree.
    pub open spec fn is_open(self, p: Page) -> bool {
        self.open_pages().contains(p)
    }

    /// The dock invariant: structurally well-formed tree, no duplicate
    /// open page, and a valid focused ordinal.
    pub open spec fn wf(self) -> bool {
        &&& node_wf(self.root_spec())
        &&& all_tabs(self.root_spec()).no_duplicates()
        &&& 0 <= self.focused_spec() < num_leaves(self.root_spec())
    }

    /// A fresh dock: one root leaf holding `tabs`, first tab active,
    /// that leaf focused.
    pub fn new(tabs: Vec<Page>) -> (d: DockState)
        requires
            tabs@.no_duplicates(),
        ensures
            d.wf(),
            d.leaves() == seq![tabs@],
            d.actives() == seq![0int],
            d.focused_spec() == 0,
            d.open_pages() == tabs@,
            split_ratios(d.root_spec()) == Seq::<int>::empty(),
    {
        DockState { root: PaneNode::Leaf { tabs, active: 0 }, focused: 0 }
    }

    /// Depth-first search for `page`. Returns its unique location
    /// `(leaf ordinal, index within the leaf)` when open, else `None`.
    pub fn find_tab(&self, page: Page) -> (r: Option<(usize, usize)>)
        requires
            self.wf(),
        ensures
            match r {
                Some(loc) => {
                    &&& (loc.0 as int) < self.leaves().len()
                    &&& (loc.1 as int) < self.leaves()[loc.0 as int].len()
                    &&& self.leaves()[loc.0 as int][loc.1 as int] == page
                    &&& self.is_open(page)
                    &&& forall|l: int, i: int|
                        0 <= l < self.leaves().len() && 0 <= i < self.leaves()[l].len()
                            && self.leaves()[l][i] == page ==> l == loc.0 && i == loc.1
                },
                None => !self.is_open(page),
            },
    {
        proof {
            lemma_num_leaves_bounded(self.root_spec());
        }
        let r = find_in(&self.root, page);
        proof {
            if let Some(loc) = r {
                lemma_position_implies_open(self.root_spec(), loc.0 as int, loc.1 as int);
                assert forall|l: int, i: int|
                    0 <= l < self.leaves().len() && 0 <= i < self.leaves()[l].len()
                        && self.leaves()[l][i] == page implies l == loc.0 && i == loc.1 by {
                    lemma_position_unique(
                        self.root_spec(),
                        page,
                        l,
                        i,
                        loc.0 as int,
                        loc.1 as int,
                    );
                }
            }
        }
        r
    }

    /// Make the tab at `idx` the visible tab of leaf `leaf`. Out-of-range
    /// arguments are a silent no-op: a programming-contract precondition,
    /// not a user-facing error.
    pub fn set_active_tab(&mut self, leaf: usize, idx: usize)
        requires
            old(self).wf(),
        ensures
            final(self).wf(),
            final(self).leaves() == old(self).leaves(),
            final(self).open_pages() == old(self).open_pages(),
            same_shape(final(self).root_spec(), old(self).root_spec()),
            final(self).focused_spec() == old(self).focused_spec(),
            final(self).actives() == if 0 <= (leaf as int) < old(self).leaves().len() && (
            idx as int) < old(self).leaves()[leaf as int].len() {
                old(self).actives().update(leaf as int, idx as int)
            } else {
                old(self).actives()
            },
    {
        proof {
            lemma_num_leaves_bounded(old(self).root_spec());
        }
        let mut tmp = PaneNode::Leaf { tabs: Vec::new(), active: 0 };
        core::mem::swap(&mut self.root, &mut tmp);
        let new_root = set_active_in(tmp, leaf, idx);
        self.root = new_root;
    }

    /// Append `page` to the focused leaf and make it the active tab
    /// there. The caller must first rule out that `page` is already open
    /// anywhere (`find_tab`): resolution enforces that order.
    pub fn push_to_focused_leaf(&mut self, page: Page)
        requires
            old(self).wf(),
            !old(self).is_open(page),
        ensures
            final(self).wf(),
            same_shape(final(self).root_spec(), old(self).root_spec()),
            final(self).focused_spec() == old(self).focused_spec(),
            final(self).leaves() == old(self).leaves().update(
                old(self).focused_spec(),
                old(self).leaves()[old(self).focused_spec()].push(page),
            ),
            final(self).actives() == old(self).actives().update(
                old(self).focused_spec(),
                old(self).leaves()[old(self).focused_spec()].len() as int,
            ),
            forall|q: Page| final(self).is_open(q) <==> old(self).is_open(q) || q == page,
    {
        proof {
            lemma_num_leaves_bounded(old(self).root_spec());
        }
        let mut tmp = PaneNode::Leaf { tabs: Vec::new(), active: 0 };
        core::mem::swap(&mut self.root, &mut tmp);
        let focused = self.focused;
        let new_root = push_in(tmp, focused, page);
        proof {
            lemma_no_dup_after_insert(
                all_tabs(old(self).root_spec()),
                all_tabs(new_root),
                page,
            );
        }
        self.root = new_root;
    }

    /// Split the leaf with ordinal `leaf` in two: the leaf keeps its tabs
    /// in one child region, `tabs` seed a fresh leaf on the `direction`
    /// side. `ratio` asks for the per-mille share of the first (left or
    /// top) child and is clamped into the minimum-visible-size bounds.
    /// The fresh leaf becomes the focused leaf.
    pub fn split(
        &mut self,
        leaf: usize,
        direction: SplitDirection,
        ratio: u32,
        tabs: Vec<Page>,
    )
        requires
            old(self).wf(),
            0 <= (leaf as int) < old(self).leaves().len(),
            old(self).leaves()[leaf as int].len() > 0,
            tabs@.len() > 0,
            tabs@.no_duplicates(),
            forall|i: int| 0 <= i < tabs@.len() ==> !old(self).is_open(#[trigger] tabs@[i]),
        ensures
            final(self).wf(),
            ({
                let pos = if direction == SplitDirection::Left || direction
                    == SplitDirection::Above {
                    leaf as int
                } else {
                    leaf as int + 1
                };
                &&& final(self).leaves() == old(self).leaves().insert(pos, tabs@)
                &&& final(self).actives() == old(self).actives().insert(pos, 0int)
                &&& final(self).focused_spec() == pos
            }),
            forall|q: Page| final(self).is_open(q) <==> old(self).is_open(q) || tabs@.contains(q),
            split_ratios(final(self).root_spec()).to_multiset() == split_ratios(
                old(self).root_spec(),
            ).to_multiset().insert(clamped_ratio(ratio as int)),
            split_orients(final(self).root_spec()).to_multiset() == split_orients(
                old(self).root_spec(),
            ).to_multiset().insert(orientation_of(direction)),
    {
        proof {
            lemma_num_leaves_bounded(old(self).root_spec());
        }
        let orientation = match direction {
            SplitDirection::Left | SplitDirection::Right => Orientation::Horizontal,
            SplitDirection::Above | SplitDirection::Below => Orientation::Vertical,
        };
        let new_first = match direction {
            SplitDirection::Left | SplitDirection::Above => true,
            SplitDirection::Right | SplitDirection::Below => false,
        };
        let stored = clamp_ratio(ratio);
        let ghost tv = tabs@;
        let mut tmp = PaneNode::Leaf { tabs: Vec::new(), active: 0 };
        core::mem::swap(&mut self.root, &mut tmp);
        let new_root = split_in(tmp, leaf, orientation, new_first, stored, tabs);
        proof {
            assert forall|q: Page| !(all_tabs(old(self).root_spec()).contains(q)
                && tv.contains(q)) by {
                if tv.contains(q) {
                    let i = choose|i: int| 0 <= i < tv.len() && tv[i] == q;
                }
            }
            lemma_no_dup_after_add(all_tabs(old(self).root_spec()), all_tabs(new_root), tv);
        }
        self.root = new_root;
        self.focused = if new_first {
            leaf
        } else {
            leaf + 1
        };
    }

    /// Close the tab at `idx` of leaf `leaf`. Out-of-range arguments are
    /// a silent no-op. A leaf left empty is pruned: its parent split
    /// collapses and the sibling occupies the parent's former region;
    /// only when the whole tree is that one leaf does it stay, empty.
    pub fn close_tab(&mut self, leaf: usize, idx: usize)
        requires
            old(self).wf(),
        ensures
            final(self).wf(),
            ((leaf as int) >= old(self).leaves().len() || (idx as int) >= old(self).leaves()[
                leaf as int].len()) ==> *final(self) == *old(self),
            ((leaf as int) < old(self).leaves().len() && (idx as int) < old(self).leaves()[
                leaf as int].len()) ==> ({
                let page = old(self).leaves()[leaf as int][idx as int];
                let llen = old(self).leaves()[leaf as int].len();
                &&& (forall|q: Page|
                    final(self).is_open(q) <==> old(self).is_open(q) && q != page)
                &&& llen > 1 ==> {
                    &&& same_shape(final(self).root_spec(), old(self).root_spec())
                    &&& final(self).leaves() == old(self).leaves().update(
                        leaf as int,
                        old(self).leaves()[leaf as int].remove(idx as int),
                    )
                    &&& final(self).actives() == old(self).actives().update(
                        leaf as int,
                        active_after_remove(
                            old(self).actives()[leaf as int],
                            idx as int,
                            llen - 1,
                        ),
                    )
                    &&& final(self).focused_spec() == old(self).focused_spec()
                }
                &&& (llen == 1 && old(self).leaves().len() == 1) ==> {
                    &&& final(self).leaves() == seq![Seq::<Page>::empty()]
                    &&& final(self).actives() == seq![0int]
                    &&& final(self).focused_spec() == 0
                }
                &&& (llen == 1 && old(self).leaves().len() > 1) ==> {
                    &&& final(self).leaves() == old(self).leaves().remove(leaf as int)
                    &&& final(self).actives() == old(self).actives().remove(leaf as int)
                    &&& split_ratios(final(self).root_spec()).len() == split_ratios(
                        old(self).root_spec(),
                    ).len() - 1
                    &&& final(self).focused_spec() == ({
                        let nl = old(self).leaves().len() - 1;
                        if old(self).focused_spec() > leaf {
                            old(self).focused_spec() - 1
                        } else if old(self).focused_spec() == leaf {
                            if (leaf as int) < nl {
                                leaf as int
                            } else {
                                nl - 1
                            }
                        } else {
                            old(self).focused_spec()
                        }
                    })
                }
            }),
    {
        proof {
            lemma_num_leaves_bounded(old(self).root_spec());
        }
        let total = count_leaves(&self.root);
        if leaf >= total {
            return ;
        }
        let llen = leaf_len_in(&self.root, leaf);
        if idx >= llen {
            return ;
        }
        let mut tmp = PaneNode::Leaf { tabs: Vec::new(), active: 0 };
        core::mem::swap(&mut self.root, &mut tmp);
        let (new_root, page) = remove_in(tmp, leaf, idx);
        proof {
            lemma_position_implies_open(old(self).root_spec(), leaf as int, idx as int);
            lemma_no_dup_after_remove(
                all_tabs(old(self).root_spec()),
                all_tabs(new_root),
                page,
            );
        }
        self.root = new_root;
        if llen == 1 && total > 1 {
            let nl = total - 1;
            if self.focused > leaf {
                self.focused = self.focused - 1;
            } else if self.focused == leaf {
                self.focused = if leaf < nl {
                    leaf
                } else {
                    nl - 1
                };
            }
        }
    }

    /// Drag-and-drop outcome: take the tab at `from_idx` of `from_leaf`
    /// and let it end at position `to_idx` of `to_leaf` (clamped to the
    /// positions that leaf offers), making it the active tab there. A
    /// source leaf left empty is pruned, and the focus follows the moved
    /// tab if its leaf disappears. Moving a tab onto its own current
    /// position leaves the tree as it was.
    pub fn move_tab(&mut self, from_leaf: usize, from_idx: usize, to_leaf: usize, to_idx: usize)
        requires
            old(self).wf(),
            0 <= (from_leaf as int) < old(self).leaves().len(),
            (from_idx as int) < old(self).leaves()[from_leaf as int].len(),
            0 <= (to_leaf as int) < old(self).leaves().len(),
        ensures
            final(self).wf(),
            forall|q: Page| final(self).is_open(q) <==> old(self).is_open(q),
            from_leaf == to_leaf ==> ({
                let src = old(self).leaves()[from_leaf as int];
                let t = if (to_idx as int) < src.len() {
                    to_idx as int
                } else {
                    src.len() - 1
                };
                &&& same_shape(final(self).root_spec(), old(self).root_spec())
                &&& final(self).leaves() == old(self).leaves().update(
                    from_leaf as int,
                    src.remove(from_idx as int).insert(t, src[from_idx as int]),
                )
                &&& final(self).actives() == old(self).actives().update(from_leaf as int, t)
                &&& final(self).focused_spec() == old(self).focused_spec()
            }),
            from_leaf != to_leaf ==> ({
                let page = old(self).leaves()[from_leaf as int][from_idx as int];
                let dst = old(self).leaves()[to_leaf as int];
                let t = if (to_idx as int) < dst.len() {
                    to_idx as int
                } else {
                    dst.len() as int
                };
                let slen = old(self).leaves()[from_leaf as int].len();
                &&& slen > 1 ==> {
                    &&& same_shape(final(self).root_spec(), old(self).root_spec())
                    &&& final(self).leaves() == old(self).leaves().update(
                        to_leaf as int,
                        dst.insert(t, page),
                    ).update(from_leaf as int, old(self).leaves()[from_leaf as int].remove(
                        from_idx as int,
                    ))
                    &&& final(self).actives() == old(self).actives().update(
                        to_leaf as int,
                        t,
                    ).update(from_leaf as int, active_after_remove(
                        old(self).actives()[from_leaf as int],
                        from_idx as int,
                        slen - 1,
                    ))
                    &&& final(self).focused_spec() == old(self).focused_spec()
                }
                &&& slen == 1 ==> {
                    &&& final(self).leaves() == old(self).leaves().update(
                        to_leaf as int,
                        dst.insert(t, page),
                    ).remove(from_leaf as int)
                    &&& final(self).actives() == old(self).actives().update(
                        to_leaf as int,
                        t,
                    ).remove(from_leaf as int)
                    &&& split_ratios(final(self).root_spec()).len() == split_ratios(
                        old(self).root_spec(),
                    ).len() - 1
                    &&& final(self).focused_spec() == if to_leaf > from_leaf {
                        to_leaf as int - 1
                    } else {
                        to_leaf as int
                    }
                }
            }),
    {
        proof {
            lemma_num_leaves_bounded(old(self).root_spec());
        }
        if from_leaf == to_leaf {
            let llen = leaf_len_in(&self.root, from_leaf);
            let t = if to_idx < llen {
                to_idx
            } else {
                llen - 1
            };
            let mut tmp = PaneNode::Leaf { tabs: Vec::new(), active: 0 };
            core::mem::swap(&mut self.root, &mut tmp);
            let new_root = reorder_in(tmp, from_leaf, from_idx, t);
            proof {
                lemma_no_dup_after_permute(
                    all_tabs(old(self).root_spec()),
                    all_tabs(new_root),
                );
            }
            self.root = new_root;
        } else {
            let page = get_tab_in(&self.root, from_leaf, from_idx);
            let dlen = leaf_len_in(&self.root, to_leaf);
            let slen = leaf_len_in(&self.root, from_leaf);
            let t = if to_idx < dlen {
                to_idx
            } else {
                dlen
            };
            let mut tmp = PaneNode::Leaf { tabs: Vec::new(), active: 0 };
            core::mem::swap(&mut self.root, &mut tmp);
            let mid_root = insert_in(tmp, to_leaf, t, page);
            proof {
                lemma_actives_len(old(self).root_spec());
                assert(leaf_tabs(mid_root)[from_leaf as int] == leaf_tabs(
                    old(self).root_spec(),
                )[from_leaf as int]);
                assert(leaf_actives(mid_root)[from_leaf as int] == leaf_actives(
                    old(self).root_spec(),
                )[from_leaf as int]);
            }
            let (new_root, moved) = remove_in(mid_root, from_leaf, from_idx);
            proof {
                broadcast use vstd::multiset::group_multiset_axioms;

                assert(all_tabs(new_root).to_multiset() =~= all_tabs(
                    old(self).root_spec(),
                ).to_multiset());
                lemma_no_dup_after_permute(
                    all_tabs(old(self).root_spec()),
                    all_tabs(new_root),
                );
                if slen > 1 {
                    lemma_same_shape_trans(
                        new_root,
                        mid_root,
                        old(self).root_spec(),
                    );
                } else {
                    lemma_same_shape_ratios(mid_root, old(self).root_spec());
                }
            }
            self.root = new_root;
            if slen == 1 {
                self.focused = if to_leaf > from_leaf {
                    to_leaf - 1
                } else {
                    to_leaf
                };
            }
        }
    }

    // --------------------------------------------------------------
    // Read-only accessors.
    // --------------------------------------------------------------

    /// Number of leaves of the tree.
    pub fn leaf_count(&self) -> (n: usize)
        requires
            self.wf(),
        ensures
            n == self.leaves().len(),
    {
        proof {
            lemma_num_leaves_bounded(self.root_spec());
        }
        count_leaves(&self.root)
    }

    /// Ordinal of the focused leaf.
    pub fn focused_leaf(&self) -> (l: usize)
        ensures
            l == self.focused_spec(),
    {
        self.focused
    }

    /// Copy of the tab sequence of leaf `leaf`.
    pub fn tabs_of(&self, leaf: usize) -> (v: Vec<Page>)
        requires
            self.wf(),
            0 <= (leaf as int) < self.leaves().len(),
        ensures
            v@ == self.leaves()[leaf as int],
    {
        proof {
            lemma_num_leaves_bounded(self.root_spec());
        }
        tabs_of_in(&self.root, leaf)
    }

    /// The active tab of leaf `leaf`, or `None` while that leaf is
    /// (transiently) empty.
    pub fn active_of(&self, leaf: usize) -> (a: Option<usize>)
        requires
            self.wf(),
            0 <= (leaf as int) < self.leaves().len(),
        ensures
            self.leaves()[leaf as int].len() > 0 ==> a == Some(
                self.actives()[leaf as int] as usize,
            ),
            self.leaves()[leaf as int].len() == 0 ==> a is None,
    {
        proof {
            lemma_num_leaves_bounded(self.root_spec());
            lemma_actives_len(self.root_spec());
        }
        let len = leaf_len_in(&self.root, leaf);
        if len == 0 {
            None
        } else {
            Some(active_in(&self.root, leaf))
        }
    }

    /// The page shown by leaf `leaf`, if any.
    pub fn active_page_of(&self, leaf: usize) -> (p: Option<Page>)
        requires
            self.wf(),
            0 <= (leaf as int) < self.leaves().len(),
        ensures
            self.leaves()[leaf as int].len() > 0 ==> p == Some(
                self.leaves()[leaf as int][self.actives()[leaf as int]],
            ),
            self.leaves()[leaf as int].len() == 0 ==> p is None,
    {
        proof {
            lemma_num_leaves_bounded(self.root_spec());
            lemma_actives_len(self.root_spec());
            lemma_wf_actives_in_range(self.root_spec());
        }
        let len = leaf_len_in(&self.root, leaf);
        if len == 0 {
            None
        } else {
            let i = active_in(&self.root, leaf);
            Some(get_tab_in(&self.root, leaf, i))
        }
    }

    /// Depth of leaf `leaf` below the root: the number of splits on the
    /// path down to it.
    pub fn leaf_depth(&self, leaf: usize) -> (d: usize)
        requires
            self.wf(),
            0 <= (leaf as int) < self.leaves().len(),
        ensures
            d == leaf_depths(self.root_spec())[leaf as int],
    {
        proof {
            lemma_num_leaves_bounded(self.root_spec());
        }
        depth_in(&self.root, leaf)
    }

    /// The stored ratio of every split, in node order.
    pub fn ratio_values(&self) -> (v: Vec<u32>)
        requires
            self.wf(),
        ensures
            v@.map_values(|x: u32| x as int) == split_ratios(self.root_spec()),
    {
        ratios_in(&self.root)
    }

    /// The stored orientation of every split, in node order.
    pub fn orientation_values(&self) -> (v: Vec<Orientation>)
        ensures
            v@ == split_orients(self.root_spec()),
    {
        orients_in(&self.root)
    }
}

/// Collect the stored split orientations, in node order.
fn orients_in(n: &PaneNode) -> (v: Vec<Orientation>)
    ensures
        v@ == split_orients(*n),
    decreases *n,
{
    match n {
        PaneNode::Leaf { .. } => {
            let v: Vec<Orientation> = Vec::new();
            proof {
                assert(v@ =~= split_orients(*n));
            }
            v
        },
        PaneNode::Split { orientation, first, second, .. } => {
            let mut v: Vec<Orientation> = Vec::new();
            v.push(*orientation);
            let mut a = orients_in(first);
            let mut b = orients_in(second);
            v.append(&mut a);
            v.append(&mut b);
            proof {
                assert(v@ =~= split_orients(*n));
            }
            v
        },
    }
}

/// Collect a copy of the tabs of the leaf with ordinal `leaf`.
fn tabs_of_in(n: &PaneNode, leaf: usize) -> (v: Vec<Page>)
    requires
        num_leaves(*n) <= usize::MAX,
        0 <= (leaf as int) < leaf_tabs(*n).len(),
    ensures
        v@ == leaf_tabs(*n)[leaf as int],
    decreases *n,
{
    match n {
        PaneNode::Leaf { tabs, .. } => {
            let mut v: Vec<Page> = Vec::new();
            let mut j: usize = 0;
            while j < tabs.len()
                invariant
                    j <= tabs.len(),
                    v@ == tabs@.take(j as int),
                decreases tabs.len() - j,
            {
                v.push(tabs[j]);
                proof {
                    assert(v@ =~= tabs@.take(j + 1));
                }
                j += 1;
            }
            proof {
                assert(tabs@.take(tabs@.len() as int) =~= tabs@);
            }
            v
        },
        PaneNode::Split { first, second, .. } => {
            let c = count_leaves(first);
            if leaf < c {
                proof {
                    assert(leaf_tabs(*n)[leaf as int] == leaf_tabs(**first)[leaf as int]);
                }
                tabs_of_in(first, leaf)
            } else {
                proof {
                    assert(leaf_tabs(*n)[leaf as int] == leaf_tabs(**second)[leaf - c]);
                }
                tabs_of_in(second, leaf - c)
            }
        },
    }
}

/// The active index of the leaf with ordinal `leaf`.
fn active_in(n: &PaneNode, leaf: usize) -> (a: usize)
    requires
        num_leaves(*n) <= usize::MAX,
        0 <= (leaf as int) < leaf_tabs(*n).len(),
    ensures
        a == leaf_actives(*n)[leaf as int],
    decreases *n,
{
    proof {
        lemma_actives_len(*n);
    }
    match n {
        PaneNode::Leaf { active, .. } => *active,
        PaneNode::Split { first, second, .. } => {
            let c = count_leaves(first);
            proof {
                lemma_actives_len(**first);
                lemma_actives_len(**second);
            }
            if leaf < c {
                proof {
                    assert(leaf_actives(*n)[leaf as int] == leaf_actives(**first)[leaf as int]);
                }
                active_in(first, leaf)
            } else {
                proof {
                    assert(leaf_actives(*n)[leaf as int] == leaf_actives(**second)[leaf - c]);
                }
                active_in(second, leaf - c)
            }
        },
    }
}

/// Depth of the leaf with ordinal `leaf` below this node.
fn depth_in(n: &PaneNode, leaf: usize) -> (d: usize)
    requires
        num_leaves(*n) <= usize::MAX,
        0 <= (leaf as int) < leaf_tabs(*n).len(),
    ensures
        d == leaf_depths(*n)[leaf as int],
        d < num_leaves(*n),
    decreases *n,
{
    proof {
        lemma_depths_len(*n);
    }
    match n {
        PaneNode::Leaf { .. } => 0,
        PaneNode::Split { first, second, .. } => {
            let c = count_leaves(first);
            proof {
                lemma_depths_len(**first);
                lemma_depths_len(**second);
                lemma_num_leaves_pos(**first);
                lemma_num_leaves_pos(**second);
            }
            if leaf < c {
                let sub = depth_in(first, leaf);
                proof {
                    assert((leaf_depths(**first) + leaf_depths(**second))[leaf as int]
                        == leaf_depths(**first)[leaf as int]);
                    assert(leaf_depths(*n)[leaf as int] == leaf_depths(**first)[leaf as int]
                        + 1);
                }
                sub + 1
            } else {
                let sub = depth_in(second, leaf - c);
                proof {
                    assert((leaf_depths(**first) + leaf_depths(**second))[leaf as int]
                        == leaf_depths(**second)[leaf - c]);
                    assert(leaf_depths(*n)[leaf as int] == leaf_depths(**second)[leaf - c]
                        + 1);
                }
                sub + 1
            }
        },
    }
}

/// Collect the stored split ratios, in node order.
fn ratios_in(n: &PaneNode) -> (v: Vec<u32>)
    ensures
        v@.map_values(|x: u32| x as int) == split_ratios(*n),
    decreases *n,
{
    match n {
        PaneNode::Leaf { .. } => {
            let v: Vec<u32> = Vec::new();
            proof {
                assert(v@.map_values(|x: u32| x as int) =~= split_ratios(*n));
            }
            v
        },
        PaneNode::Split { ratio, first, second, .. } => {
            let mut v: Vec<u32> = Vec::new();
            v.push(*ratio);
            let mut a = ratios_in(first);
            let mut b = ratios_in(second);
            v.append(&mut a);
            v.append(&mut b);
            proof {
                assert(v@.map_values(|x: u32| x as int) =~= split_ratios(*n));
            }
            v
        },
    }
}

/// Pruning leaves nothing dangling: a well-formed dock that still holds
/// a split has no empty leaf reachable from the root. (A lone root leaf
/// has no sibling to merge with; only it may sit empty.)
pub proof fn lemma_wf_no_empty_leaf(d: DockState)
    requires
        d.wf(),
        d.leaves().len() > 1,
    ensures
        forall|l: int| 0 <= l < d.leaves().len() ==> #[trigger] d.leaves()[l].len() > 0,
{
    match d.root_spec() {
        PaneNode::Leaf { .. } => {},
        PaneNode::Split { first, second, .. } => {
            assert(leaves_nonempty(d.root_spec()));
            lemma_nonempty_leaves_positional(d.root_spec());
        },
    }
}

/// Every stored split ratio of a well-formed dock lies within the
/// minimum-visible-size bounds.
pub proof fn lemma_wf_ratio_bounds(d: DockState)
    requires
        d.wf(),
    ensures
        forall|k: int|
            0 <= k < split_ratios(d.root_spec()).len() ==> MIN_RATIO <= #[trigger] split_ratios(
                d.root_spec(),
            )[k] <= RATIO_SCALE - MIN_RATIO,
{
    lemma_wf_ratios_bounded(d.root_spec());
}

/// Round-trip of locations: in a well-formed dock a page sits at one
/// location at most, so the location `find_tab` reports is the location
/// of every occurrence.
pub proof fn lemma_location_unique(d: DockState, p: Page, l1: int, i1: int, l2: int, i2: int)
    requires
        d.wf(),
        0 <= l1 < d.leaves().len(),
        0 <= i1 < d.leaves()[l1].len(),
        d.leaves()[l1][i1] == p,
        0 <= l2 < d.leaves().len(),
        0 <= i2 < d.leaves()[l2].len(),
        d.leaves()[l2][i2] == p,
    ensures
        l1 == l2,
        i1 == i2,
{
    lemma_position_unique(d.root_spec(), p, l1, i1, l2, i2);
}

} // verus!
