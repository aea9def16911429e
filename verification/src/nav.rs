//! The navigation dispatcher: requests collected during a render pass
//! are drained afterwards, in submission order, and resolved against the
//! pane tree — focusing the existing tab of a page already open, else
//! appending the page to the focused leaf. Resolution therefore never
//! duplicates an open tab.

use vstd::prelude::*;
use vstd::multiset::Multiset;
use crate::page::{Page, Request};
use crate::dock::{DockState, SplitDirection, same_shape, split_ratios};

verus! {

/// The request queue filled while content renders, drained exactly once
/// after the pass.
pub struct State {
    requests: Vec<Request>,
}

impl State {
    /// The queued requests, oldest first.
    pub closed spec fn requests_spec(self) -> Seq<Request> {
        self.requests@
    }

    /// An empty queue.
    pub fn new() -> (s: State)
        ensures
            s.requests_spec() == Seq::<Request>::empty(),
    {
        State { requests: Vec::new() }
    }

    /// Queue one request; it will be resolved after the current pass.
    pub fn push(&mut self, r: Request)
        ensures
            final(self).requests_spec() == old(self).requests_spec().push(r),
    {
        self.requests.push(r);
    }

    /// Number of requests waiting.
    pub fn pending(&self) -> (n: usize)
        ensures
            n == self.requests_spec().len(),
    {
        self.requests.len()
    }
}

/// Render-pass state: the request queue plus the page, if any, to be
/// visually emphasized after a navigation-driven focus change.
pub struct PageViewer {
    state: State,
    highlight_page: Option<Page>,
}

impl PageViewer {
    /// The queued requests.
    pub closed spec fn requests_spec(self) -> Seq<Request> {
        self.state.requests_spec()
    }

    /// The page currently emphasized, if any.
    pub closed spec fn highlight_spec(self) -> Option<Page> {
        self.highlight_page
    }

    /// A viewer with an empty queue and the given initial highlight.
    pub fn new(highlight: Option<Page>) -> (v: PageViewer)
        ensures
            v.requests_spec() == Seq::<Request>::empty(),
            v.highlight_spec() == highlight,
    {
        PageViewer { state: State::new(), highlight_page: highlight }
    }

    /// Emit an "open or focus this page" request from content.
    pub fn request_open(&mut self, page: Page)
        ensures
            final(self).requests_spec() == old(self).requests_spec().push(
                Request::OpenPage(page),
            ),
            final(self).highlight_spec() == old(self).highlight_spec(),
    {
        self.state.push(Request::OpenPage(page));
    }

    /// The page currently emphasized, if any.
    pub fn highlight(&self) -> (h: Option<Page>)
        ensures
            h == self.highlight_spec(),
    {
        self.highlight_page
    }

    /// Number of requests waiting.
    pub fn pending(&self) -> (n: usize)
        ensures
            n == self.requests_spec().len(),
    {
        self.state.pending()
    }
}

/// The fixed startup configuration: the Home page fills the root region;
/// a left split of roughly 30% of the width holds the Contact page; that
/// left region is halved again so its lower part holds the Help page,
/// which starts focused and highlighted.
pub fn initial_layout() -> (r: (DockState, PageViewer))
    ensures
        r.0.wf(),
        r.0.leaves() == seq![seq![Page::Contact], seq![Page::Help], seq![Page::Home]],
        r.0.actives() == seq![0int, 0int, 0int],
        r.0.focused_spec() == 1,
        split_ratios(r.0.root_spec()).to_multiset() == Multiset::<int>::empty().insert(
            300,
        ).insert(500),
        r.1.requests_spec().len() == 0,
        r.1.highlight_spec() == Some(Page::Help),
{
    let mut home: Vec<Page> = Vec::new();
    home.push(Page::Home);
    proof {
        assert(home@ =~= seq![Page::Home]);
    }
    let mut dock = DockState::new(home);
    let mut contact: Vec<Page> = Vec::new();
    contact.push(Page::Contact);
    proof {
        assert(contact@ =~= seq![Page::Contact]);
        assert(!dock.is_open(Page::Contact)) by {
            if seq![Page::Home].contains(Page::Contact) {
                let k = choose|k: int|
                    0 <= k < 1 && #[trigger] seq![Page::Home][k] == Page::Contact;
            }
        }
        assert(dock.leaves()[0].len() > 0);
    }
    dock.split(0, SplitDirection::Left, 300, contact);
    proof {
        assert(dock.leaves() =~= seq![seq![Page::Contact], seq![Page::Home]]);
        assert(dock.actives() =~= seq![0int, 0int]);
    }
    let mut help: Vec<Page> = Vec::new();
    help.push(Page::Help);
    proof {
        assert(help@ =~= seq![Page::Help]);
        assert(!dock.is_open(Page::Help)) by {
            assert(!seq![Page::Home].contains(Page::Help)) by {
                if seq![Page::Home].contains(Page::Help) {
                    let k = choose|k: int|
                        0 <= k < 1 && #[trigger] seq![Page::Home][k] == Page::Help;
                }
            }
            assert(!seq![Page::Contact].contains(Page::Help)) by {
                if seq![Page::Contact].contains(Page::Help) {
                    let k = choose|k: int|
                        0 <= k < 1 && #[trigger] seq![Page::Contact][k] == Page::Help;
                }
            }
        }
        assert(dock.leaves()[0].len() > 0);
    }
    dock.split(0, SplitDirection::Below, 500, help);
    proof {
        broadcast use vstd::seq_lib::group_to_multiset_ensures;
        broadcast use vstd::multiset::group_multiset_axioms;

        assert(dock.leaves() =~= seq![
            seq![Page::Contact],
            seq![Page::Help],
            seq![Page::Home],
        ]);
        assert(dock.actives() =~= seq![0int, 0int, 0int]);
        assert(Seq::<int>::empty().to_multiset() =~= Multiset::<int>::empty()) by {
            assert(Seq::<int>::empty().to_multiset().len() == 0);
        }
        assert(crate::dock::clamped_ratio(300) == 300);
        assert(crate::dock::clamped_ratio(500) == 500);
    }
    let viewer = PageViewer::new(Some(Page::Help));
    (dock, viewer)
}

/// The pages a request sequence asks for, in order.
pub open spec fn pages_of(reqs: Seq<Request>) -> Seq<Page> {
    reqs.map_values(|r: Request| r.page_spec())
}

/// The pages that resolving `reqs` against a tree whose open pages are
/// `open` appends to the focused leaf: each requested page not yet open
/// (and not already appended), in first-request order.
pub open spec fn new_open_pages(open: Set<Page>, reqs: Seq<Request>) -> Seq<Page>
    decreases reqs.len(),
{
    if reqs.len() == 0 {
        Seq::empty()
    } else {
        let p = reqs[0].page_spec();
        if open.contains(p) {
            new_open_pages(open, reqs.drop_first())
        } else {
            seq![p] + new_open_pages(open.insert(p), reqs.drop_first())
        }
    }
}

/// The highlight left behind by resolving `reqs`: the last request whose
/// page was already open at its turn sets it; requests that insert a
/// fresh tab leave it alone.
pub open spec fn highlight_after(open: Set<Page>, reqs: Seq<Request>, h: Option<Page>) -> Option<
    Page,
>
    decreases reqs.len(),
{
    if reqs.len() == 0 {
        h
    } else {
        let p = reqs[0].page_spec();
        if open.contains(p) {
            highlight_after(open, reqs.drop_first(), Some(p))
        } else {
            highlight_after(open.insert(p), reqs.drop_first(), h)
        }
    }
}

/// Resolve one request: focus the existing tab of a page already open —
/// never creating a leaf or tab — else append the page to the focused
/// leaf. Focus precedence makes duplicate tabs impossible.
pub fn resolve_one(dock: &mut DockState, viewer: &mut PageViewer, req: Request)
    requires
        old(dock).wf(),
    ensures
        final(dock).wf(),
        final(viewer).requests_spec() == old(viewer).requests_spec(),
        final(dock).focused_spec() == old(dock).focused_spec(),
        final(dock).leaves().len() == old(dock).leaves().len(),
        forall|q: Page|
            final(dock).is_open(q) <==> old(dock).is_open(q) || q == req.page_spec(),
        old(dock).is_open(req.page_spec()) ==> {
            &&& final(dock).leaves() == old(dock).leaves()
            &&& same_shape(final(dock).root_spec(), old(dock).root_spec())
            &&& final(viewer).highlight_spec() == Some(req.page_spec())
            &&& forall|l: int, i: int|
                0 <= l < old(dock).leaves().len() && 0 <= i < old(dock).leaves()[l].len()
                    && old(dock).leaves()[l][i] == req.page_spec() ==> final(dock).actives()
                    == old(dock).actives().update(l, i)
            &&& exists|l: int, i: int|
                0 <= l < old(dock).leaves().len() && 0 <= i < old(dock).leaves()[l].len()
                    && old(dock).leaves()[l][i] == req.page_spec() && final(dock).actives()
                    == old(dock).actives().update(l, i)
        },
        !old(dock).is_open(req.page_spec()) ==> {
            &&& final(dock).leaves() == old(dock).leaves().update(
                old(dock).focused_spec(),
                old(dock).leaves()[old(dock).focused_spec()].push(req.page_spec()),
            )
            &&& final(dock).actives() == old(dock).actives().update(
                old(dock).focused_spec(),
                old(dock).leaves()[old(dock).focused_spec()].len() as int,
            )
            &&& same_shape(final(dock).root_spec(), old(dock).root_spec())
            &&& final(viewer).highlight_spec() == old(viewer).highlight_spec()
        },
{
    let page = req.page();
    match dock.find_tab(page) {
        Some(loc) => {
            dock.set_active_tab(loc.0, loc.1);
            viewer.highlight_page = Some(page);
        },
        None => {
            dock.push_to_focused_leaf(page);
        },
    }
}

/// Drain the queue and resolve every request, in submission order.
///
/// No-duplicate invariant: however many requests come in, afterwards
/// each page is open in at most one leaf, every requested page is open,
/// no unrequested page appeared, leaves other than the focused one keep
/// their tabs, and the focused leaf gained exactly the requested pages
/// that were not already open, in first-request order.
pub fn resolve_requests(dock: &mut DockState, viewer: &mut PageViewer)
    requires
        old(dock).wf(),
    ensures
        final(dock).wf(),
        final(dock).open_pages().no_duplicates(),
        final(viewer).requests_spec().len() == 0,
        final(dock).focused_spec() == old(dock).focused_spec(),
        final(dock).leaves().len() == old(dock).leaves().len(),
        forall|l: int|
            0 <= l < old(dock).leaves().len() && l != old(dock).focused_spec()
                ==> final(dock).leaves()[l] == old(dock).leaves()[l],
        final(dock).leaves()[old(dock).focused_spec()] == old(dock).leaves()[old(
            dock,
        ).focused_spec()] + new_open_pages(
            old(dock).open_pages().to_set(),
            old(viewer).requests_spec(),
        ),
        final(viewer).highlight_spec() == highlight_after(
            old(dock).open_pages().to_set(),
            old(viewer).requests_spec(),
            old(viewer).highlight_spec(),
        ),
        forall|q: Page|
            final(dock).is_open(q) <==> old(dock).is_open(q) || pages_of(
                old(viewer).requests_spec(),
            ).contains(q),
        forall|l: int|
            0 <= l < old(dock).leaves().len() && l != old(dock).focused_spec() && (forall|
                q: Page,
            |
                pages_of(old(viewer).requests_spec()).contains(q) ==> !old(dock).leaves()[
                    l].contains(q)) ==> #[trigger] final(dock).actives()[l] == old(
                dock,
            ).actives()[l],
{
    let mut reqs: Vec<Request> = Vec::new();
    core::mem::swap(&mut viewer.state.requests, &mut reqs);
    let ghost reqs0 = reqs@;
    let ghost pages0 = pages_of(reqs0);
    let ghost open0 = old(dock).open_pages().to_set();
    let ghost h0 = old(viewer).highlight_spec();
    let ghost f = old(dock).focused_spec();
    let ghost base_leaves = old(dock).leaves();
    let ghost base_actives = old(dock).actives();
    proof {
        broadcast use vstd::set::group_set_axioms;

        assert(reqs0.skip(0) =~= reqs0);
        assert(base_leaves[f] + new_open_pages(open0, reqs0.skip(0)) == base_leaves[f]
            + new_open_pages(open0, reqs0));
        assert(pages0.take(0) =~= Seq::<Page>::empty());
        assert forall|q: Page| open0.contains(q) <==> old(dock).is_open(q) by {}
        assert forall|q: Page| !pages0.take(0).contains(q) by {
            if pages0.take(0).contains(q) {
                let k = choose|k: int| 0 <= k < 0 && #[trigger] pages0.take(0)[k] == q;
            }
        }
    }
    let n = reqs.len();
    let mut i: usize = 0;
    while i < n
        invariant
            i <= n,
            n == reqs0.len(),
            reqs@ == reqs0,
            pages0 == pages_of(reqs0),
            dock.wf(),
            viewer.requests_spec().len() == 0,
            dock.focused_spec() == f,
            0 <= f < base_leaves.len(),
            dock.leaves().len() == base_leaves.len(),
            forall|l: int|
                0 <= l < base_leaves.len() && l != f ==> dock.leaves()[l] == base_leaves[l],
            dock.leaves()[f] + new_open_pages(dock.open_pages().to_set(), reqs0.skip(i as int))
                == base_leaves[f] + new_open_pages(open0, reqs0),
            highlight_after(
                dock.open_pages().to_set(),
                reqs0.skip(i as int),
                viewer.highlight_spec(),
            ) == highlight_after(open0, reqs0, h0),
            forall|q: Page|
                dock.is_open(q) <==> open0.contains(q) || pages0.take(i as int).contains(q),
            forall|l: int|
                0 <= l < base_leaves.len() && l != f && (forall|q: Page|
                    pages0.take(i as int).contains(q) ==> !base_leaves[l].contains(q))
                    ==> #[trigger] dock.actives()[l] == base_actives[l],
        decreases n - i,
    {
        let ghost pre = *dock;
        let ghost pre_open = pre.open_pages().to_set();
        let ghost rest = reqs0.skip(i as int);
        let r = reqs[i];
        let ghost p = r.page_spec();
        proof {
            broadcast use vstd::set::group_set_axioms;

            assert(rest[0] == reqs0[i as int]);
            assert(pre.is_open(p) <==> pre_open.contains(p));
            assert forall|q: Page|
                pre.is_open(q) <==> open0.contains(q) || pages0.take(i as int).contains(
                    q,
                ) by {
                assert(dock.is_open(q) <==> open0.contains(q) || pages0.take(
                    i as int,
                ).contains(q));
            }
            assert forall|l: int| 0 <= l < base_leaves.len() && l != f implies pre.leaves()[l]
                == base_leaves[l] by {
                assert(dock.leaves()[l] == base_leaves[l]);
            }
            assert forall|l: int|
                0 <= l < base_leaves.len() && l != f && (forall|q: Page|
                    pages0.take(i as int).contains(q) ==> !base_leaves[l].contains(
                        q,
                    )) implies pre.actives()[l] == base_actives[l] by {
                assert(dock.actives()[l] == base_actives[l]);
            }
        }
        resolve_one(dock, viewer, r);
        proof {
            broadcast use vstd::set::group_set_axioms;

            assert(rest.drop_first() =~= reqs0.skip(i + 1));
            assert(pages0.take(i + 1) =~= pages0.take(i as int).push(pages0[i as int]));
            assert(pages0[i as int] == p);
            assert forall|q: Page|
                dock.is_open(q) <==> open0.contains(q) || pages0.take(i + 1).contains(
                    q,
                ) by {
                assert(dock.is_open(q) <==> pre.is_open(q) || q == p);
                assert(pre.is_open(q) <==> open0.contains(q) || pages0.take(
                    i as int,
                ).contains(q));
                assert(pages0.take(i + 1).contains(q) <==> pages0.take(i as int).contains(q)
                    || q == p) by {
                    if pages0.take(i + 1).contains(q) {
                        let k = choose|k: int|
                            0 <= k < i + 1 && #[trigger] pages0.take(i + 1)[k] == q;
                        if k < i {
                            assert(pages0.take(i as int)[k] == q);
                            assert(pages0.take(i as int).contains(q));
                        } else {
                            assert(pages0.take(i + 1)[i as int] == pages0[i as int]);
                            assert(q == p);
                        }
                    }
                    if pages0.take(i as int).contains(q) {
                        let k = choose|k: int|
                            0 <= k < i && #[trigger] pages0.take(i as int)[k] == q;
                        assert(pages0.take(i + 1)[k] == q);
                        assert(pages0.take(i + 1).contains(q));
                    }
                    if q == p {
                        assert(pages0.take(i + 1)[i as int] == q);
                        assert(pages0.take(i + 1).contains(q));
                    }
                }
            }
            assert forall|q: Page|
                pages0.take(i as int).contains(q) implies pages0.take(i + 1).contains(q) by {
                let k = choose|k: int| 0 <= k < i && #[trigger] pages0.take(i as int)[k] == q;
                assert(pages0.take(i + 1)[k] == q);
            }
            assert forall|l: int|
                0 <= l < base_leaves.len() && l != f && (forall|q: Page|
                    pages0.take(i + 1).contains(q) ==> !base_leaves[l].contains(
                        q,
                    )) implies #[trigger] dock.actives()[l] == base_actives[l] by {
                crate::dock::lemma_actives_len(pre.root_spec());
                assert(pre.actives()[l] == base_actives[l]);
                assert(pages0.take(i + 1)[i as int] == p);
                assert(pages0.take(i + 1).contains(p));
                assert(!base_leaves[l].contains(p));
                if pre_open.contains(p) {
                    assert(pre.is_open(p));
                    let (lp, ip) = choose|lp: int, ip: int|
                        0 <= lp < pre.leaves().len() && 0 <= ip < pre.leaves()[lp].len()
                            && pre.leaves()[lp][ip] == p && dock.actives() == pre.actives().update(
                            lp,
                            ip,
                        );
                    if lp == l {
                        assert(pre.leaves()[l] == base_leaves[l]);
                        assert(base_leaves[l][ip] == p);
                        assert(base_leaves[l].contains(p));
                    }
                    assert(dock.actives()[l] == pre.actives()[l]);
                } else {
                    assert(dock.actives() == pre.actives().update(
                        f,
                        pre.leaves()[f].len() as int,
                    ));
                    assert(dock.actives()[l] == pre.actives()[l]);
                }
            }
            if pre_open.contains(p) {
                // focus case: the tree keeps its tabs, the fold skips `p`
                assert forall|q: Page|
                    dock.open_pages().to_set().contains(q) == pre_open.contains(q) by {
                    assert(dock.open_pages().to_set().contains(q) <==> dock.is_open(q));
                    assert(pre_open.contains(q) <==> pre.is_open(q));
                    assert(dock.is_open(q) <==> pre.is_open(q) || q == p);
                    assert(pre.is_open(p));
                }
                assert(dock.open_pages().to_set() =~= pre_open);
                assert(new_open_pages(pre_open, rest) == new_open_pages(
                    pre_open,
                    rest.drop_first(),
                ));
                assert(viewer.highlight_spec() == Some(p));
                assert(dock.leaves()[f] == pre.leaves()[f]);
            } else {
                assert forall|q: Page|
                    dock.open_pages().to_set().contains(q) == pre_open.insert(p).contains(
                        q,
                    ) by {
                    assert(dock.open_pages().to_set().contains(q) <==> dock.is_open(q));
                    assert(pre_open.contains(q) <==> pre.is_open(q));
                    assert(dock.is_open(q) <==> pre.is_open(q) || q == p);
                }
                assert(dock.open_pages().to_set() =~= pre_open.insert(p));
                assert(new_open_pages(pre_open, rest) == seq![p] + new_open_pages(
                    pre_open.insert(p),
                    rest.drop_first(),
                ));
                assert(dock.leaves()[f] == pre.leaves()[f].push(p));
                assert(pre.leaves()[f].push(p) + new_open_pages(
                    pre_open.insert(p),
                    rest.drop_first(),
                ) =~= pre.leaves()[f] + (seq![p] + new_open_pages(
                    pre_open.insert(p),
                    rest.drop_first(),
                )));
            }
        }
        i += 1;
    }
    proof {
        broadcast use vstd::set::group_set_axioms;

        assert(reqs0.skip(n as int) =~= Seq::<Request>::empty());
        assert(dock.leaves()[f] + new_open_pages(
            dock.open_pages().to_set(),
            reqs0.skip(n as int),
        ) == dock.leaves()[f] + Seq::<Page>::empty());
        assert(dock.leaves()[f] + Seq::<Page>::empty() =~= dock.leaves()[f]);
        assert(pages0.take(n as int) =~= pages0);
        assert(reqs0 == old(viewer).requests_spec());
        assert forall|l: int|
            0 <= l < base_leaves.len() && l != f && (forall|q: Page|
                pages0.contains(q) ==> !base_leaves[l].contains(q)) implies #[trigger] dock.actives()[
            l] == base_actives[l] by {
            assert(forall|q: Page|
                pages0.take(n as int).contains(q) ==> !base_leaves[l].contains(q));
            assert(dock.actives()[l] == base_actives[l]);
        }
        assert forall|q: Page|
            dock.is_open(q) <==> old(dock).is_open(q) || pages_of(
                old(viewer).requests_spec(),
            ).contains(q) by {
            assert(dock.is_open(q) <==> open0.contains(q) || pages0.take(
                n as int,
            ).contains(q));
            assert(open0.contains(q) <==> old(dock).is_open(q));
            assert(pages0.take(n as int).contains(q) <==> pages0.contains(q));
        }
    }
}

} // verus!
