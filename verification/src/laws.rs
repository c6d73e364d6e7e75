use vstd::prelude::*;

use crate::content::Content;
use crate::graph_view::GraphView;

verus! {

/// A walk followed by one more step is a walk.
proof fn lemma_walk_push<K, D, L>(g: GraphView<K, D, L>, path: Seq<K>, x: K, backward: bool)
    requires
        g.is_walk(path, backward, Set::empty()),
        g.step(path.last(), x, backward),
    ensures
        g.is_walk(path.push(x), backward, Set::empty()),
        path.push(x)[0] == path[0],
        path.push(x).last() == x,
{
    let q = path.push(x);
    assert forall|i: int| 0 <= i < q.len() - 1 implies #[trigger] g.link_at(q, i, backward) by {
        if i < path.len() - 1 {
            assert(g.link_at(path, i, backward));
        }
    }
}

/// `x` is `a` itself or is reached from `a` along links.
pub open spec fn reaches_or_is<K, D, L>(g: GraphView<K, D, L>, a: K, x: K) -> bool {
    a == x || g.reaches(a, x, false, Set::empty())
}

/// One link more: from what `a` reaches (or is), `a` reaches the child.
proof fn lemma_reach_step<K, D, L>(g: GraphView<K, D, L>, a: K, x: K, y: K)
    requires
        reaches_or_is(g, a, x),
        g.has_edge(x, y),
    ensures
        g.reaches(a, y, false, Set::empty()),
{
    if a == x {
        let path = seq![a, y];
        assert(g.link_at(path, 0, false));
        assert(g.is_walk(path, false, Set::empty()));
    } else {
        let path = choose|path: Seq<K>|
            #[trigger] g.is_walk(path, false, Set::empty()) && path[0] == a && path.last() == x;
        lemma_walk_push(g, path, y, false);
    }
}

/// Every node of a walk of `g` from `a` that is not `k` is reached from `a` (or is `a`)
/// in `g` without `k`.
proof fn lemma_walk_survives_removal<K, D, L>(
    g: GraphView<K, D, L>,
    k: K,
    path: Seq<K>,
    j: int,
)
    requires
        g.well_formed(),
        g.is_walk(path, false, Set::empty()),
        path[0] != k,
        0 <= j < path.len(),
        path[j] != k,
    ensures
        reaches_or_is(g.removed(k), path[0], path[j]),
    decreases j,
{
    let h = g.removed(k);
    if j > 0 {
        assert(g.link_at(path, j - 1, false));
        if path[j - 1] != k {
            lemma_walk_survives_removal(g, k, path, j - 1);
            assert(h.has_edge(path[j - 1], path[j]));
            lemma_reach_step(h, path[0], path[j - 1], path[j]);
        } else {
            assert(j >= 2);
            assert(g.link_at(path, j - 2, false));
            assert(path[j - 2] != k);
            lemma_walk_survives_removal(g, k, path, j - 2);
            if path[j - 2] != path[j] {
                assert(h.has_edge(path[j - 2], path[j]));
                lemma_reach_step(h, path[0], path[j - 2], path[j]);
            }
        }
    }
}

/// Every node of a walk of `g` without `k` is reached from its start (or is the start) in `g`.
proof fn lemma_walk_comes_from_graph<K, D, L>(
    g: GraphView<K, D, L>,
    k: K,
    path: Seq<K>,
    j: int,
)
    requires
        g.is_walk(path, false, Set::empty()) || g.removed(k).is_walk(path, false, Set::empty()),
        g.removed(k).is_walk(path, false, Set::empty()),
        0 <= j < path.len(),
    ensures
        reaches_or_is(g, path[0], path[j]),
    decreases j,
{
    let h = g.removed(k);
    if j > 0 {
        lemma_walk_comes_from_graph(g, k, path, j - 1);
        assert(h.link_at(path, j - 1, false));
        if g.has_edge(path[j - 1], path[j]) {
            lemma_reach_step(g, path[0], path[j - 1], path[j]);
        } else {
            assert(g.bypass_links(k).contains((path[j - 1], path[j])));
            lemma_reach_step(g, path[0], path[j - 1], k);
            lemma_reach_step(g, path[0], k, path[j]);
        }
    }
}

/// Removing a node keeps the connections between the remaining nodes: for two
/// distinct nodes other than the removed one, the second is reached from the
/// first after the removal exactly when it was before.
pub proof fn lemma_remove_keeps_connections<K, D, L>(g: GraphView<K, D, L>, k: K, a: K, b: K)
    requires
        g.well_formed(),
        a != k,
        b != k,
        a != b,
    ensures
        g.removed(k).reaches(a, b, false, Set::empty()) == g.reaches(a, b, false, Set::empty()),
{
    let h = g.removed(k);
    if g.reaches(a, b, false, Set::empty()) {
        let path = choose|path: Seq<K>|
            #[trigger] g.is_walk(path, false, Set::empty()) && path[0] == a && path.last() == b;
        lemma_walk_survives_removal(g, k, path, path.len() - 1);
    }
    if h.reaches(a, b, false, Set::empty()) {
        let path = choose|path: Seq<K>|
            #[trigger] h.is_walk(path, false, Set::empty()) && path[0] == a && path.last() == b;
        lemma_walk_comes_from_graph(g, k, path, path.len() - 1);
    }
}

/// Successors and predecessors mirror each other: `y` is reached from `x` along
/// links exactly when `x` is reached from `y` against them.
pub proof fn lemma_successors_mirror_predecessors<K, D, L>(g: GraphView<K, D, L>, x: K, y: K)
    ensures
        g.reaches(x, y, false, Set::empty()) == g.reaches(y, x, true, Set::empty()),
{
    if g.reaches(x, y, false, Set::empty()) {
        let path = choose|path: Seq<K>|
            #[trigger] g.is_walk(path, false, Set::empty()) && path[0] == x && path.last() == y;
        lemma_reverse_walk(g, path, false);
    }
    if g.reaches(y, x, true, Set::empty()) {
        let path = choose|path: Seq<K>|
            #[trigger] g.is_walk(path, true, Set::empty()) && path[0] == y && path.last() == x;
        lemma_reverse_walk(g, path, true);
    }
}

/// A walk read backwards is a walk the other way.
proof fn lemma_reverse_walk<K, D, L>(g: GraphView<K, D, L>, path: Seq<K>, backward: bool)
    requires
        g.is_walk(path, backward, Set::empty()),
    ensures
        g.is_walk(path.reverse(), !backward, Set::empty()),
        path.reverse()[0] == path.last(),
        path.reverse().last() == path[0],
{
    let n = path.len();
    let r = path.reverse();
    let other = !backward;
    assert forall|i: int| 0 <= i < r.len() - 1 implies #[trigger] g.link_at(r, i, other) by {
        assert(g.link_at(path, n - 2 - i, backward));
        assert(r[i] == path[n - 1 - i]);
        assert(r[i + 1] == path[n - 2 - i]);
    }
}

/// Removing the node that `insert_between` put between `parent` and `child` leaves
/// the graph as it was, with the link from `parent` to `child` (which it had if
/// the insertion took that link's place) and the counter moved on.
pub proof fn lemma_remove_undoes_insert_between<K, D, L>(
    g: GraphView<K, D, L>,
    k: K,
    content: Content<D, L>,
    parent: K,
    child: K,
    recent_id: usize,
)
    requires
        g.well_formed(),
        g.contains(parent),
        g.contains(child),
        !g.contains(k),
        parent != child,
    ensures
        g.spliced(k, content, parent, child, recent_id).removed(k) == (GraphView {
            edges: g.edges.insert((parent, child)),
            recent_id,
            ..g
        }),
        g.has_edge(parent, child) ==> g.spliced(k, content, parent, child, recent_id).removed(k)
            == (GraphView { recent_id, ..g }),
{
    let s = g.spliced(k, content, parent, child, recent_id);
    let want = GraphView { edges: g.edges.insert((parent, child)), recent_id, ..g };
    assert forall|p: K, c: K| #[trigger] g.has_edge(p, c) implies p != k && c != k by {}
    assert forall|p: K| #[trigger] s.has_edge(p, k) == (p == parent) by {
        assert(!g.has_edge(p, k));
    }
    assert forall|c: K| #[trigger] s.has_edge(k, c) == (c == child) by {
        assert(!g.has_edge(k, c));
    }
    assert(s.removed(k).contents =~= want.contents);
    assert forall|e: (K, K)| #[trigger] s.removed(k).edges.contains(e) == want.edges.contains(e) by {
        if e == (parent, child) {
            assert(s.bypass_links(k).contains(e));
        } else {
            assert(s.has_edge(e.0, k) == (e.0 == parent));
            assert(s.has_edge(k, e.1) == (e.1 == child));
            if g.has_edge(e.0, e.1) {
                assert(e.0 != k && e.1 != k);
            }
            assert(s.bypass_links(k).contains(e) == (s.has_edge(e.0, k) && s.has_edge(k, e.1) && e.0 != e.1));
        }
    }
    assert(s.removed(k).edges =~= want.edges);
    if g.has_edge(parent, child) {
        assert(g.edges.insert((parent, child)) =~= g.edges);
    }
}

/// Removing the node that `append_node` added leaves the graph as it was, with each
/// of the node's parents linked to each of its children (other than itself) and the
/// counter moved on.
pub proof fn lemma_remove_appended<K, D, L>(
    g: GraphView<K, D, L>,
    k: K,
    content: Content<D, L>,
    parents: Set<K>,
    children: Set<K>,
    recent_id: usize,
)
    requires
        g.well_formed(),
        !g.contains(k),
    ensures
        g.appended(k, content, parents, children, recent_id).removed(k) == (GraphView {
            edges: g.edges + Set::new(
                |e: (K, K)|
                    parents.contains(e.0) && children.contains(e.1) && g.contains(e.0)
                        && g.contains(e.1) && e.0 != e.1,
            ),
            recent_id,
            ..g
        }),
{
    let s = g.appended(k, content, parents, children, recent_id);
    let extra = Set::new(
        |e: (K, K)|
            parents.contains(e.0) && children.contains(e.1) && g.contains(e.0) && g.contains(e.1)
                && e.0 != e.1,
    );
    assert forall|p: K, c: K| #[trigger] g.has_edge(p, c) implies p != k && c != k by {}
    assert forall|p: K| #[trigger] s.has_edge(p, k) == (parents.contains(p) && g.contains(p)) by {
        assert(!g.has_edge(p, k));
    }
    assert forall|c: K| #[trigger] s.has_edge(k, c) == (children.contains(c) && g.contains(c)) by {
        assert(!g.has_edge(k, c));
    }
    assert(s.removed(k).contents =~= g.contents);
    assert forall|e: (K, K)| #[trigger] s.removed(k).edges.contains(e) == (g.edges + extra).contains(e) by {
        assert(s.has_edge(e.0, k) == (parents.contains(e.0) && g.contains(e.0)));
        assert(s.has_edge(k, e.1) == (children.contains(e.1) && g.contains(e.1)));
        if g.has_edge(e.0, e.1) {
            assert(e.0 != k && e.1 != k);
        }
        assert(s.bypass_links(k).contains(e) == (s.has_edge(e.0, k) && s.has_edge(k, e.1) && e.0 != e.1));
    }
    assert(s.removed(k).edges =~= g.edges + extra);
}

/// Unlinking a link that was just made leaves the graph as it was.
pub proof fn lemma_unlink_undoes_link<K, D, L>(g: GraphView<K, D, L>, parent: K, child: K)
    requires
        !g.has_edge(parent, child),
    ensures
        g.linked(parent, child).unlinked(parent, child) == g,
{
    assert(g.edges.insert((parent, child)).remove((parent, child)) =~= g.edges);
}

/// Appending a node places it without altering existing connections: every node
/// keeps its content and every link stays.
pub proof fn lemma_append_keeps_connections<K, D, L>(
    g: GraphView<K, D, L>,
    k: K,
    content: Content<D, L>,
    parents: Set<K>,
    children: Set<K>,
    recent_id: usize,
)
    requires
        !g.contains(k),
    ensures
        g.contents.submap_of(g.appended(k, content, parents, children, recent_id).contents),
        g.edges.subset_of(g.appended(k, content, parents, children, recent_id).edges),
{
}

/// Inserting a node between a parent and a child cuts the link at the point of
/// insertion and closes it through the added node; no other link changes.
pub proof fn lemma_insert_between_cuts_only_that_link<K, D, L>(
    g: GraphView<K, D, L>,
    k: K,
    content: Content<D, L>,
    parent: K,
    child: K,
    recent_id: usize,
)
    requires
        g.well_formed(),
        !g.contains(k),
    ensures
        g.contents.submap_of(g.spliced(k, content, parent, child, recent_id).contents),
        g.spliced(k, content, parent, child, recent_id).edges.remove((parent, k)).remove((k, child))
            == g.edges.remove((parent, child)),
{
    let s = g.spliced(k, content, parent, child, recent_id);
    assert forall|e: (K, K)| #[trigger] g.edges.contains(e) implies e.0 != k && e.1 != k by {
        assert(g.has_edge(e.0, e.1));
    }
    assert(s.edges.remove((parent, k)).remove((k, child)) =~= g.edges.remove((parent, child)));
}

/// A new graph holds exactly its input and output nodes, the input node with the
/// input content and the output node with the output content, and exactly one
/// link: from the input node to the output node. It has the shape every operation
/// keeps.
pub proof fn lemma_new_graph_holds_what_it_was_given<K, D, L>(
    input: K,
    input_content: Content<D, L>,
    output: K,
    output_content: Content<D, L>,
    recent_id: usize,
)
    requires
        input != output,
    ensures
        ({
            let g = GraphView::<K, D, L>::initial(
                input,
                input_content,
                output,
                output_content,
                recent_id,
            );
            &&& g.input == input
            &&& g.output == output
            &&& g.recent_id == recent_id
            &&& forall|x: K| #[trigger] g.contains(x) <==> (x == input || x == output)
            &&& g.contents[input] == input_content
            &&& g.contents[output] == output_content
            &&& forall|p: K, c: K| #[trigger] g.has_edge(p, c) <==> (p == input && c == output)
            &&& g.well_formed()
        }),
{
    let g = GraphView::<K, D, L>::initial(input, input_content, output, output_content, recent_id);
    assert(g.contents.dom() =~= Set::empty().insert(input).insert(output));
}

/// Appending node `k` gives it `content`, links it from each present node among
/// `parents` and to each present node among `children`, and changes nothing else:
/// every node already there keeps its content, and no link between nodes already
/// there appears or disappears.
pub proof fn lemma_append_links_only_the_new_node<K, D, L>(
    g: GraphView<K, D, L>,
    k: K,
    content: Content<D, L>,
    parents: Set<K>,
    children: Set<K>,
    recent_id: usize,
)
    requires
        g.well_formed(),
        !g.contains(k),
    ensures
        ({
            let a = g.appended(k, content, parents, children, recent_id);
            &&& a.input == g.input
            &&& a.output == g.output
            &&& a.recent_id == recent_id
            &&& forall|x: K| #[trigger] a.contains(x) <==> (g.contains(x) || x == k)
            &&& a.contents[k] == content
            &&& forall|x: K| g.contains(x) ==> #[trigger] a.contents[x] == g.contents[x]
            &&& forall|p: K, c: K|
                p != k && c != k ==> (#[trigger] a.has_edge(p, c) <==> g.has_edge(p, c))
            &&& forall|p: K| #[trigger] a.has_edge(p, k) <==> (parents.contains(p) && g.contains(p))
            &&& forall|c: K| #[trigger] a.has_edge(k, c) <==> (children.contains(c) && g.contains(c))
        }),
{
    let a = g.appended(k, content, parents, children, recent_id);
    assert forall|p: K| #[trigger] a.has_edge(p, k) <==> (parents.contains(p) && g.contains(p)) by {
        assert(!g.has_edge(p, k));
    }
    assert forall|c: K| #[trigger] a.has_edge(k, c) <==> (children.contains(c) && g.contains(c)) by {
        assert(!g.has_edge(k, c));
    }
}

/// Inserting node `k` between `parent` and `child` gives it `content`, links
/// `parent` to `k` and `k` to `child` (also when `parent` and `child` are the same
/// node), removes the link from `parent` to `child`, and changes nothing else.
pub proof fn lemma_insert_between_links_through_the_new_node<K, D, L>(
    g: GraphView<K, D, L>,
    k: K,
    content: Content<D, L>,
    parent: K,
    child: K,
    recent_id: usize,
)
    requires
        g.well_formed(),
        !g.contains(k),
        g.contains(parent),
        g.contains(child),
    ensures
        ({
            let s = g.spliced(k, content, parent, child, recent_id);
            &&& s.input == g.input
            &&& s.output == g.output
            &&& s.recent_id == recent_id
            &&& forall|x: K| #[trigger] s.contains(x) <==> (g.contains(x) || x == k)
            &&& s.contents[k] == content
            &&& forall|x: K| g.contains(x) ==> #[trigger] s.contents[x] == g.contents[x]
            &&& s.has_edge(parent, k)
            &&& s.has_edge(k, child)
            &&& !s.has_edge(parent, child)
            &&& forall|p: K| #[trigger] s.has_edge(p, k) <==> p == parent
            &&& forall|c: K| #[trigger] s.has_edge(k, c) <==> c == child
            &&& forall|p: K, c: K|
                p != k && c != k ==> (#[trigger] s.has_edge(p, c) <==> (g.has_edge(p, c) && !(p
                    == parent && c == child)))
        }),
{
    let s = g.spliced(k, content, parent, child, recent_id);
    assert forall|p: K| #[trigger] s.has_edge(p, k) <==> p == parent by {
        assert(!g.has_edge(p, k));
    }
    assert forall|c: K| #[trigger] s.has_edge(k, c) <==> c == child by {
        assert(!g.has_edge(k, c));
    }
}

/// Linking `parent` to `child` makes that link and changes nothing else: no link is
/// removed, no other link appears, and linking two nodes already linked leaves the
/// graph as it was.
pub proof fn lemma_link_adds_only_that_link<K, D, L>(g: GraphView<K, D, L>, parent: K, child: K)
    ensures
        g.linked(parent, child).has_edge(parent, child),
        forall|p: K, c: K|
            #[trigger] g.linked(parent, child).has_edge(p, c) <==> (g.has_edge(p, c) || (p == parent
                && c == child)),
        g.linked(parent, child).contents == g.contents,
        g.linked(parent, child).input == g.input,
        g.linked(parent, child).output == g.output,
        g.linked(parent, child).recent_id == g.recent_id,
        g.has_edge(parent, child) ==> g.linked(parent, child) == g,
{
    if g.has_edge(parent, child) {
        assert(g.edges.insert((parent, child)) =~= g.edges);
    }
}

/// Unlinking `parent` from `child` removes that link and changes nothing else; where
/// there is no such link the graph stays as it was.
pub proof fn lemma_unlink_removes_only_that_link<K, D, L>(g: GraphView<K, D, L>, parent: K, child: K)
    ensures
        !g.unlinked(parent, child).has_edge(parent, child),
        forall|p: K, c: K|
            #[trigger] g.unlinked(parent, child).has_edge(p, c) <==> (g.has_edge(p, c) && !(p
                == parent && c == child)),
        g.unlinked(parent, child).contents == g.contents,
        g.unlinked(parent, child).input == g.input,
        g.unlinked(parent, child).output == g.output,
        g.unlinked(parent, child).recent_id == g.recent_id,
        !g.has_edge(parent, child) ==> g.unlinked(parent, child) == g,
{
    if !g.has_edge(parent, child) {
        assert(g.edges.remove((parent, child)) =~= g.edges);
    }
}

/// Removing node `k` takes it and all its links out, keeps every other node with its
/// content and every link between other nodes, links each parent of `k` to each
/// child of `k` other than itself, and adds nothing else; the graph keeps its shape.
pub proof fn lemma_remove_bypasses_the_node<K, D, L>(g: GraphView<K, D, L>, k: K)
    requires
        g.well_formed(),
        g.contains(k),
        k != g.input,
        k != g.output,
    ensures
        ({
            let r = g.removed(k);
            &&& r.input == g.input
            &&& r.output == g.output
            &&& r.recent_id == g.recent_id
            &&& forall|x: K| #[trigger] r.contains(x) <==> (g.contains(x) && x != k)
            &&& forall|x: K| r.contains(x) ==> #[trigger] r.contents[x] == g.contents[x]
            &&& forall|p: K| !#[trigger] r.has_edge(p, k)
            &&& forall|c: K| !#[trigger] r.has_edge(k, c)
            &&& forall|p: K, c: K|
                p != k && c != k ==> (#[trigger] r.has_edge(p, c) <==> (g.has_edge(p, c) || (
                g.has_edge(p, k) && g.has_edge(k, c) && p != c)))
            &&& r.well_formed()
        }),
{
    let r = g.removed(k);
    assert forall|p: K| !#[trigger] r.has_edge(p, k) by {
        assert(!g.has_edge(k, k));
    }
    assert forall|c: K| !#[trigger] r.has_edge(k, c) by {
        assert(!g.has_edge(k, k));
    }
    assert forall|p: K, c: K| #[trigger] r.has_edge(p, c) implies {
        &&& r.contains(p)
        &&& r.contains(c)
        &&& p != c
        &&& c != r.input
        &&& p != r.output
    } by {
        if g.has_edge(p, c) {
        } else {
            assert(g.has_edge(p, k) && g.has_edge(k, c));
        }
    }
}

/// A link may be made between two nodes that are not linked yet exactly when the
/// graph with that link still has the shape every operation keeps.
pub proof fn lemma_may_link_keeps_shape<K, D, L>(g: GraphView<K, D, L>, parent: K, child: K)
    requires
        g.well_formed(),
        !g.has_edge(parent, child),
    ensures
        g.may_link(parent, child) <==> g.linked(parent, child).well_formed(),
{
    let h = g.linked(parent, child);
    if h.well_formed() {
        assert(h.has_edge(parent, child));
    }
    if g.may_link(parent, child) {
        assert forall|p: K, c: K| #[trigger] h.has_edge(p, c) implies {
            &&& h.contains(p)
            &&& h.contains(c)
            &&& p != c
            &&& c != h.input
            &&& p != h.output
        } by {
            if !(p == parent && c == child) {
                assert(g.has_edge(p, c));
            }
        }
    }
}

} // verus!
