use vstd::prelude::*;

use crate::content::Content;

verus! {

/// `found` begins with `prefix`.
pub open spec fn extends<K>(found: Seq<K>, prefix: Seq<K>) -> bool {
    &&& prefix.len() <= found.len()
    &&& found.take(prefix.len() as int) == prefix
}

/// What a cyclic graph is: the content of each node by its identifier,
/// the directed links between nodes, the input and output node identifiers
/// and the counter from which the next identifier is generated.
#[verifier::reject_recursive_types(K)]
pub struct GraphView<K, D, L> {
    pub contents: Map<K, Content<D, L>>,
    pub edges: Set<(K, K)>,
    pub input: K,
    pub output: K,
    pub recent_id: usize,
}

impl<K, D, L> GraphView<K, D, L> {
    /// The graph holds a node with identifier `k`.
    pub open spec fn contains(self, k: K) -> bool {
        self.contents.dom().contains(k)
    }

    /// Every entry of `s` names a node of the graph.
    pub open spec fn all_present(self, s: Seq<K>) -> bool {
        forall|j: int| 0 <= j < s.len() ==> self.contains(#[trigger] s[j])
    }

    /// `s[i]` is the first entry of `s` that names no node of the graph.
    pub open spec fn first_absent_at(self, s: Seq<K>, i: int) -> bool {
        &&& 0 <= i < s.len()
        &&& !self.contains(s[i])
        &&& forall|j: int| 0 <= j < i ==> self.contains(#[trigger] s[j])
    }

    /// There is a link from `parent` to `child`.
    pub open spec fn has_edge(self, parent: K, child: K) -> bool {
        self.edges.contains((parent, child))
    }

    /// The identifiers of the children of `k`.
    pub open spec fn children_of(self, k: K) -> Set<K> {
        Set::new(|c: K| self.has_edge(k, c))
    }

    /// The identifiers of the parents of `k`.
    pub open spec fn parents_of(self, k: K) -> Set<K> {
        Set::new(|p: K| self.has_edge(p, k))
    }

    /// The graph has the shape that every operation keeps: it holds finitely many
    /// nodes, the input and output nodes are present and distinct, links join
    /// present nodes, no node links to itself, nothing links into the input node and
    /// nothing leaves the output node.
    pub open spec fn well_formed(self) -> bool {
        &&& self.contents.dom().finite()
        &&& self.contains(self.input)
        &&& self.contains(self.output)
        &&& self.input != self.output
        &&& forall|p: K, c: K|
            #[trigger] self.has_edge(p, c) ==> {
                &&& self.contains(p)
                &&& self.contains(c)
                &&& p != c
                &&& c != self.input
                &&& p != self.output
            }
    }
}

} // verus!

verus! {

impl<K, D, L> GraphView<K, D, L> {
    /// The graph made of one input node linked to one output node.
    pub open spec fn initial(
        input: K,
        input_content: Content<D, L>,
        output: K,
        output_content: Content<D, L>,
        recent_id: usize,
    ) -> Self {
        GraphView {
            contents: Map::empty().insert(input, input_content).insert(output, output_content),
            edges: Set::empty().insert((input, output)),
            input,
            output,
            recent_id,
        }
    }

    /// The links from the present nodes among `parents` to `k`.
    pub open spec fn links_from(self, parents: Set<K>, k: K) -> Set<(K, K)> {
        Set::new(|e: (K, K)| e.1 == k && parents.contains(e.0) && self.contains(e.0))
    }

    /// The links from `k` to the present nodes among `children`.
    pub open spec fn links_to(self, k: K, children: Set<K>) -> Set<(K, K)> {
        Set::new(|e: (K, K)| e.0 == k && children.contains(e.1) && self.contains(e.1))
    }

    /// The graph after adding node `k` with `content`, linked from each present node
    /// among `parents` and to each present node among `children`; the counter
    /// becomes `recent_id`.
    pub open spec fn appended(
        self,
        k: K,
        content: Content<D, L>,
        parents: Set<K>,
        children: Set<K>,
        recent_id: usize,
    ) -> Self {
        GraphView {
            contents: self.contents.insert(k, content),
            edges: self.edges + self.links_from(parents, k) + self.links_to(k, children),
            recent_id,
            ..self
        }
    }

    /// The graph after adding node `k` with `content` in place of the link from
    /// `parent` to `child` (if there was one): `parent` links to `k` and `k` links
    /// to `child`; the counter becomes `recent_id`.
    pub open spec fn spliced(
        self,
        k: K,
        content: Content<D, L>,
        parent: K,
        child: K,
        recent_id: usize,
    ) -> Self {
        GraphView {
            contents: self.contents.insert(k, content),
            edges: self.edges.remove((parent, child)).insert((parent, k)).insert((k, child)),
            recent_id,
            ..self
        }
    }

    /// The links that do not touch `k`.
    pub open spec fn links_avoiding(self, k: K) -> Set<(K, K)> {
        self.edges.filter(|e: (K, K)| e.0 != k && e.1 != k)
    }

    /// The links from each parent of `k` to each child of `k` other than itself.
    pub open spec fn bypass_links(self, k: K) -> Set<(K, K)> {
        Set::new(|e: (K, K)| self.has_edge(e.0, k) && self.has_edge(k, e.1) && e.0 != e.1)
    }

    /// The graph after removing node `k`: its links are gone, and each of its
    /// parents links to each of its children (but not to itself).
    pub open spec fn removed(self, k: K) -> Self {
        GraphView {
            contents: self.contents.remove(k),
            edges: self.links_avoiding(k) + self.bypass_links(k),
            ..self
        }
    }

    /// A link from `parent` to `child` keeps the graph's shape: both are present
    /// and distinct, the child is not the input node and the parent is not the output node.
    pub open spec fn may_link(self, parent: K, child: K) -> bool {
        &&& parent != child
        &&& self.contains(parent)
        &&& self.contains(child)
        &&& child != self.input
        &&& parent != self.output
    }

    /// The links that may be made from a node among `parents` to a node among `children`.
    pub open spec fn cross_links(self, parents: Set<K>, children: Set<K>) -> Set<(K, K)> {
        Set::new(
            |e: (K, K)| parents.contains(e.0) && children.contains(e.1) && self.may_link(e.0, e.1),
        )
    }

    /// The graph with a link from `parent` to `child`.
    pub open spec fn linked(self, parent: K, child: K) -> Self {
        GraphView { edges: self.edges.insert((parent, child)), ..self }
    }

    /// The graph without a link from `parent` to `child`.
    pub open spec fn unlinked(self, parent: K, child: K) -> Self {
        GraphView { edges: self.edges.remove((parent, child)), ..self }
    }

    /// One step along a link: from parent to child, or (`backward`) from child to parent.
    pub open spec fn step(self, from: K, to: K, backward: bool) -> bool {
        if backward {
            self.has_edge(to, from)
        } else {
            self.has_edge(from, to)
        }
    }

    /// The step from `path[i]` to `path[i + 1]` follows a link.
    pub open spec fn link_at(self, path: Seq<K>, i: int, backward: bool) -> bool {
        self.step(path[i], path[i + 1], backward)
    }

    /// `path` is a walk of at least one step whose nodes after the first are
    /// all outside `avoid`.
    pub open spec fn is_walk(self, path: Seq<K>, backward: bool, avoid: Set<K>) -> bool {
        &&& path.len() >= 2
        &&& forall|i: int| 0 <= i < path.len() - 1 ==> #[trigger] self.link_at(path, i, backward)
        &&& forall|i: int| 1 <= i < path.len() ==> !avoid.contains(#[trigger] path[i])
    }

    /// `to` is reached from `from` by a walk of at least one step that enters no node of `avoid`.
    pub open spec fn reaches(self, from: K, to: K, backward: bool, avoid: Set<K>) -> bool {
        exists|path: Seq<K>|
            #[trigger] self.is_walk(path, backward, avoid) && path[0] == from && path.last() == to
    }

    /// The nodes reached from `from` by walks of at least one step that enter no node of `avoid`.
    pub open spec fn reached_from(self, from: K, backward: bool, avoid: Set<K>) -> Set<K> {
        Set::new(|to: K| self.reaches(from, to, backward, avoid))
    }

    /// Every step from `x` leads into `found`.
    pub open spec fn closed_at(self, found: Seq<K>, x: K, backward: bool) -> bool {
        forall|c: K| #[trigger] self.step(x, c, backward) ==> found.contains(c)
    }

    /// Each element of `found` from index `n0` on is outside `avoid` and one step away from
    /// `start` or from an earlier element from index `n0` on.
    pub open spec fn grown_from(
        self,
        found: Seq<K>,
        n0: int,
        start: K,
        backward: bool,
        avoid: Set<K>,
    ) -> bool {
        forall|j: int|
            n0 <= j < found.len() ==> !avoid.contains(#[trigger] found[j]) && (self.step(
                start,
                found[j],
                backward,
            ) || exists|i: int| n0 <= i < j && self.step(found[i], found[j], backward))
    }

    /// What is grown from `start` step by step is reached from `start`.
    pub proof fn lemma_grown_reaches(
        self,
        found: Seq<K>,
        n0: int,
        start: K,
        backward: bool,
        avoid: Set<K>,
        j: int,
    )
        requires
            self.grown_from(found, n0, start, backward, avoid),
            0 <= n0 <= j < found.len(),
        ensures
            self.reaches(start, found[j], backward, avoid),
        decreases j,
    {
        assert(!avoid.contains(found[j]));
        if self.step(start, found[j], backward) {
            let path = seq![start, found[j]];
            assert(self.link_at(path, 0, backward));
            assert(self.is_walk(path, backward, avoid));
        } else {
            let i = choose|i: int| n0 <= i < j && self.step(found[i], found[j], backward);
            self.lemma_grown_reaches(found, n0, start, backward, avoid, i);
            let p = choose|p: Seq<K>|
                #[trigger] self.is_walk(p, backward, avoid) && p[0] == start && p.last() == found[i];
            let path = p.push(found[j]);
            assert forall|x: int| 0 <= x < path.len() - 1 implies #[trigger] self.link_at(
                path,
                x,
                backward,
            ) by {
                if x < p.len() - 1 {
                    assert(self.link_at(p, x, backward));
                }
            }
            assert forall|x: int| 1 <= x < path.len() implies !avoid.contains(#[trigger] path[x]) by {
                if x < p.len() {
                    assert(path[x] == p[x]);
                }
            }
            assert(self.is_walk(path, backward, avoid));
            assert(path[0] == start);
        }
    }

    /// A search grown from `start` stays grown from `start` when it is extended by a
    /// search from `start` itself or from one of its own later elements `before[m]`
    /// that avoids at least what the first one avoids.
    pub proof fn lemma_grown_chain(
        self,
        before: Seq<K>,
        after: Seq<K>,
        n0: int,
        start: K,
        backward: bool,
        avoid: Set<K>,
        sub_start: K,
        m: int,
        sub_avoid: Set<K>,
    )
        requires
            self.grown_from(before, n0, start, backward, avoid),
            0 <= n0 <= before.len(),
            extends(after, before),
            sub_start == start || (n0 <= m < before.len() && before[m] == sub_start),
            self.grown_from(after, before.len() as int, sub_start, backward, sub_avoid),
            avoid.subset_of(sub_avoid),
        ensures
            self.grown_from(after, n0, start, backward, avoid),
    {
        Self::lemma_extends_contains(after, before);
        assert forall|j: int| n0 <= j < after.len() implies !avoid.contains(#[trigger] after[j]) && (
        self.step(start, after[j], backward) || exists|i: int|
            n0 <= i < j && self.step(after[i], after[j], backward)) by {
            if j < before.len() {
                assert(after[j] == before[j]);
                assert(!avoid.contains(before[j]));
                if !self.step(start, before[j], backward) {
                    let i = choose|i: int| n0 <= i < j && self.step(before[i], before[j], backward);
                    assert(after[i] == before[i]);
                }
            } else {
                assert(!sub_avoid.contains(after[j]));
                if self.step(sub_start, after[j], backward) {
                    if sub_start != start {
                        assert(after[m] == before[m]);
                        assert(self.step(after[m], after[j], backward));
                    }
                } else {
                    let i = choose|i: int|
                        before.len() <= i < j && self.step(after[i], after[j], backward);
                    assert(n0 <= i < j);
                }
            }
        }
    }

    /// When `start` and every element of `found` outside `avoid` are closed, every walk
    /// from `start` that enters no node of `avoid` stays in `found`.
    pub proof fn lemma_closed_holds_walks(
        self,
        found: Seq<K>,
        start: K,
        backward: bool,
        avoid: Set<K>,
        path: Seq<K>,
    )
        requires
            self.closed_at(found, start, backward),
            forall|x: K|
                found.contains(x) && !avoid.contains(x) ==> #[trigger] self.closed_at(
                    found,
                    x,
                    backward,
                ),
            self.is_walk(path, backward, avoid),
            path[0] == start,
        ensures
            found.contains(path.last()),
    {
        let n = path.len();
        assert forall|i: int| 1 <= i < n implies found.contains(#[trigger] path[i]) by {
            self.lemma_walk_prefix_in(found, start, backward, avoid, path, i);
        }
        assert(found.contains(path[n - 1]));
    }

    proof fn lemma_walk_prefix_in(
        self,
        found: Seq<K>,
        start: K,
        backward: bool,
        avoid: Set<K>,
        path: Seq<K>,
        i: int,
    )
        requires
            self.closed_at(found, start, backward),
            forall|x: K|
                found.contains(x) && !avoid.contains(x) ==> #[trigger] self.closed_at(
                    found,
                    x,
                    backward,
                ),
            self.is_walk(path, backward, avoid),
            path[0] == start,
            1 <= i < path.len(),
        ensures
            found.contains(path[i]),
        decreases i,
    {
        assert(self.link_at(path, i - 1, backward));
        if i == 1 {
            assert(self.step(start, path[1], backward));
        } else {
            self.lemma_walk_prefix_in(found, start, backward, avoid, path, i - 1);
            assert(!avoid.contains(path[i - 1]));
            assert(self.closed_at(found, path[i - 1], backward));
            assert(self.step(path[i - 1], path[i], backward));
        }
    }

    /// The state of a search from `start` that began with the nodes `found[..n0]`
    /// (the set `avoid`) and has taken the steps from `start` and from `found[n0..next]`.
    pub open spec fn explored_upto(
        self,
        found: Seq<K>,
        n0: int,
        next: int,
        start: K,
        backward: bool,
        avoid: Set<K>,
    ) -> bool {
        &&& 0 <= n0 <= next <= found.len()
        &&& found.no_duplicates()
        &&& found.take(n0).to_set() == avoid
        &&& self.grown_from(found, n0, start, backward, avoid)
        &&& self.closed_at(found, start, backward)
        &&& forall|j: int| n0 <= j < next ==> #[trigger] self.closed_at(found, found[j], backward)
    }

    /// Growing a sequence keeps what it holds.
    pub proof fn lemma_extends_contains(after: Seq<K>, before: Seq<K>)
        requires
            extends(after, before),
        ensures
            forall|j: int| 0 <= j < before.len() ==> after[j] == #[trigger] before[j],
            forall|x: K| before.contains(x) ==> #[trigger] after.contains(x),
    {
        assert forall|j: int| 0 <= j < before.len() implies after[j] == #[trigger] before[j] by {
            assert(after.take(before.len() as int)[j] == after[j]);
        }
        assert forall|x: K| before.contains(x) implies #[trigger] after.contains(x) by {
            let j = choose|j: int| 0 <= j < before.len() && before[j] == x;
            assert(after.take(before.len() as int)[j] == after[j]);
        }
    }

    /// The search state once the steps from `start` are taken.
    pub proof fn lemma_explore_start(
        self,
        prefix: Seq<K>,
        found: Seq<K>,
        start: K,
        backward: bool,
    )
        requires
            found.no_duplicates(),
            extends(found, prefix),
            self.closed_at(found, start, backward),
            forall|j: int|
                prefix.len() <= j < found.len() ==> self.step(start, #[trigger] found[j], backward),
        ensures
            self.explored_upto(
                found,
                prefix.len() as int,
                prefix.len() as int,
                start,
                backward,
                prefix.to_set(),
            ),
    {
        let n0 = prefix.len() as int;
        Self::lemma_extends_contains(found, prefix);
        assert forall|j: int| n0 <= j < found.len() implies !prefix.to_set().contains(
            #[trigger] found[j],
        ) && (self.step(start, found[j], backward) || exists|i: int|
            n0 <= i < j && self.step(found[i], found[j], backward)) by {
            if prefix.to_set().contains(found[j]) {
                let x = choose|x: int| 0 <= x < prefix.len() && prefix[x] == found[j];
                assert(found[x] == prefix[x]);
            }
        }
    }

    /// The search state once the steps from `found[next]` are taken.
    pub proof fn lemma_explore_step(
        self,
        before: Seq<K>,
        after: Seq<K>,
        n0: int,
        next: int,
        start: K,
        backward: bool,
        avoid: Set<K>,
    )
        requires
            self.explored_upto(before, n0, next, start, backward, avoid),
            next < before.len(),
            after.no_duplicates(),
            extends(after, before),
            self.closed_at(after, before[next], backward),
            forall|j: int|
                before.len() <= j < after.len() ==> self.step(
                    before[next],
                    #[trigger] after[j],
                    backward,
                ),
        ensures
            self.explored_upto(after, n0, next + 1, start, backward, avoid),
    {
        Self::lemma_extends_contains(after, before);
        assert(after.take(n0) =~= before.take(n0));
        assert forall|c: K| #[trigger] self.step(start, c, backward) implies after.contains(c) by {
            assert(before.contains(c));
        }
        assert forall|j: int| n0 <= j < next + 1 implies #[trigger] self.closed_at(
            after,
            after[j],
            backward,
        ) by {
            if j < next {
                assert(self.closed_at(before, before[j], backward));
                assert forall|c: K| #[trigger] self.step(after[j], c, backward) implies after.contains(
                    c,
                ) by {
                    assert(before.contains(c));
                }
            }
        }
        assert forall|j: int| n0 <= j < after.len() implies !avoid.contains(#[trigger] after[j]) && (
        self.step(start, after[j], backward) || exists|i: int|
            n0 <= i < j && self.step(after[i], after[j], backward)) by {
            if j < before.len() {
                assert(!avoid.contains(before[j]));
                if !self.step(start, before[j], backward) {
                    let i = choose|i: int| n0 <= i < j && self.step(before[i], before[j], backward);
                    assert(after[i] == before[i]);
                }
            } else {
                assert(self.step(after[next], after[j], backward));
                if avoid.contains(after[j]) {
                    let x = choose|x: int| 0 <= x < n0 && before.take(n0)[x] == after[j];
                    assert(after[x] == before[x]);
                }
            }
        }
    }

    /// A finished search holds its starting nodes and exactly the nodes reached from `start`.
    pub proof fn lemma_explore_done(
        self,
        found: Seq<K>,
        n0: int,
        start: K,
        backward: bool,
        avoid: Set<K>,
    )
        requires
            self.explored_upto(found, n0, found.len() as int, start, backward, avoid),
        ensures
            found.to_set() == avoid + self.reached_from(start, backward, avoid),
    {
        let reached = self.reached_from(start, backward, avoid);
        assert forall|x: K| #[trigger] found.to_set().contains(x) == (avoid + reached).contains(x) by {
            if found.contains(x) {
                let j = choose|j: int| 0 <= j < found.len() && found[j] == x;
                if j < n0 {
                    assert(found.take(n0)[j] == x);
                } else {
                    self.lemma_grown_reaches(found, n0, start, backward, avoid, j);
                }
            }
            if avoid.contains(x) {
                let j = choose|j: int| 0 <= j < n0 && found.take(n0)[j] == x;
                assert(found[j] == x);
            }
            if reached.contains(x) {
                let path = choose|path: Seq<K>|
                    #[trigger] self.is_walk(path, backward, avoid) && path[0] == start && path.last()
                        == x;
                assert forall|y: K| found.contains(y) && !avoid.contains(y) implies #[trigger] self.closed_at(
                    found,
                    y,
                    backward,
                ) by {
                    let j = choose|j: int| 0 <= j < found.len() && found[j] == y;
                    if j < n0 {
                        assert(found.take(n0)[j] == y);
                    }
                }
                self.lemma_closed_holds_walks(found, start, backward, avoid, path);
            }
        }
        assert(found.to_set() =~= avoid + reached);
    }

    /// Each element of `found` from index `from` on is a child of an earlier element.
    pub open spec fn preordered(self, found: Seq<K>, from: int) -> bool {
        forall|j: int| from <= j < found.len() ==> #[trigger] self.follows_parent(found, j)
    }

    /// `found[j]` is a child of some earlier element of `found`.
    pub open spec fn follows_parent(self, found: Seq<K>, j: int) -> bool {
        exists|i: int| 0 <= i < j && #[trigger] self.has_edge(found[i], found[j])
    }

    /// Some child of `x` is not in `listed`.
    pub open spec fn has_unlisted_child(self, listed: Seq<K>, x: K) -> bool {
        exists|c: K| #[trigger] self.has_edge(x, c) && !listed.contains(c)
    }

    /// `found[j]` is a child of an earlier element after which no element listed
    /// before `found[j]` still had a child left to list: the walk goes on from the
    /// latest node it can, as a depth-first walk does.
    pub open spec fn depth_first_at(self, found: Seq<K>, j: int) -> bool {
        exists|i: int|
            0 <= i < j && #[trigger] self.has_edge(found[i], found[j]) && forall|m: int|
                i < m < j ==> !#[trigger] self.has_unlisted_child(found.take(j), found[m])
    }

    /// Each element of `found` from index `from` on is placed as a depth-first walk
    /// places it.
    pub open spec fn depth_first(self, found: Seq<K>, from: int) -> bool {
        forall|j: int| from <= j < found.len() ==> #[trigger] self.depth_first_at(found, j)
    }

    /// `found[j]` is placed as a depth-first walk from `start` over `found[n0..]`
    /// places it: it is a child of `start` or of an element from `n0` on, after which
    /// no element from `n0` on still had a child left that was not listed before
    /// `found[j]`.
    pub open spec fn depth_first_from_at(self, found: Seq<K>, n0: int, start: K, j: int) -> bool {
        ||| self.has_edge(start, found[j]) && forall|m: int|
            n0 <= m < j ==> !#[trigger] self.has_unlisted_child(found.take(j), found[m])
        ||| exists|i: int|
            n0 <= i < j && #[trigger] self.has_edge(found[i], found[j]) && forall|m: int|
                i < m < j ==> !#[trigger] self.has_unlisted_child(found.take(j), found[m])
    }

    /// The elements of `found` from `n0` on are placed as a depth-first walk from
    /// `start` places them.
    pub open spec fn depth_first_from(self, found: Seq<K>, n0: int, start: K) -> bool {
        forall|j: int| n0 <= j < found.len() ==> #[trigger] self.depth_first_from_at(found, n0, start, j)
    }

    /// Where an element stands in a depth-first order depends only on what comes
    /// before it.
    pub proof fn lemma_depth_first_from_grows(
        self,
        before: Seq<K>,
        after: Seq<K>,
        n0: int,
        start: K,
        j: int,
    )
        requires
            self.depth_first_from_at(before, n0, start, j),
            extends(after, before),
            0 <= n0 <= j < before.len(),
        ensures
            self.depth_first_from_at(after, n0, start, j),
    {
        Self::lemma_extends_contains(after, before);
        assert(after.take(j) =~= before.take(j));
        assert(after[j] == before[j]);
        assert forall|m: int| n0 <= m < j implies after[m] == before[m] by {}
        if !(self.has_edge(start, before[j]) && forall|m: int|
            n0 <= m < j ==> !#[trigger] self.has_unlisted_child(before.take(j), before[m])) {
            let i = choose|i: int|
                n0 <= i < j && #[trigger] self.has_edge(before[i], before[j]) && forall|m: int|
                    i < m < j ==> !#[trigger] self.has_unlisted_child(before.take(j), before[m]);
            assert(self.has_edge(after[i], after[j]));
        }
    }

    /// A depth-first walk from `start` over `before[n0..]` stays one when it is
    /// extended by a depth-first walk from its last element.
    pub proof fn lemma_depth_first_chain(self, before: Seq<K>, after: Seq<K>, n0: int, start: K)
        requires
            self.depth_first_from(before, n0, start),
            extends(after, before),
            0 <= n0 < before.len(),
            self.depth_first_from(after, before.len() as int, before.last()),
        ensures
            self.depth_first_from(after, n0, start),
    {
        Self::lemma_extends_contains(after, before);
        let p = before.len() as int;
        assert forall|j: int| n0 <= j < after.len() implies #[trigger] self.depth_first_from_at(
            after,
            n0,
            start,
            j,
        ) by {
            if j < p {
                self.lemma_depth_first_from_grows(before, after, n0, start, j);
            } else {
                assert(self.depth_first_from_at(after, p, before.last(), j));
                if self.has_edge(before.last(), after[j]) && forall|m: int|
                    p <= m < j ==> !#[trigger] self.has_unlisted_child(after.take(j), after[m]) {
                    assert(after[p - 1] == before[p - 1]);
                    assert(self.has_edge(after[p - 1], after[j]));
                } else {
                    let i = choose|i: int|
                        p <= i < j && #[trigger] self.has_edge(after[i], after[j]) && forall|m: int|
                            i < m < j ==> !#[trigger] self.has_unlisted_child(after.take(j), after[m]);
                    assert(self.has_edge(after[i], after[j]));
                }
            }
        }
    }

    /// A depth-first walk from `start` over `found`, with `start` put in front, is a
    /// depth-first order.
    pub proof fn lemma_depth_first_rooted(self, found: Seq<K>, start: K)
        requires
            self.depth_first_from(found, 0, start),
        ensures
            self.depth_first(seq![start] + found, 1),
    {
        let path = seq![start] + found;
        assert forall|j: int| 1 <= j < path.len() implies #[trigger] self.depth_first_at(path, j) by {
            let k = j - 1;
            assert(self.depth_first_from_at(found, 0, start, k));
            assert(path[j] == found[k]);
            assert(path[0] == start);
            let listed = found.take(k);
            assert(path.take(j) =~= seq![start] + listed);
            assert forall|m: int|
                1 <= m < j && !self.has_unlisted_child(listed, found[m - 1])
                    implies !#[trigger] self.has_unlisted_child(path.take(j), path[m]) by {
                assert(path[m] == found[m - 1]);
                if self.has_unlisted_child(path.take(j), path[m]) {
                    let c = choose|c: K| #[trigger] self.has_edge(path[m], c) && !path.take(j).contains(c);
                    if listed.contains(c) {
                        let y = choose|y: int| 0 <= y < listed.len() && listed[y] == c;
                        assert(path.take(j)[y + 1] == c);
                    }
                    assert(self.has_edge(found[m - 1], c));
                }
            }
            if self.has_edge(start, found[k]) && forall|m: int|
                0 <= m < k ==> !#[trigger] self.has_unlisted_child(listed, found[m]) {
                assert forall|m: int| 0 < m < j implies !#[trigger] self.has_unlisted_child(
                    path.take(j),
                    path[m],
                ) by {
                    assert(!self.has_unlisted_child(listed, found[m - 1]));
                }
                assert(self.has_edge(path[0], path[j]));
            } else {
                let i = choose|i: int|
                    0 <= i < k && #[trigger] self.has_edge(found[i], found[k]) && forall|m: int|
                        i < m < k ==> !#[trigger] self.has_unlisted_child(listed, found[m]);
                assert(path[i + 1] == found[i]);
                assert forall|m: int| i + 1 < m < j implies !#[trigger] self.has_unlisted_child(
                    path.take(j),
                    path[m],
                ) by {
                    assert(!self.has_unlisted_child(listed, found[m - 1]));
                }
                assert(self.has_edge(path[i + 1], path[j]));
            }
        }
    }

    /// Being closed survives the growth of `found`.
    pub proof fn lemma_closed_grows(self, before: Seq<K>, after: Seq<K>, x: K, backward: bool)
        requires
            self.closed_at(before, x, backward),
            extends(after, before),
        ensures
            self.closed_at(after, x, backward),
    {
        Self::lemma_extends_contains(after, before);
        assert forall|c: K| #[trigger] self.step(x, c, backward) implies after.contains(c) by {
            assert(before.contains(c));
        }
    }
}

} // verus!
