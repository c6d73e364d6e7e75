use vstd::prelude::*;

use crate::content::Content;
use crate::error::CyclicGraphError;
use crate::graph_view::{GraphView, extends};
use crate::id_generator::{GeneratorMode, IdGenerator, next_counter};
use crate::identifier::Identifier;
use crate::node::{
    Node, NodeView, id_keys, contains_id, slice_contains_id, clone_ids, lemma_seq_empty_iff_set_empty,
};

verus! {

/// A graph with one input node, many intermediate nodes, and one output node.
pub struct CyclicGraph<I, D, L = (), G = ()> {
    input: I,
    output: I,
    nodes: Vec<Node<I, D, L>>,
    id_generator: G,
    recent_id: usize,
}

impl<I: View, D, L, G> CyclicGraph<I, D, L, G> {
    spec fn keys(&self) -> Seq<I::V> {
        self.nodes@.map_values(|n: Node<I, D, L>| n.id@)
    }

    spec fn key(&self, i: int) -> I::V {
        self.nodes@[i].id@
    }

    spec fn is_edge_at(&self, i: int, k: I::V) -> bool {
        self.nodes@[i].child_keys().contains(k)
    }

    spec fn is_back_edge_at(&self, i: int, k: I::V) -> bool {
        self.nodes@[i].parent_keys().contains(k)
    }
}

impl<I: View, D, L, G> View for CyclicGraph<I, D, L, G> {
    type V = GraphView<I::V, D, L>;

    closed spec fn view(&self) -> GraphView<I::V, D, L> {
        GraphView {
            contents: Map::new(
                |k: I::V| self.keys().contains(k),
                |k: I::V| self.nodes@[self.keys().index_of(k)].content,
            ),
            edges: Set::new(
                |e: (I::V, I::V)|
                    exists|i: int|
                        0 <= i < self.nodes@.len() && self.key(i) == e.0 && #[trigger] self.is_edge_at(
                            i,
                            e.1,
                        ),
            ),
            input: self.input@,
            output: self.output@,
            recent_id: self.recent_id,
        }
    }
}

impl<I: View, D, L, G> CyclicGraph<I, D, L, G> {
    /// The internal invariant: identifiers are unique, the input and output nodes
    /// are present, every link is recorded at both of its ends, links join present
    /// nodes, no node links to itself, nothing links into the input node and
    /// nothing leaves the output node.
    pub closed spec fn wf(&self) -> bool {
        &&& self.keys().no_duplicates()
        &&& self.keys().contains(self.input@)
        &&& self.keys().contains(self.output@)
        &&& self.input@ != self.output@
        &&& forall|i: int| 0 <= i < self.nodes@.len() ==> #[trigger] self.nodes@[i].wf()
        &&& forall|i: int, k: I::V|
            0 <= i < self.nodes@.len() && #[trigger] self.is_edge_at(i, k) ==> {
                &&& self.keys().contains(k)
                &&& k != self.key(i)
                &&& k != self.input@
                &&& self.key(i) != self.output@
            }
        &&& forall|i: int, k: I::V|
            0 <= i < self.nodes@.len() && #[trigger] self.is_back_edge_at(i, k)
                ==> self.keys().contains(k)
        &&& forall|i: int, j: int|
            #![trigger self.is_edge_at(i, self.key(j))]
            #![trigger self.is_back_edge_at(j, self.key(i))]
            0 <= i < self.nodes@.len() && 0 <= j < self.nodes@.len() ==> (self.is_edge_at(
                i,
                self.key(j),
            ) <==> self.is_back_edge_at(j, self.key(i)))
    }

    proof fn lemma_key(&self, i: int)
        requires
            0 <= i < self.nodes@.len(),
        ensures
            self.keys()[i] == self.key(i),
            self.keys().len() == self.nodes@.len(),
            self.keys().contains(self.key(i)),
    {
        assert(self.keys()[i] == self.key(i));
    }

    /// The index of a present key.
    proof fn lemma_index_of(&self, k: I::V) -> (i: int)
        requires
            self.keys().contains(k),
        ensures
            0 <= i < self.nodes@.len(),
            self.key(i) == k,
    {
        let i = choose|i: int| 0 <= i < self.keys().len() && self.keys()[i] == k;
        assert(self.keys()[i] == self.key(i));
        i
    }

    proof fn lemma_unique_key(&self, i: int, j: int)
        requires
            self.keys().no_duplicates(),
            0 <= i < self.nodes@.len(),
            0 <= j < self.nodes@.len(),
            self.key(i) == self.key(j),
        ensures
            i == j,
    {
        self.lemma_key(i);
        self.lemma_key(j);
    }

    /// The links of the view are those recorded at the parents.
    proof fn lemma_edge(&self, i: int, k: I::V)
        requires
            self.keys().no_duplicates(),
            0 <= i < self.nodes@.len(),
        ensures
            self@.has_edge(self.key(i), k) == self.is_edge_at(i, k),
    {
        if self@.has_edge(self.key(i), k) {
            let j = choose|j: int|
                0 <= j < self.nodes@.len() && self.key(j) == self.key(i) && #[trigger] self.is_edge_at(
                    j,
                    k,
                );
            self.lemma_unique_key(i, j);
        }
        if self.is_edge_at(i, k) {
            let e = (self.key(i), k);
            assert(0 <= i < self.nodes@.len() && self.key(i) == e.0 && self.is_edge_at(i, e.1));
            assert(self@.edges.contains(e));
        }
    }

    proof fn lemma_no_edge_from_absent(&self, p: I::V, c: I::V)
        requires
            !self.keys().contains(p),
        ensures
            !self@.has_edge(p, c),
    {
        if self@.has_edge(p, c) {
            let j = choose|j: int|
                0 <= j < self.nodes@.len() && self.key(j) == p && #[trigger] self.is_edge_at(j, c);
            self.lemma_key(j);
        }
    }

    proof fn lemma_contents(&self, i: int)
        requires
            self.keys().no_duplicates(),
            0 <= i < self.nodes@.len(),
        ensures
            self@.contains(self.key(i)),
            self@.contents[self.key(i)] == self.nodes@[i].content,
    {
        self.lemma_key(i);
        let j = self.keys().index_of(self.key(i));
        assert(self.keys()[j] == self.key(j));
        self.lemma_unique_key(i, j);
    }

    proof fn lemma_contents_dom(&self)
        ensures
            self@.contents.dom() == self.keys().to_set(),
    {
        assert(self@.contents.dom() =~= self.keys().to_set());
    }

    /// Two graphs whose nodes have the same identifiers and the same children, in
    /// the same places, have the same links.
    proof fn lemma_same_edges(&self, other: &Self)
        requires
            self.keys().no_duplicates(),
            self.nodes@.len() == other.nodes@.len(),
            forall|i: int| 0 <= i < self.nodes@.len() ==> #[trigger] self.key(i) == other.key(i),
            forall|i: int, c: I::V|
                0 <= i < self.nodes@.len() ==> #[trigger] self.is_edge_at(i, c) == other.is_edge_at(
                    i,
                    c,
                ),
        ensures
            self@.edges == other@.edges,
    {
        assert forall|i: int| 0 <= i < self.nodes@.len() implies self.keys()[i] == other.keys()[i] by {
            self.lemma_key(i);
            other.lemma_key(i);
        }
        assert(self.keys() =~= other.keys());
        assert forall|e: (I::V, I::V)| self@.edges.contains(e) == other@.edges.contains(e) by {
            if self.keys().contains(e.0) {
                let i = self.lemma_index_of(e.0);
                self.lemma_edge(i, e.1);
                other.lemma_edge(i, e.1);
            } else {
                self.lemma_no_edge_from_absent(e.0, e.1);
                other.lemma_no_edge_from_absent(e.0, e.1);
            }
        }
        assert(self@.edges =~= other@.edges);
    }

    /// Two graphs with the same keys and node contents have the same contents map.
    proof fn lemma_same_contents(&self, other: &Self)
        requires
            self.keys() == other.keys(),
            self.nodes@.len() == other.nodes@.len(),
            forall|i: int|
                0 <= i < self.nodes@.len() ==> #[trigger] self.nodes@[i].content
                    == other.nodes@[i].content,
        ensures
            self@.contents == other@.contents,
    {
        assert(self@.contents =~= other@.contents);
    }

    /// The node at index `i` as the view of the graph describes it.
    proof fn lemma_node_view(&self, i: int)
        requires
            self.wf(),
            0 <= i < self.nodes@.len(),
        ensures
            self@.contains(self.key(i)),
            self.nodes@[i].wf(),
            self.nodes@[i]@ == (NodeView {
                id: self.key(i),
                content: self@.contents[self.key(i)],
                parents: self@.parents_of(self.key(i)),
                children: self@.children_of(self.key(i)),
            }),
    {
        broadcast use Node::lemma_view;

        let k = self.key(i);
        self.lemma_contents(i);
        assert forall|c: I::V| #[trigger] self.nodes@[i]@.children.contains(c) == self@.children_of(k).contains(c) by {
            self.lemma_edge(i, c);
        }
        assert(self.nodes@[i]@.children =~= self@.children_of(k));
        assert forall|p: I::V| #[trigger] self.nodes@[i]@.parents.contains(p) == self@.parents_of(k).contains(p) by {
            if self.keys().contains(p) {
                let j = self.lemma_index_of(p);
                self.lemma_edge(j, k);
                assert(self.is_edge_at(j, self.key(i)) <==> self.is_back_edge_at(i, self.key(j)));
            } else {
                self.lemma_no_edge_from_absent(p, k);
                assert(!self.is_back_edge_at(i, p));
            }
        }
        assert(self.nodes@[i]@.parents =~= self@.parents_of(k));
    }

    /// The number of nodes.
    proof fn lemma_len(&self)
        requires
            self.wf(),
        ensures
            self@.contents.len() == self.nodes@.len(),
            self@.contents.dom().finite(),
    {
        self.lemma_contents_dom();
        self.keys().unique_seq_to_set();
        assert(self.keys().len() == self.nodes@.len());
    }

    /// Every graph that these operations build keeps its shape: the input and
    /// output nodes are present and distinct, links join present nodes, no node
    /// links to itself, nothing links into the input node and nothing leaves the
    /// output node.
    pub proof fn lemma_view_well_formed(&self)
        requires
            self.wf(),
        ensures
            self@.well_formed(),
    {
        self.lemma_well_formed();
    }

    /// The view of a well-formed graph is well formed.
    proof fn lemma_well_formed(&self)
        requires
            self.wf(),
        ensures
            self@.well_formed(),
    {
        self.lemma_contents_dom();
        vstd::seq_lib::seq_to_set_is_finite(self.keys());
        let ii = self.lemma_index_of(self.input@);
        let oi = self.lemma_index_of(self.output@);
        assert forall|p: I::V, c: I::V| #[trigger] self@.has_edge(p, c) implies {
            &&& self@.contains(p)
            &&& self@.contains(c)
            &&& p != c
            &&& c != self@.input
            &&& p != self@.output
        } by {
            if !self.keys().contains(p) {
                self.lemma_no_edge_from_absent(p, c);
            }
            let i = self.lemma_index_of(p);
            self.lemma_edge(i, c);
        }
    }
}

/// `id_keys` of a pushed sequence.
proof fn lemma_id_keys_push<I: View>(ids: Seq<I>, id: I)
    ensures
        id_keys(ids.push(id)) == id_keys(ids).push(id@),
{
    assert(id_keys(ids.push(id)) =~= id_keys(ids).push(id@));
}

/// `id_keys` of a sequence with one element removed.
proof fn lemma_id_keys_remove<I: View>(ids: Seq<I>, j: int)
    requires
        0 <= j < ids.len(),
    ensures
        id_keys(ids.remove(j)) == id_keys(ids).remove(j),
{
    assert(id_keys(ids.remove(j)) =~= id_keys(ids).remove(j));
}

/// Removing an element from a sequence without duplicates.
proof fn lemma_remove_no_dup<A>(s: Seq<A>, j: int)
    requires
        s.no_duplicates(),
        0 <= j < s.len(),
    ensures
        s.remove(j).no_duplicates(),
        forall|x: A| #[trigger] s.remove(j).contains(x) == (s.contains(x) && x != s[j]),
{
    let r = s.remove(j);
    assert forall|a: int, b: int| 0 <= a < b < r.len() implies r[a] != r[b] by {
        let a1 = if a < j { a } else { a + 1 };
        let b1 = if b < j { b } else { b + 1 };
        assert(r[a] == s[a1]);
        assert(r[b] == s[b1]);
    }
    assert forall|x: A| #[trigger] r.contains(x) == (s.contains(x) && x != s[j]) by {
        if r.contains(x) {
            let a = choose|a: int| 0 <= a < r.len() && r[a] == x;
            let a1 = if a < j { a } else { a + 1 };
            assert(s[a1] == x);
        }
        if s.contains(x) && x != s[j] {
            let a = choose|a: int| 0 <= a < s.len() && s[a] == x;
            if a < j {
                assert(r[a] == x);
            } else {
                assert(r[a - 1] == x);
            }
        }
    }
}

/// Pushing a new element onto a sequence without duplicates.
/// Visiting one more node of `keys` leaves fewer of them unvisited.
proof fn lemma_unvisited_shrinks<K>(keys: Set<K>, before: Set<K>, after: Set<K>, c: K)
    requires
        keys.finite(),
        keys.contains(c),
        !before.contains(c),
        before.subset_of(after),
        after.contains(c),
    ensures
        keys.difference(after).len() < keys.difference(before).len(),
{
    let d = keys.difference(before);
    vstd::set_lib::lemma_len_subset(d, keys);
    vstd::set_lib::lemma_len_subset(d.remove(c), d);
    assert(keys.difference(after).subset_of(d.remove(c)));
    vstd::set_lib::lemma_len_subset(keys.difference(after), d.remove(c));
    vstd::set::axiom_set_remove_len(d, c);
}

proof fn lemma_push_no_dup<A>(s: Seq<A>, x: A)
    requires
        s.no_duplicates(),
        !s.contains(x),
    ensures
        s.push(x).no_duplicates(),
{
    let r = s.push(x);
    assert forall|a: int, b: int| 0 <= a < b < r.len() implies r[a] != r[b] by {
        if b == s.len() {
            assert(s[a] == r[a]);
        }
    }
}

/// A sequence without duplicates whose elements all occur in `keys` is no longer than `keys`.
proof fn lemma_distinct_len_bound<A>(s: Seq<A>, keys: Seq<A>)
    requires
        s.no_duplicates(),
        forall|i: int| 0 <= i < s.len() ==> keys.contains(#[trigger] s[i]),
    ensures
        s.len() <= keys.len(),
{
    s.unique_seq_to_set();
    keys.lemma_cardinality_of_set();
    assert(s.to_set().subset_of(keys.to_set())) by {
        assert forall|x: A| s.to_set().contains(x) implies keys.to_set().contains(x) by {
            let i = choose|i: int| 0 <= i < s.len() && s[i] == x;
        }
    }
    vstd::set_lib::lemma_len_subset(s.to_set(), keys.to_set());
}

/// Returns the position of `id` in `ids`, if it is there.
fn position_of<I: Identifier>(ids: &Vec<I>, id: &I) -> (pos: Option<usize>)
    ensures
        match pos {
            Some(j) => j < ids@.len() && ids@[j as int]@ == id@,
            None => !id_keys(ids@).contains(id@),
        },
{
    let mut i: usize = 0;
    while i < ids.len()
        invariant
            0 <= i <= ids@.len(),
            forall|j: int| 0 <= j < i ==> ids@[j]@ != id@,
        decreases ids@.len() - i,
    {
        if ids[i].same_id(id) {
            return Some(i);
        }
        i += 1;
    }
    assert forall|j: int| 0 <= j < id_keys(ids@).len() implies id_keys(ids@)[j] != id@ by {}
    None
}

impl<I: Identifier, D, L, G> CyclicGraph<I, D, L, G> {
    /// Returns the index of the node with identifier `id`, if there is one.
    fn find_index(&self, id: &I) -> (index: Option<usize>)
        ensures
            match index {
                Some(i) => i < self.nodes@.len() && self.key(i as int) == id@,
                None => !self.keys().contains(id@),
            },
    {
        let mut i: usize = 0;
        while i < self.nodes.len()
            invariant
                0 <= i <= self.nodes@.len(),
                forall|j: int| 0 <= j < i ==> self.key(j) != id@,
            decreases self.nodes@.len() - i,
        {
            if self.nodes[i].id.same_id(id) {
                return Some(i);
            }
            i += 1;
        }
        assert forall|j: int| 0 <= j < self.keys().len() implies self.keys()[j] != id@ by {
            self.lemma_key(j);
        }
        None
    }

    /// Returns the position of the first identifier in `ids` that names no node.
    fn first_absent(&self, ids: &[I]) -> (index: Option<usize>)
        requires
            self.wf(),
        ensures
            match index {
                Some(i) => self@.first_absent_at(id_keys(ids@), i as int),
                None => self@.all_present(id_keys(ids@)),
            },
    {
        proof {
            self.lemma_contents_dom();
        }
        let mut i: usize = 0;
        while i < ids.len()
            invariant
                self.wf(),
                0 <= i <= ids@.len(),
                forall|j: int| 0 <= j < i ==> self@.contains(#[trigger] id_keys(ids@)[j]),
            decreases ids@.len() - i,
        {
            let ghost k = ids@[i as int]@;
            assert(id_keys(ids@)[i as int] == k);
            match self.find_index(&ids[i]) {
                Some(fi) => {
                    proof {
                        self.lemma_contents(fi as int);
                    }
                },
                None => {
                    proof {
                        self.lemma_contents_dom();
                    }
                    return Some(i);
                },
            }
            i += 1;
        }
        None
    }

    /// Records a new link from the node at `pi` to the node at `ci`.
    fn add_edge(&mut self, pi: usize, ci: usize)
        requires
            old(self).wf(),
            pi < old(self).nodes@.len(),
            ci < old(self).nodes@.len(),
            pi != ci,
            old(self).key(ci as int) != old(self).input@,
            old(self).key(pi as int) != old(self).output@,
            !old(self).is_edge_at(pi as int, old(self).key(ci as int)),
        ensures
            final(self).wf(),
            final(self).keys() == old(self).keys(),
            final(self)@ == (GraphView {
                edges: old(self)@.edges.insert((old(self).key(pi as int), old(self).key(ci as int))),
                ..old(self)@
            }),
    {
        let ghost g0 = *self;
        let ghost kp = g0.key(pi as int);
        let ghost kc = g0.key(ci as int);
        let kc_id = self.nodes[ci].id.clone_id();
        let ghost kc_ghost = kc_id;
        self.nodes[pi].children.push(kc_id);
        let kp_id = self.nodes[pi].id.clone_id();
        let ghost kp_ghost = kp_id;
        self.nodes[ci].parents.push(kp_id);
        proof {
            broadcast use Node::lemma_view, Node::lemma_wf;
            broadcast use vstd::seq_lib::group_seq_properties;

            lemma_id_keys_push(g0.nodes@[pi as int].children@, kc_ghost);
            lemma_id_keys_push(g0.nodes@[ci as int].parents@, kp_ghost);
            assert(self.nodes@[pi as int].children@ == g0.nodes@[pi as int].children@.push(kc_ghost));
            assert(self.nodes@[ci as int].parents@ == g0.nodes@[ci as int].parents@.push(kp_ghost));
            assert forall|i: int| 0 <= i < self.nodes@.len() && i != pi && i != ci implies self.nodes@[i] == g0.nodes@[i] by {}
            assert(self.nodes@[pi as int].id == g0.nodes@[pi as int].id);
            assert(self.nodes@[ci as int].id == g0.nodes@[ci as int].id);
            assert(self.nodes@[pi as int].parents == g0.nodes@[pi as int].parents);
            assert(self.nodes@[ci as int].children == g0.nodes@[ci as int].children);
            assert(self.nodes@[pi as int].content == g0.nodes@[pi as int].content);
            assert(self.nodes@[ci as int].content == g0.nodes@[ci as int].content);
            assert(self.keys() =~= g0.keys());
            assert forall|i: int| 0 <= i < self.nodes@.len() implies self.key(i) == g0.key(i) by {}
            assert forall|i: int, k: I::V| 0 <= i < self.nodes@.len() implies #[trigger] self.is_edge_at(i, k) == (g0.is_edge_at(i, k) || (i == pi && k == kc)) by {}
            assert forall|i: int, k: I::V| 0 <= i < self.nodes@.len() implies #[trigger] self.is_back_edge_at(i, k) == (g0.is_back_edge_at(i, k) || (i == ci && k == kp)) by {}
            g0.lemma_key(ci as int);
            g0.lemma_key(pi as int);
            assert(!g0.is_back_edge_at(ci as int, kp));
            assert(g0.nodes@[pi as int].wf());
            assert(g0.nodes@[ci as int].wf());
            lemma_push_no_dup(g0.nodes@[pi as int].child_keys(), kc);
            lemma_push_no_dup(g0.nodes@[ci as int].parent_keys(), kp);
            assert forall|i: int| 0 <= i < self.nodes@.len() implies #[trigger] self.nodes@[i].wf() by {
                assert(g0.nodes@[i].wf());
            }
            assert forall|i: int, j: int|
                0 <= i < self.nodes@.len() && 0 <= j < self.nodes@.len() implies (self.is_edge_at(
                    i,
                    self.key(j),
                ) <==> self.is_back_edge_at(j, self.key(i))) by {
                assert(g0.is_edge_at(i, g0.key(j)) <==> g0.is_back_edge_at(j, g0.key(i)));
                if self.key(j) == kc {
                    g0.lemma_unique_key(j, ci as int);
                }
                if self.key(i) == kp {
                    g0.lemma_unique_key(i, pi as int);
                }
            }
            assert(self.wf());
            assert forall|e: (I::V, I::V)| self@.edges.contains(e) == g0@.edges.insert((kp, kc)).contains(e) by {
                if self.keys().contains(e.0) {
                    let i = self.lemma_index_of(e.0);
                    self.lemma_edge(i, e.1);
                    g0.lemma_edge(i, e.1);
                } else {
                    self.lemma_no_edge_from_absent(e.0, e.1);
                    g0.lemma_no_edge_from_absent(e.0, e.1);
                }
            }
            assert(self@.edges =~= g0@.edges.insert((kp, kc)));
            self.lemma_same_contents(&g0);
        }
    }

    /// Removes the recorded link from the node at `pi` to the node at `ci`.
    fn remove_edge(&mut self, pi: usize, ci: usize)
        requires
            old(self).wf(),
            pi < old(self).nodes@.len(),
            ci < old(self).nodes@.len(),
            old(self).is_edge_at(pi as int, old(self).key(ci as int)),
        ensures
            final(self).wf(),
            final(self).keys() == old(self).keys(),
            final(self)@ == (GraphView {
                edges: old(self)@.edges.remove((old(self).key(pi as int), old(self).key(ci as int))),
                ..old(self)@
            }),
    {
        let ghost g0 = *self;
        let ghost kp = g0.key(pi as int);
        let ghost kc = g0.key(ci as int);
        proof {
            broadcast use Node::lemma_view, Node::lemma_wf;

            g0.lemma_key(ci as int);
            g0.lemma_key(pi as int);
            assert(g0.is_back_edge_at(ci as int, kp));
            assert(pi != ci);
            assert(g0.nodes@[pi as int].wf());
            assert(g0.nodes@[ci as int].wf());
        }
        let kc_id = self.nodes[ci].id.clone_id();
        let kp_id = self.nodes[pi].id.clone_id();
        let cpos = position_of(&self.nodes[pi].children, &kc_id);
        let ppos = position_of(&self.nodes[ci].parents, &kp_id);
        let ghost cj: int = 0;
        let ghost pj: int = 0;
        match cpos {
            Some(j) => {
                proof {
                    cj = j as int;
                }
                self.nodes[pi].children.remove(j);
            },
            None => {
                proof {
                    assert(false);
                }
            },
        }
        match ppos {
            Some(j) => {
                proof {
                    pj = j as int;
                }
                self.nodes[ci].parents.remove(j);
            },
            None => {
                proof {
                    assert(false);
                }
            },
        }
        proof {
            broadcast use Node::lemma_view, Node::lemma_wf;
            broadcast use vstd::seq_lib::group_seq_properties;

            lemma_id_keys_remove(g0.nodes@[pi as int].children@, cj);
            lemma_id_keys_remove(g0.nodes@[ci as int].parents@, pj);
            assert(g0.nodes@[pi as int].child_keys()[cj] == kc);
            assert(g0.nodes@[ci as int].parent_keys()[pj] == kp);
            lemma_remove_no_dup(g0.nodes@[pi as int].child_keys(), cj);
            lemma_remove_no_dup(g0.nodes@[ci as int].parent_keys(), pj);
            assert(self.nodes@[pi as int].children@ == g0.nodes@[pi as int].children@.remove(cj));
            assert(self.nodes@[ci as int].parents@ == g0.nodes@[ci as int].parents@.remove(pj));
            assert forall|i: int| 0 <= i < self.nodes@.len() && i != pi && i != ci implies self.nodes@[i] == g0.nodes@[i] by {}
            assert(self.nodes@[pi as int].id == g0.nodes@[pi as int].id);
            assert(self.nodes@[ci as int].id == g0.nodes@[ci as int].id);
            assert(self.nodes@[pi as int].parents == g0.nodes@[pi as int].parents);
            assert(self.nodes@[ci as int].children == g0.nodes@[ci as int].children);
            assert(self.nodes@[pi as int].content == g0.nodes@[pi as int].content);
            assert(self.nodes@[ci as int].content == g0.nodes@[ci as int].content);
            assert(self.keys() =~= g0.keys());
            assert forall|i: int| 0 <= i < self.nodes@.len() implies self.key(i) == g0.key(i) by {}
            assert forall|i: int, k: I::V| 0 <= i < self.nodes@.len() implies #[trigger] self.is_edge_at(i, k) == (g0.is_edge_at(i, k) && !(i == pi && k == kc)) by {}
            assert forall|i: int, k: I::V| 0 <= i < self.nodes@.len() implies #[trigger] self.is_back_edge_at(i, k) == (g0.is_back_edge_at(i, k) && !(i == ci && k == kp)) by {}
            assert forall|i: int| 0 <= i < self.nodes@.len() implies #[trigger] self.nodes@[i].wf() by {
                assert(g0.nodes@[i].wf());
            }
            assert forall|i: int, j: int|
                0 <= i < self.nodes@.len() && 0 <= j < self.nodes@.len() implies (self.is_edge_at(
                    i,
                    self.key(j),
                ) <==> self.is_back_edge_at(j, self.key(i))) by {
                assert(g0.is_edge_at(i, g0.key(j)) <==> g0.is_back_edge_at(j, g0.key(i)));
                if self.key(j) == kc {
                    g0.lemma_unique_key(j, ci as int);
                }
                if self.key(i) == kp {
                    g0.lemma_unique_key(i, pi as int);
                }
            }
            assert(self.wf());
            assert forall|e: (I::V, I::V)| self@.edges.contains(e) == g0@.edges.remove((kp, kc)).contains(e) by {
                if self.keys().contains(e.0) {
                    let i = self.lemma_index_of(e.0);
                    self.lemma_edge(i, e.1);
                    g0.lemma_edge(i, e.1);
                    if e.0 == kp {
                        g0.lemma_unique_key(i, pi as int);
                    }
                } else {
                    self.lemma_no_edge_from_absent(e.0, e.1);
                    g0.lemma_no_edge_from_absent(e.0, e.1);
                }
            }
            assert(self@.edges =~= g0@.edges.remove((kp, kc)));
            self.lemma_same_contents(&g0);
        }
    }

    /// Adds a node without links under a fresh identifier.
    fn push_node(&mut self, node: Node<I, D, L>)
        requires
            old(self).wf(),
            node.wf(),
            node.parents@.len() == 0,
            node.children@.len() == 0,
            !old(self).keys().contains(node.id@),
        ensures
            final(self).wf(),
            final(self).keys() == old(self).keys().push(node.id@),
            final(self)@ == (GraphView {
                contents: old(self)@.contents.insert(node.id@, node.content),
                ..old(self)@
            }),
    {
        let ghost g0 = *self;
        let ghost n = node;
        let ghost k = node.id@;
        self.nodes.push(node);
        proof {
            broadcast use Node::lemma_view, Node::lemma_wf;
            broadcast use vstd::seq_lib::group_seq_properties;

            let last = g0.nodes@.len() as int;
            assert(self.nodes@ == g0.nodes@.push(n));
            assert(self.keys() =~= g0.keys().push(k));
            lemma_push_no_dup(g0.keys(), k);
            assert(self.nodes@[last].child_keys() =~= Seq::<I::V>::empty());
            assert(self.nodes@[last].parent_keys() =~= Seq::<I::V>::empty());
            assert forall|i: int| 0 <= i < g0.nodes@.len() implies self.nodes@[i] == g0.nodes@[i] && self.key(i) == g0.key(i) by {}
            assert(self.key(last) == k);
            assert forall|i: int, c: I::V| 0 <= i < self.nodes@.len() implies #[trigger] self.is_edge_at(i, c) == (i < last && g0.is_edge_at(i, c)) by {}
            assert forall|i: int, c: I::V| 0 <= i < self.nodes@.len() implies #[trigger] self.is_back_edge_at(i, c) == (i < last && g0.is_back_edge_at(i, c)) by {}
            assert forall|i: int, c: I::V| 0 <= i < g0.nodes@.len() && g0.is_edge_at(i, c) implies c != k by {}
            assert forall|i: int, c: I::V| 0 <= i < g0.nodes@.len() && g0.is_back_edge_at(i, c) implies c != k by {}
            assert forall|i: int| 0 <= i < self.nodes@.len() implies #[trigger] self.nodes@[i].wf() by {
                if i < last {
                    assert(g0.nodes@[i].wf());
                }
            }
            assert forall|i: int, j: int|
                0 <= i < self.nodes@.len() && 0 <= j < self.nodes@.len() implies (self.is_edge_at(
                    i,
                    self.key(j),
                ) <==> self.is_back_edge_at(j, self.key(i))) by {
                if i < last && j < last {
                    assert(g0.is_edge_at(i, g0.key(j)) <==> g0.is_back_edge_at(j, g0.key(i)));
                }
            }
            assert(self.keys().contains(g0.input@));
            assert(self.keys().contains(g0.output@));
            assert forall|i: int, c: I::V| 0 <= i < self.nodes@.len() && #[trigger] self.is_edge_at(i, c) implies self.keys().contains(c) by {}
            assert forall|i: int, c: I::V| 0 <= i < self.nodes@.len() && #[trigger] self.is_back_edge_at(i, c) implies self.keys().contains(c) by {}
            assert(self.wf());
            assert forall|e: (I::V, I::V)| self@.edges.contains(e) == g0@.edges.contains(e) by {
                if g0.keys().contains(e.0) {
                    let i = g0.lemma_index_of(e.0);
                    self.lemma_edge(i, e.1);
                    g0.lemma_edge(i, e.1);
                } else if e.0 == k {
                    self.lemma_edge(last, e.1);
                    g0.lemma_no_edge_from_absent(e.0, e.1);
                } else {
                    self.lemma_no_edge_from_absent(e.0, e.1);
                    g0.lemma_no_edge_from_absent(e.0, e.1);
                }
            }
            assert(self@.edges =~= g0@.edges);
            assert forall|c: I::V| #[trigger] self@.contents.contains_key(c) == g0@.contents.insert(k, n.content).contains_key(c) by {
                self.lemma_contents_dom();
                g0.lemma_contents_dom();
            }
            assert forall|c: I::V| self@.contents.contains_key(c) implies #[trigger] self@.contents[c] == g0@.contents.insert(k, n.content)[c] by {
                if c == k {
                    self.lemma_contents(last);
                } else {
                    let i = g0.lemma_index_of(c);
                    self.lemma_contents(i);
                    g0.lemma_contents(i);
                }
            }
            assert(self@.contents =~= g0@.contents.insert(k, n.content));
        }
    }

    /// Removes the node at index `i`, which has no links.
    fn remove_node_at(&mut self, i: usize)
        requires
            old(self).wf(),
            i < old(self).nodes@.len(),
            old(self).key(i as int) != old(self).input@,
            old(self).key(i as int) != old(self).output@,
            old(self).nodes@[i as int].parents@.len() == 0,
            old(self).nodes@[i as int].children@.len() == 0,
        ensures
            final(self).wf(),
            final(self).keys() == old(self).keys().remove(i as int),
            final(self)@ == (GraphView {
                contents: old(self)@.contents.remove(old(self).key(i as int)),
                ..old(self)@
            }),
    {
        let ghost g0 = *self;
        let ghost k = g0.key(i as int);
        let ghost ii = i as int;
        self.nodes.remove(i);
        proof {
            broadcast use Node::lemma_view, Node::lemma_wf;
            broadcast use vstd::seq_lib::group_seq_properties;

            assert(self.nodes@ == g0.nodes@.remove(ii));
            assert(self.keys() =~= g0.keys().remove(ii));
            g0.lemma_key(ii);
            lemma_remove_no_dup(g0.keys(), ii);
            let len = self.nodes@.len() as int;
            assert forall|j: int| 0 <= j < len implies #[trigger] self.nodes@[j] == g0.nodes@[if j < ii { j } else { j + 1 }] by {}
            assert forall|j: int| 0 <= j < len implies #[trigger] self.key(j) == g0.key(if j < ii { j } else { j + 1 }) by {}
            assert(g0.nodes@[ii].child_keys().len() == 0);
            assert(g0.nodes@[ii].parent_keys().len() == 0);
            assert forall|j: int, c: I::V| 0 <= j < g0.nodes@.len() && g0.is_edge_at(j, c) implies c != k by {
                if c == k {
                    assert(g0.is_back_edge_at(ii, g0.key(j)));
                }
            }
            assert forall|j: int, c: I::V| 0 <= j < g0.nodes@.len() && g0.is_back_edge_at(j, c) implies c != k by {
                if c == k {
                    assert(g0.is_edge_at(ii, g0.key(j)));
                }
            }
            assert forall|j: int| 0 <= j < len implies #[trigger] self.nodes@[j].wf() by {
                let j1 = if j < ii { j } else { j + 1 };
                assert(g0.nodes@[j1].wf());
            }
            assert forall|j: int, c: I::V| 0 <= j < len && #[trigger] self.is_edge_at(j, c) implies {
                &&& self.keys().contains(c)
                &&& c != self.key(j)
                &&& c != self.input@
                &&& self.key(j) != self.output@
            } by {
                let j1 = if j < ii { j } else { j + 1 };
                assert(g0.is_edge_at(j1, c));
            }
            assert forall|j: int, c: I::V| 0 <= j < len && #[trigger] self.is_back_edge_at(j, c) implies self.keys().contains(c) by {
                let j1 = if j < ii { j } else { j + 1 };
                assert(g0.is_back_edge_at(j1, c));
            }
            assert forall|a: int, b: int|
                0 <= a < len && 0 <= b < len implies (self.is_edge_at(
                    a,
                    self.key(b),
                ) <==> self.is_back_edge_at(b, self.key(a))) by {
                let a1 = if a < ii { a } else { a + 1 };
                let b1 = if b < ii { b } else { b + 1 };
                assert(g0.is_edge_at(a1, g0.key(b1)) <==> g0.is_back_edge_at(b1, g0.key(a1)));
            }
            assert(self.keys().contains(g0.input@));
            assert(self.keys().contains(g0.output@));
            assert(self.wf());
            assert forall|e: (I::V, I::V)| self@.edges.contains(e) == g0@.edges.contains(e) by {
                if g0.keys().contains(e.0) {
                    let j = g0.lemma_index_of(e.0);
                    g0.lemma_edge(j, e.1);
                    if j == ii {
                        self.lemma_no_edge_from_absent(e.0, e.1);
                    } else {
                        let j2 = if j < ii { j } else { j - 1 };
                        self.lemma_edge(j2, e.1);
                    }
                } else {
                    self.lemma_no_edge_from_absent(e.0, e.1);
                    g0.lemma_no_edge_from_absent(e.0, e.1);
                }
            }
            assert(self@.edges =~= g0@.edges);
            assert forall|c: I::V| #[trigger] self@.contents.contains_key(c) == g0@.contents.remove(k).contains_key(c) by {
                self.lemma_contents_dom();
                g0.lemma_contents_dom();
            }
            assert forall|c: I::V| self@.contents.contains_key(c) implies #[trigger] self@.contents[c] == g0@.contents.remove(k)[c] by {
                let j = self.lemma_index_of(c);
                let j1 = if j < ii { j } else { j + 1 };
                self.lemma_contents(j);
                g0.lemma_contents(j1);
            }
            assert(self@.contents =~= g0@.contents.remove(k));
        }
    }
}

impl<I: Identifier, D, L, G: IdGenerator<I>> CyclicGraph<I, D, L, G> {
    /// Creates new graph with input and output nodes, the input node linked to the output node.
    /// Parameters are using for initial graph configuration.
    /// Using `input_id` - to specify input node identifier,
    /// `input_content` - to specify input node content data,
    /// `output_id` - to specify output identifier which should differ from input_id,
    /// `output_content` - to specify output node content data,
    /// `start_id_idx` - is usize number from which start counter to generate unique
    ///  middle nodes. Generated id should be differ from input_id and output_id.
    /// The `id_generator` - gives the generator used when a new node is appended
    /// or inserted into the graph.
    pub fn new(
        input_id: I,
        input_content: Content<D, L>,
        output_id: I,
        output_content: Content<D, L>,
        start_id_idx: usize,
        id_generator: G,
    ) -> (graph: Result<Self, CyclicGraphError<I>>)
        ensures
            graph is Ok <==> (input_id@ != output_id@ && G::spec_generate_id(start_id_idx)
                != input_id@ && G::spec_generate_id(start_id_idx) != output_id@),
            graph matches Ok(g) ==> (g.wf() && g@ == GraphView::initial(
                input_id@,
                input_content,
                output_id@,
                output_content,
                start_id_idx,
            )),
            graph matches Err(e) ==> (e matches CyclicGraphError::NonUniqueId(id) && id@ == (if input_id@
                == output_id@ {
                output_id@
            } else {
                G::spec_generate_id(start_id_idx)
            })),
    {
        if input_id.same_id(&output_id) {
            return Err(CyclicGraphError::NonUniqueId(output_id));
        }
        let mut recent_id = start_id_idx;
        let try_id: I = G::generate_id(&mut recent_id, GeneratorMode::DryRun);
        if try_id.same_id(&input_id) || try_id.same_id(&output_id) {
            return Err(CyclicGraphError::NonUniqueId(try_id));
        }
        let ghost ic = input_content;
        let ghost oc = output_content;
        let input_node = Node {
            id: input_id.clone_id(),
            content: input_content,
            parents: Vec::new(),
            children: Vec::new(),
        };
        let output_node = Node {
            id: output_id.clone_id(),
            content: output_content,
            parents: Vec::new(),
            children: Vec::new(),
        };
        let mut nodes: Vec<Node<I, D, L>> = Vec::new();
        nodes.push(input_node);
        nodes.push(output_node);
        let mut graph = CyclicGraph {
            input: input_id,
            output: output_id,
            nodes,
            id_generator,
            recent_id,
        };
        proof {
            broadcast use Node::lemma_view, Node::lemma_wf;
            broadcast use vstd::seq_lib::group_seq_properties;

            assert(graph.keys() =~= seq![graph.input@, graph.output@]);
            assert(graph.key(0) == graph.input@);
            assert(graph.key(1) == graph.output@);
            assert forall|i: int| 0 <= i < 2 implies graph.nodes@[i].child_keys() =~= Seq::<I::V>::empty() && graph.nodes@[i].parent_keys() =~= Seq::<I::V>::empty() by {}
            assert(graph.wf());
        }
        graph.add_edge(0, 1);
        proof {
            let g = graph@;
            let want = GraphView::initial(graph.input@, ic, graph.output@, oc, start_id_idx);
            assert(graph.keys() =~= seq![graph.input@, graph.output@]);
            graph.lemma_contents_dom();
            graph.lemma_contents(0);
            graph.lemma_contents(1);
            assert(g.contents.dom() =~= want.contents.dom());
            assert(g.contents =~= want.contents);
            assert(g.edges =~= want.edges);
        }
        Ok(graph)
    }
}

impl<I: Identifier, D, L> CyclicGraph<I, D, L, ()> where (): IdGenerator<I> {
    /// Creates new graph with the default id generator implementation.
    /// Parameters are using for initial graph configuration.
    /// Using `input_id` - to specify input node identifier,
    /// `input_content` - to specify input node content,
    /// `output_id` - to specify output identifier which should differ from input_id,
    /// `output_content` - to specify output node content,
    /// `start_id_idx` - id usize number from which start counter to generate unique
    /// middle nodes. Generated id should be differ from input_id and output_id.
    pub fn new_default(
        input_id: I,
        input_content: Content<D, L>,
        output_id: I,
        output_content: Content<D, L>,
        start_id_idx: usize,
    ) -> (graph: Result<Self, CyclicGraphError<I>>)
        ensures
            graph is Ok <==> (input_id@ != output_id@ && <() as IdGenerator<I>>::spec_generate_id(
                start_id_idx,
            ) != input_id@ && <() as IdGenerator<I>>::spec_generate_id(start_id_idx)
                != output_id@),
            graph matches Ok(g) ==> (g.wf() && g@ == GraphView::initial(
                input_id@,
                input_content,
                output_id@,
                output_content,
                start_id_idx,
            )),
            graph matches Err(e) ==> (e matches CyclicGraphError::NonUniqueId(id) && id@ == (if input_id@
                == output_id@ {
                output_id@
            } else {
                <() as IdGenerator<I>>::spec_generate_id(start_id_idx)
            })),
    {
        Self::new(input_id, input_content, output_id, output_content, start_id_idx, ())
    }
}

impl<I: Identifier, D, L, G> CyclicGraph<I, D, L, G> {
    /// Returns the node specified by `id`, if the graph holds it.
    pub fn get(&self, id: &I) -> (node: Option<&Node<I, D, L>>)
        requires
            self.wf(),
        ensures
            match node {
                Some(n) => {
                    &&& self@.contains(id@)
                    &&& n.wf()
                    &&& n@ == (NodeView {
                        id: id@,
                        content: self@.contents[id@],
                        parents: self@.parents_of(id@),
                        children: self@.children_of(id@),
                    })
                },
                None => !self@.contains(id@),
            },
    {
        match self.find_index(id) {
            Some(i) => {
                proof {
                    self.lemma_node_view(i as int);
                }
                Some(&self.nodes[i])
            },
            None => {
                proof {
                    self.lemma_contents_dom();
                }
                None
            },
        }
    }

    /// Returns the input node.
    pub fn input(&self) -> (node: &Node<I, D, L>)
        requires
            self.wf(),
        ensures
            node.wf(),
            node@ == (NodeView {
                id: self@.input,
                content: self@.contents[self@.input],
                parents: self@.parents_of(self@.input),
                children: self@.children_of(self@.input),
            }),
    {
        match self.find_index(&self.input) {
            Some(i) => {
                proof {
                    self.lemma_node_view(i as int);
                }
                &self.nodes[i]
            },
            None => {
                proof {
                    assert(false);
                }
                &self.nodes[0]
            },
        }
    }

    /// Returns the output node.
    pub fn output(&self) -> (node: &Node<I, D, L>)
        requires
            self.wf(),
        ensures
            node.wf(),
            node@ == (NodeView {
                id: self@.output,
                content: self@.contents[self@.output],
                parents: self@.parents_of(self@.output),
                children: self@.children_of(self@.output),
            }),
    {
        match self.find_index(&self.output) {
            Some(i) => {
                proof {
                    self.lemma_node_view(i as int);
                }
                &self.nodes[i]
            },
            None => {
                proof {
                    assert(false);
                }
                &self.nodes[0]
            },
        }
    }

    /// Returns number of nodes in the graph.
    pub fn len(&self) -> (n: usize)
        requires
            self.wf(),
        ensures
            self@.contents.dom().finite(),
            n == self@.contents.len(),
    {
        proof {
            self.lemma_well_formed();
            self.lemma_len();
        }
        self.nodes.len()
    }

    /// Creates a link from the node `parent_id` to the node `child_id`.
    /// Returns whether the link is new.
    pub fn link_child(&mut self, parent_id: &I, child_id: &I) -> (result: Result<
        bool,
        CyclicGraphError<I>,
    >)
        requires
            old(self).wf(),
        ensures
            final(self).wf(),
            result is Ok <==> old(self)@.may_link(parent_id@, child_id@),
            result matches Ok(added) ==> added == !old(self)@.has_edge(parent_id@, child_id@)
                && final(self)@ == old(self)@.linked(parent_id@, child_id@),
            result is Err ==> final(self)@ == old(self)@,
            result matches Err(e) ==> match e {
                CyclicGraphError::CannotLinkToItself => parent_id@ == child_id@,
                CyclicGraphError::NodeNotFoundById(id) => parent_id@ != child_id@ && (if old(
                    self,
                )@.contains(parent_id@) {
                    id@ == child_id@ && !old(self)@.contains(child_id@)
                } else {
                    id@ == parent_id@
                }),
                CyclicGraphError::InsertBeforeInput => parent_id@ != child_id@ && old(
                    self,
                )@.contains(parent_id@) && old(self)@.contains(child_id@) && child_id@ == old(
                    self,
                )@.input,
                CyclicGraphError::InsertAfterOutput => parent_id@ != child_id@ && old(
                    self,
                )@.contains(parent_id@) && old(self)@.contains(child_id@) && child_id@ != old(
                    self,
                )@.input && parent_id@ == old(self)@.output,
                _ => false,
            },
    {
        proof {
            self.lemma_contents_dom();
        }
        if parent_id.same_id(child_id) {
            return Err(CyclicGraphError::CannotLinkToItself);
        }
        let pi = match self.find_index(parent_id) {
            Some(pi) => pi,
            None => {
                return Err(CyclicGraphError::NodeNotFoundById(parent_id.clone_id()));
            },
        };
        proof {
            self.lemma_contents(pi as int);
        }
        let ci = match self.find_index(child_id) {
            Some(ci) => ci,
            None => {
                return Err(CyclicGraphError::NodeNotFoundById(child_id.clone_id()));
            },
        };
        proof {
            self.lemma_contents(ci as int);
        }
        if child_id.same_id(&self.input) {
            return Err(CyclicGraphError::InsertBeforeInput);
        }
        if parent_id.same_id(&self.output) {
            return Err(CyclicGraphError::InsertAfterOutput);
        }
        proof {
            self.lemma_edge(pi as int, child_id@);
        }
        if contains_id(&self.nodes[pi].children, child_id) {
            proof {
                assert(self@.edges.insert((parent_id@, child_id@)) =~= self@.edges);
            }
            Ok(false)
        } else {
            self.add_edge(pi, ci);
            Ok(true)
        }
    }

    /// Creates a link from the node `parent_id` to the node `node_id`.
    /// Returns whether the link is new.
    pub fn link_parent(&mut self, node_id: &I, parent_id: &I) -> (result: Result<
        bool,
        CyclicGraphError<I>,
    >)
        requires
            old(self).wf(),
        ensures
            final(self).wf(),
            result is Ok <==> old(self)@.may_link(parent_id@, node_id@),
            result matches Ok(added) ==> added == !old(self)@.has_edge(parent_id@, node_id@)
                && final(self)@ == old(self)@.linked(parent_id@, node_id@),
            result is Err ==> final(self)@ == old(self)@,
            result matches Err(e) ==> match e {
                CyclicGraphError::CannotLinkToItself => parent_id@ == node_id@,
                CyclicGraphError::NodeNotFoundById(id) => parent_id@ != node_id@ && (if old(
                    self,
                )@.contains(parent_id@) {
                    id@ == node_id@ && !old(self)@.contains(node_id@)
                } else {
                    id@ == parent_id@
                }),
                CyclicGraphError::InsertBeforeInput => parent_id@ != node_id@ && old(
                    self,
                )@.contains(parent_id@) && old(self)@.contains(node_id@) && node_id@ == old(
                    self,
                )@.input,
                CyclicGraphError::InsertAfterOutput => parent_id@ != node_id@ && old(
                    self,
                )@.contains(parent_id@) && old(self)@.contains(node_id@) && node_id@ != old(
                    self,
                )@.input && parent_id@ == old(self)@.output,
                _ => false,
            },
    {
        self.link_child(parent_id, node_id)
    }

    /// Removes the link from the node `parent_id` to the node `child_id`.
    /// Returns whether there was such a link.
    pub fn unlink_child(&mut self, parent_id: &I, child_id: &I) -> (result: Result<
        bool,
        CyclicGraphError<I>,
    >)
        requires
            old(self).wf(),
        ensures
            final(self).wf(),
            result == Ok::<bool, CyclicGraphError<I>>(old(self)@.has_edge(parent_id@, child_id@)),
            final(self)@ == old(self)@.unlinked(parent_id@, child_id@),
    {
        let pi = match self.find_index(parent_id) {
            Some(pi) => pi,
            None => {
                proof {
                    self.lemma_no_edge_from_absent(parent_id@, child_id@);
                    assert(self@.edges.remove((parent_id@, child_id@)) =~= self@.edges);
                }
                return Ok(false);
            },
        };
        proof {
            self.lemma_edge(pi as int, child_id@);
        }
        let ci = match self.find_index(child_id) {
            Some(ci) => ci,
            None => {
                proof {
                    assert(self@.edges.remove((parent_id@, child_id@)) =~= self@.edges);
                }
                return Ok(false);
            },
        };
        if contains_id(&self.nodes[pi].children, child_id) {
            self.remove_edge(pi, ci);
            Ok(true)
        } else {
            proof {
                assert(self@.edges.remove((parent_id@, child_id@)) =~= self@.edges);
            }
            Ok(false)
        }
    }

    /// Removes the link from the node `parent_id` to the node `node_id`.
    /// Returns whether there was such a link.
    pub fn unlink_parent(&mut self, node_id: &I, parent_id: &I) -> (result: Result<
        bool,
        CyclicGraphError<I>,
    >)
        requires
            old(self).wf(),
        ensures
            final(self).wf(),
            result == Ok::<bool, CyclicGraphError<I>>(old(self)@.has_edge(parent_id@, node_id@)),
            final(self)@ == old(self)@.unlinked(parent_id@, node_id@),
    {
        self.unlink_child(parent_id, node_id)
    }
}

impl<I: Identifier, D, L, G: IdGenerator<I>> CyclicGraph<I, D, L, G> {
    /// Generates the next identifier and moves the counter on.
    fn next_id(&mut self) -> (id: I)
        requires
            old(self).wf(),
        ensures
            final(self).wf(),
            final(self).keys() == old(self).keys(),
            id@ == G::spec_generate_id(old(self)@.recent_id),
            final(self)@ == (GraphView {
                recent_id: next_counter(old(self)@.recent_id, GeneratorMode::Normal),
                ..old(self)@
            }),
    {
        let ghost g0 = *self;
        let id = G::generate_id(&mut self.recent_id, GeneratorMode::Normal);
        proof {
            assert(self.nodes == g0.nodes);
            assert(self.input == g0.input);
            assert(self.output == g0.output);
            assert(self.keys() =~= g0.keys());
            assert forall|i: int, c: I::V| 0 <= i < self.nodes@.len() implies #[trigger] self.is_edge_at(i, c) == g0.is_edge_at(i, c) by {}
            assert forall|i: int, c: I::V| 0 <= i < self.nodes@.len() implies #[trigger] self.is_back_edge_at(i, c) == g0.is_back_edge_at(i, c) by {}
            assert forall|i: int| 0 <= i < self.nodes@.len() implies #[trigger] self.key(i) == g0.key(i) by {}
            self.lemma_same_contents(&g0);
            self.lemma_same_edges(&g0);
        }
        id
    }

    /// Appends node to graph with links from the nodes `parent_ids` and to the
    /// nodes `child_ids`. The payload of the node is given by `content`.
    /// Returns the identifier of the new node.
    ///
    /// Fails with `InsertBeforeInput` or `InsertAfterOutput` when the input node is
    /// among the children or the output node among the parents, with `NonUniqueId`
    /// when the generated identifier is taken, and with `NodeNotFoundById` for the
    /// first parent, else the first child, that names no node; in the last two
    /// cases only the counter has moved on.
    ///
    /// Before:
    ///
    /// #       +-------------+
    /// #       | Parent Node |
    /// #       +-------------+
    /// #               |
    /// #               V
    /// #       +------------+
    /// #       | Child Node |
    /// #       +------------+
    ///
    /// After append:
    ///
    /// #       +-------------+
    /// #       | Parent Node |-----+
    /// #       +-------------+     |
    /// #               |           V
    /// #               |      +----------+
    /// #               |      | New Node |
    /// #               |      +----------+
    /// #               V           |
    /// #       +------------+      |
    /// #       | Child Node |<-----+
    /// #       +------------+
    pub fn append_node(&mut self, content: Content<D, L>, parent_ids: &[I], child_ids: &[I]) -> (result: Result<
        I,
        CyclicGraphError<I>,
    >)
        requires
            old(self).wf(),
        ensures
            final(self).wf(),
            ({
                let g = old(self)@;
                let parents = id_keys(parent_ids@);
                let children = id_keys(child_ids@);
                let new_id = G::spec_generate_id(g.recent_id);
                let next = next_counter(g.recent_id, GeneratorMode::Normal);
                if children.contains(g.input) {
                    result == Err::<I, CyclicGraphError<I>>(CyclicGraphError::InsertBeforeInput)
                        && final(self)@ == g
                } else if parents.contains(g.output) {
                    result == Err::<I, CyclicGraphError<I>>(CyclicGraphError::InsertAfterOutput)
                        && final(self)@ == g
                } else if g.contains(new_id) {
                    &&& result matches Err(CyclicGraphError::NonUniqueId(id)) && id@ == new_id
                    &&& final(self)@ == (GraphView { recent_id: next, ..g })
                } else if !g.all_present(parents) {
                    &&& result matches Err(CyclicGraphError::NodeNotFoundById(m))
                        && exists|i: int| g.first_absent_at(parents, i) && m@ == parents[i]
                    &&& final(self)@ == (GraphView { recent_id: next, ..g })
                } else if !g.all_present(children) {
                    &&& result matches Err(CyclicGraphError::NodeNotFoundById(m))
                        && exists|i: int| g.first_absent_at(children, i) && m@ == children[i]
                    &&& final(self)@ == (GraphView { recent_id: next, ..g })
                } else {
                    &&& result matches Ok(id) && id@ == new_id
                    &&& final(self)@ == g.appended(
                        new_id,
                        content,
                        parents.to_set(),
                        children.to_set(),
                        next,
                    )
                }
            }),
    {
        let ghost g0 = self@;
        let ghost parents = id_keys(parent_ids@);
        let ghost children = id_keys(child_ids@);
        if slice_contains_id(child_ids, &self.input) {
            return Err(CyclicGraphError::InsertBeforeInput);
        }
        if slice_contains_id(parent_ids, &self.output) {
            return Err(CyclicGraphError::InsertAfterOutput);
        }
        let id = self.next_id();
        let ghost k = id@;
        let ghost g1 = self@;
        match self.find_index(&id) {
            Some(i) => {
                proof {
                    self.lemma_contents(i as int);
                }
                return Err(CyclicGraphError::NonUniqueId(id));
            },
            None => {},
        }
        match self.first_absent(parent_ids) {
            Some(a) => {
                return Err(CyclicGraphError::NodeNotFoundById(parent_ids[a].clone_id()));
            },
            None => {},
        }
        match self.first_absent(child_ids) {
            Some(b) => {
                return Err(CyclicGraphError::NodeNotFoundById(child_ids[b].clone_id()));
            },
            None => {},
        }
        proof {
            self.lemma_contents_dom();
        }
        let node = Node { id: id.clone_id(), content, parents: Vec::new(), children: Vec::new() };
        proof {
            broadcast use Node::lemma_view, Node::lemma_wf;

            assert(id_keys(node.children@) =~= Seq::<I::V>::empty());
            assert(id_keys(node.parents@) =~= Seq::<I::V>::empty());
        }
        self.push_node(node);
        let ghost g2 = self@;
        let ni = self.nodes.len() - 1;
        proof {
            self.lemma_key(ni as int);
            assert(self.key(ni as int) == k);
            assert(g0.contains(g0.input));
            assert(k != g0.input);
            assert(k != g0.output);
        }
        proof {
            assert(g0.links_from(parents.take(0).to_set(), k) =~= Set::empty());
            assert(self@.edges =~= g0.edges + g0.links_from(parents.take(0).to_set(), k));
        }
        let mut a: usize = 0;
        while a < parent_ids.len()
            invariant
                self.wf(),
                0 <= a <= parent_ids@.len(),
                parents == id_keys(parent_ids@),
                !parents.contains(g0.output),
                !g0.contains(k),
                k != g0.input,
                k != g0.output,
                g2 == (GraphView { contents: g0.contents.insert(k, g2.contents[k]), ..g1 }),
                g1 == (GraphView {
                    recent_id: next_counter(g0.recent_id, GeneratorMode::Normal),
                    ..g0
                }),
                ni == self.nodes@.len() - 1,
                self.key(ni as int) == k,
                id@ == k,
                self@ == (GraphView {
                    edges: g0.edges + g0.links_from(parents.take(a as int).to_set(), k),
                    ..g2
                }),
            decreases parent_ids@.len() - a,
        {
            let ghost before = self@;
            let ghost pid = parent_ids@[a as int]@;
            proof {
                assert(parents.take(a + 1) =~= parents.take(a as int).push(pid));
                parents.take(a as int).lemma_push_to_set_commute(pid);
                assert(parents[a as int] == pid);
            }
            match self.find_index(&parent_ids[a]) {
                Some(pi) => {
                    proof {
                        self.lemma_contents(pi as int);
                        self.lemma_edge(pi as int, k);
                        self.lemma_key(pi as int);
                        self.lemma_key(ni as int);
                    }
                    if pi != ni && !contains_id(&self.nodes[pi].children, &id) {
                        proof {
                            assert(pid != k);
                            assert(g0.contains(pid));
                            assert(pid != g0.output) by {
                                assert(parents[a as int] == pid);
                            }
                        }
                        self.add_edge(pi, ni);
                        proof {
                            assert(g0.links_from(parents.take(a + 1).to_set(), k) =~= g0.links_from(parents.take(a as int).to_set(), k).insert((pid, k)));
                            assert(self@.edges =~= g0.edges + g0.links_from(parents.take(a + 1).to_set(), k));
                        }
                    } else {
                        proof {
                            if pi == ni {
                                assert(pid == k);
                                assert(g0.links_from(parents.take(a + 1).to_set(), k) =~= g0.links_from(parents.take(a as int).to_set(), k));
                            } else {
                                assert(pid != k);
                                assert(g0.contains(pid));
                                assert(before.edges.contains((pid, k)));
                                assert(g0.links_from(parents.take(a + 1).to_set(), k) =~= g0.links_from(parents.take(a as int).to_set(), k).insert((pid, k)));
                                assert(self@.edges =~= g0.edges + g0.links_from(parents.take(a + 1).to_set(), k));
                            }
                        }
                    }
                },
                None => {
                    proof {
                        self.lemma_contents_dom();
                        assert(!self@.contains(pid));
                        assert(!g0.contains(pid));
                        assert(g0.links_from(parents.take(a + 1).to_set(), k) =~= g0.links_from(parents.take(a as int).to_set(), k));
                    }
                },
            }
            a += 1;
        }
        proof {
            assert(parents.take(parent_ids@.len() as int) =~= parents);
        }
        let ghost g3 = self@;
        proof {
            assert(g0.links_to(k, children.take(0).to_set()) =~= Set::empty());
            assert(self@.edges =~= g3.edges + g0.links_to(k, children.take(0).to_set()));
        }
        let mut b: usize = 0;
        while b < child_ids.len()
            invariant
                self.wf(),
                0 <= b <= child_ids@.len(),
                children == id_keys(child_ids@),
                !children.contains(g0.input),
                !g0.contains(k),
                k != g0.input,
                k != g0.output,
                g2 == (GraphView { contents: g0.contents.insert(k, g2.contents[k]), ..g1 }),
                g1 == (GraphView {
                    recent_id: next_counter(g0.recent_id, GeneratorMode::Normal),
                    ..g0
                }),
                g3 == (GraphView {
                    edges: g0.edges + g0.links_from(parents.to_set(), k),
                    ..g2
                }),
                ni == self.nodes@.len() - 1,
                self.key(ni as int) == k,
                id@ == k,
                self@ == (GraphView {
                    edges: g3.edges + g0.links_to(k, children.take(b as int).to_set()),
                    ..g3
                }),
            decreases child_ids@.len() - b,
        {
            let ghost before = self@;
            let ghost cid = child_ids@[b as int]@;
            proof {
                assert(children.take(b + 1) =~= children.take(b as int).push(cid));
                children.take(b as int).lemma_push_to_set_commute(cid);
                assert(children[b as int] == cid);
            }
            match self.find_index(&child_ids[b]) {
                Some(ci) => {
                    proof {
                        self.lemma_contents(ci as int);
                        self.lemma_edge(ni as int, cid);
                        self.lemma_key(ci as int);
                        self.lemma_key(ni as int);
                    }
                    if ci != ni && !contains_id(&self.nodes[ni].children, &child_ids[b]) {
                        proof {
                            assert(cid != k);
                            assert(g0.contains(cid));
                            assert(cid != g0.input) by {
                                assert(children[b as int] == cid);
                            }
                        }
                        self.add_edge(ni, ci);
                        proof {
                            assert(g0.links_to(k, children.take(b + 1).to_set()) =~= g0.links_to(k, children.take(b as int).to_set()).insert((k, cid)));
                            assert(self@.edges =~= g3.edges + g0.links_to(k, children.take(b + 1).to_set()));
                        }
                    } else {
                        proof {
                            if ci == ni {
                                assert(cid == k);
                                assert(g0.links_to(k, children.take(b + 1).to_set()) =~= g0.links_to(k, children.take(b as int).to_set()));
                            } else {
                                assert(cid != k);
                                assert(g0.contains(cid));
                                assert(before.edges.contains((k, cid)));
                                assert(g0.links_to(k, children.take(b + 1).to_set()) =~= g0.links_to(k, children.take(b as int).to_set()).insert((k, cid)));
                                assert(self@.edges =~= g3.edges + g0.links_to(k, children.take(b + 1).to_set()));
                            }
                        }
                    }
                },
                None => {
                    proof {
                        self.lemma_contents_dom();
                        assert(!self@.contains(cid));
                        assert(!g0.contains(cid));
                        assert(g0.links_to(k, children.take(b + 1).to_set()) =~= g0.links_to(k, children.take(b as int).to_set()));
                    }
                },
            }
            b += 1;
        }
        proof {
            assert(children.take(child_ids@.len() as int) =~= children);
            assert(g2.contents[k] == content);
        }
        Ok(id)
    }

    /// Inserts a new node with `content` into the link from the node `parent_id`
    /// to the node `child_id`: the parent then links to the new node and the new
    /// node links to the child, and the former link (if there was one) is gone.
    /// Returns the identifier of the new node.
    ///
    /// Before:
    ///
    /// #        +-------------+
    /// #        | Parent Node |
    /// #        +-------------+
    /// #                |
    /// #                V
    /// #        +------------+
    /// #        | Child Node |
    /// #        +------------+
    ///
    /// After insert_between:
    ///
    /// #        +-------------+
    /// #        | Parent Node |
    /// #        +-------------+
    /// #                |
    /// #                V
    /// #           +----------+
    /// #           | New Node |
    /// #           +----------+
    /// #                |
    /// #                V
    /// #        +------------+
    /// #        | Child Node |
    /// #        +------------+
    pub fn insert_between(&mut self, content: Content<D, L>, parent_id: I, child_id: I) -> (result: Result<
        I,
        CyclicGraphError<I>,
    >)
        requires
            old(self).wf(),
        ensures
            final(self).wf(),
            ({
                let g = old(self)@;
                let new_id = G::spec_generate_id(g.recent_id);
                let next = next_counter(g.recent_id, GeneratorMode::Normal);
                if child_id@ == g.input {
                    result == Err::<I, CyclicGraphError<I>>(CyclicGraphError::InsertBeforeInput)
                        && final(self)@ == g
                } else if parent_id@ == g.output {
                    result == Err::<I, CyclicGraphError<I>>(CyclicGraphError::InsertAfterOutput)
                        && final(self)@ == g
                } else if !g.contains(parent_id@) {
                    &&& result matches Err(CyclicGraphError::NodeNotFoundById(id)) && id@ == parent_id@
                    &&& final(self)@ == g
                } else if !g.contains(child_id@) {
                    &&& result matches Err(CyclicGraphError::NodeNotFoundById(id)) && id@ == child_id@
                    &&& final(self)@ == g
                } else if g.contains(new_id) {
                    &&& result matches Err(CyclicGraphError::NonUniqueId(id)) && id@ == new_id
                    &&& final(self)@ == (GraphView { recent_id: next, ..g })
                } else {
                    &&& result matches Ok(id) && id@ == new_id
                    &&& final(self)@ == g.spliced(new_id, content, parent_id@, child_id@, next)
                }
            }),
    {
        let ghost g0 = self@;
        let ghost p = parent_id@;
        let ghost c = child_id@;
        if child_id.same_id(&self.input) {
            return Err(CyclicGraphError::InsertBeforeInput);
        }
        if parent_id.same_id(&self.output) {
            return Err(CyclicGraphError::InsertAfterOutput);
        }
        proof {
            self.lemma_contents_dom();
        }
        match self.find_index(&parent_id) {
            Some(i) => {
                proof {
                    self.lemma_contents(i as int);
                }
            },
            None => {
                return Err(CyclicGraphError::NodeNotFoundById(parent_id));
            },
        }
        match self.find_index(&child_id) {
            Some(i) => {
                proof {
                    self.lemma_contents(i as int);
                }
            },
            None => {
                return Err(CyclicGraphError::NodeNotFoundById(child_id));
            },
        }
        let id = self.next_id();
        let ghost k = id@;
        match self.find_index(&id) {
            Some(i) => {
                proof {
                    self.lemma_contents(i as int);
                }
                return Err(CyclicGraphError::NonUniqueId(id));
            },
            None => {},
        }
        proof {
            self.lemma_contents_dom();
        }
        let node = Node { id: id.clone_id(), content, parents: Vec::new(), children: Vec::new() };
        proof {
            broadcast use Node::lemma_view, Node::lemma_wf;

            assert(id_keys(node.children@) =~= Seq::<I::V>::empty());
            assert(id_keys(node.parents@) =~= Seq::<I::V>::empty());
        }
        self.push_node(node);
        let ni = self.nodes.len() - 1;
        proof {
            self.lemma_contents_dom();
            self.lemma_key(ni as int);
            assert(g0.contains(g0.input));
            assert(k != g0.input);
            assert(k != g0.output);
            assert(self@.contains(p));
            assert(self@.contains(c));
        }
        let pi = match self.find_index(&parent_id) {
            Some(pi) => pi,
            None => {
                proof {
                    assert(false);
                }
                return Err(CyclicGraphError::NodeNotFoundById(parent_id));
            },
        };
        let ci = match self.find_index(&child_id) {
            Some(ci) => ci,
            None => {
                proof {
                    assert(false);
                }
                return Err(CyclicGraphError::NodeNotFoundById(child_id));
            },
        };
        proof {
            self.lemma_edge(pi as int, c);
            self.lemma_edge(pi as int, k);
            self.lemma_edge(ni as int, c);
            self.lemma_edge(ni as int, k);
            self.lemma_key(pi as int);
            self.lemma_key(ci as int);
            assert(pi != ni);
            assert(ci != ni);
            assert(!g0.has_edge(p, k));
            assert(!g0.has_edge(k, c));
        }
        if contains_id(&self.nodes[pi].children, &child_id) {
            self.remove_edge(pi, ci);
        } else {
            proof {
                assert(self@.edges.remove((p, c)) =~= self@.edges);
            }
        }
        proof {
            self.lemma_edge(pi as int, k);
            self.lemma_edge(ni as int, c);
        }
        self.add_edge(pi, ni);
        proof {
            self.lemma_edge(ni as int, c);
        }
        self.add_edge(ni, ci);
        proof {
            assert(self@.edges =~= g0.edges.remove((p, c)).insert((p, k)).insert((k, c)));
        }
        Ok(id)
    }
}

/// The link from `parents[x]` to `children[y]` is made wherever `g` lets it be made.
spec fn pair_linked<K, D, L>(
    g: GraphView<K, D, L>,
    edges: Set<(K, K)>,
    parents: Seq<K>,
    children: Seq<K>,
    x: int,
    y: int,
) -> bool {
    g.may_link(parents[x], children[y]) ==> edges.contains((parents[x], children[y]))
}

/// The links from each of the first `n` identifiers of `parents` to `k`.
spec fn links_from_prefix<K>(parents: Seq<K>, n: int, k: K) -> Set<(K, K)> {
    Set::new(|e: (K, K)| e.1 == k && parents.take(n).to_set().contains(e.0))
}

/// The links from `k` to each of the first `n` identifiers of `children`.
spec fn links_to_prefix<K>(k: K, children: Seq<K>, n: int) -> Set<(K, K)> {
    Set::new(|e: (K, K)| e.0 == k && children.take(n).to_set().contains(e.1))
}

impl<I: Identifier, D, L, G> CyclicGraph<I, D, L, G> {
    /// Removes node specified by `id` from the graph, and links each of its parents
    /// to each of its children, so that the connections continue through the
    /// remaining nodes.
    ///
    /// Returns `Ok(true)` if the node was removed, `Ok(false)` if there was no such
    /// node, or an error when trying to remove the input or output node.
    /// A node that is both a parent and a child of the removed node is not linked
    /// to itself.
    pub fn remove(&mut self, id: &I) -> (result: Result<bool, CyclicGraphError<I>>)
        requires
            old(self).wf(),
        ensures
            final(self).wf(),
            ({
                let g = old(self)@;
                let k = id@;
                if k == g.input {
                    result == Err::<bool, CyclicGraphError<I>>(CyclicGraphError::RemoveInput)
                        && final(self)@ == g
                } else if k == g.output {
                    result == Err::<bool, CyclicGraphError<I>>(CyclicGraphError::RemoveOutput)
                        && final(self)@ == g
                } else if !g.contains(k) {
                    result == Ok::<bool, CyclicGraphError<I>>(false) && final(self)@ == g
                } else {
                    result == Ok::<bool, CyclicGraphError<I>>(true) && final(self)@ == g.removed(k)
                }
            }),
    {
        let ghost g = self@;
        let ghost k = id@;
        proof {
            self.lemma_well_formed();
            self.lemma_contents_dom();
        }
        if id.same_id(&self.input) {
            return Err(CyclicGraphError::RemoveInput);
        }
        if id.same_id(&self.output) {
            return Err(CyclicGraphError::RemoveOutput);
        }
        let i = match self.find_index(id) {
            Some(i) => i,
            None => {
                return Ok(false);
            },
        };
        proof {
            self.lemma_node_view(i as int);
        }
        let parent_ids = clone_ids(&self.nodes[i].parents);
        let child_ids = clone_ids(&self.nodes[i].children);
        let node_id = self.nodes[i].id.clone_id();
        let ghost parents = id_keys(parent_ids@);
        let ghost children = id_keys(child_ids@);
        proof {
            broadcast use Node::lemma_view, Node::lemma_wf;

            assert(parents.no_duplicates());
            assert(children.no_duplicates());
            assert(parents.to_set() == g.parents_of(k));
            assert(children.to_set() == g.children_of(k));
            assert(links_from_prefix(parents, 0, k) =~= Set::empty());
            assert(self@.edges =~= g.edges.difference(links_from_prefix(parents, 0, k)));
        }
        let mut all_ok = true;
        let mut a: usize = 0;
        while a < parent_ids.len()
            invariant
                self.wf(),
                0 <= a <= parent_ids@.len(),
                parents == id_keys(parent_ids@),
                parents.no_duplicates(),
                parents.to_set() == g.parents_of(k),
                node_id@ == k,
                all_ok,
                self@ == (GraphView {
                    edges: g.edges.difference(links_from_prefix(parents, a as int, k)),
                    ..g
                }),
            decreases parent_ids@.len() - a,
        {
            let ghost pid = parents[a as int];
            proof {
                assert(parents.take(a + 1) =~= parents.take(a as int).push(pid));
                parents.take(a as int).lemma_push_to_set_commute(pid);
                assert(parents.to_set().contains(pid));
                assert(!parents.take(a as int).contains(pid)) by {
                    if parents.take(a as int).contains(pid) {
                        let x = choose|x: int| 0 <= x < a && parents.take(a as int)[x] == pid;
                        assert(parents[x] == parents[a as int]);
                    }
                }
            }
            match self.unlink_child(&parent_ids[a], &node_id) {
                Ok(removed) => {
                    all_ok = all_ok && removed;
                },
                Err(_) => {
                    all_ok = false;
                },
            }
            proof {
                assert(links_from_prefix(parents, a + 1, k) =~= links_from_prefix(parents, a as int, k).insert((pid, k)));
                assert(self@.edges =~= g.edges.difference(links_from_prefix(parents, a + 1, k)));
            }
            a += 1;
        }
        let ghost g1 = self@;
        proof {
            assert(parents.take(parent_ids@.len() as int) =~= parents);
            assert(links_to_prefix(k, children, 0) =~= Set::empty());
            assert(self@.edges =~= g1.edges.difference(links_to_prefix(k, children, 0)));
        }
        let mut b: usize = 0;
        while b < child_ids.len()
            invariant
                self.wf(),
                0 <= b <= child_ids@.len(),
                children == id_keys(child_ids@),
                children.no_duplicates(),
                children.to_set() == g.children_of(k),
                g.well_formed(),
                g1 == (GraphView {
                    edges: g.edges.difference(links_from_prefix(parents, parents.len() as int, k)),
                    ..g
                }),
                parents.take(parents.len() as int) == parents,
                node_id@ == k,
                all_ok,
                self@ == (GraphView {
                    edges: g1.edges.difference(links_to_prefix(k, children, b as int)),
                    ..g1
                }),
            decreases child_ids@.len() - b,
        {
            let ghost cid = children[b as int];
            proof {
                assert(children.take(b + 1) =~= children.take(b as int).push(cid));
                children.take(b as int).lemma_push_to_set_commute(cid);
                assert(children.to_set().contains(cid));
                assert(!children.take(b as int).contains(cid)) by {
                    if children.take(b as int).contains(cid) {
                        let x = choose|x: int| 0 <= x < b && children.take(b as int)[x] == cid;
                        assert(children[x] == children[b as int]);
                    }
                }
                assert(g.has_edge(k, cid));
                assert(k != cid);
            }
            match self.unlink_child(&node_id, &child_ids[b]) {
                Ok(removed) => {
                    all_ok = all_ok && removed;
                },
                Err(_) => {
                    all_ok = false;
                },
            }
            proof {
                assert(links_to_prefix(k, children, b + 1) =~= links_to_prefix(k, children, b as int).insert((k, cid)));
                assert(self@.edges =~= g1.edges.difference(links_to_prefix(k, children, b + 1)));
            }
            b += 1;
        }
        proof {
            assert(children.take(child_ids@.len() as int) =~= children);
            assert forall|e: (I::V, I::V)| #[trigger] self@.edges.contains(e) == g.links_avoiding(k).contains(e) by {
                if g.edges.contains(e) {
                    if e.1 == k {
                        assert(g.parents_of(k).contains(e.0));
                    }
                    if e.0 == k {
                        assert(g.children_of(k).contains(e.1));
                    }
                }
            }
            assert(self@.edges =~= g.links_avoiding(k));
        }
        let i = match self.find_index(&node_id) {
            Some(i) => i,
            None => {
                proof {
                    self.lemma_contents_dom();
                    assert(false);
                }
                return Ok(false);
            },
        };
        proof {
            self.lemma_node_view(i as int);
            assert forall|c: I::V| !#[trigger] self@.children_of(k).contains(c) by {}
            assert forall|c: I::V| !#[trigger] self@.parents_of(k).contains(c) by {}
            assert(self@.children_of(k) =~= Set::empty());
            assert(self@.parents_of(k) =~= Set::empty());
            lemma_seq_empty_iff_set_empty(self.nodes@[i as int].child_keys());
            lemma_seq_empty_iff_set_empty(self.nodes@[i as int].parent_keys());
        }
        self.remove_node_at(i);
        let ghost g2 = self@;
        self.reconnect_nodes(&parent_ids, &child_ids);
        proof {
            let cross = g2.cross_links(parents.to_set(), children.to_set());
            assert forall|e: (I::V, I::V)| #[trigger] cross.contains(e) == g.bypass_links(k).contains(e) by {
                if g.bypass_links(k).contains(e) {
                    assert(g.parents_of(k).contains(e.0));
                    assert(g.children_of(k).contains(e.1));
                }
            }
            assert(cross =~= g.bypass_links(k));
        }
        Ok(all_ok)
    }

    /// Links each node named in `parent_ids` to each node named in `child_ids`
    /// wherever such a link may be made (so never a node to itself); identifiers
    /// that name no node are passed over, and the links already there are kept.
    fn reconnect_nodes(&mut self, parent_ids: &[I], child_ids: &[I])
        requires
            old(self).wf(),
        ensures
            final(self).wf(),
            final(self)@ == (GraphView {
                edges: old(self)@.edges + old(self)@.cross_links(
                    id_keys(parent_ids@).to_set(),
                    id_keys(child_ids@).to_set(),
                ),
                ..old(self)@
            }),
    {
        let ghost g = self@;
        let ghost parents = id_keys(parent_ids@);
        let ghost children = id_keys(child_ids@);
        let ghost cross = g.cross_links(parents.to_set(), children.to_set());
        let mut a: usize = 0;
        while a < parent_ids.len()
            invariant
                self.wf(),
                0 <= a <= parent_ids@.len(),
                parents == id_keys(parent_ids@),
                children == id_keys(child_ids@),
                cross == g.cross_links(parents.to_set(), children.to_set()),
                self@ == (GraphView { edges: self@.edges, ..g }),
                g.edges.subset_of(self@.edges),
                self@.edges.subset_of(g.edges + cross),
                forall|x: int, y: int|
                    0 <= x < a && 0 <= y < children.len() ==> #[trigger] pair_linked(
                        g,
                        self@.edges,
                        parents,
                        children,
                        x,
                        y,
                    ),
            decreases parent_ids@.len() - a,
        {
            let mut b: usize = 0;
            while b < child_ids.len()
                invariant
                    self.wf(),
                    0 <= a < parent_ids@.len(),
                    0 <= b <= child_ids@.len(),
                    parents == id_keys(parent_ids@),
                    children == id_keys(child_ids@),
                    cross == g.cross_links(parents.to_set(), children.to_set()),
                    self@ == (GraphView { edges: self@.edges, ..g }),
                    g.edges.subset_of(self@.edges),
                    self@.edges.subset_of(g.edges + cross),
                    forall|x: int, y: int|
                        0 <= x < a && 0 <= y < children.len() ==> #[trigger] pair_linked(
                            g,
                            self@.edges,
                            parents,
                            children,
                            x,
                            y,
                        ),
                    forall|y: int|
                        0 <= y < b ==> #[trigger] pair_linked(
                            g,
                            self@.edges,
                            parents,
                            children,
                            a as int,
                            y,
                        ),
                decreases child_ids@.len() - b,
            {
                let ghost p = parents[a as int];
                let ghost c = children[b as int];
                let ghost before = self@.edges;
                proof {
                    assert(parents.to_set().contains(p));
                    assert(children.to_set().contains(c));
                }
                if !parent_ids[a].same_id(&child_ids[b]) {
                    match self.link_child(&parent_ids[a], &child_ids[b]) {
                        Ok(_) => {
                            proof {
                                assert(cross.contains((p, c)));
                            }
                        },
                        Err(_) => {},
                    }
                }
                proof {
                    assert forall|x: int, y: int|
                        0 <= x < a && 0 <= y < children.len() implies #[trigger] pair_linked(
                        g,
                        self@.edges,
                        parents,
                        children,
                        x,
                        y,
                    ) by {
                        assert(pair_linked(g, before, parents, children, x, y));
                    }
                    assert forall|y: int| 0 <= y < b + 1 implies #[trigger] pair_linked(
                        g,
                        self@.edges,
                        parents,
                        children,
                        a as int,
                        y,
                    ) by {
                        if y < b {
                            assert(pair_linked(g, before, parents, children, a as int, y));
                        }
                    }
                }
                b += 1;
            }
            proof {
                assert forall|x: int, y: int|
                    0 <= x < a + 1 && 0 <= y < children.len() implies #[trigger] pair_linked(
                    g,
                    self@.edges,
                    parents,
                    children,
                    x,
                    y,
                ) by {
                    if x == a {
                        assert(pair_linked(g, self@.edges, parents, children, a as int, y));
                    }
                }
            }
            a += 1;
        }
        proof {
            assert forall|e: (I::V, I::V)| cross.contains(e) implies self@.edges.contains(e) by {
                let x = choose|x: int| 0 <= x < parents.len() && parents[x] == e.0;
                let y = choose|y: int| 0 <= y < children.len() && children[y] == e.1;
                assert(pair_linked(g, self@.edges, parents, children, x, y));
            }
            assert(self@.edges =~= g.edges + cross);
        }
    }
}

impl<I: View, D, L, G> CyclicGraph<I, D, L, G> {
    /// The steps from the node at index `i` are those recorded in its links.
    proof fn lemma_step(&self, i: int, c: I::V, backward: bool)
        requires
            self.wf(),
            0 <= i < self.nodes@.len(),
        ensures
            self@.step(self.key(i), c, backward) == (if backward {
                self.nodes@[i].parent_keys().contains(c)
            } else {
                self.nodes@[i].child_keys().contains(c)
            }),
            self@.step(self.key(i), c, backward) ==> self.keys().contains(c),
    {
        broadcast use Node::lemma_view;

        self.lemma_node_view(i);
        self.lemma_edge(i, c);
        self.lemma_well_formed();
        self.lemma_contents_dom();
        if backward {
            assert(self.nodes@[i]@.parents.contains(c) == self@.parents_of(self.key(i)).contains(c));
        }
    }

    /// There is no step from an identifier the graph does not hold.
    proof fn lemma_no_step_from_absent(&self, k: I::V, c: I::V, backward: bool)
        requires
            self.wf(),
            !self.keys().contains(k),
        ensures
            !self@.step(k, c, backward),
    {
        self.lemma_well_formed();
        self.lemma_contents_dom();
    }
}


impl<I: Identifier, D, L, G> CyclicGraph<I, D, L, G> {
    /// Adds to `found` each node one step from the node at index `ui` that it lacks.
    fn expand(&self, ui: usize, backward: bool, found: &mut Vec<I>)
        requires
            self.wf(),
            ui < self.nodes@.len(),
            id_keys(old(found)@).no_duplicates(),
        ensures
            id_keys(final(found)@).no_duplicates(),
            extends(id_keys(final(found)@), id_keys(old(found)@)),
            self@.closed_at(id_keys(final(found)@), self.key(ui as int), backward),
            forall|j: int|
                old(found)@.len() <= j < final(found)@.len() ==> self@.step(
                    self.key(ui as int),
                    #[trigger] id_keys(final(found)@)[j],
                    backward,
                ) && self.keys().contains(id_keys(final(found)@)[j]),
    {
        let ghost r0 = id_keys(found@);
        let ghost u = self.key(ui as int);
        let n = if backward {
            self.nodes[ui].parents.len()
        } else {
            self.nodes[ui].children.len()
        };
        let ghost nbrs = if backward {
            self.nodes@[ui as int].parent_keys()
        } else {
            self.nodes@[ui as int].child_keys()
        };
        proof {
            assert(id_keys(found@).take(r0.len() as int) =~= r0);
        }
        let mut b: usize = 0;
        while b < n
            invariant
                self.wf(),
                ui < self.nodes@.len(),
                u == self.key(ui as int),
                n == nbrs.len(),
                nbrs == (if backward {
                    self.nodes@[ui as int].parent_keys()
                } else {
                    self.nodes@[ui as int].child_keys()
                }),
                0 <= b <= n,
                id_keys(found@).no_duplicates(),
                extends(id_keys(found@), r0),
                r0.len() <= found@.len(),
                forall|m: int| 0 <= m < b ==> id_keys(found@).contains(#[trigger] nbrs[m]),
                forall|j: int|
                    r0.len() <= j < found@.len() ==> self@.step(
                        u,
                        #[trigger] id_keys(found@)[j],
                        backward,
                    ) && self.keys().contains(id_keys(found@)[j]),
            decreases n - b,
        {
            let ghost before = id_keys(found@);
            let c = if backward {
                &self.nodes[ui].parents[b]
            } else {
                &self.nodes[ui].children[b]
            };
            proof {
                assert(nbrs[b as int] == c@);
                assert(nbrs.contains(c@));
                self.lemma_step(ui as int, c@, backward);
            }
            if !contains_id(found, c) {
                found.push(c.clone_id());
                proof {
                    let after = id_keys(found@);
                    assert(after =~= before.push(c@));
                    lemma_push_no_dup(before, c@);
                    assert(after.take(r0.len() as int) =~= before.take(r0.len() as int));
                    assert forall|m: int| 0 <= m < b + 1 implies after.contains(#[trigger] nbrs[m]) by {
                        if m < b {
                            assert(before.contains(nbrs[m]));
                            let x = choose|x: int| 0 <= x < before.len() && before[x] == nbrs[m];
                            assert(after[x] == nbrs[m]);
                        } else {
                            assert(after[before.len() as int] == nbrs[m]);
                        }
                    }
                    assert forall|j: int| r0.len() <= j < found@.len() implies self@.step(
                        u,
                        #[trigger] after[j],
                        backward,
                    ) && self.keys().contains(after[j]) by {
                        if j < before.len() {
                            assert(after[j] == before[j]);
                        }
                    }
                }
            }
            b += 1;
        }
        proof {
            let r = id_keys(found@);
            assert forall|c: I::V| #[trigger] self@.step(u, c, backward) implies r.contains(c) by {
                self.lemma_step(ui as int, c, backward);
                let m = choose|m: int| 0 <= m < nbrs.len() && nbrs[m] == c;
            }
        }
    }

    /// Returns `visited` followed by every node reached from `start` by a walk of at
    /// least one step (along links, or `backward` against them) that enters no node
    /// of `visited`.
    fn explore(&self, start: &I, visited: Vec<I>, backward: bool) -> (found: Vec<I>)
        requires
            self.wf(),
            id_keys(visited@).no_duplicates(),
        ensures
            id_keys(found@).no_duplicates(),
            id_keys(found@).to_set() == id_keys(visited@).to_set() + self@.reached_from(
                start@,
                backward,
                id_keys(visited@).to_set(),
            ),
    {
        let ghost v0 = id_keys(visited@);
        let ghost avoid = v0.to_set();
        let n0 = visited.len();
        let mut found = visited;
        proof {
            assert(id_keys(found@).take(n0 as int) =~= v0);
        }
        match self.find_index(start) {
            Some(si) => {
                self.expand(si, backward, &mut found);
            },
            None => {
                proof {
                    assert forall|c: I::V| #[trigger] self@.step(start@, c, backward) implies id_keys(
                        found@,
                    ).contains(c) by {
                        self.lemma_no_step_from_absent(start@, c, backward);
                    }
                }
            },
        }
        proof {
            self@.lemma_explore_start(v0, id_keys(found@), start@, backward);
        }
        let mut next: usize = n0;
        while next < found.len()
            invariant
                self.wf(),
                n0 == v0.len(),
                avoid == v0.to_set(),
                self@.explored_upto(id_keys(found@), n0 as int, next as int, start@, backward, avoid),
                forall|j: int|
                    n0 <= j < found@.len() ==> self.keys().contains(#[trigger] id_keys(found@)[j]),
            decreases self.nodes@.len() + n0 - next,
        {
            let ghost before = id_keys(found@);
            proof {
                assert forall|j: int| 0 <= j < before.skip(n0 as int).len() implies self.keys().contains(
                    #[trigger] before.skip(n0 as int)[j],
                ) by {
                    assert(before.skip(n0 as int)[j] == before[j + n0]);
                }
                lemma_distinct_len_bound(before.skip(n0 as int), self.keys());
            }
            let u = found[next].clone_id();
            proof {
                assert(before[next as int] == u@);
            }
            let ui = match self.find_index(&u) {
                Some(ui) => ui,
                None => {
                    proof {
                        assert(false);
                    }
                    return found;
                },
            };
            self.expand(ui, backward, &mut found);
            proof {
                let after = id_keys(found@);
                self@.lemma_explore_step(before, after, n0 as int, next as int, start@, backward, avoid);
                GraphView::<I::V, D, L>::lemma_extends_contains(after, before);
            }
            next += 1;
        }
        proof {
            self@.lemma_explore_done(id_keys(found@), n0 as int, start@, backward, avoid);
        }
        found
    }

    /// Returns the identifiers of `ids`, each once.
    fn distinct_ids(ids: &[I]) -> (distinct: Vec<I>)
        ensures
            id_keys(distinct@).no_duplicates(),
            id_keys(distinct@).to_set() == id_keys(ids@).to_set(),
    {
        let mut distinct: Vec<I> = Vec::new();
        let mut i: usize = 0;
        proof {
            assert(id_keys(distinct@) =~= Seq::<I::V>::empty());
            assert(id_keys(ids@).take(0).to_set() =~= Set::<I::V>::empty());
            assert(id_keys(distinct@).to_set() =~= Set::<I::V>::empty());
        }
        while i < ids.len()
            invariant
                0 <= i <= ids@.len(),
                id_keys(distinct@).no_duplicates(),
                id_keys(distinct@).to_set() == id_keys(ids@).take(i as int).to_set(),
            decreases ids@.len() - i,
        {
            let ghost before = id_keys(distinct@);
            let ghost k = ids@[i as int]@;
            proof {
                assert(id_keys(ids@).take(i + 1) =~= id_keys(ids@).take(i as int).push(k));
                id_keys(ids@).take(i as int).lemma_push_to_set_commute(k);
            }
            if !contains_id(&distinct, &ids[i]) {
                distinct.push(ids[i].clone_id());
                proof {
                    assert(id_keys(distinct@) =~= before.push(k));
                    lemma_push_no_dup(before, k);
                    before.lemma_push_to_set_commute(k);
                }
            } else {
                proof {
                    assert(before.to_set().insert(k) =~= before.to_set());
                }
            }
            i += 1;
        }
        proof {
            assert(id_keys(ids@).take(ids@.len() as int) =~= id_keys(ids@));
        }
        distinct
    }

    /// Returns the successor ids of the node `id`: the identifiers in `ids_set`,
    /// and the nodes reached from `id` by following links, through nodes outside
    /// `ids_set`. With an empty `ids_set` these are the nodes reached by at least
    /// one link; the node itself is among them exactly when it lies on a cycle.
    ///
    /// # Example:
    ///
    /// ```text
    /// 1 -> [2 -> [3 -> 4 -> [2, 5 -> [3, 9]]], 6 -> 7 -> [5, 9], 8 -> 9]
    /// for 1 is [2, 3, 4, 5, 6, 7, 8, 9]
    /// for 2 is [2, 3, 4, 5, 9]
    /// for 6 is [7, 5, 3, 4, 2, 9]
    /// for 9 is []
    /// ```
    pub fn successor_ids(&self, id: &I, ids_set: &[I]) -> (ids: Vec<I>)
        requires
            self.wf(),
        ensures
            id_keys(ids@).no_duplicates(),
            id_keys(ids@).to_set() == id_keys(ids_set@).to_set() + self@.reached_from(
                id@,
                false,
                id_keys(ids_set@).to_set(),
            ),
    {
        let visited = Self::distinct_ids(ids_set);
        self.explore(id, visited, false)
    }

    /// Returns the predecessor ids of the node `id`: the identifiers in `ids_set`,
    /// and the nodes from which `id` is reached by following links, through nodes
    /// outside `ids_set`.
    ///
    /// # Example:
    ///
    /// ```text
    /// 1 -> [2 -> [3 -> 4 -> [2, 5 -> [3, 9]]], 6 -> 7 -> [5, 9], 8 -> 9]
    /// for 1 is []
    /// for 2 is [1, 2, 3, 4, 5, 6, 7]
    /// for 7 is [1, 6]
    /// for 9 is [1, 2, 3, 4, 5, 6, 7, 8]
    /// ```
    pub fn predecessor_ids(&self, id: &I, ids_set: &[I]) -> (ids: Vec<I>)
        requires
            self.wf(),
        ensures
            id_keys(ids@).no_duplicates(),
            id_keys(ids@).to_set() == id_keys(ids_set@).to_set() + self@.reached_from(
                id@,
                true,
                id_keys(ids_set@).to_set(),
            ),
    {
        let visited = Self::distinct_ids(ids_set);
        self.explore(id, visited, true)
    }

    /// Checks whether the node `goal_node` is reached from the node `from_node`
    /// by following links (a node reaches itself).
    pub fn bfs(&self, from_node: &I, goal_node: &I) -> (found: bool)
        requires
            self.wf(),
        ensures
            found == (from_node@ == goal_node@ || self@.reaches(
                from_node@,
                goal_node@,
                false,
                Set::empty(),
            )),
    {
        if from_node.same_id(goal_node) {
            return true;
        }
        let visited: Vec<I> = Vec::new();
        proof {
            assert(id_keys(visited@) =~= Seq::<I::V>::empty());
            assert(id_keys(visited@).to_set() =~= Set::<I::V>::empty());
        }
        let found = self.explore(from_node, visited, false);
        let reached = contains_id(&found, goal_node);
        proof {
            assert(id_keys(found@).to_set().contains(goal_node@) == id_keys(found@).contains(goal_node@));
        }
        reached
    }

    /// Depth-first walk from the node at index `ui`: each child not in `visited` yet
    /// is added to `visited` and to `result`, and the walk goes on from it before the
    /// next child. What it adds, in the same order to both, is exactly what is reached
    /// from that node without entering a node visited before, each after a parent
    /// among that node and the added ones, in depth-first order.
    fn dfs(&self, ui: usize, visited: &mut Vec<I>, result: &mut Vec<I>)
        requires
            self.wf(),
            ui < self.nodes@.len(),
            id_keys(old(visited)@).no_duplicates(),
        ensures
            id_keys(final(visited)@).no_duplicates(),
            extends(id_keys(final(visited)@), id_keys(old(visited)@)),
            id_keys(final(result)@) == id_keys(old(result)@) + id_keys(final(visited)@).skip(
                old(visited)@.len() as int,
            ),
            self@.closed_at(id_keys(final(visited)@), self.key(ui as int), false),
            forall|j: int|
                old(visited)@.len() <= j < final(visited)@.len() ==> #[trigger] self@.closed_at(
                    id_keys(final(visited)@),
                    id_keys(final(visited)@)[j],
                    false,
                ),
            self@.grown_from(
                id_keys(final(visited)@),
                old(visited)@.len() as int,
                self.key(ui as int),
                false,
                id_keys(old(visited)@).to_set(),
            ),
            id_keys(final(visited)@).to_set() == id_keys(old(visited)@).to_set() + self@.reached_from(
                self.key(ui as int),
                false,
                id_keys(old(visited)@).to_set(),
            ),
            self@.depth_first_from(
                id_keys(final(visited)@),
                old(visited)@.len() as int,
                self.key(ui as int),
            ),
        decreases self.keys().to_set().difference(id_keys(old(visited)@).to_set()).len(),
    {
        let ghost v0 = id_keys(visited@);
        let ghost l0 = id_keys(result@);
        let ghost n0 = v0.len() as int;
        let ghost u = self.key(ui as int);
        let n = self.nodes[ui].children.len();
        let ghost kids = self.nodes@[ui as int].child_keys();
        proof {
            assert(id_keys(visited@).take(n0) =~= v0);
            assert(id_keys(result@) =~= l0 + id_keys(visited@).skip(n0));
        }
        let mut b: usize = 0;
        while b < n
            invariant
                self.wf(),
                ui < self.nodes@.len(),
                u == self.key(ui as int),
                kids == self.nodes@[ui as int].child_keys(),
                n == kids.len(),
                0 <= b <= n,
                v0 == id_keys(old(visited)@),
                l0 == id_keys(old(result)@),
                n0 == v0.len(),
                id_keys(visited@).no_duplicates(),
                extends(id_keys(visited@), v0),
                id_keys(result@) == l0 + id_keys(visited@).skip(n0),
                forall|m: int| 0 <= m < b ==> id_keys(visited@).contains(#[trigger] kids[m]),
                forall|j: int|
                    n0 <= j < visited@.len() ==> #[trigger] self@.closed_at(
                        id_keys(visited@),
                        id_keys(visited@)[j],
                        false,
                    ),
                self@.grown_from(id_keys(visited@), n0, u, false, v0.to_set()),
                self@.depth_first_from(id_keys(visited@), n0, u),
            decreases n - b,
        {
            let ghost before = id_keys(visited@);
            let ghost rbefore = id_keys(result@);
            let c = &self.nodes[ui].children[b];
            proof {
                assert(kids[b as int] == c@);
                self.lemma_step(ui as int, c@, false);
                GraphView::<I::V, D, L>::lemma_extends_contains(before, v0);
            }
            if !contains_id(visited, c) {
                visited.push(c.clone_id());
                result.push(c.clone_id());
                let ghost pushed = id_keys(visited@);
                proof {
                    assert(pushed =~= before.push(c@));
                    lemma_push_no_dup(before, c@);
                    assert(pushed.take(before.len() as int) =~= before);
                    GraphView::<I::V, D, L>::lemma_extends_contains(pushed, before);
                    assert(pushed.take(n0) =~= v0);
                    assert(id_keys(result@) =~= rbefore.push(c@));
                    assert(pushed.skip(n0) =~= before.skip(n0).push(c@));
                    assert(id_keys(result@) =~= l0 + pushed.skip(n0));
                    assert(!v0.to_set().contains(c@)) by {
                        if v0.contains(c@) {
                            assert(before.contains(c@));
                        }
                    }
                    assert(self@.grown_from(pushed, before.len() as int, u, false, v0.to_set())) by {
                        assert forall|j: int| before.len() <= j < pushed.len() implies pushed[j]
                            == c@ by {}
                    }
                    self@.lemma_grown_chain(before, pushed, n0, u, false, v0.to_set(), u, 0, v0.to_set());
                    assert forall|j: int| n0 <= j < pushed.len() implies #[trigger] self@.depth_first_from_at(
                        pushed,
                        n0,
                        u,
                        j,
                    ) by {
                        if j < before.len() {
                            self@.lemma_depth_first_from_grows(before, pushed, n0, u, j);
                        } else {
                            assert(pushed.take(j) =~= before);
                            assert forall|m: int| n0 <= m < j implies !#[trigger] self@.has_unlisted_child(
                                pushed.take(j),
                                pushed[m],
                            ) by {
                                assert(pushed[m] == before[m]);
                                assert(self@.closed_at(before, before[m], false));
                                if self@.has_unlisted_child(before, before[m]) {
                                    let d = choose|d: I::V| #[trigger] self@.has_edge(before[m], d) && !before.contains(d);
                                    assert(self@.step(before[m], d, false));
                                }
                            }
                            assert(self@.has_edge(u, pushed[j]));
                        }
                    }
                    assert(v0.to_set().subset_of(pushed.to_set())) by {
                        assert forall|x: I::V| v0.to_set().contains(x) implies pushed.to_set().contains(x) by {
                            assert(before.contains(x));
                        }
                    }
                    assert(pushed.to_set().contains(c@)) by {
                        assert(pushed[before.len() as int] == c@);
                    }
                }
                let ci = match self.find_index(c) {
                    Some(ci) => ci,
                    None => {
                        proof {
                            assert(false);
                        }
                        return;
                    },
                };
                proof {
                    self.lemma_key(ci as int);
                    vstd::seq_lib::seq_to_set_is_finite(self.keys());
                    lemma_unvisited_shrinks(self.keys().to_set(), v0.to_set(), pushed.to_set(), c@);
                    assert(pushed.last() == self.key(ci as int));
                }
                self.dfs(ci, visited, result);
                proof {
                    let after = id_keys(visited@);
                    let p = pushed.len() as int;
                    GraphView::<I::V, D, L>::lemma_extends_contains(after, pushed);
                    assert(after.take(n0) =~= v0) by {
                        assert forall|j: int| 0 <= j < n0 implies after[j] == v0[j] by {
                            assert(pushed[j] == v0[j]);
                        }
                    }
                    assert(after.take(before.len() as int) =~= before) by {
                        assert forall|j: int| 0 <= j < before.len() implies after[j] == before[j] by {
                            assert(pushed[j] == before[j]);
                        }
                    }
                    GraphView::<I::V, D, L>::lemma_extends_contains(after, before);
                    assert(after.skip(n0) =~= pushed.skip(n0) + after.skip(p)) by {
                        assert forall|j: int| n0 <= j < p implies after[j] == pushed[j] by {}
                    }
                    assert(id_keys(result@) =~= l0 + after.skip(n0));
                    assert forall|m: int| 0 <= m < b + 1 implies after.contains(#[trigger] kids[m]) by {
                        if m < b {
                            assert(before.contains(kids[m]));
                        } else {
                            assert(pushed.contains(kids[m]));
                        }
                    }
                    assert forall|j: int| n0 <= j < after.len() implies #[trigger] self@.closed_at(
                        after,
                        after[j],
                        false,
                    ) by {
                        if j < before.len() {
                            assert(self@.closed_at(before, before[j], false));
                            self@.lemma_closed_grows(before, after, before[j], false);
                        } else if j == before.len() {
                            assert(after[j] == pushed[j]);
                        }
                    }
                    assert(pushed[before.len() as int] == self.key(ci as int));
                    self@.lemma_grown_chain(pushed, after, n0, u, false, v0.to_set(), c@, before.len() as int, pushed.to_set());
                    self@.lemma_depth_first_chain(pushed, after, n0, u);
                }
            } else {
                proof {
                    assert forall|m: int| 0 <= m < b + 1 implies before.contains(#[trigger] kids[m]) by {}
                }
            }
            b += 1;
        }
        proof {
            let v = id_keys(visited@);
            assert forall|c: I::V| #[trigger] self@.step(u, c, false) implies v.contains(c) by {
                self.lemma_step(ui as int, c, false);
                let m = choose|m: int| 0 <= m < kids.len() && kids[m] == c;
            }
            self@.lemma_explore_done(v, n0, u, false, v0.to_set());
        }
    }

    /// Returns the identifiers of the nodes met by a depth-first walk from the input
    /// node: the input node first, then each node after one of its parents, each once.
    /// These are the input node and every node reached from it. Each node follows a
    /// parent after which no listed node had a child left to list: the walk goes as
    /// deep as it can before it turns back (siblings come in the order they were
    /// linked, which the graph's model does not record).
    pub fn traverse_from_input_node(&self) -> (path: Vec<I>)
        requires
            self.wf(),
        ensures
            id_keys(path@).no_duplicates(),
            path@.len() >= 1,
            id_keys(path@)[0] == self@.input,
            id_keys(path@).to_set() == Set::empty().insert(self@.input) + self@.reached_from(
                self@.input,
                false,
                Set::empty(),
            ),
            self@.preordered(id_keys(path@), 1),
            self@.depth_first(id_keys(path@), 1),
    {
        let mut visited: Vec<I> = Vec::new();
        let mut result: Vec<I> = Vec::new();
        result.push(self.input.clone_id());
        let ii = match self.find_index(&self.input) {
            Some(ii) => ii,
            None => {
                proof {
                    assert(false);
                }
                return result;
            },
        };
        let ghost input = self@.input;
        proof {
            assert(id_keys(visited@) =~= Seq::<I::V>::empty());
            assert(id_keys(result@) =~= seq![input]);
        }
        self.dfs(ii, &mut visited, &mut result);
        proof {
            let v = id_keys(visited@);
            let r = id_keys(result@);
            let reached = self@.reached_from(input, false, Set::empty());
            self.lemma_well_formed();
            assert(Seq::<I::V>::empty().to_set() =~= Set::<I::V>::empty());
            assert(v.skip(0) =~= v);
            assert(r =~= seq![input] + v);
            assert forall|j: int| 0 <= j < v.len() implies v[j] != input by {
                if !self@.step(input, v[j], false) {
                    let i = choose|i: int| 0 <= i < j && self@.step(v[i], v[j], false);
                    assert(self@.has_edge(v[i], v[j]));
                }
            }
            assert forall|a: int, b: int| 0 <= a < b < r.len() implies r[a] != r[b] by {
                assert(r[b] == v[b - 1]);
                if a > 0 {
                    assert(r[a] == v[a - 1]);
                }
            }
            assert(v.to_set() == Set::<I::V>::empty() + reached);
            assert forall|x: I::V| #[trigger] r.to_set().contains(x) == (Set::empty().insert(input)
                + reached).contains(x) by {
                if r.contains(x) {
                    let j = choose|j: int| 0 <= j < r.len() && r[j] == x;
                    if j > 0 {
                        assert(v.to_set().contains(v[j - 1]));
                    }
                }
                if x == input {
                    assert(r[0] == x);
                }
                if reached.contains(x) {
                    assert(v.to_set().contains(x));
                    let j = choose|j: int| 0 <= j < v.len() && v[j] == x;
                    assert(r[j + 1] == x);
                }
            }
            assert(r.to_set() =~= Set::empty().insert(input) + reached);
            assert forall|j: int| 1 <= j < r.len() implies #[trigger] self@.follows_parent(r, j) by {
                assert(r[j] == v[j - 1]);
                if self@.step(input, v[j - 1], false) {
                    assert(self@.has_edge(r[0], r[j]));
                } else {
                    let k = j - 1;
                    let i = choose|i: int| 0 <= i < k && self@.step(v[i], v[k], false);
                    assert(r[i + 1] == v[i]);
                    assert(self@.has_edge(r[i + 1], r[j]));
                }
            }
            self@.lemma_depth_first_rooted(v, input);
        }
        result
    }

    /// Sets the payload value of the node `id`. Returns the old value, or None when
    /// the graph holds no such node or the node's content is a layer (then nothing changes).
    pub fn set_value(&mut self, id: &I, new_value: D) -> (old_value: Option<D>)
        requires
            old(self).wf(),
        ensures
            final(self).wf(),
            match old(self)@.contents.get(id@) {
                Some(Content::Simple(s)) => {
                    &&& old_value == Some(s@)
                    &&& final(self)@.contents.dom() == old(self)@.contents.dom()
                    &&& final(self)@.contents[id@] matches Content::Simple(t) && t@ == new_value
                    &&& forall|k: I::V|
                        k != id@ ==> #[trigger] final(self)@.contents.get(k) == old(self)@.contents.get(k)
                    &&& final(self)@.edges == old(self)@.edges
                    &&& final(self)@.input == old(self)@.input
                    &&& final(self)@.output == old(self)@.output
                    &&& final(self)@.recent_id == old(self)@.recent_id
                },
                _ => old_value is None && final(self)@ == old(self)@,
            },
    {
        let ghost g0 = *self;
        let i = match self.find_index(id) {
            Some(i) => i,
            None => {
                proof {
                    self.lemma_contents_dom();
                }
                return None;
            },
        };
        proof {
            self.lemma_contents(i as int);
        }
        if self.nodes[i].content.is_layer() {
            return None;
        }
        let old_value = match &mut self.nodes[i].content {
            Content::Simple(simple) => simple.set_value(new_value),
            Content::Layer(_) => None,
        };
        proof {
            broadcast use Node::lemma_view, Node::lemma_wf;

            let ii = i as int;
            assert forall|j: int| 0 <= j < self.nodes@.len() && j != ii implies self.nodes@[j] == g0.nodes@[j] by {}
            assert(self.nodes@[ii].id == g0.nodes@[ii].id);
            assert(self.nodes@[ii].children == g0.nodes@[ii].children);
            assert(self.nodes@[ii].parents == g0.nodes@[ii].parents);
            assert(self.keys() =~= g0.keys());
            assert forall|j: int| 0 <= j < self.nodes@.len() implies self.key(j) == g0.key(j) by {}
            assert forall|j: int, c: I::V| 0 <= j < self.nodes@.len() implies #[trigger] self.is_edge_at(j, c) == g0.is_edge_at(j, c) by {}
            assert forall|j: int, c: I::V| 0 <= j < self.nodes@.len() implies #[trigger] self.is_back_edge_at(j, c) == g0.is_back_edge_at(j, c) by {}
            assert forall|j: int| 0 <= j < self.nodes@.len() implies #[trigger] self.nodes@[j].wf() by {
                assert(g0.nodes@[j].wf());
            }
            assert(self.input == g0.input);
            assert(self.output == g0.output);
            assert forall|a: int, b: int|
                0 <= a < self.nodes@.len() && 0 <= b < self.nodes@.len() implies (self.is_edge_at(
                    a,
                    self.key(b),
                ) <==> self.is_back_edge_at(b, self.key(a))) by {
                assert(g0.is_edge_at(a, g0.key(b)) <==> g0.is_back_edge_at(b, g0.key(a)));
            }
            assert(self.wf());
            self.lemma_same_edges(&g0);
            self.lemma_contents_dom();
            g0.lemma_contents_dom();
            self.lemma_contents(ii);
            assert forall|k: I::V| k != id@ implies #[trigger] self@.contents.get(k) == g0@.contents.get(k) by {
                if self.keys().contains(k) {
                    let j = self.lemma_index_of(k);
                    self.lemma_contents(j);
                    g0.lemma_contents(j);
                }
            }
        }
        old_value
    }
}

} // verus!
