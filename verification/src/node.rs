use vstd::prelude::*;

use crate::content::Content;
use crate::identifier::Identifier;

verus! {

/// The views of a sequence of identifiers.
pub open spec fn id_keys<I: View>(ids: Seq<I>) -> Seq<I::V> {
    ids.map_values(|id: I| id@)
}

/// What a node is: its identifier, its content and the identifiers
/// of its parents and of its children.
#[verifier::reject_recursive_types(K)]
pub struct NodeView<K, D, L> {
    pub id: K,
    pub content: Content<D, L>,
    pub parents: Set<K>,
    pub children: Set<K>,
}

/// A node of a cyclic graph: an identifier, a content, and the links
/// to the parent and child nodes, held by their identifiers.
#[derive(Debug)]
pub struct Node<I, D, L = ()> {
    pub(crate) id: I,
    pub(crate) content: Content<D, L>,
    pub(crate) parents: Vec<I>,
    pub(crate) children: Vec<I>,
}

impl<I: View, D, L> View for Node<I, D, L> {
    type V = NodeView<I::V, D, L>;

    closed spec fn view(&self) -> NodeView<I::V, D, L> {
        NodeView {
            id: self.id@,
            content: self.content,
            parents: self.parent_keys().to_set(),
            children: self.child_keys().to_set(),
        }
    }
}

impl<I: View, D, L> Node<I, D, L> {
    pub(crate) open spec fn child_keys(&self) -> Seq<I::V> {
        id_keys(self.children@)
    }

    pub(crate) open spec fn parent_keys(&self) -> Seq<I::V> {
        id_keys(self.parents@)
    }

    /// Each parent and each child is listed once.
    pub closed spec fn wf(&self) -> bool {
        &&& self.child_keys().no_duplicates()
        &&& self.parent_keys().no_duplicates()
    }

    pub(crate) broadcast proof fn lemma_view(&self)
        ensures
            #[trigger] self@ == (NodeView {
                id: self.id@,
                content: self.content,
                parents: self.parent_keys().to_set(),
                children: self.child_keys().to_set(),
            }),
    {
    }

    pub(crate) broadcast proof fn lemma_wf(&self)
        ensures
            #[trigger] self.wf() == (self.child_keys().no_duplicates()
                && self.parent_keys().no_duplicates()),
    {
    }
}

/// Returns true if `ids` holds an identifier equal to `id` (by view).
pub(crate) fn contains_id<I: Identifier>(ids: &Vec<I>, id: &I) -> (found: bool)
    ensures
        found == id_keys(ids@).contains(id@),
{
    let mut i: usize = 0;
    while i < ids.len()
        invariant
            0 <= i <= ids@.len(),
            forall|j: int| 0 <= j < i ==> ids@[j]@ != id@,
        decreases ids@.len() - i,
    {
        if ids[i].same_id(id) {
            assert(id_keys(ids@)[i as int] == id@);
            return true;
        }
        i += 1;
    }
    assert forall|j: int| 0 <= j < id_keys(ids@).len() implies id_keys(ids@)[j] != id@ by {}
    false
}

/// Returns true if the slice `ids` holds an identifier equal to `id` (by view).
pub(crate) fn slice_contains_id<I: Identifier>(ids: &[I], id: &I) -> (found: bool)
    ensures
        found == id_keys(ids@).contains(id@),
{
    let mut i: usize = 0;
    while i < ids.len()
        invariant
            0 <= i <= ids@.len(),
            forall|j: int| 0 <= j < i ==> ids@[j]@ != id@,
        decreases ids@.len() - i,
    {
        if ids[i].same_id(id) {
            assert(id_keys(ids@)[i as int] == id@);
            return true;
        }
        i += 1;
    }
    assert forall|j: int| 0 <= j < id_keys(ids@).len() implies id_keys(ids@)[j] != id@ by {}
    false
}

/// Returns a copy of the identifiers `ids`, in the same order.
pub(crate) fn clone_ids<I: Identifier>(ids: &Vec<I>) -> (copy: Vec<I>)
    ensures
        id_keys(copy@) == id_keys(ids@),
{
    let mut copy: Vec<I> = Vec::new();
    let mut i: usize = 0;
    while i < ids.len()
        invariant
            0 <= i <= ids@.len(),
            copy@.len() == i,
            forall|j: int| 0 <= j < i ==> copy@[j]@ == ids@[j]@,
        decreases ids@.len() - i,
    {
        copy.push(ids[i].clone_id());
        i += 1;
    }
    assert(id_keys(copy@) =~= id_keys(ids@));
    copy
}

/// A sequence is empty exactly when its set of elements is.
pub(crate) proof fn lemma_seq_empty_iff_set_empty<A>(s: Seq<A>)
    ensures
        (s.len() == 0) == (s.to_set() =~= Set::<A>::empty()),
{
    if s.len() > 0 {
        assert(s.to_set().contains(s[0]));
    } else {
        assert forall|a: A| !s.to_set().contains(a) by {}
    }
}

impl<I: Identifier, D, L> Node<I, D, L> {
    /// Creates a node with the given identifier and content, and no links.
    pub fn new(id: I, content: Content<D, L>) -> (node: Self)
        ensures
            node.wf(),
            node@.id == id@,
            node@.content == content,
            node@.parents == Set::<I::V>::empty(),
            node@.children == Set::<I::V>::empty(),
    {
        let node = Node { id, content, parents: Vec::new(), children: Vec::new() };
        assert(node.child_keys() =~= Seq::<I::V>::empty());
        assert(node.parent_keys() =~= Seq::<I::V>::empty());
        assert(node@.children =~= Set::<I::V>::empty());
        assert(node@.parents =~= Set::<I::V>::empty());
        node
    }

    /// Returns the identifier of the node.
    pub fn id(&self) -> (id: &I)
        ensures
            id@ == self@.id,
    {
        &self.id
    }

    /// Returns the content of the node.
    pub fn content(&self) -> (content: &Content<D, L>)
        ensures
            *content == self@.content,
    {
        &self.content
    }

    /// Checks if the node has a child with the given id.
    pub fn has_child(&self, id: &I) -> (linked: bool)
        ensures
            linked == self@.children.contains(id@),
    {
        contains_id(&self.children, id)
    }

    /// Checks if the node has a parent with the given id.
    pub fn has_parent(&self, id: &I) -> (linked: bool)
        ensures
            linked == self@.parents.contains(id@),
    {
        contains_id(&self.parents, id)
    }

    /// Checks if the node has children.
    pub fn has_children(&self) -> (some: bool)
        ensures
            some == (self@.children != Set::<I::V>::empty()),
    {
        proof {
            lemma_seq_empty_iff_set_empty(self.child_keys());
        }
        self.children.len() > 0
    }

    /// Checks if the node has parents.
    pub fn has_parents(&self) -> (some: bool)
        ensures
            some == (self@.parents != Set::<I::V>::empty()),
    {
        proof {
            lemma_seq_empty_iff_set_empty(self.parent_keys());
        }
        self.parents.len() > 0
    }

    /// Returns the identifiers of the children, each once.
    pub fn child_ids(&self) -> (ids: Vec<I>)
        requires
            self.wf(),
        ensures
            id_keys(ids@).no_duplicates(),
            id_keys(ids@).to_set() == self@.children,
    {
        clone_ids(&self.children)
    }

    /// Returns the identifiers of the parents, each once.
    pub fn parent_ids(&self) -> (ids: Vec<I>)
        requires
            self.wf(),
        ensures
            id_keys(ids@).no_duplicates(),
            id_keys(ids@).to_set() == self@.parents,
    {
        clone_ids(&self.parents)
    }
}

impl<I: Identifier, D: Clone, L> Node<I, D, L> {
    /// Returns a copy of the node's payload value.
    /// Returns None if the node's content is a layer, which holds no payload.
    pub fn value(&self) -> (value: Option<D>)
        ensures
            match self@.content {
                Content::Simple(s) => value matches Some(v) && cloned(s@, v),
                Content::Layer(_) => value is None,
            },
    {
        match &self.content {
            Content::Simple(simple) => Some(simple.value()),
            Content::Layer(_) => None,
        }
    }
}

} // verus!
