use vstd::prelude::*;

verus! {

/// A simple content implementation. Represents a boxed value that can be read and written.
#[derive(Debug, Clone)]
pub struct SimpleContent<D> {
    value: D,
}

impl<D> View for SimpleContent<D> {
    type V = D;

    closed spec fn view(&self) -> D {
        self.value
    }
}

impl<D> SimpleContent<D> {
    /// Creates a new simple content.
    pub fn new(value: D) -> (content: Self)
        ensures
            content@ == value,
    {
        SimpleContent { value }
    }

    /// Gets the content data.
    pub fn content(&self) -> (data: &D)
        ensures
            *data == self@,
    {
        &self.value
    }

    /// Sets the new value. Returns the old value.
    pub fn set_value(&mut self, value: D) -> (old_value: Option<D>)
        ensures
            final(self)@ == value,
            old_value == Some(old(self)@),
    {
        let mut value = value;
        core::mem::swap(&mut self.value, &mut value);
        Some(value)
    }
}

impl<D: Clone> SimpleContent<D> {
    /// Gets the cloned value.
    pub fn value(&self) -> (data: D)
        ensures
            cloned(self@, data),
    {
        self.value.clone()
    }
}

/// Content represents data that is contained in a node.
/// Two types of content can be used: Simple and Layer.
/// Simple is just a container for data,
/// Layer is a container of a collection of objects (of type `L`)
/// that the graph carries without looking inside.
#[derive(Debug)]
pub enum Content<D, L = ()> {
    Simple(SimpleContent<D>),
    Layer(L),
}

impl<D, L> Content<D, L> {
    /// Creates new instance of Content::Simple.
    pub fn new_simple(data: D) -> (content: Self)
        ensures
            content matches Content::Simple(s) && s@ == data,
    {
        Content::Simple(SimpleContent::new(data))
    }

    /// Creates new instance of Content::Layer.
    pub fn new_layer(layer: L) -> (content: Self)
        ensures
            content == Content::<D, L>::Layer(layer),
    {
        Content::Layer(layer)
    }

    /// Returns the layer content.
    /// Returns None in case of Content::Simple.
    pub fn as_layer(&self) -> (layer: Option<&L>)
        ensures
            match *self {
                Content::Simple(_) => layer is None,
                Content::Layer(l) => layer == Some(&l),
            },
    {
        match self {
            Content::Simple(_) => None,
            Content::Layer(layer) => Some(layer),
        }
    }

    /// Returns the simple data content. In Layer case returns None.
    pub fn as_simple(&self) -> (simple: Option<&SimpleContent<D>>)
        ensures
            match *self {
                Content::Simple(s) => simple == Some(&s),
                Content::Layer(_) => simple is None,
            },
    {
        match self {
            Content::Simple(content) => Some(content),
            Content::Layer(_) => None,
        }
    }

    /// Returns true if Content is Layer.
    pub fn is_layer(&self) -> (layer: bool)
        ensures
            layer == (*self is Layer),
    {
        match self {
            Content::Simple(_) => false,
            Content::Layer(_) => true,
        }
    }

    /// Returns true if Content is Simple.
    pub fn is_simple(&self) -> (simple: bool)
        ensures
            simple == (*self is Simple),
    {
        !self.is_layer()
    }
}

} // verus!
