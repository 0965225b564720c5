//! The document tree, in its two representations: one that owns its strings and
//! one that borrows them from the input.

use vstd::prelude::*;
use crate::attributes::{Attributes, AttributesRef};
use crate::error::ParseError;
use crate::grammar::spec_root;
use crate::model::{TagView, XmlView};
use crate::parse::{DEFAULT_MAX_DEPTH, root, root_ref};
use crate::text::str_eq;

verus! {

/// A tag: its name and its attributes.
#[derive(Debug, PartialEq, Eq)]
pub struct Tag {
    pub value: String,
    pub attributes: Attributes,
}

/// A node of a document tree that owns its strings.
#[derive(Debug, PartialEq, Eq)]
pub enum Xml {
    /// An element and its children. A tag that closed itself has `None`.
    Element(Tag, Option<Vec<Xml>>),
    /// Text content, trimmed.
    Text(String),
}

impl View for Tag {
    type V = TagView;

    open spec fn view(&self) -> TagView {
        TagView { name: self.value@, attributes: self.attributes@ }
    }
}

impl View for Xml {
    type V = XmlView;

    open spec fn view(&self) -> XmlView {
        self.model()
    }
}

impl Xml {
    /// The tree that the node stands for.
    pub open spec fn model(&self) -> XmlView
        decreases self,
    {
        match self {
            Xml::Element(tag, None) => XmlView::Element(tag@, None),
            Xml::Element(tag, Some(children)) => XmlView::Element(
                tag@,
                Some(
                    Seq::new(
                        children@.len(),
                        |i: int|
                            if 0 <= i < children@.len() {
                                children@[i].model()
                            } else {
                                XmlView::Text(Seq::empty())
                            },
                    ),
                ),
            ),
            Xml::Text(text) => XmlView::Text(text@),
        }
    }
}

/// The views of a sequence of nodes.
pub open spec fn views(nodes: Seq<Xml>) -> Seq<XmlView> {
    Seq::new(nodes.len(), |i: int| nodes[i]@)
}

/// The view of an element with children is made of the views of the children.
pub proof fn lemma_element_view(tag: Tag, children: Vec<Xml>)
    ensures
        Xml::Element(tag, Some(children))@ == XmlView::Element(tag@, Some(views(children@))),
{
    let direct = Xml::Element(tag, Some(children))@;
    assert(direct->Element_1->0 =~= views(children@));
}

impl Clone for Tag {
    fn clone(&self) -> (copy: Tag)
        ensures
            copy@ == self@,
    {
        Tag { value: self.value.clone(), attributes: self.attributes.clone() }
    }
}

impl Clone for Xml {
    fn clone(&self) -> (copy: Xml)
        ensures
            copy@ == self@,
        decreases self,
    {
        match self {
            Xml::Element(tag, None) => Xml::Element(tag.clone(), None),
            Xml::Element(tag, Some(children)) => {
                let mut copies: Vec<Xml> = Vec::new();
                let mut i: usize = 0;
                while i < children.len()
                    invariant
                        i <= children.len(),
                        decreases_to!(*self => *children),
                        views(copies@) == views(children@).take(i as int),
                    decreases children.len() - i,
                {
                    let copy = children[i].clone();
                    let ghost before = copies@;
                    copies.push(copy);
                    i += 1;
                    assert(views(copies@) =~= views(before).push(copy@));
                    assert(views(copies@) =~= views(children@).take(i as int));
                }
                assert(views(children@).take(i as int) =~= views(children@));
                let tag_copy = tag.clone();
                proof {
                    lemma_element_view(*tag, *children);
                    lemma_element_view(tag_copy, copies);
                }
                Xml::Element(tag_copy, Some(copies))
            },
            Xml::Text(text) => Xml::Text(text.clone()),
        }
    }
}

impl Xml {
    /// An element with the given tag and without a child sequence.
    pub fn from_tag(t: Tag) -> (x: Xml)
        ensures
            x@ == XmlView::Element(t@, None),
    {
        Xml::Element(t, None)
    }

    /// The tree of the document in `i`, see [`root`]. What follows the root
    /// element is not looked at.
    pub fn from_input_str(i: &str) -> (r: Result<Xml, ParseError>)
        ensures
            match spec_root(i@, DEFAULT_MAX_DEPTH as nat) {
                Ok((tree, _)) => r matches Ok(x) && x@ == tree,
                Err(failure) => r matches Err(e) && e@ == failure,
            },
    {
        match root(i) {
            Ok((_, x)) => Ok(x),
            Err(e) => Err(e),
        }
    }

    /// Whether the node is an element.
    pub fn is_element(&self) -> (b: bool)
        ensures
            b == (self@ is Element),
    {
        match self {
            Xml::Element(_, _) => true,
            Xml::Text(_) => false,
        }
    }

    /// Whether the node is an element called `name`.
    pub fn tag_has_name(&self, name: &str) -> (b: bool)
        ensures
            b == (self@ matches XmlView::Element(tag, _) && tag.name == name@),
    {
        match self {
            Xml::Element(t, _) => str_eq(t.value.as_str(), name),
            _ => false,
        }
    }
}

/// A tag whose strings are borrowed from the input.
#[derive(Debug, PartialEq, Eq)]
pub struct TagRef<'a> {
    pub value: &'a str,
    pub attributes: AttributesRef<'a>,
}

/// A node of a document tree whose strings are borrowed from the input.
#[derive(Debug, PartialEq, Eq)]
pub enum XmlRef<'a> {
    /// An element and its children. A tag that closed itself has `None`.
    Element(TagRef<'a>, Option<Vec<XmlRef<'a>>>),
    /// Text content, trimmed.
    Text(&'a str),
}

impl<'a> View for TagRef<'a> {
    type V = TagView;

    open spec fn view(&self) -> TagView {
        TagView { name: self.value@, attributes: self.attributes@ }
    }
}

impl<'a> View for XmlRef<'a> {
    type V = XmlView;

    open spec fn view(&self) -> XmlView {
        self.model()
    }
}

impl<'a> XmlRef<'a> {
    /// The tree that the node stands for.
    pub open spec fn model(&self) -> XmlView
        decreases self,
    {
        match self {
            XmlRef::Element(tag, None) => XmlView::Element(tag@, None),
            XmlRef::Element(tag, Some(children)) => XmlView::Element(
                tag@,
                Some(
                    Seq::new(
                        children@.len(),
                        |i: int|
                            if 0 <= i < children@.len() {
                                children@[i].model()
                            } else {
                                XmlView::Text(Seq::empty())
                            },
                    ),
                ),
            ),
            XmlRef::Text(text) => XmlView::Text(text@),
        }
    }
}

/// The views of a sequence of borrowing nodes.
pub open spec fn ref_views(nodes: Seq<XmlRef>) -> Seq<XmlView> {
    Seq::new(nodes.len(), |i: int| nodes[i]@)
}

/// The view of a borrowing element with children is made of the views of the children.
pub proof fn lemma_element_ref_view(tag: TagRef, children: Vec<XmlRef>)
    ensures
        XmlRef::Element(tag, Some(children))@ == XmlView::Element(
            tag@,
            Some(ref_views(children@)),
        ),
{
    let direct = XmlRef::Element(tag, Some(children))@;
    assert(direct->Element_1->0 =~= ref_views(children@));
}

impl<'a> Clone for TagRef<'a> {
    fn clone(&self) -> (copy: TagRef<'a>)
        ensures
            copy@ == self@,
    {
        TagRef { value: self.value, attributes: self.attributes.clone() }
    }
}

impl<'a> Clone for XmlRef<'a> {
    fn clone(&self) -> (copy: XmlRef<'a>)
        ensures
            copy@ == self@,
        decreases self,
    {
        match self {
            XmlRef::Element(tag, None) => XmlRef::Element(tag.clone(), None),
            XmlRef::Element(tag, Some(children)) => {
                let mut copies: Vec<XmlRef<'a>> = Vec::new();
                let mut i: usize = 0;
                while i < children.len()
                    invariant
                        i <= children.len(),
                        decreases_to!(*self => *children),
                        ref_views(copies@) == ref_views(children@).take(i as int),
                    decreases children.len() - i,
                {
                    let copy = children[i].clone();
                    let ghost before = copies@;
                    copies.push(copy);
                    i += 1;
                    assert(ref_views(copies@) =~= ref_views(before).push(copy@));
                    assert(ref_views(copies@) =~= ref_views(children@).take(i as int));
                }
                assert(ref_views(children@).take(i as int) =~= ref_views(children@));
                let tag_copy = tag.clone();
                proof {
                    lemma_element_ref_view(*tag, *children);
                    lemma_element_ref_view(tag_copy, copies);
                }
                XmlRef::Element(tag_copy, Some(copies))
            },
            XmlRef::Text(text) => XmlRef::Text(text),
        }
    }
}

impl<'a> XmlRef<'a> {
    /// The tree of the document in `i`, see [`root_ref`]. What follows the root
    /// element is not looked at.
    pub fn from_input_str(i: &'a str) -> (r: Result<XmlRef<'a>, ParseError>)
        ensures
            match spec_root(i@, DEFAULT_MAX_DEPTH as nat) {
                Ok((tree, _)) => r matches Ok(x) && x@ == tree,
                Err(failure) => r matches Err(e) && e@ == failure,
            },
    {
        match root_ref(i) {
            Ok((_, x)) => Ok(x),
            Err(e) => Err(e),
        }
    }

    /// An element with the given tag and without a child sequence.
    pub fn from_tag(t: TagRef<'a>) -> (x: XmlRef<'a>)
        ensures
            x@ == XmlView::Element(t@, None),
    {
        XmlRef::Element(t, None)
    }

    /// Whether the node is an element.
    pub fn is_element(&self) -> (b: bool)
        ensures
            b == (self@ is Element),
    {
        match self {
            XmlRef::Element(_, _) => true,
            XmlRef::Text(_) => false,
        }
    }

    /// Whether the node is an element called `name`.
    pub fn tag_has_name(&self, name: &str) -> (b: bool)
        ensures
            b == (self@ matches XmlView::Element(tag, _) && tag.name == name@),
    {
        match self {
            XmlRef::Element(t, _) => str_eq(t.value, name),
            _ => false,
        }
    }
}

} // verus!
