//! The tree that a document is read into, and its mathematical model.

use crate::error::DOMParseError;
use crate::strings::{chars_of, spells};
use vstd::prelude::*;

verus! {

/// What an element is: one that holds other elements, or a run of text.
#[derive(Debug, Clone, Copy, PartialEq, Eq, Structural)]
pub enum ElementType {
    /// Holds child elements and no text of its own.
    Container,
    /// A run of text, kept as the number of its characters.
    Text(usize),
}

/// The model of an [`ElementType`], with an unbounded count.
pub enum ElementKind {
    /// Holds child elements and no text of its own.
    Container,
    /// A run of text of so many characters.
    Text(nat),
}

impl View for ElementType {
    type V = ElementKind;

    open spec fn view(&self) -> ElementKind {
        match *self {
            ElementType::Container => ElementKind::Container,
            ElementType::Text(n) => ElementKind::Text(n as nat),
        }
    }
}

/// What a tag's name stands for.  The dialect is closed: `html`, `body`
/// and `div` hold elements, `b` and `p` open a text run, and every other
/// name is refused.
pub open spec fn resolve_name(name: Seq<char>) -> Result<ElementType, DOMParseError> {
    if name == "html"@ || name == "body"@ || name == "div"@ {
        Ok(ElementType::Container)
    } else if name == "b"@ || name == "p"@ {
        Ok(ElementType::Text(0))
    } else {
        Err(DOMParseError::UnimplementedElement)
    }
}

impl ElementType {
    /// The kind that the tag name `tag` stands for.
    pub fn from_str(tag: &str) -> (kind: Result<ElementType, DOMParseError>)
        ensures
            kind == resolve_name(tag@),
    {
        let name = chars_of(tag);
        if spells(&name, "html") || spells(&name, "body") || spells(&name, "div") {
            Ok(ElementType::Container)
        } else if spells(&name, "b") || spells(&name, "p") {
            Ok(ElementType::Text(0))
        } else {
            Err(DOMParseError::UnimplementedElement)
        }
    }
}

/// One node of the tree.  It owns its children, in the order in which the
/// text gives them.
#[derive(Debug, PartialEq, Eq)]
pub struct Element {
    pub kind: ElementType,
    pub children: Vec<Element>,
    pub attr: String,
}

/// The model of an [`Element`].
pub struct ElementTree {
    pub kind: ElementKind,
    pub children: Seq<ElementTree>,
    pub attr: Seq<char>,
}

impl ElementTree {
    /// A text run of `count` characters: a leaf without attribute text.
    pub open spec fn text(count: nat) -> ElementTree {
        ElementTree { kind: ElementKind::Text(count), children: Seq::empty(), attr: Seq::empty() }
    }

    /// A container with the given attribute text and children.
    pub open spec fn container(attr: Seq<char>, children: Seq<ElementTree>) -> ElementTree {
        ElementTree { kind: ElementKind::Container, children, attr }
    }

    /// Every text run, at any depth, is a leaf without attribute text.
    pub open spec fn well_formed(self) -> bool
        decreases self,
    {
        &&& self.kind is Text ==> self.children.len() == 0 && self.attr.len() == 0
        &&& forall|i: int| 0 <= i < self.children.len() ==> (#[trigger] self.children[i]).well_formed()
    }

    /// The number of elements on the longest way from this one down to a
    /// leaf, both ends counted.
    pub open spec fn depth(self) -> nat
        decreases self, 0nat,
    {
        1 + Self::deepest(self.children)
    }

    /// The largest depth among `trees`; 0 where there is none.
    pub open spec fn deepest(trees: Seq<ElementTree>) -> nat
        decreases trees, trees.len(),
    {
        if trees.len() == 0 {
            0
        } else {
            let head = trees.last().depth();
            let tail = Self::deepest(trees.drop_last());
            if head >= tail {
                head
            } else {
                tail
            }
        }
    }
}

/// The model of `e`: its kind and attribute text, and the models of its
/// children in order.
pub open spec fn tree_of(e: Element) -> ElementTree
    decreases e,
{
    ElementTree {
        kind: e.kind@,
        children: Seq::new(
            e.children@.len(),
            |i: int|
                if 0 <= i < e.children@.len() {
                    tree_of(e.children@[i])
                } else {
                    ElementTree::text(0)
                },
        ),
        attr: e.attr@,
    }
}

impl View for Element {
    type V = ElementTree;

    open spec fn view(&self) -> ElementTree {
        tree_of(*self)
    }
}

/// The model of an element holds the models of its children, in order.
pub proof fn lemma_element_view(e: Element)
    ensures
        e@.kind == e.kind@,
        e@.attr == e.attr@,
        e@.children.len() == e.children@.len(),
        forall|i: int| 0 <= i < e.children@.len() ==> #[trigger] e@.children[i] == e.children@[i]@,
{
}

impl Default for Element {
    /// An empty text run.
    fn default() -> (element: Element)
        ensures
            element@ == ElementTree::text(0),
    {
        let element = Element { kind: ElementType::Text(0), children: Vec::new(), attr: String::new() };
        assert(element@.children =~= Seq::<ElementTree>::empty());
        element
    }
}

} // verus!
