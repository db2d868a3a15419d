//! The document tree and its mathematical model.
//!
//! The tree holds spans, which borrow from the parsed buffer. The model of
//! each type, its view, holds the same data as sequences and integers; the
//! grammar and the contracts of the parser speak of the views.

use vstd::prelude::*;

verus! {

/// A piece of the input: the bytes and the offset at which they stand.
#[derive(Clone, Copy, Debug, PartialEq, Eq)]
pub struct Span<'a> {
    pub bytes: &'a [u8],
    pub start: usize,
}

/// The value of an attribute.
#[derive(Clone, Copy, Debug, PartialEq, Eq)]
pub enum Expression<'a> {
    /// A string literal; the span leaves the quotes out.
    Literal(Span<'a>),
    /// An expression to be evaluated. The grammar defines no syntax for it,
    /// so the parser never yields it.
    Eval(Span<'a>),
}

/// A name and its value.
#[derive(Clone, Copy, Debug, PartialEq, Eq)]
pub struct Attribute<'a> {
    pub name: Span<'a>,
    pub value: Expression<'a>,
}

/// A tag with its attributes, its text and the nodes below it, each list in
/// the order of the input.
#[derive(Debug, PartialEq, Eq)]
pub struct Element<'a> {
    pub tag: Span<'a>,
    pub attributes: Vec<Attribute<'a>>,
    pub children: Vec<Document<'a>>,
    pub text: Option<Span<'a>>,
}

/// A node of the document tree.
#[derive(Debug, PartialEq, Eq)]
pub enum Document<'a> {
    Element(Element<'a>),
}

/// The model of a `Span`.
pub struct SpanView {
    pub start: int,
    pub bytes: Seq<u8>,
}

/// The model of an `Expression`.
pub enum ExpressionView {
    Literal(SpanView),
    Eval(SpanView),
}

/// The model of an `Attribute`.
pub struct AttributeView {
    pub name: SpanView,
    pub value: ExpressionView,
}

/// The model of an `Element`.
pub struct ElementView {
    pub tag: SpanView,
    pub attributes: Seq<AttributeView>,
    pub children: Seq<DocumentView>,
    pub text: Option<SpanView>,
}

/// The model of a `Document`.
pub enum DocumentView {
    Element(ElementView),
}

impl<'a> View for Span<'a> {
    type V = SpanView;

    open spec fn view(&self) -> SpanView {
        SpanView { start: self.start as int, bytes: self.bytes@ }
    }
}

impl<'a> View for Expression<'a> {
    type V = ExpressionView;

    open spec fn view(&self) -> ExpressionView {
        match *self {
            Expression::Literal(s) => ExpressionView::Literal(s@),
            Expression::Eval(s) => ExpressionView::Eval(s@),
        }
    }
}

impl<'a> View for Attribute<'a> {
    type V = AttributeView;

    open spec fn view(&self) -> AttributeView {
        AttributeView { name: self.name@, value: self.value@ }
    }
}

/// The views of a sequence of attributes, one by one.
pub open spec fn attribute_views(attributes: Seq<Attribute>) -> Seq<AttributeView> {
    Seq::new(attributes.len(), |i: int| attributes[i]@)
}

/// The views of a sequence of nodes, one by one.
pub open spec fn document_views(documents: Seq<Document>) -> Seq<DocumentView> {
    Seq::new(documents.len(), |i: int| documents[i]@)
}

impl<'a> View for Element<'a> {
    type V = ElementView;

    open spec fn view(&self) -> ElementView
        decreases self,
    {
        ElementView {
            tag: self.tag@,
            attributes: attribute_views(self.attributes@),
            children: Seq::new(
                self.children@.len(),
                |i: int|
                    if 0 <= i < self.children@.len() {
                        self.children@[i]@
                    } else {
                        arbitrary()
                    },
            ),
            text: match self.text {
                Some(s) => Some(s@),
                None => None,
            },
        }
    }
}

impl<'a> View for Document<'a> {
    type V = DocumentView;

    open spec fn view(&self) -> DocumentView
        decreases self,
    {
        match self {
            Document::Element(e) => DocumentView::Element(e@),
        }
    }
}

/// The view of an element, with the views of its children taken one by one.
pub proof fn lemma_element_view(element: Element)
    ensures
        element@ == (ElementView {
            tag: element.tag@,
            attributes: attribute_views(element.attributes@),
            children: document_views(element.children@),
            text: match element.text {
                Some(s) => Some(s@),
                None => None,
            },
        }),
{
    reveal_with_fuel(<Element as View>::view, 2);
    assert(element@.children =~= document_views(element.children@));
}

} // verus!
