//! The style definitions part of a document (`/word/styles.xml`).
use vstd::prelude::*;
use crate::parse::chars_of;
use crate::schema::{
    Attribute, Cardinality, ChildBinding, ElementSchema, Element, Node, TextBinding, kids_model,
};

verus! {

/// The namespace of the main document vocabulary.
pub open spec fn schema_main() -> Seq<char> {
    "http://schemas.openxmlformats.org/wordprocessingml/2006/main"@
}

/// Styles of the document: an optional set of default properties and the
/// list of styles, in order.
#[derive(Debug)]
pub struct Styles {
    /// The default set of properties.
    pub default: Option<Element>,
    /// The styles, in document order.
    pub styles: Vec<Element>,
}

/// The namespace declaration that the outermost `w:styles` element carries.
pub fn styles_extend_attrs() -> (r: Vec<Attribute>)
    ensures
        r@.len() == 1,
        r@[0].name@ == "xmlns:w"@,
        r@[0].value@ == schema_main(),
{
    let mut r: Vec<Attribute> = Vec::new();
    r.push(
        Attribute {
            name: chars_of("xmlns:w"),
            value: chars_of("http://schemas.openxmlformats.org/wordprocessingml/2006/main"),
        },
    );
    r
}

/// The schema of `w:styles`, given the indices of the schemas of
/// `w:docDefaults` and `w:style`.
pub fn styles_schema(default_schema: usize, style_schema: usize) -> (r: ElementSchema)
    ensures
        r.tag@ == "w:styles"@,
        r.attrs@.len() == 0,
        r.children@.len() == 2,
        r.children@[0].tag@ == "w:docDefaults"@,
        r.children@[0].card == Cardinality::Optional,
        r.children@[0].schema == default_schema,
        r.children@[1].tag@ == "w:style"@,
        r.children@[1].card == Cardinality::Many,
        r.children@[1].schema == style_schema,
        r.text is NoText,
        r.ns_decls@.len() == 1,
        r.ns_decls@[0].name@ == "xmlns:w"@,
        r.ns_decls@[0].value@ == schema_main(),
{
    let mut children: Vec<ChildBinding> = Vec::new();
    children.push(
        ChildBinding { tag: chars_of("w:docDefaults"), card: Cardinality::Optional, schema: default_schema },
    );
    children.push(ChildBinding { tag: chars_of("w:style"), card: Cardinality::Many, schema: style_schema });
    ElementSchema {
        tag: chars_of("w:styles"),
        attrs: Vec::new(),
        children,
        text: TextBinding::NoText,
        ns_decls: styles_extend_attrs(),
    }
}

impl Styles {
    /// The record of these styles under `styles_schema`.
    pub open spec fn node(&self) -> Node {
        Node {
            attrs: Seq::empty(),
            kids: seq![
                match self.default {
                    Some(d) => seq![d.model()],
                    None => Seq::empty(),
                },
                Seq::new(self.styles@.len(), |i: int| self.styles@[i].model()),
            ],
            text: None,
        }
    }

    /// No default properties and no styles.
    pub fn new() -> (r: Styles)
        ensures
            r.default is None,
            r.styles@.len() == 0,
    {
        Styles { default: None, styles: Vec::new() }
    }

    /// Sets the default properties.
    pub fn default(&mut self, style: Element)
        ensures
            final(self).default == Some(style),
            final(self).styles == old(self).styles,
    {
        self.default = Some(style);
    }

    /// Appends a style.
    pub fn push(&mut self, style: Element)
        ensures
            final(self).default == old(self).default,
            final(self).styles@ == old(self).styles@.push(style),
    {
        self.styles.push(style);
    }

    /// The record of these styles, to be written with `styles_schema`.
    pub fn into_element(self) -> (r: Element)
        ensures
            r.model() == self.node(),
    {
        let ghost node = self.node();
        let ghost d = self.default;
        let ghost st = self.styles@;
        let mut first: Vec<Element> = Vec::new();
        match self.default {
            Some(x) => first.push(x),
            None => {},
        }
        let mut children: Vec<Vec<Element>> = Vec::new();
        children.push(first);
        children.push(self.styles);
        let r = Element { attrs: Vec::new(), children, text: None };
        proof {
            assert(r.model().attrs =~= Seq::empty());
            assert(r.model().kids =~~= node.kids);
        }
        r
    }

    /// The styles held by a record of `styles_schema`; a record of another
    /// shape gives what its first two slots hold.
    pub fn from_element(e: Element) -> (r: Styles)
        ensures
            e.children@.len() >= 2 && e.children@[0]@.len() <= 1 ==> kids_model(e.children@).subrange(0, 2) == r.node().kids,
    {
        let mut children = e.children;
        let mut default: Option<Element> = None;
        let mut styles: Vec<Element> = Vec::new();
        let ghost c = children@;
        if children.len() >= 2 {
            styles = children.remove(1);
            let mut first = children.remove(0);
            if first.len() >= 1 {
                default = Some(first.remove(0));
            }
        }
        let r = Styles { default, styles };
        proof {
            if c.len() >= 2 && c[0]@.len() <= 1 {
                assert(kids_model(c).subrange(0, 2) =~~= r.node().kids);
            }
        }
        r
    }
}

} // verus!
