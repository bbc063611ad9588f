//! Schema descriptors and the generic record shape that they describe.
use vstd::prelude::*;

verus! {

/// How many occurrences of a child element a binding admits.
#[derive(PartialEq, Eq, Structural, Clone, Copy, Debug)]
pub enum Cardinality {
    One,
    Optional,
    Many,
}

/// One attribute of an element, bound to one slot of a record.
#[derive(Clone, Debug)]
pub struct AttrBinding {
    pub name: Vec<char>,
    pub required: bool,
}

/// One kind of child element, bound to one slot of a record.
#[derive(Clone, Debug)]
pub struct ChildBinding {
    pub tag: Vec<char>,
    pub card: Cardinality,
    /// Index of the child's schema in the `SchemaSet`.
    pub schema: usize,
}

/// Where the text of a record lives in the XML.
#[derive(Clone, Debug)]
pub enum TextBinding {
    NoText,
    /// The text is the element's whole body.
    Direct,
    /// The text is wrapped in a leaf child with this tag.
    Flattened(Vec<char>),
}

/// A literal attribute of the output, such as a namespace declaration.
#[derive(Clone, Debug, PartialEq, Eq)]
pub struct Attribute {
    pub name: Vec<char>,
    pub value: Vec<char>,
}

/// The descriptor of one record shape.
#[derive(Clone, Debug)]
pub struct ElementSchema {
    pub tag: Vec<char>,
    pub attrs: Vec<AttrBinding>,
    pub children: Vec<ChildBinding>,
    pub text: TextBinding,
    /// Attributes appended after the bound ones when the element is the
    /// outermost one of a document.
    pub ns_decls: Vec<Attribute>,
}

/// A table of schemas; child bindings refer to entries by index.
#[derive(Clone, Debug)]
pub struct SchemaSet {
    pub schemas: Vec<ElementSchema>,
}

/// The mathematical form of a record: attribute slots, child slots (one
/// sequence per child binding) and the text.
pub struct Node {
    pub attrs: Seq<Option<Seq<char>>>,
    pub kids: Seq<Seq<Node>>,
    pub text: Option<Seq<char>>,
}

/// A record read from or written to XML according to an `ElementSchema`.
#[derive(Debug)]
pub struct Element {
    pub attrs: Vec<Option<Vec<char>>>,
    pub children: Vec<Vec<Element>>,
    pub text: Option<Vec<char>>,
}

pub open spec fn opt_chars(o: Option<Vec<char>>) -> Option<Seq<char>> {
    match o {
        Some(v) => Some(v@),
        None => None,
    }
}

pub open spec fn empty_node() -> Node {
    Node { attrs: Seq::empty(), kids: Seq::empty(), text: None }
}

impl Element {
    pub open spec fn model(&self) -> Node
        decreases self,
    {
        Node {
            attrs: Seq::new(self.attrs@.len(), |i: int| opt_chars(self.attrs@[i])),
            kids: Seq::new(
                self.children@.len(),
                |i: int|
                    Seq::new(
                        self.children@[i]@.len(),
                        |j: int|
                            if 0 <= i < self.children@.len() && 0 <= j
                                < self.children@[i]@.len() {
                                self.children@[i]@[j].model()
                            } else {
                                empty_node()
                            },
                    ),
            ),
            text: opt_chars(self.text),
        }
    }
}

pub open spec fn kids_model(v: Seq<Vec<Element>>) -> Seq<Seq<Node>> {
    Seq::new(v.len(), |i: int| Seq::new(v[i]@.len(), |j: int| v[i]@[j].model()))
}

impl SchemaSet {
    /// Every child binding refers to a schema of the table.
    pub open spec fn wf(&self) -> bool {
        forall|s: int, k: int|
            0 <= s < self.schemas@.len() && 0 <= k < self.schemas@[s].children@.len()
                ==> #[trigger] self.schemas@[s].children@[k].schema < self.schemas@.len()
    }
}

/// Copies a character vector.
pub fn copy_chars(v: &Vec<char>) -> (r: Vec<char>)
    ensures
        r@ == v@,
{
    let mut r: Vec<char> = Vec::new();
    let mut i: usize = 0;
    while i < v.len()
        invariant
            i <= v@.len(),
            r@ == v@.subrange(0, i as int),
        decreases v@.len() - i,
    {
        r.push(v[i]);
        i = i + 1;
        assert(r@ =~= v@.subrange(0, i as int));
    }
    assert(r@ =~= v@);
    r
}

/// Appends the characters of `s` to `out`.
pub fn append_chars(out: &mut Vec<char>, s: &Vec<char>)
    ensures
        final(out)@ == old(out)@ + s@,
{
    let mut i: usize = 0;
    while i < s.len()
        invariant
            i <= s@.len(),
            out@ == old(out)@ + s@.subrange(0, i as int),
        decreases s@.len() - i,
    {
        out.push(s[i]);
        i = i + 1;
        assert(out@ =~= old(out)@ + s@.subrange(0, i as int));
    }
    assert(s@.subrange(0, i as int) =~= s@);
}

/// Whether two character vectors hold the same text.
pub fn chars_eq(a: &Vec<char>, b: &Vec<char>) -> (r: bool)
    ensures
        r == (a@ == b@),
{
    if a.len() != b.len() {
        return false;
    }
    let mut i: usize = 0;
    while i < a.len()
        invariant
            i <= a@.len(),
            a@.len() == b@.len(),
            a@.subrange(0, i as int) == b@.subrange(0, i as int),
        decreases a@.len() - i,
    {
        if a[i] != b[i] {
            assert(a@[i as int] != b@[i as int]);
            return false;
        }
        assert(a@.subrange(0, i + 1) =~= a@.subrange(0, i as int).push(a@[i as int]));
        assert(b@.subrange(0, i + 1) =~= b@.subrange(0, i as int).push(b@[i as int]));
        i = i + 1;
    }
    assert(a@ =~= a@.subrange(0, i as int));
    assert(b@ =~= b@.subrange(0, i as int));
    true
}

} // verus!
