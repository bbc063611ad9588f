//! Reading a record from an event stream.
use vstd::prelude::*;
use crate::event::{Ev, Event, attrs_model, events_model};
use crate::schema::{
    Attribute, Cardinality, ChildBinding, ElementSchema, Element, Node, SchemaSet, TextBinding,
    append_chars, chars_eq, copy_chars, kids_model, opt_chars,
};

verus! {

/// Why a read failed.
#[derive(PartialEq, Eq, Structural, Clone, Copy, Debug)]
pub enum ReadError {
    /// An opening or closing tag is not the one the schema expects.
    UnexpectedTag,
    /// A required attribute is absent.
    MissingAttribute,
    /// An attribute's text does not decode to the expected shape.
    InvalidAttributeValue,
    /// A child of cardinality one never occurred.
    MissingRequiredChild,
    /// No member of a variant set has the element's tag.
    UnknownVariant,
    /// The stream ended inside the element.
    UnexpectedEnd,
}

/// The value of the first attribute named `name`.
pub open spec fn find_attr(a: Seq<(Seq<char>, Seq<char>)>, name: Seq<char>) -> Option<Seq<char>>
    decreases a.len(),
{
    if a.len() == 0 {
        None
    } else if a[0].0 == name {
        Some(a[0].1)
    } else {
        find_attr(a.drop_first(), name)
    }
}

/// The attribute slots of a record read from the attributes `a`.
pub open spec fn attr_values(s: ElementSchema, a: Seq<(Seq<char>, Seq<char>)>) -> Seq<Option<Seq<char>>> {
    Seq::new(s.attrs@.len(), |k: int| find_attr(a, s.attrs@[k].name@))
}

pub open spec fn read_attrs_spec(s: ElementSchema, a: Seq<(Seq<char>, Seq<char>)>) -> Result<
    Seq<Option<Seq<char>>>,
    ReadError,
> {
    if exists|k: int|
        0 <= k < s.attrs@.len() && s.attrs@[k].required && find_attr(a, s.attrs@[k].name@) is None {
        Err(ReadError::MissingAttribute)
    } else {
        Ok(attr_values(s, a))
    }
}

/// Text of white space only.
pub open spec fn is_blank(t: Seq<char>) -> bool {
    forall|i: int| 0 <= i < t.len() ==> #[trigger] t[i] == ' ' || t[i] == '\n' || t[i] == '\t' || t[i] == '\r'
}

/// Whether a text event adds to the record's text: only with direct text,
/// and, in a record that also has child bindings, not when it is white
/// space between children.
pub open spec fn keeps_text(s: ElementSchema, t: Seq<char>) -> bool {
    s.text is Direct && !(s.children@.len() > 0 && is_blank(t))
}

/// The index of the first child binding from `k` on with tag `t`.
pub open spec fn binding_from(cs: Seq<ChildBinding>, t: Seq<char>, k: int) -> Option<int>
    decreases cs.len() - k,
{
    if k < 0 || k >= cs.len() {
        None
    } else if cs[k].tag@ == t {
        Some(k)
    } else {
        binding_from(cs, t, k + 1)
    }
}

pub open spec fn init_kids(s: ElementSchema) -> Seq<Seq<Node>> {
    Seq::new(s.children@.len(), |k: int| Seq::<Node>::empty())
}

pub open spec fn init_text(s: ElementSchema) -> Option<Seq<char>> {
    if s.text is Direct {
        Some(Seq::empty())
    } else {
        None
    }
}

/// Completes a record at its closing tag: every child of cardinality one
/// must have occurred.
pub open spec fn finish(
    s: ElementSchema,
    attrs: Seq<Option<Seq<char>>>,
    kids: Seq<Seq<Node>>,
    text: Option<Seq<char>>,
) -> Result<Node, ReadError> {
    if exists|k: int|
        0 <= k < s.children@.len() && s.children@[k].card == Cardinality::One && kids[k].len()
            == 0 {
        Err(ReadError::MissingRequiredChild)
    } else {
        Ok(Node { attrs, kids, text })
    }
}

/// The position after the element whose body starts at `p`, `depth` levels
/// deep.
pub open spec fn skip_from(evs: Seq<Ev>, p: int, depth: nat) -> Result<int, ReadError>
    decreases evs.len() - p,
{
    if p < 0 || p >= evs.len() {
        Err(ReadError::UnexpectedEnd)
    } else {
        match evs[p] {
            Ev::Open(_, _, empty) => if empty {
                skip_from(evs, p + 1, depth)
            } else {
                skip_from(evs, p + 1, depth + 1)
            },
            Ev::Close(_) => if depth <= 1 {
                Ok(p + 1)
            } else {
                skip_from(evs, p + 1, (depth - 1) as nat)
            },
            Ev::Txt(_) => skip_from(evs, p + 1, depth),
        }
    }
}

/// The position after the element that opens at `p`, ignoring its content.
pub open spec fn skip_spec(evs: Seq<Ev>, p: int) -> Result<int, ReadError> {
    if 0 <= p < evs.len() && (evs[p] matches Ev::Open(_, _, empty) && empty) {
        Ok(p + 1)
    } else {
        skip_from(evs, p + 1, 1)
    }
}

/// The text of a leaf element whose body starts at `p`; nested elements are
/// ignored.
pub open spec fn leaf_from(evs: Seq<Ev>, ft: Seq<char>, p: int, acc: Seq<char>) -> Result<
    (Seq<char>, int),
    ReadError,
>
    decreases evs.len() - p,
{
    if p < 0 || p >= evs.len() {
        Err(ReadError::UnexpectedEnd)
    } else {
        match evs[p] {
            Ev::Txt(t) => leaf_from(evs, ft, p + 1, acc + t),
            Ev::Close(t) => if t == ft {
                Ok((acc, p + 1))
            } else {
                Err(ReadError::UnexpectedTag)
            },
            Ev::Open(_, _, _) => match skip_spec(evs, p) {
                Ok(q) => if p < q <= evs.len() {
                    leaf_from(evs, ft, q, acc)
                } else {
                    Err(ReadError::UnexpectedEnd)
                },
                Err(x) => Err(x),
            },
        }
    }
}

/// The text of the leaf element that opens at `p`.
pub open spec fn leaf_spec(evs: Seq<Ev>, ft: Seq<char>, p: int) -> Result<(Seq<char>, int), ReadError> {
    if 0 <= p < evs.len() && (evs[p] matches Ev::Open(_, _, empty) && empty) {
        Ok((Seq::empty(), p + 1))
    } else {
        leaf_from(evs, ft, p + 1, Seq::empty())
    }
}

/// Reads the record of schema `sid` whose element opens at `pos`; on success
/// gives the record and the position after its closing tag.
pub open spec fn elem_spec(set: SchemaSet, sid: int, evs: Seq<Ev>, pos: int) -> Result<
    (Node, int),
    ReadError,
>
    decreases evs.len() - pos, 0int,
{
    let s = set.schemas@[sid];
    if pos < 0 || pos >= evs.len() {
        Err(ReadError::UnexpectedEnd)
    } else {
        match evs[pos] {
            Ev::Open(t, a, empty) => if t != s.tag@ {
                Err(ReadError::UnexpectedTag)
            } else {
                match read_attrs_spec(s, a) {
                    Err(x) => Err(x),
                    Ok(av) => if empty {
                        match finish(s, av, init_kids(s), init_text(s)) {
                            Ok(n) => Ok((n, pos + 1)),
                            Err(x) => Err(x),
                        }
                    } else {
                        body_spec(set, sid, evs, pos + 1, av, init_kids(s), init_text(s))
                    },
                }
            },
            _ => Err(ReadError::UnexpectedTag),
        }
    }
}

/// Goes on past the element that opens at `p`, which the record ignores.
pub open spec fn skip_then(
    set: SchemaSet,
    sid: int,
    evs: Seq<Ev>,
    p: int,
    attrs: Seq<Option<Seq<char>>>,
    kids: Seq<Seq<Node>>,
    text: Option<Seq<char>>,
) -> Result<(Node, int), ReadError>
    decreases evs.len() - p, 1int,
{
    match skip_spec(evs, p) {
        Ok(q) => if p < q <= evs.len() {
            body_spec(set, sid, evs, q, attrs, kids, text)
        } else {
            Err(ReadError::UnexpectedEnd)
        },
        Err(x) => Err(x),
    }
}

/// Reads the body of a record of schema `sid` from position `p` on, with the
/// slots filled so far.
pub open spec fn body_spec(
    set: SchemaSet,
    sid: int,
    evs: Seq<Ev>,
    p: int,
    attrs: Seq<Option<Seq<char>>>,
    kids: Seq<Seq<Node>>,
    text: Option<Seq<char>>,
) -> Result<(Node, int), ReadError>
    decreases evs.len() - p, 2int,
{
    let s = set.schemas@[sid];
    if p < 0 || p >= evs.len() {
        Err(ReadError::UnexpectedEnd)
    } else {
        match evs[p] {
            Ev::Close(t) => if t == s.tag@ {
                match finish(s, attrs, kids, text) {
                    Ok(n) => Ok((n, p + 1)),
                    Err(x) => Err(x),
                }
            } else {
                Err(ReadError::UnexpectedTag)
            },
            Ev::Txt(t) => body_spec(
                set,
                sid,
                evs,
                p + 1,
                attrs,
                kids,
                if keeps_text(s, t) {
                    match text {
                        Some(x) => Some(x + t),
                        None => Some(t),
                    }
                } else {
                    text
                },
            ),
            Ev::Open(t, _, _) => match binding_from(s.children@, t, 0) {
                Some(k) => if s.children@[k].card != Cardinality::Many && kids[k].len() > 0 {
                    skip_then(set, sid, evs, p, attrs, kids, text)
                } else {
                    match elem_spec(set, s.children@[k].schema as int, evs, p) {
                        Ok((c, q)) => if p < q <= evs.len() {
                            body_spec(set, sid, evs, q, attrs, kids.update(k, kids[k].push(c)), text)
                        } else {
                            Err(ReadError::UnexpectedEnd)
                        },
                        Err(x) => Err(x),
                    }
                },
                None => match s.text {
                    TextBinding::Flattened(ft) => if t == ft@ && text is None {
                        match leaf_spec(evs, ft@, p) {
                            Ok((x, q)) => if p < q <= evs.len() {
                                body_spec(set, sid, evs, q, attrs, kids, Some(x))
                            } else {
                                Err(ReadError::UnexpectedEnd)
                            },
                            Err(x) => Err(x),
                        }
                    } else {
                        skip_then(set, sid, evs, p, attrs, kids, text)
                    },
                    _ => skip_then(set, sid, evs, p, attrs, kids, text),
                },
            },
        }
    }
}

pub open spec fn slots_model(v: Seq<Option<Vec<char>>>) -> Seq<Option<Seq<char>>> {
    Seq::new(v.len(), |i: int| opt_chars(v[i]))
}

pub open spec fn res_pos(r: Result<usize, ReadError>) -> Result<int, ReadError> {
    match r {
        Ok(q) => Ok(q as int),
        Err(x) => Err(x),
    }
}

pub open spec fn res_leaf(r: Result<(Vec<char>, usize), ReadError>) -> Result<(Seq<char>, int), ReadError> {
    match r {
        Ok((t, q)) => Ok((t@, q as int)),
        Err(x) => Err(x),
    }
}

pub open spec fn res_elem(r: Result<(Element, usize), ReadError>) -> Result<(Node, int), ReadError> {
    match r {
        Ok((e, q)) => Ok((e.model(), q as int)),
        Err(x) => Err(x),
    }
}

pub(crate) fn find_attr_value(a: &Vec<Attribute>, name: &Vec<char>) -> (r: Option<Vec<char>>)
    ensures
        opt_chars(r) == find_attr(attrs_model(a@), name@),
{
    let ghost m = attrs_model(a@);
    assert(m.subrange(0, m.len() as int) =~= m);
    let mut i: usize = 0;
    while i < a.len()
        invariant
            i <= a@.len(),
            m == attrs_model(a@),
            find_attr(m, name@) == find_attr(m.subrange(i as int, m.len() as int), name@),
        decreases a@.len() - i,
    {
        assert(m.subrange(i as int, m.len() as int).drop_first() =~= m.subrange(i + 1, m.len() as int));
        if chars_eq(&a[i].name, name) {
            return Some(copy_chars(&a[i].value));
        }
        i = i + 1;
    }
    None
}

fn read_attrs(s: &ElementSchema, a: &Vec<Attribute>) -> (r: Result<Vec<Option<Vec<char>>>, ReadError>)
    ensures
        match r {
            Ok(v) => read_attrs_spec(*s, attrs_model(a@)) == Ok::<Seq<Option<Seq<char>>>, ReadError>(slots_model(v@)),
            Err(x) => read_attrs_spec(*s, attrs_model(a@)) == Err::<Seq<Option<Seq<char>>>, ReadError>(x),
        },
{
    let ghost m = attrs_model(a@);
    let mut v: Vec<Option<Vec<char>>> = Vec::new();
    let mut k: usize = 0;
    while k < s.attrs.len()
        invariant
            k <= s.attrs@.len(),
            m == attrs_model(a@),
            v@.len() == k,
            forall|q: int| 0 <= q < k ==> opt_chars(#[trigger] v@[q]) == find_attr(m, s.attrs@[q].name@),
            forall|q: int| 0 <= q < k ==> !(s.attrs@[q].required && #[trigger] find_attr(m, s.attrs@[q].name@) is None),
        decreases s.attrs@.len() - k,
    {
        let x = find_attr_value(a, &s.attrs[k].name);
        if s.attrs[k].required && x.is_none() {
            return Err(ReadError::MissingAttribute);
        }
        v.push(x);
        k = k + 1;
    }
    assert(slots_model(v@) =~= attr_values(*s, m));
    Ok(v)
}

fn blank(t: &Vec<char>) -> (r: bool)
    ensures
        r == is_blank(t@),
{
    let mut i: usize = 0;
    while i < t.len()
        invariant
            i <= t@.len(),
            forall|q: int| 0 <= q < i ==> #[trigger] t@[q] == ' ' || t@[q] == '\n' || t@[q] == '\t' || t@[q] == '\r',
        decreases t@.len() - i,
    {
        let c = t[i];
        if !(c == ' ' || c == '\n' || c == '\t' || c == '\r') {
            return false;
        }
        i = i + 1;
    }
    true
}

fn find_binding(cs: &Vec<ChildBinding>, t: &Vec<char>) -> (r: Option<usize>)
    ensures
        match r {
            Some(k) => k < cs@.len() && binding_from(cs@, t@, 0) == Some(k as int),
            None => binding_from(cs@, t@, 0) is None,
        },
{
    let mut k: usize = 0;
    while k < cs.len()
        invariant
            k <= cs@.len(),
            binding_from(cs@, t@, 0) == binding_from(cs@, t@, k as int),
        decreases cs@.len() - k,
    {
        if chars_eq(&cs[k].tag, t) {
            return Some(k);
        }
        k = k + 1;
    }
    None
}

/// The position after the element that opens at `p`, ignoring its content.
pub fn skip_element(evs: &Vec<Event>, p: usize) -> (r: Result<usize, ReadError>)
    requires
        p < evs@.len(),
    ensures
        res_pos(r) == skip_spec(events_model(evs@), p as int),
{
    let ghost m = events_model(evs@);
    let n = evs.len();
    if let Event::Empty(_, _) = &evs[p] {
        return Ok(p + 1);
    }
    let mut q: usize = p + 1;
    let mut depth: usize = 1;
    while q < n
        invariant
            n == evs@.len(),
            p < q <= evs@.len(),
            1 <= depth <= q,
            m == events_model(evs@),
            skip_spec(m, p as int) == skip_from(m, q as int, depth as nat),
        decreases evs@.len() - q,
    {
        match &evs[q] {
            Event::Start(_, _) => {
                depth = depth + 1;
            },
            Event::End(_) => {
                if depth <= 1 {
                    return Ok(q + 1);
                }
                depth = depth - 1;
            },
            _ => {},
        }
        q = q + 1;
    }
    Err(ReadError::UnexpectedEnd)
}

/// The text of the leaf element that opens at `p`.
pub fn read_leaf(evs: &Vec<Event>, ft: &Vec<char>, p: usize) -> (r: Result<(Vec<char>, usize), ReadError>)
    requires
        p < evs@.len(),
    ensures
        res_leaf(r) == leaf_spec(events_model(evs@), ft@, p as int),
{
    let ghost m = events_model(evs@);
    let n = evs.len();
    if let Event::Empty(_, _) = &evs[p] {
        return Ok((Vec::new(), p + 1));
    }
    let mut acc: Vec<char> = Vec::new();
    let mut q: usize = p + 1;
    while q < n
        invariant
            n == evs@.len(),
            p < q <= evs@.len(),
            m == events_model(evs@),
            leaf_spec(m, ft@, p as int) == leaf_from(m, ft@, q as int, acc@),
        decreases evs@.len() - q,
    {
        match &evs[q] {
            Event::Text(t) => {
                append_chars(&mut acc, t);
                q = q + 1;
            },
            Event::End(t) => {
                if chars_eq(t, ft) {
                    return Ok((acc, q + 1));
                }
                return Err(ReadError::UnexpectedTag);
            },
            _ => {
                match skip_element(evs, q) {
                    Ok(q2) => {
                        if q < q2 && q2 <= evs.len() {
                            q = q2;
                        } else {
                            return Err(ReadError::UnexpectedEnd);
                        }
                    },
                    Err(x) => {
                        return Err(x);
                    },
                }
            },
        }
    }
    Err(ReadError::UnexpectedEnd)
}

proof fn lemma_element_model(
    attrs: Vec<Option<Vec<char>>>,
    children: Vec<Vec<Element>>,
    text: Option<Vec<char>>,
)
    ensures
        (Element { attrs, children, text }).model() == (Node {
            attrs: slots_model(attrs@),
            kids: kids_model(children@),
            text: opt_chars(text),
        }),
{
    let e = Element { attrs, children, text };
    assert(e.model().attrs =~= slots_model(attrs@));
    assert(e.model().kids =~~= kids_model(children@));
}

fn missing_required(s: &ElementSchema, kids: &Vec<Vec<Element>>) -> (r: bool)
    requires
        kids@.len() == s.children@.len(),
    ensures
        r == exists|k: int|
            0 <= k < s.children@.len() && s.children@[k].card == Cardinality::One
                && kids_model(kids@)[k].len() == 0,
{
    let mut k: usize = 0;
    while k < s.children.len()
        invariant
            k <= s.children@.len(),
            kids@.len() == s.children@.len(),
            forall|q: int|
                0 <= q < k ==> !(s.children@[q].card == Cardinality::One && #[trigger] kids_model(
                    kids@,
                )[q].len() == 0),
        decreases s.children@.len() - k,
    {
        if s.children[k].card == Cardinality::One && kids[k].len() == 0 {
            assert(kids_model(kids@)[k as int].len() == 0);
            return true;
        }
        k = k + 1;
    }
    false
}

fn empty_slots(s: &ElementSchema) -> (r: Vec<Vec<Element>>)
    ensures
        kids_model(r@) == init_kids(*s),
        r@.len() == s.children@.len(),
{
    let mut r: Vec<Vec<Element>> = Vec::new();
    let mut k: usize = 0;
    while k < s.children.len()
        invariant
            k <= s.children@.len(),
            r@.len() == k,
            forall|q: int| 0 <= q < k ==> (#[trigger] r@[q])@.len() == 0,
        decreases s.children@.len() - k,
    {
        r.push(Vec::new());
        k = k + 1;
    }
    assert(kids_model(r@) =~~= init_kids(*s));
    r
}

/// Reads the record of schema `sid` whose element opens at `pos`; on success
/// gives the record and the position after its closing tag. Unknown
/// attributes and unknown child elements are ignored; of a second occurrence
/// of a child of cardinality one or optional, the first one is kept and the
/// later one ignored.
pub fn read_element(set: &SchemaSet, sid: usize, evs: &Vec<Event>, pos: usize) -> (r: Result<(Element, usize), ReadError>)
    requires
        set.wf(),
        sid < set.schemas@.len(),
    ensures
        res_elem(r) == elem_spec(*set, sid as int, events_model(evs@), pos as int),
    decreases evs@.len() - pos,
{
    let ghost m = events_model(evs@);
    let s = &set.schemas[sid];
    let n = evs.len();
    if pos >= n {
        return Err(ReadError::UnexpectedEnd);
    }
    let (tag, a, empty) = match &evs[pos] {
        Event::Start(t, a) => (t, a, false),
        Event::Empty(t, a) => (t, a, true),
        _ => {
            return Err(ReadError::UnexpectedTag);
        },
    };
    if !chars_eq(tag, &s.tag) {
        return Err(ReadError::UnexpectedTag);
    }
    let attrs = match read_attrs(s, a) {
        Ok(v) => v,
        Err(x) => {
            return Err(x);
        },
    };
    let direct = match &s.text {
        TextBinding::Direct => true,
        _ => false,
    };
    let mut kids = empty_slots(s);
    let mut text: Option<Vec<char>> = if direct {
        Some(Vec::new())
    } else {
        None
    };
    assert(opt_chars(text) == init_text(*s));
    if empty {
        if missing_required(s, &kids) {
            return Err(ReadError::MissingRequiredChild);
        }
        proof { lemma_element_model(attrs, kids, text); }
        return Ok((Element { attrs, children: kids, text }, pos + 1));
    }
    let mut p: usize = pos + 1;
    while p < n
        invariant
            set.wf(),
            sid < set.schemas@.len(),
            *s == set.schemas@[sid as int],
            m == events_model(evs@),
            n == evs@.len(),
            pos < p <= n,
            kids@.len() == s.children@.len(),
            direct == s.text is Direct,
            body_spec(*set, sid as int, m, p as int, slots_model(attrs@), kids_model(kids@), opt_chars(text))
                == elem_spec(*set, sid as int, m, pos as int),
        decreases n - p,
    {
        match &evs[p] {
            Event::End(t) => {
                if !chars_eq(t, &s.tag) {
                    return Err(ReadError::UnexpectedTag);
                }
                if missing_required(s, &kids) {
                    return Err(ReadError::MissingRequiredChild);
                }
                proof { lemma_element_model(attrs, kids, text); }
                return Ok((Element { attrs, children: kids, text }, p + 1));
            },
            Event::Text(t) => {
                if direct && !(s.children.len() > 0 && blank(t)) {
                    let mut cur = match text {
                        Some(x) => x,
                        None => Vec::new(),
                    };
                    append_chars(&mut cur, t);
                    text = Some(cur);
                }
                p = p + 1;
            },
            Event::Start(t, _) | Event::Empty(t, _) => {
                let ghost km = kids_model(kids@);
                match find_binding(&s.children, t) {
                    Some(k) => {
                        if s.children[k].card != Cardinality::Many && kids[k].len() > 0 {
                            assert(km[k as int].len() > 0);
                            assert(body_spec(*set, sid as int, m, p as int, slots_model(attrs@), km, opt_chars(text))
                                == skip_then(*set, sid as int, m, p as int, slots_model(attrs@), km, opt_chars(text)));
                            match skip_element(evs, p) {
                                Ok(q) => {
                                    if p < q && q <= n {
                                        p = q;
                                    } else {
                                        return Err(ReadError::UnexpectedEnd);
                                    }
                                },
                                Err(x) => {
                                    return Err(x);
                                },
                            }
                        } else {
                            proof {
                                if s.children@[k as int].card != Cardinality::Many {
                                    assert(km[k as int].len() == 0);
                                }
                            }
                            let child_sid = s.children[k].schema;
                            assert(child_sid < set.schemas@.len());
                            match read_element(set, child_sid, evs, p) {
                                Ok((c, q)) => {
                                    if p < q && q <= n {
                                        let ghost cm = c.model();
                                        kids[k].push(c);
                                        proof {
                                            assert(kids_model(kids@) =~~= km.update(k as int, km[k as int].push(cm)));
                                        }
                                        p = q;
                                    } else {
                                        return Err(ReadError::UnexpectedEnd);
                                    }
                                },
                                Err(x) => {
                                    return Err(x);
                                },
                            }
                        }
                    },
                    None => {
                        let leaf = match &s.text {
                            TextBinding::Flattened(ft) => text.is_none() && chars_eq(t, ft),
                            _ => false,
                        };
                        if leaf {
                            let ft = match &s.text {
                                TextBinding::Flattened(ft) => ft,
                                _ => &s.tag,
                            };
                            match read_leaf(evs, ft, p) {
                                Ok((x, q)) => {
                                    if p < q && q <= n {
                                        text = Some(x);
                                        p = q;
                                    } else {
                                        return Err(ReadError::UnexpectedEnd);
                                    }
                                },
                                Err(x) => {
                                    return Err(x);
                                },
                            }
                        } else {
                            match skip_element(evs, p) {
                                Ok(q) => {
                                    if p < q && q <= n {
                                        p = q;
                                    } else {
                                        return Err(ReadError::UnexpectedEnd);
                                    }
                                },
                                Err(x) => {
                                    return Err(x);
                                },
                            }
                        }
                    },
                }
            },
        }
    }
    Err(ReadError::UnexpectedEnd)
}

} // verus!
