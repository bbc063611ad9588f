//! Emitting the event stream of a record.
use vstd::prelude::*;
use crate::event::{Ev, Event, attrs_model, events_model};
use crate::schema::{Attribute, ElementSchema, Element, Node, SchemaSet, TextBinding, copy_chars};

verus! {

/// The bound attributes of the first `k` bindings that have a value, in
/// declared order.
pub open spec fn attrs_upto(s: ElementSchema, n: Node, k: int) -> Seq<(Seq<char>, Seq<char>)>
    decreases k,
{
    if k <= 0 {
        Seq::empty()
    } else {
        attrs_upto(s, n, k - 1) + if k - 1 < n.attrs.len() && n.attrs[k - 1] is Some {
            seq![(s.attrs@[k - 1].name@, n.attrs[k - 1]->Some_0)]
        } else {
            Seq::empty()
        }
    }
}

/// The children of slot `k` of a node; a slot the node lacks is empty.
pub open spec fn slot(n: Node, k: int) -> Seq<Node> {
    if 0 <= k < n.kids.len() {
        n.kids[k]
    } else {
        Seq::empty()
    }
}

/// The events of the text of a node.
pub open spec fn text_events(s: ElementSchema, n: Node) -> Seq<Ev> {
    match s.text {
        TextBinding::NoText => Seq::empty(),
        TextBinding::Direct => match n.text {
            Some(t) => if t.len() > 0 {
                seq![Ev::Txt(t)]
            } else {
                Seq::empty()
            },
            None => Seq::empty(),
        },
        TextBinding::Flattened(ft) => match n.text {
            Some(t) => seq![Ev::Open(ft@, Seq::empty(), false)] + if t.len() > 0 {
                seq![Ev::Txt(t)]
            } else {
                Seq::empty()
            } + seq![Ev::Close(ft@)],
            None => Seq::empty(),
        },
    }
}

/// The events of child `j` of slot `k`.
pub open spec fn child_ev(set: SchemaSet, s: ElementSchema, n: Node, k: int, j: int) -> Seq<Ev>
    decreases n, 0int,
{
    if 0 <= k < n.kids.len() && 0 <= j < n.kids[k].len() && 0 <= k < s.children@.len() {
        write_spec(set, s.children@[k].schema as int, n.kids[k][j], false)
    } else {
        Seq::empty()
    }
}

/// The event sequences of the children of slot `k`.
pub open spec fn slot_seq(set: SchemaSet, s: ElementSchema, n: Node, k: int) -> Seq<Seq<Ev>>
    decreases n, 1int,
{
    Seq::new(slot(n, k).len(), |j: int| child_ev(set, s, n, k, j))
}

/// The events of all children of slot `k`, in order.
pub open spec fn slot_ev(set: SchemaSet, s: ElementSchema, n: Node, k: int) -> Seq<Ev>
    decreases n, 2int,
{
    slot_seq(set, s, n, k).flatten()
}

/// The event sequences of the first `m` slots.
pub open spec fn kids_seq(set: SchemaSet, s: ElementSchema, n: Node, m: int) -> Seq<Seq<Ev>>
    decreases n, 3int,
{
    Seq::new(if m < 0 { 0 } else { m as nat }, |k: int| slot_ev(set, s, n, k))
}

/// The events of the first `m` slots, in declared order.
pub open spec fn kids_ev(set: SchemaSet, s: ElementSchema, n: Node, m: int) -> Seq<Ev>
    decreases n, 4int,
{
    kids_seq(set, s, n, m).flatten()
}

/// The opening attributes of a record.
pub open spec fn open_attrs(s: ElementSchema, n: Node, root: bool) -> Seq<(Seq<char>, Seq<char>)> {
    attrs_upto(s, n, s.attrs@.len() as int) + if root {
        attrs_model(s.ns_decls@)
    } else {
        Seq::empty()
    }
}

/// The events of a record: the opening tag with its attributes (and, at the
/// root, the namespace declarations), then each child binding's children in
/// declared order, then the text. Without children or text the tag is
/// self-closing.
pub open spec fn write_spec(set: SchemaSet, sid: int, n: Node, root: bool) -> Seq<Ev>
    decreases n, 5int,
{
    let s = set.schemas@[sid];
    let body = kids_ev(set, s, n, s.children@.len() as int) + text_events(s, n);
    if body.len() == 0 {
        seq![Ev::Open(s.tag@, open_attrs(s, n, root), true)]
    } else {
        seq![Ev::Open(s.tag@, open_attrs(s, n, root), false)] + body + seq![Ev::Close(s.tag@)]
    }
}

proof fn lemma_events_model_push(v: Seq<Event>, e: Event)
    ensures
        events_model(v.push(e)) == events_model(v).push(e.model()),
{
    assert(events_model(v.push(e)) =~= events_model(v).push(e.model()));
}

proof fn lemma_events_model_concat(a: Seq<Event>, b: Seq<Event>)
    ensures
        events_model(a + b) == events_model(a) + events_model(b),
{
    assert(events_model(a + b) =~= events_model(a) + events_model(b));
}

fn copy_attribute(a: &Attribute) -> (r: Attribute)
    ensures
        r.name@ == a.name@,
        r.value@ == a.value@,
{
    Attribute { name: copy_chars(&a.name), value: copy_chars(&a.value) }
}

fn opening_attrs(s: &ElementSchema, e: &Element, root: bool) -> (r: Vec<Attribute>)
    ensures
        attrs_model(r@) == open_attrs(*s, e.model(), root),
{
    let ghost n = e.model();
    let mut r: Vec<Attribute> = Vec::new();
    let mut k: usize = 0;
    while k < s.attrs.len()
        invariant
            k <= s.attrs@.len(),
            n == e.model(),
            attrs_model(r@) == attrs_upto(*s, n, k as int),
        decreases s.attrs@.len() - k,
    {
        if k < e.attrs.len() {
            match &e.attrs[k] {
                Some(v) => {
                    let a = Attribute { name: copy_chars(&s.attrs[k].name), value: copy_chars(v) };
                    r.push(a);
                },
                None => {},
            }
        }
        proof {
            assert(attrs_model(r@) =~= attrs_upto(*s, n, k + 1));
        }
        k = k + 1;
    }
    let ghost bound = r@;
    if root {
        let mut i: usize = 0;
        while i < s.ns_decls.len()
            invariant
                i <= s.ns_decls@.len(),
                attrs_model(r@) == attrs_model(bound) + attrs_model(s.ns_decls@.subrange(0, i as int)),
            decreases s.ns_decls@.len() - i,
        {
            let ghost old_r = r@;
            let a = copy_attribute(&s.ns_decls[i]);
            r.push(a);
            proof {
                let d = s.ns_decls@[i as int];
                assert(attrs_model(r@) =~= attrs_model(old_r).push((d.name@, d.value@)));
                assert(attrs_model(s.ns_decls@.subrange(0, i + 1)) =~= attrs_model(
                    s.ns_decls@.subrange(0, i as int),
                ).push((d.name@, d.value@)));
            }
            i = i + 1;
        }
        assert(s.ns_decls@.subrange(0, i as int) =~= s.ns_decls@);
    } else {
        assert(attrs_model(r@) =~= open_attrs(*s, n, root));
    }
    r
}

fn text_part(s: &ElementSchema, e: &Element, out: &mut Vec<Event>)
    ensures
        events_model(final(out)@) == events_model(old(out)@) + text_events(*s, e.model()),
{
    let ghost n = e.model();
    let ghost before = out@;
    match &s.text {
        TextBinding::NoText => {},
        TextBinding::Direct => {
            match &e.text {
                Some(t) => {
                    if t.len() > 0 {
                        out.push(Event::Text(copy_chars(t)));
                        proof { lemma_events_model_push(before, out@.last()); }
                    }
                },
                None => {},
            }
        },
        TextBinding::Flattened(ft) => {
            match &e.text {
                Some(t) => {
                    out.push(Event::Start(copy_chars(ft), Vec::new()));
                    proof { lemma_events_model_push(before, out@.last()); }
                    let ghost mid = out@;
                    if t.len() > 0 {
                        out.push(Event::Text(copy_chars(t)));
                        proof { lemma_events_model_push(mid, out@.last()); }
                    }
                    let ghost mid2 = out@;
                    out.push(Event::End(copy_chars(ft)));
                    proof { lemma_events_model_push(mid2, out@.last()); }
                    assert(attrs_model(Seq::<Attribute>::empty()) =~= Seq::empty());
                },
                None => {},
            }
        },
    }
    assert(events_model(out@) =~= events_model(before) + text_events(*s, n));
}

/// Appends the events of record `e` written with schema `sid`; `root` marks
/// the outermost element of a document, which carries the namespace
/// declarations.
pub fn write_element(set: &SchemaSet, sid: usize, e: &Element, root: bool, out: &mut Vec<Event>)
    requires
        set.wf(),
        sid < set.schemas@.len(),
    ensures
        events_model(final(out)@) == events_model(old(out)@) + write_spec(*set, sid as int, e.model(), root),
    decreases e,
{
    let ghost n = e.model();
    let s = &set.schemas[sid];
    let attrs = opening_attrs(s, e, root);
    let mut body: Vec<Event> = Vec::new();
    let mut k: usize = 0;
    while k < s.children.len()
        invariant
            k <= s.children@.len(),
            set.wf(),
            sid < set.schemas@.len(),
            *s == set.schemas@[sid as int],
            n == e.model(),
            events_model(body@) == kids_ev(*set, *s, n, k as int),
        decreases s.children@.len() - k,
    {
        let ghost prev = body@;
        let child_sid = s.children[k].schema;
        assert(child_sid < set.schemas@.len());
        let mut j: usize = 0;
        if k < e.children.len() {
            let kids = &e.children[k];
            while j < kids.len()
                invariant
                    j <= kids@.len(),
                    k < e.children@.len(),
                    *kids == e.children@[k as int],
                    set.wf(),
                    child_sid < set.schemas@.len(),
                    child_sid == s.children@[k as int].schema,
                    k < s.children@.len(),
                    n == e.model(),
                    events_model(body@) == events_model(prev) + Seq::new(j as nat, |q: int| child_ev(*set, *s, n, k as int, q)).flatten(),
                decreases kids@.len() - j,
            {
                let ghost mid = body@;
                proof {
                    assert(decreases_to!(e => e.children));
                    assert(decreases_to!(e.children => e.children[k as int]));
                    assert(decreases_to!(e.children[k as int] => e.children[k as int][j as int]));
                }
                write_element(set, child_sid, &kids[j], false, &mut body);
                proof {
                    let f = |q: int| child_ev(*set, *s, n, k as int, q);
                    assert(n.kids[k as int][j as int] == kids@[j as int].model());
                    assert(child_ev(*set, *s, n, k as int, j as int) == write_spec(*set, child_sid as int, kids@[j as int].model(), false));
                    assert(Seq::new((j + 1) as nat, f) =~= Seq::new(j as nat, f).push(f(j as int)));
                    Seq::new(j as nat, f).lemma_flatten_push(f(j as int));
                }
                j = j + 1;
            }
        }
        proof {
            let g = |q: int| slot_ev(*set, *s, n, q);
            assert(Seq::new((k + 1) as nat, g) =~= Seq::new(k as nat, g).push(g(k as int)));
            Seq::new(k as nat, g).lemma_flatten_push(g(k as int));
            let f = |q: int| child_ev(*set, *s, n, k as int, q);
            if k >= e.children.len() {
                assert(Seq::new(0, f) =~= Seq::<Seq<Ev>>::empty());
                assert(events_model(body@) =~= events_model(prev) + Seq::new(0, f).flatten());
            }
            assert(slot(n, k as int).len() == j);
            assert(slot_seq(*set, *s, n, k as int) =~= Seq::new(j as nat, f));
            assert(kids_seq(*set, *s, n, k + 1) =~= Seq::new((k + 1) as nat, g));
            assert(kids_seq(*set, *s, n, k as int) =~= Seq::new(k as nat, g));
        }
        k = k + 1;
    }
    text_part(s, e, &mut body);
    let ghost bm = body@;
    let ghost o = out@;
    let tag = copy_chars(&s.tag);
    if body.len() == 0 {
        out.push(Event::Empty(tag, attrs));
        proof { lemma_events_model_push(o, out@.last()); }
    } else {
        let end_tag = copy_chars(&s.tag);
        out.push(Event::Start(tag, attrs));
        proof { lemma_events_model_push(o, out@.last()); }
        let ghost o1 = out@;
        out.append(&mut body);
        proof { lemma_events_model_concat(o1, bm); }
        let ghost o2 = out@;
        out.push(Event::End(end_tag));
        proof { lemma_events_model_push(o2, out@.last()); }
    }
    assert(events_model(out@) =~= events_model(o) + write_spec(*set, sid as int, n, root));
}

/// The events of a document whose outermost element is record `e`.
pub fn write_document(set: &SchemaSet, sid: usize, e: &Element) -> (r: Vec<Event>)
    requires
        set.wf(),
        sid < set.schemas@.len(),
    ensures
        events_model(r@) == write_spec(*set, sid as int, e.model(), true),
{
    let mut out: Vec<Event> = Vec::new();
    write_element(set, sid, e, true, &mut out);
    assert(events_model(Seq::<Event>::empty()) =~= Seq::empty());
    assert(events_model(out@) =~= write_spec(*set, sid as int, e.model(), true));
    out
}

} // verus!
