//! What holds between writing and reading.
use vstd::prelude::*;
use vstd::seq_lib::lemma_flatten_concat;
use crate::event::{Ev, attrs_model};
use crate::reader::{
    ReadError, attr_values, binding_from, body_spec, elem_spec, find_attr, finish, init_kids, init_text, is_blank, leaf_from, leaf_spec, skip_from, skip_spec, skip_then,
    read_attrs_spec,
};
use crate::schema::{Cardinality, ElementSchema, Node, SchemaSet, TextBinding};
use crate::variant::{VariantSet, member_from, variant_spec};
use crate::writer::{attrs_upto, child_ev, kids_ev, kids_seq, open_attrs, slot, slot_ev, slot_seq, text_events, write_spec};

verus! {

/// The conditions under which each record of a schema set round-trips:
/// within a schema, attribute names are distinct and differ from the names
/// of its namespace declarations, child tags are distinct and differ from
/// the flattened-text tag, and each child binding's tag is the tag of the
/// schema it refers to.
pub open spec fn schema_ok(set: SchemaSet) -> bool {
    &&& set.wf()
    &&& forall|sid: int| 0 <= sid < set.schemas@.len() ==> #[trigger] schema_shape_ok(set, set.schemas@[sid])
}

pub open spec fn schema_shape_ok(set: SchemaSet, s: ElementSchema) -> bool {
    &&& forall|a: int, b: int|
        0 <= a < b < s.attrs@.len() ==> #[trigger] s.attrs@[a].name@ != #[trigger] s.attrs@[b].name@
    &&& forall|a: int|
        0 <= a < s.attrs@.len() ==> find_attr(attrs_model(s.ns_decls@), #[trigger] s.attrs@[a].name@) is None
    &&& forall|a: int, b: int|
        0 <= a < b < s.children@.len() ==> #[trigger] s.children@[a].tag@ != #[trigger] s.children@[b].tag@
    &&& forall|a: int|
        0 <= a < s.children@.len() ==> (match s.text {
            TextBinding::Flattened(ft) => ft@ != #[trigger] s.children@[a].tag@,
            _ => true,
        })
    &&& forall|a: int|
        0 <= a < s.children@.len() ==> set.schemas@[#[trigger] s.children@[a].schema as int].tag@
            == s.children@[a].tag@
}

/// A record that schema `sid` can describe: one slot per binding, required
/// attributes present, the counts that each cardinality admits, text where
/// the schema has it (not white space only beside child bindings), and
/// children that their own schemas describe.
pub open spec fn valid(set: SchemaSet, sid: int, n: Node) -> bool
    decreases n,
{
    let s = set.schemas@[sid];
    &&& n.attrs.len() == s.attrs@.len()
    &&& forall|k: int| 0 <= k < s.attrs@.len() && #[trigger] s.attrs@[k].required ==> n.attrs[k] is Some
    &&& n.kids.len() == s.children@.len()
    &&& forall|k: int|
        0 <= k < s.children@.len() ==> match #[trigger] s.children@[k].card {
            Cardinality::One => n.kids[k].len() == 1,
            Cardinality::Optional => n.kids[k].len() <= 1,
            Cardinality::Many => true,
        }
    &&& match s.text {
        TextBinding::NoText => n.text is None,
        TextBinding::Direct => n.text is Some && (s.children@.len() > 0 && is_blank(n.text->Some_0)
            ==> n.text->Some_0.len() == 0),
        TextBinding::Flattened(_) => true,
    }
    &&& forall|k: int, j: int|
        0 <= k < n.kids.len() && 0 <= j < n.kids[k].len() && k < s.children@.len() ==> valid(
            set,
            s.children@[k].schema as int,
            #[trigger] n.kids[k][j],
        )
}

proof fn lemma_find_concat(a: Seq<(Seq<char>, Seq<char>)>, b: Seq<(Seq<char>, Seq<char>)>, x: Seq<char>)
    ensures
        find_attr(a + b, x) == match find_attr(a, x) {
            Some(v) => Some(v),
            None => find_attr(b, x),
        },
    decreases a.len(),
{
    if a.len() > 0 {
        assert((a + b).drop_first() =~= a.drop_first() + b);
        lemma_find_concat(a.drop_first(), b, x);
    } else {
        assert(a + b =~= b);
    }
}

proof fn lemma_attrs_upto(s: ElementSchema, n: Node, m: int, k: int)
    requires
        0 <= k < s.attrs@.len(),
        0 <= m <= s.attrs@.len(),
        n.attrs.len() == s.attrs@.len(),
        forall|a: int, b: int|
            0 <= a < b < s.attrs@.len() ==> #[trigger] s.attrs@[a].name@ != #[trigger] s.attrs@[b].name@,
    ensures
        find_attr(attrs_upto(s, n, m), s.attrs@[k].name@) == if k < m {
            n.attrs[k]
        } else {
            None
        },
    decreases m,
{
    if m > 0 {
        lemma_attrs_upto(s, n, m - 1, k);
        let piece = if m - 1 < n.attrs.len() && n.attrs[m - 1] is Some {
            seq![(s.attrs@[m - 1].name@, n.attrs[m - 1]->Some_0)]
        } else {
            Seq::empty()
        };
        lemma_find_concat(attrs_upto(s, n, m - 1), piece, s.attrs@[k].name@);
        assert(attrs_upto(s, n, m) == attrs_upto(s, n, m - 1) + piece);
        if piece.len() == 0 {
            assert(find_attr(piece, s.attrs@[k].name@) is None);
        } else {
            assert(piece.drop_first() =~= Seq::<(Seq<char>, Seq<char>)>::empty());
            assert(find_attr(piece.drop_first(), s.attrs@[k].name@) is None);
            if k != m - 1 {
                if k < m - 1 {
                    assert(s.attrs@[k].name@ != s.attrs@[m - 1].name@);
                } else {
                    assert(s.attrs@[m - 1].name@ != s.attrs@[k].name@);
                }
            }
        }
    }
}

/// The opening attributes that the writer gives read back as the record's
/// attribute slots.
proof fn lemma_read_attrs(set: SchemaSet, sid: int, n: Node, root: bool)
    requires
        schema_ok(set),
        0 <= sid < set.schemas@.len(),
        valid(set, sid, n),
    ensures
        read_attrs_spec(set.schemas@[sid], open_attrs(set.schemas@[sid], n, root)) == Ok::<
            Seq<Option<Seq<char>>>,
            ReadError,
        >(n.attrs),
{
    let s = set.schemas@[sid];
    assert(schema_shape_ok(set, s));
    let a = open_attrs(s, n, root);
    let ns = if root {
        attrs_model(s.ns_decls@)
    } else {
        Seq::empty()
    };
    assert forall|k: int| 0 <= k < s.attrs@.len() implies find_attr(a, s.attrs@[k].name@) == n.attrs[k] by {
        lemma_attrs_upto(s, n, s.attrs@.len() as int, k);
        lemma_find_concat(attrs_upto(s, n, s.attrs@.len() as int), ns, s.attrs@[k].name@);
        if !root {
            assert(find_attr(ns, s.attrs@[k].name@) is None);
        }
    }
    assert(attr_values(s, a) =~= n.attrs);
}

proof fn lemma_binding_found(cs: Seq<crate::schema::ChildBinding>, k: int, i: int)
    requires
        0 <= i <= k < cs.len(),
        forall|a: int, b: int| 0 <= a < b < cs.len() ==> #[trigger] cs[a].tag@ != #[trigger] cs[b].tag@,
    ensures
        binding_from(cs, cs[k].tag@, i) == Some(k),
    decreases k - i,
{
    if i < k {
        assert(cs[i].tag@ != cs[k].tag@);
        lemma_binding_found(cs, k, i + 1);
    }
}

proof fn lemma_binding_none(cs: Seq<crate::schema::ChildBinding>, t: Seq<char>, i: int)
    requires
        0 <= i,
        forall|a: int| 0 <= a < cs.len() ==> #[trigger] cs[a].tag@ != t,
    ensures
        binding_from(cs, t, i) is None,
    decreases cs.len() - i,
{
    if i < cs.len() {
        lemma_binding_none(cs, t, i + 1);
    }
}

proof fn lemma_sub(evs: Seq<Ev>, p: int, a: Seq<Ev>, b: Seq<Ev>)
    requires
        0 <= p,
        p + a.len() + b.len() <= evs.len(),
        evs.subrange(p, p + a.len() + b.len()) == a + b,
    ensures
        evs.subrange(p, p + a.len()) == a,
        evs.subrange(p + a.len(), p + a.len() + b.len()) == b,
{
    assert forall|i: int| 0 <= i < a.len() implies evs[p + i] == a[i] by {
        assert(evs.subrange(p, p + a.len() + b.len())[i] == evs[p + i]);
        assert((a + b)[i] == a[i]);
    }
    assert forall|i: int| 0 <= i < b.len() implies evs[p + a.len() + i] == b[i] by {
        assert(evs.subrange(p, p + a.len() + b.len())[a.len() + i] == evs[p + a.len() + i]);
        assert((a + b)[a.len() + i] == b[i]);
    }
    assert(evs.subrange(p, p + a.len()) =~= a);
    assert(evs.subrange(p + a.len(), p + a.len() + b.len()) =~= b);
}

/// The child slots of a record with the first `k` slots filled.
pub open spec fn partial_kids(n: Node, k: int) -> Seq<Seq<Node>> {
    Seq::new(n.kids.len(), |q: int| if q < k { n.kids[q] } else { Seq::<Node>::empty() })
}

proof fn lemma_write_nonempty(set: SchemaSet, sid: int, n: Node, root: bool)
    ensures
        write_spec(set, sid, n, root).len() >= 1,
        write_spec(set, sid, n, root)[0] matches Ev::Open(t, _, _) && t == set.schemas@[sid].tag@,
{
}

proof fn lemma_flatten_split(x: Seq<Seq<Ev>>, j: int, j2: int)
    requires
        0 <= j < j2 <= x.len(),
    ensures
        x.subrange(j, j2).flatten() == x[j] + x.subrange(j + 1, j2).flatten(),
{
    let y = x.subrange(j, j2);
    assert(y.drop_first() =~= x.subrange(j + 1, j2));
    assert(y.first() == x[j]);
}

proof fn lemma_slot(
    set: SchemaSet,
    sid: int,
    n: Node,
    k: int,
    j: int,
    j2: int,
    evs: Seq<Ev>,
    p: int,
    attrs: Seq<Option<Seq<char>>>,
    text: Option<Seq<char>>,
)
    requires
        schema_ok(set),
        0 <= sid < set.schemas@.len(),
        valid(set, sid, n),
        0 <= k < set.schemas@[sid].children@.len(),
        0 <= j <= j2 <= n.kids[k].len(),
        0 <= p,
        p + slot_seq(set, set.schemas@[sid], n, k).subrange(j, j2).flatten().len() <= evs.len(),
        evs.subrange(p, p + slot_seq(set, set.schemas@[sid], n, k).subrange(j, j2).flatten().len())
            == slot_seq(set, set.schemas@[sid], n, k).subrange(j, j2).flatten(),
    ensures
        body_spec(set, sid, evs, p, attrs, partial_kids(n, k).update(k, n.kids[k].subrange(0, j)), text)
            == body_spec(
            set,
            sid,
            evs,
            p + slot_seq(set, set.schemas@[sid], n, k).subrange(j, j2).flatten().len(),
            attrs,
            partial_kids(n, k).update(k, n.kids[k].subrange(0, j2)),
            text,
        ),
    decreases n, 0int, j2 - j,
{
    let s = set.schemas@[sid];
    let x = slot_seq(set, s, n, k);
    let len = n.kids[k].len() as int;
    let acc = partial_kids(n, k).update(k, n.kids[k].subrange(0, j));
    if j == j2 {
        assert(x.subrange(j, j2).len() == 0);
        assert(x.subrange(j, j2).flatten() =~= Seq::<Ev>::empty());
    } else {
        assert(schema_shape_ok(set, s));
        let c = n.kids[k][j];
        let csid = s.children@[k].schema as int;
        assert(set.wf());
        assert(0 <= csid < set.schemas@.len());
        assert(valid(set, csid, c));
        let wc = write_spec(set, csid, c, false);
        assert(x[j] == wc);
        lemma_flatten_split(x, j, j2);
        let rest = x.subrange(j + 1, j2).flatten();
        let e = x.subrange(j, j2).flatten();
        assert(e == wc + rest);
        lemma_write_nonempty(set, csid, c, false);
        lemma_sub(evs, p, wc, rest);
        assert(evs[p] == wc[0]) by {
            assert(evs.subrange(p, p + wc.len())[0] == evs[p]);
        }
        lemma_elem(set, csid, c, false, evs, p);
        let ctag = set.schemas@[csid].tag@;
        assert(ctag == s.children@[k].tag@);
        lemma_binding_found(s.children@, k, 0);
        if s.children@[k].card != Cardinality::Many {
            assert(j == 0);
        }
        let q = p + wc.len();
        assert(acc[k].push(c) =~= n.kids[k].subrange(0, j + 1));
        assert(acc.update(k, acc[k].push(c)) =~= partial_kids(n, k).update(k, n.kids[k].subrange(0, j + 1)));
        lemma_slot(set, sid, n, k, j + 1, j2, evs, q, attrs, text);
    }
}

proof fn lemma_kids(
    set: SchemaSet,
    sid: int,
    n: Node,
    k: int,
    k2: int,
    evs: Seq<Ev>,
    p: int,
    attrs: Seq<Option<Seq<char>>>,
    text: Option<Seq<char>>,
)
    requires
        schema_ok(set),
        0 <= sid < set.schemas@.len(),
        valid(set, sid, n),
        0 <= k <= k2 <= set.schemas@[sid].children@.len(),
        0 <= p,
        p + kids_seq(set, set.schemas@[sid], n, set.schemas@[sid].children@.len() as int).subrange(
            k,
            k2,
        ).flatten().len() <= evs.len(),
        evs.subrange(
            p,
            p + kids_seq(set, set.schemas@[sid], n, set.schemas@[sid].children@.len() as int).subrange(
                k,
                k2,
            ).flatten().len(),
        ) == kids_seq(set, set.schemas@[sid], n, set.schemas@[sid].children@.len() as int).subrange(
            k,
            k2,
        ).flatten(),
    ensures
        body_spec(set, sid, evs, p, attrs, partial_kids(n, k), text) == body_spec(
            set,
            sid,
            evs,
            p + kids_seq(set, set.schemas@[sid], n, set.schemas@[sid].children@.len() as int).subrange(
                k,
                k2,
            ).flatten().len(),
            attrs,
            partial_kids(n, k2),
            text,
        ),
    decreases n, 1int, k2 - k,
{
    let s = set.schemas@[sid];
    let m = s.children@.len() as int;
    let x = kids_seq(set, s, n, m);
    if k == k2 {
        assert(x.subrange(k, k2).flatten() =~= Seq::<Ev>::empty());
    } else {
        lemma_flatten_split(x, k, k2);
        let e = x.subrange(k, k2).flatten();
        let se = slot_ev(set, s, n, k);
        let rest = x.subrange(k + 1, k2).flatten();
        assert(e == se + rest);
        let y = slot_seq(set, s, n, k);
        assert(y.subrange(0, n.kids[k].len() as int) =~= y);
        lemma_sub(evs, p, se, rest);
        assert(n.kids[k].subrange(0, 0) =~= Seq::<Node>::empty());
        assert(partial_kids(n, k).update(k, n.kids[k].subrange(0, 0)) =~= partial_kids(n, k));
        lemma_slot(set, sid, n, k, 0, n.kids[k].len() as int, evs, p, attrs, text);
        assert(n.kids[k].subrange(0, n.kids[k].len() as int) =~= n.kids[k]);
        assert(partial_kids(n, k).update(k, n.kids[k]) =~= partial_kids(n, k + 1));
        lemma_kids(set, sid, n, k + 1, k2, evs, p + se.len(), attrs, text);
    }
}

proof fn lemma_tail(set: SchemaSet, sid: int, n: Node, evs: Seq<Ev>, q: int)
    requires
        schema_ok(set),
        0 <= sid < set.schemas@.len(),
        valid(set, sid, n),
        0 <= q,
        q + text_events(set.schemas@[sid], n).len() + 1 <= evs.len(),
        evs.subrange(q, q + text_events(set.schemas@[sid], n).len() + 1) == text_events(
            set.schemas@[sid],
            n,
        ) + seq![Ev::Close(set.schemas@[sid].tag@)],
    ensures
        body_spec(set, sid, evs, q, n.attrs, n.kids, init_text(set.schemas@[sid])) == Ok::<
            (Node, int),
            ReadError,
        >((n, q + text_events(set.schemas@[sid], n).len() + 1)),
{
    let s = set.schemas@[sid];
    assert(schema_shape_ok(set, s));
    let t = text_events(s, n);
    let w = t + seq![Ev::Close(s.tag@)];
    assert forall|i: int| 0 <= i < w.len() implies #[trigger] w[i] == evs[q + i] by {
        assert(evs.subrange(q, q + w.len())[i] == evs[q + i]);
    }
    assert(w[0] == evs[q]);
    if w.len() > 1 {
        assert(w[1] == evs[q + 1]);
    }
    if w.len() > 2 {
        assert(w[2] == evs[q + 2]);
    }
    if w.len() > 3 {
        assert(w[3] == evs[q + 3]);
    }
    let fin = Node { attrs: n.attrs, kids: n.kids, text: n.text };
    assert(fin == n);
    assert forall|k: int| 0 <= k < s.children@.len() && s.children@[k].card == Cardinality::One
        implies n.kids[k].len() != 0 by {
        assert(match s.children@[k].card {
            Cardinality::One => n.kids[k].len() == 1,
            Cardinality::Optional => n.kids[k].len() <= 1,
            Cardinality::Many => true,
        });
    }
    match s.text {
        TextBinding::NoText => {
            assert(w =~= seq![Ev::Close(s.tag@)]);
            assert(evs[q] == Ev::Close(s.tag@));
            assert(n.text is None);
            assert(init_text(s) is None);
            assert(finish(s, n.attrs, n.kids, None) == Ok::<Node, ReadError>(n));
            assert(body_spec(set, sid, evs, q, n.attrs, n.kids, None) == Ok::<(Node, int), ReadError>((n, q + 1)));
        },
        TextBinding::Direct => {
            let x = n.text->Some_0;
            if x.len() > 0 {
                assert(w =~= seq![Ev::Txt(x), Ev::Close(s.tag@)]);
                assert(evs[q] == Ev::Txt(x));
                assert(evs[q + 1] == Ev::Close(s.tag@));
                assert(Seq::<char>::empty() + x =~= x);
                assert(body_spec(set, sid, evs, q + 1, n.attrs, n.kids, Some(x)) == Ok::<(Node, int), ReadError>((n, q + 2)));
            } else {
                assert(w =~= seq![Ev::Close(s.tag@)]);
                assert(evs[q] == Ev::Close(s.tag@));
                assert(x =~= Seq::<char>::empty());
            }
        },
        TextBinding::Flattened(ft) => {
            match n.text {
                None => {
                    assert(w =~= seq![Ev::Close(s.tag@)]);
                    assert(evs[q] == Ev::Close(s.tag@));
                },
                Some(x) => {
                    lemma_binding_none(s.children@, ft@, 0);
                    if x.len() > 0 {
                        assert(w =~= seq![Ev::Open(ft@, Seq::empty(), false), Ev::Txt(x), Ev::Close(ft@), Ev::Close(s.tag@)]);
                        assert(evs[q] == Ev::Open(ft@, Seq::empty(), false));
                        assert(evs[q + 1] == Ev::Txt(x));
                        assert(evs[q + 2] == Ev::Close(ft@));
                        assert(evs[q + 3] == Ev::Close(s.tag@));
                        assert(Seq::<char>::empty() + x =~= x);
                        assert(leaf_from(evs, ft@, q + 2, x) == Ok::<(Seq<char>, int), ReadError>((x, q + 3)));
                        assert(leaf_from(evs, ft@, q + 1, Seq::empty()) == Ok::<(Seq<char>, int), ReadError>((x, q + 3)));
                        assert(leaf_spec(evs, ft@, q) == Ok::<(Seq<char>, int), ReadError>((x, q + 3)));
                        assert(body_spec(set, sid, evs, q + 3, n.attrs, n.kids, Some(x)) == Ok::<(Node, int), ReadError>((n, q + 4)));
                    } else {
                        assert(w =~= seq![Ev::Open(ft@, Seq::empty(), false), Ev::Close(ft@), Ev::Close(s.tag@)]);
                        assert(evs[q] == Ev::Open(ft@, Seq::empty(), false));
                        assert(evs[q + 1] == Ev::Close(ft@));
                        assert(evs[q + 2] == Ev::Close(s.tag@));
                        assert(x =~= Seq::<char>::empty());
                        assert(leaf_from(evs, ft@, q + 1, Seq::empty()) == Ok::<(Seq<char>, int), ReadError>((x, q + 2)));
                        assert(leaf_spec(evs, ft@, q) == Ok::<(Seq<char>, int), ReadError>((x, q + 2)));
                        assert(body_spec(set, sid, evs, q + 2, n.attrs, n.kids, Some(x)) == Ok::<(Node, int), ReadError>((n, q + 3)));
                    }
                },
            }
        },
    }
}

proof fn lemma_elem(set: SchemaSet, sid: int, n: Node, root: bool, evs: Seq<Ev>, p: int)
    requires
        schema_ok(set),
        0 <= sid < set.schemas@.len(),
        valid(set, sid, n),
        0 <= p,
        p + write_spec(set, sid, n, root).len() <= evs.len(),
        evs.subrange(p, p + write_spec(set, sid, n, root).len()) == write_spec(set, sid, n, root),
    ensures
        elem_spec(set, sid, evs, p) == Ok::<(Node, int), ReadError>(
            (n, p + write_spec(set, sid, n, root).len()),
        ),
    decreases n, 2int, 0int,
{
    let s = set.schemas@[sid];
    assert(schema_shape_ok(set, s));
    let w = write_spec(set, sid, n, root);
    let m = s.children@.len() as int;
    let ke = kids_ev(set, s, n, m);
    let te = text_events(s, n);
    let body = ke + te;
    lemma_read_attrs(set, sid, n, root);
    assert(evs[p] == w[0]) by {
        assert(evs.subrange(p, p + w.len())[0] == evs[p]);
    }
    let x = kids_seq(set, s, n, m);
    if body.len() == 0 {
        assert(ke.len() == 0);
        assert(n.kids.len() == m);
        assert forall|k: int| 0 <= k < m implies n.kids[k].len() == 0 by {
            x.lemma_flatten_length_ge_single_element_length(k);
            x.lemma_flatten_and_flatten_alt_are_equivalent();
            assert(x[k] == slot_ev(set, s, n, k));
            let y = slot_seq(set, s, n, k);
            if n.kids[k].len() > 0 {
                assert(slot(n, k).len() == n.kids[k].len());
                assert(y.len() == n.kids[k].len());
                assert(x[k] == y.flatten());
                assert(ke == x.flatten());
                assert(x[k].len() <= ke.len());
                y.lemma_flatten_length_ge_single_element_length(0);
                y.lemma_flatten_and_flatten_alt_are_equivalent();
                lemma_write_nonempty(set, s.children@[k].schema as int, n.kids[k][0], false);
                assert(y[0] == child_ev(set, s, n, k, 0));
            }
        }
        assert(n.kids =~~= init_kids(s));
        match s.text {
            TextBinding::Direct => {
                assert(n.text->Some_0 =~= Seq::<char>::empty());
            },
            _ => {},
        }
        assert(n.text == init_text(s));
        let fin = Node { attrs: n.attrs, kids: init_kids(s), text: init_text(s) };
        assert(fin == n);
    } else {
        assert(x.subrange(0, m) =~= x);
        assert(partial_kids(n, 0) =~= init_kids(s));
        let close = seq![Ev::Close(s.tag@)];
        let open = seq![w[0]];
        assert(w =~= open + (ke + (te + close)));
        lemma_sub(evs, p, open, ke + (te + close));
        lemma_sub(evs, p + 1, ke, te + close);
        lemma_kids(set, sid, n, 0, m, evs, p + 1, n.attrs, init_text(s));
        assert(partial_kids(n, m) =~= n.kids);
        let q = p + 1 + ke.len();
        lemma_tail(set, sid, n, evs, q);
    }
}

/// Round trip: a record that its schema describes, written as the events of
/// an element that stands anywhere in a stream, reads back as the same
/// record, and reading stops right after the element.
pub proof fn lemma_round_trip(set: SchemaSet, sid: int, n: Node, root: bool, before: Seq<Ev>, after: Seq<Ev>)
    requires
        schema_ok(set),
        0 <= sid < set.schemas@.len(),
        valid(set, sid, n),
    ensures
        elem_spec(set, sid, before + write_spec(set, sid, n, root) + after, before.len() as int)
            == Ok::<(Node, int), ReadError>(
            (n, before.len() + write_spec(set, sid, n, root).len() as int),
        ),
{
    let w = write_spec(set, sid, n, root);
    let evs = before + w + after;
    assert(evs.subrange(before.len() as int, before.len() + w.len() as int) =~= w);
    lemma_elem(set, sid, n, root, evs, before.len() as int);
}

/// Optional absence: an attribute slot left unset is written as no
/// attribute of that name, an empty child slot as no events, and reading the
/// output gives the slot back unset and empty.
pub proof fn lemma_optional_absence(set: SchemaSet, sid: int, n: Node, root: bool)
    requires
        schema_ok(set),
        0 <= sid < set.schemas@.len(),
        valid(set, sid, n),
    ensures
        forall|k: int|
            0 <= k < set.schemas@[sid].attrs@.len() && n.attrs[k] is None ==> find_attr(
                open_attrs(set.schemas@[sid], n, root),
                #[trigger] set.schemas@[sid].attrs@[k].name@,
            ) is None,
        forall|k: int|
            0 <= k < set.schemas@[sid].children@.len() && n.kids[k].len() == 0 ==> #[trigger] slot_ev(
                set,
                set.schemas@[sid],
                n,
                k,
            ).len() == 0,
        elem_spec(set, sid, write_spec(set, sid, n, root), 0) matches Ok((r, _)) && r.attrs == n.attrs
            && r.kids == n.kids,
{
    let s = set.schemas@[sid];
    lemma_read_attrs(set, sid, n, root);
    assert forall|k: int|
        0 <= k < s.attrs@.len() && n.attrs[k] is None implies find_attr(
            open_attrs(s, n, root),
            #[trigger] s.attrs@[k].name@,
        ) is None by {
        assert(attr_values(s, open_attrs(s, n, root))[k] == n.attrs[k]);
    }
    assert forall|k: int| 0 <= k < s.children@.len() && n.kids[k].len() == 0 implies #[trigger] slot_ev(
        set,
        s,
        n,
        k,
    ).len() == 0 by {
        assert(slot_seq(set, s, n, k) =~= Seq::<Seq<Ev>>::empty());
    }
    let w = write_spec(set, sid, n, root);
    lemma_round_trip(set, sid, n, root, Seq::empty(), Seq::empty());
    assert(Seq::<Ev>::empty() + w + Seq::<Ev>::empty() =~= w);
}

/// The first member from `i` on whose schema has tag `t`, when the member
/// tags are distinct.
proof fn lemma_member_found(set: SchemaSet, vs: VariantSet, k: int, i: int)
    requires
        0 <= i <= k < vs.members@.len(),
        forall|a: int, b: int|
            0 <= a < b < vs.members@.len() ==> #[trigger] set.schemas@[vs.members@[a] as int].tag@
                != #[trigger] set.schemas@[vs.members@[b] as int].tag@,
    ensures
        member_from(set, vs.members@, set.schemas@[vs.members@[k] as int].tag@, i) == Some(k),
    decreases k - i,
{
    if i < k {
        lemma_member_found(set, vs, k, i + 1);
    }
}

/// Variant dispatch: when the members of a tagged union have distinct tags,
/// the element written for a value of any member reads back as that member,
/// with the same record.
pub proof fn lemma_variant_dispatch(set: SchemaSet, vs: VariantSet, k: int, n: Node, root: bool)
    requires
        schema_ok(set),
        vs.wf(set),
        forall|a: int, b: int|
            0 <= a < b < vs.members@.len() ==> #[trigger] set.schemas@[vs.members@[a] as int].tag@
                != #[trigger] set.schemas@[vs.members@[b] as int].tag@,
        0 <= k < vs.members@.len(),
        valid(set, vs.members@[k] as int, n),
    ensures
        variant_spec(set, vs, write_spec(set, vs.members@[k] as int, n, root), 0) == Ok::<
            (int, Node, int),
            ReadError,
        >((k, n, write_spec(set, vs.members@[k] as int, n, root).len() as int)),
{
    let sid = vs.members@[k] as int;
    let w = write_spec(set, sid, n, root);
    lemma_member_found(set, vs, k, 0);
    lemma_write_nonempty(set, sid, n, root);
    lemma_round_trip(set, sid, n, root, Seq::empty(), Seq::empty());
    assert(Seq::<Ev>::empty() + w + Seq::<Ev>::empty() =~= w);
}

/// Order preservation: a child element read for a binding of cardinality
/// many is appended after the children already read for that binding, and
/// no other slot changes; so a slot lists its elements in document order,
/// whatever stands between them.
pub proof fn lemma_order_preserved(
    set: SchemaSet,
    sid: int,
    evs: Seq<Ev>,
    p: int,
    attrs: Seq<Option<Seq<char>>>,
    kids: Seq<Seq<Node>>,
    text: Option<Seq<char>>,
    k: int,
    c: Node,
    q: int,
)
    requires
        0 <= sid < set.schemas@.len(),
        0 <= p < evs.len(),
        0 <= k < set.schemas@[sid].children@.len(),
        set.schemas@[sid].children@[k].card == Cardinality::Many,
        evs[p] matches Ev::Open(t, _, _) && binding_from(set.schemas@[sid].children@, t, 0) == Some(k),
        elem_spec(set, set.schemas@[sid].children@[k].schema as int, evs, p) == Ok::<(Node, int), ReadError>((c, q)),
        p < q <= evs.len(),
    ensures
        body_spec(set, sid, evs, p, attrs, kids, text) == body_spec(
            set,
            sid,
            evs,
            q,
            attrs,
            kids.update(k, kids[k].push(c)),
            text,
        ),
{
}

/// Unknown content tolerance: inside a record's body, an element whose tag
/// matches no child binding and is not the flattened-text tag is passed over
/// whole, and reading goes on with the slots unchanged.
pub proof fn lemma_unknown_skipped(
    set: SchemaSet,
    sid: int,
    evs: Seq<Ev>,
    p: int,
    attrs: Seq<Option<Seq<char>>>,
    kids: Seq<Seq<Node>>,
    text: Option<Seq<char>>,
    q: int,
)
    requires
        0 <= sid < set.schemas@.len(),
        0 <= p < evs.len(),
        evs[p] matches Ev::Open(t, _, _) && binding_from(set.schemas@[sid].children@, t, 0) is None
            && (match set.schemas@[sid].text {
            TextBinding::Flattened(ft) => ft@ != t,
            _ => true,
        }),
        skip_spec(evs, p) == Ok::<int, ReadError>(q),
        p < q <= evs.len(),
    ensures
        body_spec(set, sid, evs, p, attrs, kids, text) == body_spec(set, sid, evs, q, attrs, kids, text),
{
    assert(skip_then(set, sid, evs, p, attrs, kids, text) == body_spec(set, sid, evs, q, attrs, kids, text));
}

proof fn lemma_skip_shift(pre: Seq<Ev>, u: Seq<Ev>, post: Seq<Ev>, i: int, d: nat, q: int)
    requires
        0 <= i,
        skip_from(u, i, d) == Ok::<int, ReadError>(q),
    ensures
        skip_from(pre + u + post, pre.len() + i, d) == Ok::<int, ReadError>(pre.len() + q),
    decreases u.len() - i,
{
    let evs = pre + u + post;
    if i < u.len() {
        assert(evs[pre.len() + i] == u[i]);
        match u[i] {
            Ev::Open(_, _, empty) => {
                if empty {
                    lemma_skip_shift(pre, u, post, i + 1, d, q);
                } else {
                    lemma_skip_shift(pre, u, post, i + 1, d + 1, q);
                }
            },
            Ev::Close(_) => {
                if d > 1 {
                    lemma_skip_shift(pre, u, post, i + 1, (d - 1) as nat, q);
                }
            },
            Ev::Txt(_) => {
                lemma_skip_shift(pre, u, post, i + 1, d, q);
            },
        }
    }
}

/// The events of the slots before slot `k`.
pub open spec fn events_before_slot(set: SchemaSet, sid: int, n: Node, k: int) -> Seq<Ev> {
    let s = set.schemas@[sid];
    kids_seq(set, s, n, s.children@.len() as int).subrange(0, k).flatten()
}

/// The events of the children of slot `k` before child `j`.
pub open spec fn events_before_child(set: SchemaSet, sid: int, n: Node, k: int, j: int) -> Seq<Ev> {
    slot_seq(set, set.schemas@[sid], n, k).subrange(0, j).flatten()
}

/// The events of the children of slot `k` from child `j` on.
pub open spec fn events_from_child(set: SchemaSet, sid: int, n: Node, k: int, j: int) -> Seq<Ev> {
    let y = slot_seq(set, set.schemas@[sid], n, k);
    y.subrange(j, y.len() as int).flatten()
}

/// The events of the slots after slot `k`.
pub open spec fn events_after_slot(set: SchemaSet, sid: int, n: Node, k: int) -> Seq<Ev> {
    let s = set.schemas@[sid];
    let m = s.children@.len() as int;
    if k < m {
        kids_seq(set, s, n, m).subrange(k + 1, m).flatten()
    } else {
        Seq::empty()
    }
}

/// Where the events of child `j` of slot `k` begin in a written record; with
/// `k` the number of slots, where the text part begins.
pub open spec fn child_start(set: SchemaSet, sid: int, n: Node, k: int, j: int) -> int {
    1 + events_before_slot(set, sid, n, k).len() as int + events_before_child(set, sid, n, k, j).len() as int
}

/// The child slots once slot `k` holds its first `j` children and the
/// earlier slots are full.
pub open spec fn front_state(n: Node, k: int, j: int) -> Seq<Seq<Node>> {
    if 0 <= k < n.kids.len() {
        partial_kids(n, k).update(k, n.kids[k].subrange(0, j))
    } else {
        partial_kids(n, k)
    }
}

proof fn lemma_layout(set: SchemaSet, sid: int, n: Node, k: int, j: int)
    requires
        0 <= sid < set.schemas@.len(),
        valid(set, sid, n),
        0 <= k <= set.schemas@[sid].children@.len(),
        0 <= j <= slot(n, k).len(),
    ensures
        kids_ev(set, set.schemas@[sid], n, set.schemas@[sid].children@.len() as int)
            == events_before_slot(set, sid, n, k) + events_before_child(set, sid, n, k, j)
            + events_from_child(set, sid, n, k, j) + events_after_slot(set, sid, n, k),
{
    let s = set.schemas@[sid];
    let m = s.children@.len() as int;
    let x = kids_seq(set, s, n, m);
    let y = slot_seq(set, s, n, k);
    assert(x.subrange(0, m) =~= x);
    assert(y.subrange(0, y.len() as int) =~= y);
    if k < m {
        assert(x.subrange(0, m) =~= x.subrange(0, k) + x.subrange(k, m));
        lemma_flatten_concat(x.subrange(0, k), x.subrange(k, m));
        lemma_flatten_split(x, k, m);
        assert(x[k] == y.flatten());
        assert(y =~= y.subrange(0, j) + y.subrange(j, y.len() as int));
        lemma_flatten_concat(y.subrange(0, j), y.subrange(j, y.len() as int));
    } else {
        assert(y.len() == 0);
        assert(y.subrange(0, j) =~= Seq::<Seq<Ev>>::empty());
        assert(y.subrange(j, y.len() as int) =~= Seq::<Seq<Ev>>::empty());
        assert(events_before_child(set, sid, n, k, j) =~= Seq::<Ev>::empty());
        assert(events_from_child(set, sid, n, k, j) =~= Seq::<Ev>::empty());
    }
}

proof fn lemma_read_front(set: SchemaSet, sid: int, n: Node, k: int, j: int, evs: Seq<Ev>)
    requires
        schema_ok(set),
        0 <= sid < set.schemas@.len(),
        valid(set, sid, n),
        0 <= k <= set.schemas@[sid].children@.len(),
        0 <= j <= slot(n, k).len(),
        child_start(set, sid, n, k, j) <= evs.len(),
        evs.subrange(1, child_start(set, sid, n, k, j)) == events_before_slot(set, sid, n, k)
            + events_before_child(set, sid, n, k, j),
    ensures
        body_spec(set, sid, evs, 1, n.attrs, init_kids(set.schemas@[sid]), init_text(set.schemas@[sid]))
            == body_spec(
            set,
            sid,
            evs,
            child_start(set, sid, n, k, j),
            n.attrs,
            front_state(n, k, j),
            init_text(set.schemas@[sid]),
        ),
{
    let s = set.schemas@[sid];
    let m = s.children@.len() as int;
    let k0 = events_before_slot(set, sid, n, k);
    let s0 = events_before_child(set, sid, n, k, j);
    lemma_sub(evs, 1, k0, s0);
    assert(partial_kids(n, 0) =~= init_kids(s));
    lemma_kids(set, sid, n, 0, k, evs, 1, n.attrs, init_text(s));
    if k < m {
        assert(n.kids[k].subrange(0, 0) =~= Seq::<Node>::empty());
        assert(partial_kids(n, k).update(k, n.kids[k].subrange(0, 0)) =~= partial_kids(n, k));
        lemma_slot(set, sid, n, k, 0, j, evs, 1 + k0.len() as int, n.attrs, init_text(s));
    } else {
    }
}

proof fn lemma_read_back(set: SchemaSet, sid: int, n: Node, k: int, j: int, evs: Seq<Ev>, p: int)
    requires
        schema_ok(set),
        0 <= sid < set.schemas@.len(),
        valid(set, sid, n),
        0 <= k <= set.schemas@[sid].children@.len(),
        0 <= j <= slot(n, k).len(),
        0 <= p,
        p + (events_from_child(set, sid, n, k, j) + (events_after_slot(set, sid, n, k) + (text_events(
            set.schemas@[sid],
            n,
        ) + seq![Ev::Close(set.schemas@[sid].tag@)]))).len() <= evs.len(),
        evs.subrange(
            p,
            p + (events_from_child(set, sid, n, k, j) + (events_after_slot(set, sid, n, k) + (text_events(
                set.schemas@[sid],
                n,
            ) + seq![Ev::Close(set.schemas@[sid].tag@)]))).len(),
        ) == events_from_child(set, sid, n, k, j) + (events_after_slot(set, sid, n, k) + (text_events(
            set.schemas@[sid],
            n,
        ) + seq![Ev::Close(set.schemas@[sid].tag@)])),
    ensures
        body_spec(
            set,
            sid,
            evs,
            p,
            n.attrs,
            front_state(n, k, j),
            init_text(set.schemas@[sid]),
        ) == Ok::<(Node, int), ReadError>(
            (
                n,
                p + (events_from_child(set, sid, n, k, j) + (events_after_slot(set, sid, n, k) + (
                text_events(set.schemas@[sid], n) + seq![Ev::Close(set.schemas@[sid].tag@)]))).len(),
            ),
        ),
{
    let s = set.schemas@[sid];
    let m = s.children@.len() as int;
    let s1 = events_from_child(set, sid, n, k, j);
    let k1 = events_after_slot(set, sid, n, k);
    let tc = text_events(s, n) + seq![Ev::Close(s.tag@)];
    lemma_sub(evs, p, s1, k1 + tc);
    lemma_sub(evs, p + s1.len(), k1, tc);
    if k < m {
        let y = slot_seq(set, s, n, k);
        lemma_slot(set, sid, n, k, j, n.kids[k].len() as int, evs, p, n.attrs, init_text(s));
        assert(n.kids[k].subrange(0, n.kids[k].len() as int) =~= n.kids[k]);
        assert(partial_kids(n, k).update(k, n.kids[k]) =~= partial_kids(n, k + 1));
        lemma_kids(set, sid, n, k + 1, m, evs, p + s1.len() as int, n.attrs, init_text(s));
    } else {
        assert(s1 =~= Seq::<Ev>::empty()) by {
            let y = slot_seq(set, s, n, k);
            assert(y.subrange(j, y.len() as int) =~= Seq::<Seq<Ev>>::empty());
        }
    }
    assert(partial_kids(n, m) =~= n.kids);
    lemma_tail(set, sid, n, evs, p + s1.len() as int + k1.len() as int);
}

/// Unknown content tolerance, for a whole element: an element whose tag the
/// schema does not know, put before any child of a written record with a
/// body (or before its text part), is passed over; the same record reads
/// back, and reading ends after the record's closing tag.
#[verifier::rlimit(100)]
pub proof fn lemma_unknown_content(
    set: SchemaSet,
    sid: int,
    n: Node,
    root: bool,
    k: int,
    j: int,
    u: Seq<Ev>,
)
    requires
        schema_ok(set),
        0 <= sid < set.schemas@.len(),
        valid(set, sid, n),
        write_spec(set, sid, n, root).len() > 1,
        0 <= k <= set.schemas@[sid].children@.len(),
        0 <= j <= slot(n, k).len(),
        u.len() > 0,
        u[0] matches Ev::Open(t, _, _) && binding_from(set.schemas@[sid].children@, t, 0) is None
            && (match set.schemas@[sid].text {
            TextBinding::Flattened(ft) => ft@ != t,
            _ => true,
        }),
        skip_spec(u, 0) == Ok::<int, ReadError>(u.len() as int),
    ensures
        ({
            let w = write_spec(set, sid, n, root);
            let c = child_start(set, sid, n, k, j);
            elem_spec(set, sid, w.subrange(0, c) + u + w.subrange(c, w.len() as int), 0) == Ok::<
                (Node, int),
                ReadError,
            >((n, w.len() + u.len() as int))
        }),
{
    let s = set.schemas@[sid];
    let w = write_spec(set, sid, n, root);
    let m = s.children@.len() as int;
    let ke = kids_ev(set, s, n, m);
    let tc = text_events(s, n) + seq![Ev::Close(s.tag@)];
    let open = seq![w[0]];
    assert(w =~= open + (ke + tc));
    lemma_layout(set, sid, n, k, j);
    let k0 = events_before_slot(set, sid, n, k);
    let s0 = events_before_child(set, sid, n, k, j);
    let back = events_from_child(set, sid, n, k, j) + (events_after_slot(set, sid, n, k) + tc);
    let c = child_start(set, sid, n, k, j);
    let head = open + (k0 + s0);
    assert(w =~= head + back);
    assert(w.subrange(0, c) =~= head);
    assert(w.subrange(c, w.len() as int) =~= back);
    let evs = head + u + back;
    lemma_read_attrs(set, sid, n, root);
    assert(evs[0] == w[0]);
    assert(evs.subrange(1, c) =~= k0 + s0);
    lemma_read_front(set, sid, n, k, j, evs);
    let st = front_state(n, k, j);
    assert(evs[c] == u[0]);
    if u[0] matches Ev::Open(_, _, empty) && empty {
        assert(u.len() == 1);
        assert(skip_spec(evs, c) == Ok::<int, ReadError>(c + 1));
    } else {
        lemma_skip_shift(head, u, back, 1, 1, u.len() as int);
    }
    let p = c + u.len() as int;
    assert(skip_spec(evs, c) == Ok::<int, ReadError>(p));
    lemma_unknown_skipped(set, sid, evs, c, n.attrs, st, init_text(s), p);
    assert(evs.subrange(p, p + back.len() as int) =~= back);
    lemma_read_back(set, sid, n, k, j, evs, p);
}

} // verus!
