//! Checking a schema table before use.
use vstd::prelude::*;
use crate::event::attrs_model;
use crate::laws::{schema_ok, schema_shape_ok};
use crate::reader::find_attr_value;
use crate::schema::{ElementSchema, SchemaSet, TextBinding, chars_eq};

verus! {

/// Whether every child binding refers to a schema of the table.
fn check_refs(set: &SchemaSet) -> (r: bool)
    ensures
        r == set.wf(),
{
    let n = set.schemas.len();
    let mut s: usize = 0;
    while s < n
        invariant
            s <= n,
            n == set.schemas@.len(),
            forall|x: int, k: int|
                0 <= x < s && 0 <= k < set.schemas@[x].children@.len()
                    ==> #[trigger] set.schemas@[x].children@[k].schema < n,
        decreases n - s,
    {
        let cs = &set.schemas[s].children;
        let mut k: usize = 0;
        while k < cs.len()
            invariant
                s < n,
                n == set.schemas@.len(),
                *cs == set.schemas@[s as int].children,
                k <= cs@.len(),
                forall|x: int, q: int|
                    0 <= x < s && 0 <= q < set.schemas@[x].children@.len()
                        ==> #[trigger] set.schemas@[x].children@[q].schema < n,
                forall|q: int| 0 <= q < k ==> #[trigger] cs@[q].schema < n,
            decreases cs@.len() - k,
        {
            if cs[k].schema >= n {
                return false;
            }
            k = k + 1;
        }
        s = s + 1;
    }
    true
}

/// Whether one schema of a well-referenced table meets the conditions of
/// `schema_shape_ok`.
fn check_shape(set: &SchemaSet, s: &ElementSchema) -> (r: bool)
    requires
        set.wf(),
        forall|k: int| 0 <= k < s.children@.len() ==> #[trigger] s.children@[k].schema < set.schemas@.len(),
    ensures
        r == schema_shape_ok(*set, *s),
{
    let na = s.attrs.len();
    let mut a: usize = 0;
    while a < na
        invariant
            na == s.attrs@.len(),
            a <= na,
            forall|x: int, y: int| 0 <= x < y < a ==> #[trigger] s.attrs@[x].name@ != #[trigger] s.attrs@[y].name@,
            forall|x: int| 0 <= x < a ==> ns_lacks(s, #[trigger] s.attrs@[x].name@),
        decreases na - a,
    {
        let mut b: usize = 0;
        while b < a
            invariant
                na == s.attrs@.len(),
                b <= a < na,
                forall|x: int| 0 <= x < b ==> #[trigger] s.attrs@[x].name@ != s.attrs@[a as int].name@,
            decreases a - b,
        {
            if chars_eq(&s.attrs[b].name, &s.attrs[a].name) {
                return false;
            }
            b = b + 1;
        }
        if find_attr_value(&s.ns_decls, &s.attrs[a].name).is_some() {
            return false;
        }
        a = a + 1;
    }
    let nc = s.children.len();
    let mut c: usize = 0;
    while c < nc
        invariant
            na == s.attrs@.len(),
            nc == s.children@.len(),
            c <= nc,
            forall|x: int, y: int| 0 <= x < y < na ==> #[trigger] s.attrs@[x].name@ != #[trigger] s.attrs@[y].name@,
            forall|x: int| 0 <= x < na ==> ns_lacks(s, #[trigger] s.attrs@[x].name@),
            forall|x: int, y: int| 0 <= x < y < c ==> #[trigger] s.children@[x].tag@ != #[trigger] s.children@[y].tag@,
            forall|x: int| 0 <= x < c ==> (match s.text {
                TextBinding::Flattened(ft) => ft@ != #[trigger] s.children@[x].tag@,
                _ => true,
            }),
            forall|x: int| 0 <= x < c ==> set.schemas@[#[trigger] s.children@[x].schema as int].tag@
                == s.children@[x].tag@,
            forall|k: int| 0 <= k < s.children@.len() ==> #[trigger] s.children@[k].schema < set.schemas@.len(),
        decreases nc - c,
    {
        let mut b: usize = 0;
        while b < c
            invariant
                nc == s.children@.len(),
                b <= c < nc,
                forall|x: int| 0 <= x < b ==> #[trigger] s.children@[x].tag@ != s.children@[c as int].tag@,
            decreases c - b,
        {
            if chars_eq(&s.children[b].tag, &s.children[c].tag) {
                return false;
            }
            b = b + 1;
        }
        match &s.text {
            TextBinding::Flattened(ft) => {
                if chars_eq(ft, &s.children[c].tag) {
                    return false;
                }
            },
            _ => {},
        }
        if !chars_eq(&set.schemas[s.children[c].schema].tag, &s.children[c].tag) {
            return false;
        }
        c = c + 1;
    }
    true
}

/// No namespace declaration of the schema carries this name.
pub open spec fn ns_lacks(s: &ElementSchema, name: Seq<char>) -> bool {
    crate::reader::find_attr(attrs_model(s.ns_decls@), name) is None
}

/// Whether a schema table meets the conditions under which its records
/// round-trip: see `schema_ok`. A table that fails is a construction error.
pub fn check_schemas(set: &SchemaSet) -> (r: bool)
    ensures
        r == schema_ok(*set),
{
    if !check_refs(set) {
        return false;
    }
    let n = set.schemas.len();
    let mut s: usize = 0;
    while s < n
        invariant
            n == set.schemas@.len(),
            s <= n,
            set.wf(),
            forall|x: int| 0 <= x < s ==> #[trigger] schema_shape_ok(*set, set.schemas@[x]),
        decreases n - s,
    {
        let sc = &set.schemas[s];
        assert forall|k: int| 0 <= k < sc.children@.len() implies #[trigger] sc.children@[k].schema < set.schemas@.len() by {
            assert(set.schemas@[s as int].children@[k].schema < set.schemas@.len());
        }
        if !check_shape(set, sc) {
            return false;
        }
        s = s + 1;
    }
    true
}

} // verus!
