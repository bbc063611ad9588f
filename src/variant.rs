//! Tagged unions: choosing a member by the tag of its element.
use vstd::prelude::*;
use crate::event::{Ev, Event, events_model};
use crate::reader::{ReadError, elem_spec, read_element};
use crate::schema::{Element, Node, SchemaSet, chars_eq};
use crate::writer::{write_element, write_spec};

verus! {

/// The members of a tagged union, in order; each is the index of its
/// schema, whose tag is the member's tag.
pub struct VariantSet {
    pub members: Vec<usize>,
}

/// A value of a tagged union: the member it belongs to and its record.
#[derive(Debug)]
pub struct Variant {
    /// Index into `VariantSet::members`.
    pub kind: usize,
    pub value: Element,
}

impl VariantSet {
    pub open spec fn wf(&self, set: SchemaSet) -> bool {
        forall|k: int| 0 <= k < self.members@.len() ==> #[trigger] self.members@[k] < set.schemas@.len()
    }
}

/// The first member from `k` on whose schema has tag `t`.
pub open spec fn member_from(set: SchemaSet, ms: Seq<usize>, t: Seq<char>, k: int) -> Option<int>
    decreases ms.len() - k,
{
    if k < 0 || k >= ms.len() {
        None
    } else if set.schemas@[ms[k] as int].tag@ == t {
        Some(k)
    } else {
        member_from(set, ms, t, k + 1)
    }
}

/// Reads the value whose element opens at `pos`: the kind, the record and
/// the position after the element.
pub open spec fn variant_spec(set: SchemaSet, vs: VariantSet, evs: Seq<Ev>, pos: int) -> Result<
    (int, Node, int),
    ReadError,
> {
    if pos < 0 || pos >= evs.len() {
        Err(ReadError::UnexpectedEnd)
    } else {
        match evs[pos] {
            Ev::Open(t, _, _) => match member_from(set, vs.members@, t, 0) {
                None => Err(ReadError::UnknownVariant),
                Some(k) => match elem_spec(set, vs.members@[k] as int, evs, pos) {
                    Ok((n, q)) => Ok((k, n, q)),
                    Err(x) => Err(x),
                },
            },
            _ => Err(ReadError::UnexpectedTag),
        }
    }
}

pub open spec fn res_variant(r: Result<(Variant, usize), ReadError>) -> Result<(int, Node, int), ReadError> {
    match r {
        Ok((v, q)) => Ok((v.kind as int, v.value.model(), q as int)),
        Err(x) => Err(x),
    }
}

fn find_member(set: &SchemaSet, vs: &VariantSet, t: &Vec<char>) -> (r: Option<usize>)
    requires
        vs.wf(*set),
    ensures
        match r {
            Some(k) => k < vs.members@.len() && member_from(*set, vs.members@, t@, 0) == Some(k as int),
            None => member_from(*set, vs.members@, t@, 0) is None,
        },
{
    let mut k: usize = 0;
    while k < vs.members.len()
        invariant
            k <= vs.members@.len(),
            vs.wf(*set),
            member_from(*set, vs.members@, t@, 0) == member_from(*set, vs.members@, t@, k as int),
        decreases vs.members@.len() - k,
    {
        let sid = vs.members[k];
        if chars_eq(&set.schemas[sid].tag, t) {
            return Some(k);
        }
        k = k + 1;
    }
    None
}

/// Reads the value of a tagged union whose element opens at `pos`, choosing
/// the first member with the element's tag.
pub fn read_variant(set: &SchemaSet, vs: &VariantSet, evs: &Vec<Event>, pos: usize) -> (r: Result<(Variant, usize), ReadError>)
    requires
        set.wf(),
        vs.wf(*set),
    ensures
        res_variant(r) == variant_spec(*set, *vs, events_model(evs@), pos as int),
{
    if pos >= evs.len() {
        return Err(ReadError::UnexpectedEnd);
    }
    let t = match &evs[pos] {
        Event::Start(t, _) => t,
        Event::Empty(t, _) => t,
        _ => {
            return Err(ReadError::UnexpectedTag);
        },
    };
    match find_member(set, vs, t) {
        None => Err(ReadError::UnknownVariant),
        Some(k) => {
            match read_element(set, vs.members[k], evs, pos) {
                Ok((e, q)) => Ok((Variant { kind: k, value: e }, q)),
                Err(x) => Err(x),
            }
        },
    }
}

/// Appends the events of a value of a tagged union, written with the schema
/// of its member.
pub fn write_variant(set: &SchemaSet, vs: &VariantSet, v: &Variant, root: bool, out: &mut Vec<Event>)
    requires
        set.wf(),
        vs.wf(*set),
        v.kind < vs.members@.len(),
    ensures
        events_model(final(out)@) == events_model(old(out)@) + write_spec(
            *set,
            vs.members@[v.kind as int] as int,
            v.value.model(),
            root,
        ),
{
    write_element(set, vs.members[v.kind], &v.value, root, out);
}

} // verus!
