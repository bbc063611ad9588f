//! Whole documents: records to XML text and back.
use vstd::prelude::*;
use crate::event::{events_model, render};
use crate::parse::{ParseError, parse_events, stream_ok};
use crate::reader::{ReadError, elem_spec, read_element};
use crate::schema::{Element, SchemaSet};
use crate::variant::{Variant, VariantSet, read_variant, variant_spec, write_variant};
use crate::writer::{write_document, write_spec};

verus! {

/// Why a document could not be read.
#[derive(PartialEq, Eq, Structural, Clone, Copy, Debug)]
pub enum XmlError {
    Parse(ParseError),
    Read(ReadError),
}

/// The XML text of a document whose outermost element is record `e`.
pub fn to_xml(set: &SchemaSet, sid: usize, e: &Element) -> (r: Vec<char>)
    requires
        set.wf(),
        sid < set.schemas@.len(),
    ensures
        r@ == render(write_spec(*set, sid as int, e.model(), true)),
{
    let evs = write_document(set, sid, e);
    crate::event::render_events(&evs)
}

/// Reads a record of schema `sid` from the start of an XML text: the text is
/// split into events, and the result is what the reader gives on them. What
/// follows the record's element is not read.
pub fn from_xml(set: &SchemaSet, sid: usize, input: &Vec<char>) -> (r: Result<Element, XmlError>)
    requires
        set.wf(),
        sid < set.schemas@.len(),
    ensures
        r matches Ok(e) ==> exists|evs: Seq<crate::event::Ev>, q: int|
            render(evs) == input@ && elem_spec(*set, sid as int, evs, 0) == Ok::<(crate::schema::Node, int), ReadError>((e.model(), q)),
        r matches Err(XmlError::Read(x)) ==> exists|evs: Seq<crate::event::Ev>|
            render(evs) == input@ && elem_spec(*set, sid as int, evs, 0) == Err::<(crate::schema::Node, int), ReadError>(x),
        (exists|s: Seq<crate::event::Ev>| stream_ok(s) && render(s) == input@) ==> !(r matches Err(
            XmlError::Parse(_),
        )),
        forall|s: Seq<crate::event::Ev>|
            stream_ok(s) && render(s) == input@ ==> match elem_spec(*set, sid as int, s, 0) {
                Ok((n, _)) => r matches Ok(e) && e.model() == n,
                Err(x) => r == Err::<Element, XmlError>(XmlError::Read(x)),
            },
{
    match parse_events(input) {
        Err(x) => Err(XmlError::Parse(x)),
        Ok(evs) => {
            let ghost m = events_model(evs@);
            match read_element(set, sid, &evs, 0) {
                Ok((e, q)) => {
                    assert(render(m) == input@ && elem_spec(*set, sid as int, m, 0) == Ok::<(crate::schema::Node, int), ReadError>((e.model(), q as int)));
                    Ok(e)
                },
                Err(x) => {
                    assert(render(m) == input@ && elem_spec(*set, sid as int, m, 0) == Err::<(crate::schema::Node, int), ReadError>(x));
                    Err(XmlError::Read(x))
                },
            }
        },
    }
}

/// The XML text of a value of a tagged union, as a document.
pub fn variant_to_xml(set: &SchemaSet, vs: &VariantSet, v: &Variant) -> (r: Vec<char>)
    requires
        set.wf(),
        vs.wf(*set),
        v.kind < vs.members@.len(),
    ensures
        r@ == render(write_spec(*set, vs.members@[v.kind as int] as int, v.value.model(), true)),
{
    let mut evs: Vec<crate::event::Event> = Vec::new();
    write_variant(set, vs, v, true, &mut evs);
    assert(events_model(Seq::empty()) =~= Seq::<crate::event::Ev>::empty());
    assert(events_model(evs@) =~= write_spec(*set, vs.members@[v.kind as int] as int, v.value.model(), true));
    crate::event::render_events(&evs)
}

/// Reads a value of a tagged union from the start of an XML text.
pub fn variant_from_xml(set: &SchemaSet, vs: &VariantSet, input: &Vec<char>) -> (r: Result<Variant, XmlError>)
    requires
        set.wf(),
        vs.wf(*set),
    ensures
        r matches Ok(v) ==> exists|evs: Seq<crate::event::Ev>, q: int|
            render(evs) == input@ && variant_spec(*set, *vs, evs, 0) == Ok::<(int, crate::schema::Node, int), ReadError>((v.kind as int, v.value.model(), q)),
        r matches Err(XmlError::Read(x)) ==> exists|evs: Seq<crate::event::Ev>|
            render(evs) == input@ && variant_spec(*set, *vs, evs, 0) == Err::<(int, crate::schema::Node, int), ReadError>(x),
        (exists|s: Seq<crate::event::Ev>| stream_ok(s) && render(s) == input@) ==> !(r matches Err(
            XmlError::Parse(_),
        )),
        forall|s: Seq<crate::event::Ev>|
            stream_ok(s) && render(s) == input@ ==> match variant_spec(*set, *vs, s, 0) {
                Ok((k, n, _)) => r matches Ok(v) && v.kind == k && v.value.model() == n,
                Err(x) => r == Err::<Variant, XmlError>(XmlError::Read(x)),
            },
{
    match parse_events(input) {
        Err(x) => Err(XmlError::Parse(x)),
        Ok(evs) => {
            let ghost m = events_model(evs@);
            match read_variant(set, vs, &evs, 0) {
                Ok((v, q)) => {
                    assert(render(m) == input@ && variant_spec(*set, *vs, m, 0) == Ok::<(int, crate::schema::Node, int), ReadError>((v.kind as int, v.value.model(), q as int)));
                    Ok(v)
                },
                Err(x) => {
                    assert(render(m) == input@ && variant_spec(*set, *vs, m, 0) == Err::<(int, crate::schema::Node, int), ReadError>(x));
                    Err(XmlError::Read(x))
                },
            }
        },
    }
}

} // verus!
