//! XML events and their textual form.
use vstd::prelude::*;
use crate::schema::{Attribute, append_chars};

verus! {

/// One event of an XML stream.
#[derive(Clone, Debug, PartialEq, Eq)]
pub enum Event {
    /// An opening tag with a body: `<tag a="v">`.
    Start(Vec<char>, Vec<Attribute>),
    /// A self-closing tag: `<tag a="v"/>`.
    Empty(Vec<char>, Vec<Attribute>),
    /// A closing tag: `</tag>`.
    End(Vec<char>),
    /// Character data.
    Text(Vec<char>),
}

/// The mathematical form of an event. `Open`'s flag tells a self-closing tag.
pub enum Ev {
    Open(Seq<char>, Seq<(Seq<char>, Seq<char>)>, bool),
    Close(Seq<char>),
    Txt(Seq<char>),
}

pub open spec fn attrs_model(a: Seq<Attribute>) -> Seq<(Seq<char>, Seq<char>)> {
    Seq::new(a.len(), |i: int| (a[i].name@, a[i].value@))
}

impl Event {
    pub open spec fn model(&self) -> Ev {
        match self {
            Event::Start(t, a) => Ev::Open(t@, attrs_model(a@), false),
            Event::Empty(t, a) => Ev::Open(t@, attrs_model(a@), true),
            Event::End(t) => Ev::Close(t@),
            Event::Text(t) => Ev::Txt(t@),
        }
    }
}

pub open spec fn events_model(v: Seq<Event>) -> Seq<Ev> {
    Seq::new(v.len(), |i: int| v[i].model())
}

pub open spec fn attr_text(a: (Seq<char>, Seq<char>)) -> Seq<char> {
    seq![' '] + a.0 + seq!['=', '"'] + a.1 + seq!['"']
}

pub open spec fn attrs_text(a: Seq<(Seq<char>, Seq<char>)>) -> Seq<char>
    decreases a.len(),
{
    if a.len() == 0 {
        Seq::empty()
    } else {
        attrs_text(a.drop_last()) + attr_text(a.last())
    }
}

/// The text of one event.
pub open spec fn event_text(e: Ev) -> Seq<char> {
    match e {
        Ev::Open(t, a, empty) => seq!['<'] + t + attrs_text(a) + if empty {
            seq!['/', '>']
        } else {
            seq!['>']
        },
        Ev::Close(t) => seq!['<', '/'] + t + seq!['>'],
        Ev::Txt(t) => t,
    }
}

/// The text of an event stream.
pub open spec fn render(s: Seq<Ev>) -> Seq<char>
    decreases s.len(),
{
    if s.len() == 0 {
        Seq::empty()
    } else {
        render(s.drop_last()) + event_text(s.last())
    }
}

fn write_attrs(out: &mut Vec<char>, a: &Vec<Attribute>)
    ensures
        final(out)@ == old(out)@ + attrs_text(attrs_model(a@)),
{
    let mut i: usize = 0;
    while i < a.len()
        invariant
            i <= a@.len(),
            out@ == old(out)@ + attrs_text(attrs_model(a@.subrange(0, i as int))),
        decreases a@.len() - i,
    {
        let ghost before = out@;
        out.push(' ');
        append_chars(out, &a[i].name);
        out.push('=');
        out.push('"');
        append_chars(out, &a[i].value);
        out.push('"');
        proof {
            let m = attrs_model(a@.subrange(0, i + 1));
            assert(m.drop_last() =~= attrs_model(a@.subrange(0, i as int)));
            assert(out@ =~= before + attr_text(m.last()));
        }
        i = i + 1;
    }
    assert(a@.subrange(0, i as int) =~= a@);
}

/// Appends the text of one event.
pub fn write_event(out: &mut Vec<char>, e: &Event)
    ensures
        final(out)@ == old(out)@ + event_text(e.model()),
{
    match e {
        Event::Start(t, a) => {
            out.push('<');
            append_chars(out, t);
            write_attrs(out, a);
            out.push('>');
        },
        Event::Empty(t, a) => {
            out.push('<');
            append_chars(out, t);
            write_attrs(out, a);
            out.push('/');
            out.push('>');
        },
        Event::End(t) => {
            out.push('<');
            out.push('/');
            append_chars(out, t);
            out.push('>');
        },
        Event::Text(t) => {
            append_chars(out, t);
        },
    }
    assert(out@ =~= old(out)@ + event_text(e.model()));
}

/// The text of an event stream.
pub fn render_events(evs: &Vec<Event>) -> (r: Vec<char>)
    ensures
        r@ == render(events_model(evs@)),
{
    let mut out: Vec<char> = Vec::new();
    let mut i: usize = 0;
    while i < evs.len()
        invariant
            i <= evs@.len(),
            out@ == render(events_model(evs@.subrange(0, i as int))),
        decreases evs@.len() - i,
    {
        write_event(&mut out, &evs[i]);
        proof {
            let m = events_model(evs@.subrange(0, i + 1));
            assert(m.drop_last() =~= events_model(evs@.subrange(0, i as int)));
        }
        i = i + 1;
    }
    assert(evs@.subrange(0, i as int) =~= evs@);
    out
}

} // verus!
