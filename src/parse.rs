//! Splitting XML text into events.
use vstd::prelude::*;
use crate::event::{Ev, Event, attr_text, attrs_model, attrs_text, event_text, events_model, render};
use crate::schema::Attribute;

verus! {

/// Why a text is not a stream of events.
#[derive(PartialEq, Eq, Structural, Clone, Copy, Debug)]
pub enum ParseError {
    /// A tag is malformed or unterminated.
    BadTag,
}

/// Characters that may stand in a tag or attribute name.
pub open spec fn is_name_char(c: char) -> bool {
    c != ' ' && c != '=' && c != '>' && c != '/' && c != '<' && c != '"'
}

/// A name: non-empty, of name characters only.
pub open spec fn name_ok(t: Seq<char>) -> bool {
    t.len() > 0 && forall|q: int| 0 <= q < t.len() ==> is_name_char(#[trigger] t[q])
}

/// An attribute value: no double quote.
pub open spec fn value_ok(v: Seq<char>) -> bool {
    forall|q: int| 0 <= q < v.len() ==> #[trigger] v[q] != '"'
}

/// Character data: non-empty, with no `<`.
pub open spec fn chardata_ok(t: Seq<char>) -> bool {
    t.len() > 0 && forall|q: int| 0 <= q < t.len() ==> #[trigger] t[q] != '<'
}

/// An event that has a textual form the tokenizer reads back.
pub open spec fn event_ok(e: Ev) -> bool {
    match e {
        Ev::Open(t, a, _) => name_ok(t) && forall|k: int|
            0 <= k < a.len() ==> name_ok(#[trigger] a[k].0) && value_ok(a[k].1),
        Ev::Close(t) => name_ok(t),
        Ev::Txt(t) => chardata_ok(t),
    }
}

/// A stream of such events with no two character data events side by side.
pub open spec fn stream_ok(s: Seq<Ev>) -> bool {
    &&& forall|k: int| 0 <= k < s.len() ==> event_ok(#[trigger] s[k])
    &&& forall|k: int| 0 <= k < s.len() - 1 ==> !(#[trigger] s[k] is Txt && s[k + 1] is Txt)
}

/// `input` holds `w` from position `p` on.
pub open spec fn holds_at(input: Seq<char>, p: int, w: Seq<char>) -> bool {
    0 <= p && p + w.len() <= input.len() && input.subrange(p, p + w.len()) == w
}

proof fn lemma_holds_split(input: Seq<char>, p: int, x: Seq<char>, y: Seq<char>)
    requires
        holds_at(input, p, x + y),
    ensures
        holds_at(input, p, x),
        holds_at(input, p + x.len(), y),
{
    let w = x + y;
    let whole = input.subrange(p, p + w.len());
    assert(w.subrange(0, x.len() as int) =~= x);
    assert(w.subrange(x.len() as int, w.len() as int) =~= y);
    assert(input.subrange(p, p + x.len()) =~= whole.subrange(0, x.len() as int));
    assert(input.subrange(p + x.len(), p + x.len() + y.len()) =~= whole.subrange(x.len() as int, w.len() as int));
}

proof fn lemma_holds_index(input: Seq<char>, p: int, w: Seq<char>)
    requires
        holds_at(input, p, w),
    ensures
        forall|q: int| 0 <= q < w.len() ==> input[p + q] == #[trigger] w[q],
{
    assert forall|q: int| 0 <= q < w.len() implies input[p + q] == #[trigger] w[q] by {
        assert(input.subrange(p, p + w.len())[q] == input[p + q]);
    }
}

proof fn lemma_holds_one(input: Seq<char>, p: int, w: Seq<char>, q: int)
    requires
        holds_at(input, p, w),
        0 <= q < w.len(),
    ensures
        input[p + q] == w[q],
{
    assert(input.subrange(p, p + w.len())[q] == input[p + q]);
}

proof fn lemma_attrs_text_concat(x: Seq<(Seq<char>, Seq<char>)>, y: Seq<(Seq<char>, Seq<char>)>)
    ensures
        attrs_text(x + y) == attrs_text(x) + attrs_text(y),
    decreases y.len(),
{
    if y.len() == 0 {
        assert(x + y =~= x);
        assert(attrs_text(x) + attrs_text(y) =~= attrs_text(x));
    } else {
        assert((x + y).drop_last() =~= x + y.drop_last());
        lemma_attrs_text_concat(x, y.drop_last());
        assert(attrs_text(x + y) =~= attrs_text(x) + attrs_text(y));
    }
}

proof fn lemma_attrs_text_step(a: Seq<(Seq<char>, Seq<char>)>, m: int)
    requires
        0 <= m < a.len(),
    ensures
        attrs_text(a.subrange(m, a.len() as int)) == attr_text(a[m]) + attrs_text(a.subrange(m + 1, a.len() as int)),
        attrs_text(a.subrange(0, m + 1)) == attrs_text(a.subrange(0, m)) + attr_text(a[m]),
{
    let one = seq![a[m]];
    assert(a.subrange(m, a.len() as int) =~= one + a.subrange(m + 1, a.len() as int));
    lemma_attrs_text_concat(one, a.subrange(m + 1, a.len() as int));
    assert(one.drop_last() =~= Seq::<(Seq<char>, Seq<char>)>::empty());
    assert(one.last() == a[m]);
    assert(attrs_text(one) == attrs_text(one.drop_last()) + attr_text(one.last()));
    assert(attrs_text(one) =~= attr_text(a[m]));
    assert(a.subrange(0, m + 1).drop_last() =~= a.subrange(0, m));
}

fn name_char(c: char) -> (r: bool)
    ensures
        r == is_name_char(c),
{
    c != ' ' && c != '=' && c != '>' && c != '/' && c != '<' && c != '"'
}

/// The characters of `input` from `i` to `j`.
fn take(input: &Vec<char>, i: usize, j: usize) -> (r: Vec<char>)
    requires
        i <= j <= input@.len(),
    ensures
        r@ == input@.subrange(i as int, j as int),
{
    let mut r: Vec<char> = Vec::new();
    let mut k: usize = i;
    while k < j
        invariant
            i <= k <= j <= input@.len(),
            r@ == input@.subrange(i as int, k as int),
        decreases j - k,
    {
        r.push(input[k]);
        k = k + 1;
        assert(r@ =~= input@.subrange(i as int, k as int));
    }
    r
}

/// The end of the run of name characters that starts at `i`.
fn scan_name(input: &Vec<char>, i: usize) -> (j: usize)
    requires
        i <= input@.len(),
    ensures
        i <= j <= input@.len(),
        forall|q: int| i <= q < j ==> is_name_char(#[trigger] input@[q]),
        j < input@.len() ==> !is_name_char(input@[j as int]),
{
    let mut j: usize = i;
    while j < input.len() && name_char(input[j])
        invariant
            i <= j <= input@.len(),
            forall|q: int| i <= q < j ==> is_name_char(#[trigger] input@[q]),
        decreases input@.len() - j,
    {
        j = j + 1;
    }
    j
}

/// The first position from `i` on that holds `c`, or the end.
fn scan_until(input: &Vec<char>, i: usize, c: char) -> (j: usize)
    requires
        i <= input@.len(),
    ensures
        i <= j <= input@.len(),
        j < input@.len() ==> input@[j as int] == c,
        forall|q: int| i <= q < j ==> #[trigger] input@[q] != c,
{
    let mut j: usize = i;
    while j < input.len() && input[j] != c
        invariant
            i <= j <= input@.len(),
            forall|q: int| i <= q < j ==> #[trigger] input@[q] != c,
        decreases input@.len() - j,
    {
        j = j + 1;
    }
    j
}

/// Reads the tag that starts with `<` at `i`; gives the event and the
/// position after it. Where the text from `i` on begins with the text of the
/// well-formed tag `e`, the tag is read whole.
#[verifier::rlimit(60)]
fn parse_tag(input: &Vec<char>, i: usize, Ghost(e): Ghost<Ev>) -> (r: Result<(Event, usize), ParseError>)
    requires
        i < input@.len(),
        input@[i as int] == '<',
    ensures
        r matches Ok((x, j)) ==> i < j <= input@.len() && event_text(x.model())
            == input@.subrange(i as int, j as int),
        r matches Ok((x, _)) ==> event_ok(x.model()) && !(x.model() is Txt),
        event_ok(e) && !(e is Txt) && holds_at(input@, i as int, event_text(e)) ==> (r matches Ok(
            (_, j),
        ) && j == i + event_text(e).len()),
{
    let ghost hit = event_ok(e) && !(e is Txt) && holds_at(input@, i as int, event_text(e));
    let ghost w = event_text(e);
    let n = input.len();
    proof {
        if hit {
            lemma_holds_index(input@, i as int, w);
            match e {
                Ev::Open(t, a, empty) => {
                    assert(w[1] == t[0]);
                },
                Ev::Close(t) => {
                    assert(w[1] == '/');
                },
                _ => {},
            }
        }
    }
    if i + 1 < n && input[i + 1] == '/' {
        let ghost t = e->Close_0;
        proof {
            if hit {
                assert(e is Close);
                assert(w =~= seq!['<', '/'] + t + seq!['>']);
                assert forall|q: int| 0 <= q < t.len() implies input@[i + 2 + q] == t[q] by {
                    assert(w[2 + q] == t[q]);
                }
                assert(input@[i + 2 + t.len()] == '>') by {
                    assert(w[2 + t.len() as int] == '>');
                }
            }
        }
        let k = scan_name(input, i + 2);
        proof {
            if hit {
                if k < i + 2 + t.len() {
                    assert(is_name_char(t[k - i - 2]));
                    assert(input@[k as int] == t[k - i - 2]);
                }
                if k > i + 2 + t.len() {
                    assert(is_name_char(input@[i + 2 + t.len()]));
                }
                assert(k == i + 2 + t.len());
            }
        }
        if k == i + 2 || k >= n || input[k] != '>' {
            return Err(ParseError::BadTag);
        }
        let t = take(input, i + 2, k);
        let x = Event::End(t);
        assert(event_text(x.model()) =~= input@.subrange(i as int, k + 1));
        assert(name_ok(t@));
        return Ok((x, k + 1));
    }
    let ghost t = e->Open_0;
    let ghost av = e->Open_1;
    let ghost end = if e->Open_2 {
        seq!['/', '>']
    } else {
        seq!['>']
    };
    proof {
        if hit {
            assert(e is Open);
            assert(w =~= seq!['<'] + t + (attrs_text(av) + end));
            lemma_holds_split(input@, i as int, seq!['<'] + t, attrs_text(av) + end);
            lemma_holds_split(input@, i as int, seq!['<'], t);
            lemma_holds_index(input@, i + 1, t);
            assert(av.subrange(0, av.len() as int) =~= av);
            if av.len() > 0 {
                lemma_attrs_text_step(av, 0);
                assert((attrs_text(av) + end)[0] == ' ');
            } else {
                assert(attrs_text(av) =~= Seq::<char>::empty());
                assert((attrs_text(av) + end)[0] == end[0]);
            }
            lemma_holds_index(input@, i + 1 + t.len(), attrs_text(av) + end);
            assert(!is_name_char(input@[i + 1 + t.len()]));
        }
    }
    let k = scan_name(input, i + 1);
    proof {
        if hit {
            if k < i + 1 + t.len() {
                assert(is_name_char(t[k - i - 1]));
                assert(input@[k as int] == t[k - i - 1]);
            }
            if k > i + 1 + t.len() {
                assert(is_name_char(input@[i + 1 + t.len()]));
            }
            assert(k == i + 1 + t.len());
        }
    }
    if k == i + 1 {
        return Err(ParseError::BadTag);
    }
    let tag = take(input, i + 1, k);
    assert(name_ok(tag@));
    let mut attrs: Vec<Attribute> = Vec::new();
    let mut j: usize = k;
    let ghost mut m: int = 0;
    assert(attrs_model(attrs@) =~= Seq::empty());
    assert(input@.subrange(i as int, j as int) =~= seq!['<'] + tag@);
    proof {
        if hit {
            assert(av.subrange(0, 0) =~= Seq::<(Seq<char>, Seq<char>)>::empty());
        }
    }
    while j < n && input[j] == ' '
        invariant
            i < k <= j <= n,
            n == input@.len(),
            input@.subrange(i as int, j as int) == seq!['<'] + tag@ + attrs_text(attrs_model(attrs@)),
            name_ok(tag@),
            forall|q: int| 0 <= q < attrs@.len() ==> name_ok(#[trigger] attrs_model(attrs@)[q].0) && value_ok(attrs_model(attrs@)[q].1),
            hit ==> 0 <= m <= av.len() && j == k + attrs_text(av.subrange(0, m)).len() && holds_at(
                input@,
                j as int,
                attrs_text(av.subrange(m, av.len() as int)) + end,
            ),
            hit ==> event_ok(e) && e == Ev::Open(t, av, e->Open_2) && k == i + 1 + t.len(),
            hit == (event_ok(e) && !(e is Txt) && holds_at(input@, i as int, event_text(e))),
            end == if e->Open_2 {
                seq!['/', '>']
            } else {
                seq!['>']
            },
            t == e->Open_0,
            av == e->Open_1,
        decreases n - j,
    {
        let ghost nm = av[m].0;
        let ghost vl = av[m].1;
        proof {
            if hit {
                if m == av.len() {
                    assert(av.subrange(m, av.len() as int) =~= Seq::<(Seq<char>, Seq<char>)>::empty());
                    assert(attrs_text(av.subrange(m, av.len() as int)) =~= Seq::<char>::empty());
                    assert(attrs_text(av.subrange(m, av.len() as int)) + end =~= end);
                    lemma_holds_one(input@, j as int, end, 0);
                    assert(end[0] == input@[j as int]);
                }
                assert(m < av.len());
                lemma_attrs_text_step(av, m);
                let at = attr_text(av[m]);
                let rest = attrs_text(av.subrange(m + 1, av.len() as int)) + end;
                assert(attrs_text(av.subrange(m, av.len() as int)) + end =~= at + rest);
                lemma_holds_split(input@, j as int, at, rest);
                assert(at =~= seq![' '] + nm + seq!['=', '"'] + vl + seq!['"']);
                lemma_holds_index(input@, j as int, at);
                assert(event_ok(Ev::Open(t, av, e->Open_2)));
                assert(name_ok(av[m].0) && value_ok(av[m].1));
                assert(name_ok(nm) && value_ok(vl));
                assert forall|q: int| 0 <= q < nm.len() implies input@[j + 1 + q] == nm[q] by {
                    assert(at[1 + q] == nm[q]);
                }
                assert(input@[j + 1 + nm.len()] == '=') by {
                    assert(at[1 + nm.len() as int] == '=');
                }
                assert(input@[j + 2 + nm.len()] == '"') by {
                    assert(at[2 + nm.len() as int] == '"');
                }
                assert forall|q: int| 0 <= q < vl.len() implies input@[j + 3 + nm.len() + q] == vl[q] by {
                    assert(at[3 + nm.len() + q] == vl[q]);
                }
                assert(input@[j + 3 + nm.len() + vl.len()] == '"') by {
                    assert(at[3 + nm.len() + vl.len() as int] == '"');
                }
            }
        }
        let a = scan_name(input, j + 1);
        proof {
            if hit {
                if a < j + 1 + nm.len() {
                    assert(is_name_char(nm[a - j - 1]));
                    assert(input@[a as int] == nm[a - j - 1]);
                }
                if a > j + 1 + nm.len() {
                    assert(is_name_char(input@[j + 1 + nm.len()]));
                }
                assert(a == j + 1 + nm.len());
            }
        }
        if a == j + 1 || a >= n || a + 1 >= n || input[a] != '=' || input[a + 1] != '"' {
            return Err(ParseError::BadTag);
        }
        let b = scan_until(input, a + 2, '"');
        proof {
            if hit {
                if b < a + 2 + vl.len() {
                    assert(vl[b - a - 2] != '"');
                    assert(input@[b as int] == vl[b - a - 2]);
                }
                if b > a + 2 + vl.len() {
                    assert(input@[a + 2 + vl.len()] == '"');
                }
                assert(b == a + 2 + vl.len());
            }
        }
        if b >= n {
            return Err(ParseError::BadTag);
        }
        let name = take(input, j + 1, a);
        let value = take(input, a + 2, b);
        let ghost before = attrs_model(attrs@);
        attrs.push(Attribute { name, value });
        proof {
            let x = (input@.subrange(j + 1, a as int), input@.subrange(a + 2, b as int));
            assert(attrs_model(attrs@) =~= before.push(x));
            assert(attrs_model(attrs@).drop_last() =~= before);
            assert(name_ok(x.0) && value_ok(x.1));
            assert forall|q: int| 0 <= q < attrs@.len() implies name_ok(#[trigger] attrs_model(attrs@)[q].0) && value_ok(attrs_model(attrs@)[q].1) by {
                if q < attrs@.len() - 1 {
                    assert(attrs_model(attrs@)[q] == before[q]);
                }
            }
            assert(input@.subrange(j as int, b + 1) =~= attr_text(x));
            assert(input@.subrange(i as int, b + 1) =~= input@.subrange(i as int, j as int) + input@.subrange(j as int, b + 1));
            if hit {
                assert(attr_text(av[m]).len() == b + 1 - j);
                m = m + 1;
            }
        }
        j = b + 1;
    }
    proof {
        if hit {
            if m < av.len() {
                lemma_attrs_text_step(av, m);
                lemma_holds_index(input@, j as int, attrs_text(av.subrange(m, av.len() as int)) + end);
                assert((attrs_text(av.subrange(m, av.len() as int)) + end)[0] == ' ');
            }
            assert(m == av.len());
            assert(av.subrange(m, av.len() as int) =~= Seq::<(Seq<char>, Seq<char>)>::empty());
            assert(attrs_text(av.subrange(m, av.len() as int)) =~= Seq::<char>::empty());
            assert(attrs_text(av.subrange(m, av.len() as int)) + end =~= end);
            assert(holds_at(input@, j as int, end));
            lemma_holds_one(input@, j as int, end, 0);
            if e->Open_2 {
                lemma_holds_one(input@, j as int, end, 1);
                assert(input@[j as int] == '/' && input@[j + 1] == '>');
            } else {
                assert(input@[j as int] == '>');
            }
            assert(av.subrange(0, m) =~= av);
            assert(event_text(e) =~= seq!['<'] + t + (attrs_text(av) + end));
        }
    }
    if j < n && j + 1 < n && input[j] == '/' && input[j + 1] == '>' {
        let x = Event::Empty(tag, attrs);
        assert(event_text(x.model()) =~= input@.subrange(i as int, j + 2));
        Ok((x, j + 2))
    } else if j < n && input[j] == '>' {
        let x = Event::Start(tag, attrs);
        assert(event_text(x.model()) =~= input@.subrange(i as int, j + 1));
        Ok((x, j + 1))
    } else {
        Err(ParseError::BadTag)
    }
}

proof fn lemma_render_push(s: Seq<Ev>, e: Ev)
    ensures
        render(s.push(e)) == render(s) + event_text(e),
{
    assert(s.push(e).drop_last() =~= s);
}

proof fn lemma_render_concat(x: Seq<Ev>, y: Seq<Ev>)
    ensures
        render(x + y) == render(x) + render(y),
    decreases y.len(),
{
    if y.len() == 0 {
        assert(x + y =~= x);
        assert(render(x) + render(y) =~= render(x));
    } else {
        assert((x + y).drop_last() =~= x + y.drop_last());
        lemma_render_concat(x, y.drop_last());
        assert(render(x + y) =~= render(x) + render(y));
    }
}

proof fn lemma_render_step(s: Seq<Ev>, k: int)
    requires
        0 <= k < s.len(),
    ensures
        render(s.subrange(k, s.len() as int)) == event_text(s[k]) + render(s.subrange(k + 1, s.len() as int)),
{
    let one = seq![s[k]];
    assert(s.subrange(k, s.len() as int) =~= one + s.subrange(k + 1, s.len() as int));
    lemma_render_concat(one, s.subrange(k + 1, s.len() as int));
    assert(one.drop_last() =~= Seq::<Ev>::empty());
    assert(one.last() == s[k]);
    assert(render(one) == render(one.drop_last()) + event_text(one.last()));
    assert(render(one) =~= event_text(s[k]));
}

proof fn lemma_run_unique(w: Seq<char>, p: int, x: Seq<char>, y: Seq<char>, ok: spec_fn(char) -> bool)
    requires
        holds_at(w, p, x),
        holds_at(w, p, y),
        forall|q: int| 0 <= q < x.len() ==> ok(#[trigger] x[q]),
        forall|q: int| 0 <= q < y.len() ==> ok(#[trigger] y[q]),
        p + x.len() == w.len() || !ok(w[p + x.len()]),
        p + y.len() == w.len() || !ok(w[p + y.len()]),
    ensures
        x == y,
{
    lemma_holds_index(w, p, x);
    lemma_holds_index(w, p, y);
    if x.len() < y.len() {
        assert(w[p + x.len()] == y[x.len() as int]);
    }
    if y.len() < x.len() {
        assert(w[p + y.len()] == x[y.len() as int]);
    }
    assert(x =~= y);
}

/// The text that ends an opening tag.
pub open spec fn end_text(empty: bool) -> Seq<char> {
    if empty {
        seq!['/', '>']
    } else {
        seq!['>']
    }
}

pub open spec fn attrs_ok(a: Seq<(Seq<char>, Seq<char>)>) -> bool {
    forall|k: int| 0 <= k < a.len() ==> name_ok(#[trigger] a[k].0) && value_ok(a[k].1)
}

proof fn lemma_attrs_front(a: Seq<(Seq<char>, Seq<char>)>, end: Seq<char>)
    requires
        a.len() > 0,
    ensures
        attrs_text(a) + end == seq![' '] + (a[0].0 + (seq!['=', '"'] + (a[0].1 + (seq!['"'] + (
            attrs_text(a.subrange(1, a.len() as int)) + end))))),
{
    lemma_attrs_text_step(a, 0);
    assert(a.subrange(0, a.len() as int) =~= a);
    assert(attrs_text(a) + end =~= seq![' '] + (a[0].0 + (seq!['=', '"'] + (a[0].1 + (seq!['"'] + (
        attrs_text(a.subrange(1, a.len() as int)) + end))))));
}

proof fn lemma_attrs_unique(
    w: Seq<char>,
    p: int,
    a1: Seq<(Seq<char>, Seq<char>)>,
    e1: bool,
    a2: Seq<(Seq<char>, Seq<char>)>,
    e2: bool,
)
    requires
        holds_at(w, p, attrs_text(a1) + end_text(e1)),
        holds_at(w, p, attrs_text(a2) + end_text(e2)),
        attrs_ok(a1),
        attrs_ok(a2),
    ensures
        a1 == a2,
        e1 == e2,
    decreases a1.len(),
{
    let x1 = attrs_text(a1) + end_text(e1);
    let x2 = attrs_text(a2) + end_text(e2);
    lemma_holds_one(w, p, x1, 0);
    lemma_holds_one(w, p, x2, 0);
    if a1.len() == 0 {
        assert(x1 =~= end_text(e1));
    } else {
        lemma_attrs_front(a1, end_text(e1));
    }
    if a2.len() == 0 {
        assert(x2 =~= end_text(e2));
    } else {
        lemma_attrs_front(a2, end_text(e2));
    }
    if a1.len() == 0 && a2.len() == 0 {
        if e1 != e2 {
            assert(end_text(e1)[0] != end_text(e2)[0]);
        }
        assert(a1 =~= a2);
    } else if a1.len() > 0 && a2.len() > 0 {
        let (n1, v1) = a1[0];
        let (n2, v2) = a2[0];
        let r1 = attrs_text(a1.subrange(1, a1.len() as int)) + end_text(e1);
        let r2 = attrs_text(a2.subrange(1, a2.len() as int)) + end_text(e2);
        let t1 = seq!['=', '"'] + (v1 + (seq!['"'] + r1));
        let t2 = seq!['=', '"'] + (v2 + (seq!['"'] + r2));
        lemma_holds_split(w, p, seq![' '], n1 + t1);
        lemma_holds_split(w, p, seq![' '], n2 + t2);
        lemma_holds_split(w, p + 1, n1, t1);
        lemma_holds_split(w, p + 1, n2, t2);
        lemma_holds_one(w, p + 1 + (n1.len() as int), t1, 0);
        lemma_holds_one(w, p + 1 + (n2.len() as int), t2, 0);
        assert(name_ok(a1[0].0) && name_ok(a2[0].0));
        lemma_run_unique(w, p + 1, n1, n2, |c: char| is_name_char(c));
        let u1 = v1 + (seq!['"'] + r1);
        let u2 = v2 + (seq!['"'] + r2);
        let q = p + 3 + (n1.len() as int);
        lemma_holds_split(w, p + 1 + (n1.len() as int), seq!['=', '"'], u1);
        lemma_holds_split(w, p + 1 + (n1.len() as int), seq!['=', '"'], u2);
        lemma_holds_split(w, q, v1, seq!['"'] + r1);
        lemma_holds_split(w, q, v2, seq!['"'] + r2);
        lemma_holds_one(w, q + (v1.len() as int), seq!['"'] + r1, 0);
        lemma_holds_one(w, q + (v2.len() as int), seq!['"'] + r2, 0);
        assert(value_ok(a1[0].1) && value_ok(a2[0].1));
        lemma_run_unique(w, q, v1, v2, |c: char| c != '"');
        lemma_holds_split(w, q + (v1.len() as int), seq!['"'], r1);
        lemma_holds_split(w, q + (v1.len() as int), seq!['"'], r2);
        let b1 = a1.subrange(1, a1.len() as int);
        let b2 = a2.subrange(1, a2.len() as int);
        assert(attrs_ok(b1)) by {
            assert forall|k: int| 0 <= k < b1.len() implies name_ok(#[trigger] b1[k].0) && value_ok(b1[k].1) by {
                assert(b1[k] == a1[k + 1]);
            }
        }
        assert(attrs_ok(b2)) by {
            assert forall|k: int| 0 <= k < b2.len() implies name_ok(#[trigger] b2[k].0) && value_ok(b2[k].1) by {
                assert(b2[k] == a2[k + 1]);
            }
        }
        lemma_attrs_unique(w, q + (v1.len() as int) + 1, b1, e1, b2, e2);
        assert(a1 =~= seq![a1[0]] + b1);
        assert(a2 =~= seq![a2[0]] + b2);
    }
}

/// The first event of a text is fixed by the text: a tag ends at its `>`,
/// character data at the next `<` or at the end.
proof fn lemma_event_unique(w: Seq<char>, e1: Ev, e2: Ev)
    requires
        event_ok(e1),
        event_ok(e2),
        holds_at(w, 0, event_text(e1)),
        holds_at(w, 0, event_text(e2)),
        e1 is Txt ==> event_text(e1).len() == w.len() || w[event_text(e1).len() as int] == '<',
        e2 is Txt ==> event_text(e2).len() == w.len() || w[event_text(e2).len() as int] == '<',
    ensures
        e1 == e2,
{
    let x1 = event_text(e1);
    let x2 = event_text(e2);
    lemma_holds_index(w, 0, x1);
    lemma_holds_index(w, 0, x2);
    match e1 {
        Ev::Txt(t1) => {
            assert(t1[0] != '<');
            match e2 {
                Ev::Txt(t2) => {
                    lemma_run_unique(w, 0, t1, t2, |c: char| c != '<');
                },
                _ => {
                    assert(x2[0] == '<');
                    assert(w[0] == x1[0]);
                },
            }
        },
        Ev::Close(t1) => {
            assert(x1[1] == '/');
            match e2 {
                Ev::Txt(t2) => {
                    assert(t2[0] != '<');
                    assert(w[0] == x2[0]);
                },
                Ev::Open(t2, _, _) => {
                    assert(x2[1] == t2[0]);
                    assert(is_name_char(t2[0]));
                    assert(w[1] == x2[1]);
                },
                Ev::Close(t2) => {
                    assert(x1 =~= seq!['<', '/'] + (t1 + seq!['>']));
                    assert(x2 =~= seq!['<', '/'] + (t2 + seq!['>']));
                    lemma_holds_split(w, 0, seq!['<', '/'], t1 + seq!['>']);
                    lemma_holds_split(w, 0, seq!['<', '/'], t2 + seq!['>']);
                    lemma_holds_split(w, 2, t1, seq!['>']);
                    lemma_holds_split(w, 2, t2, seq!['>']);
                    lemma_holds_one(w, 2 + (t1.len() as int), seq!['>'], 0);
                    lemma_holds_one(w, 2 + (t2.len() as int), seq!['>'], 0);
                    lemma_run_unique(w, 2, t1, t2, |c: char| is_name_char(c));
                },
            }
        },
        Ev::Open(t1, a1, m1) => {
            assert(x1[1] == t1[0]);
            assert(is_name_char(t1[0]));
            match e2 {
                Ev::Txt(t2) => {
                    assert(t2[0] != '<');
                    assert(w[0] == x2[0]);
                },
                Ev::Close(t2) => {
                    assert(x2[1] == '/');
                    assert(w[1] == x1[1]);
                },
                Ev::Open(t2, a2, m2) => {
                    let r1 = attrs_text(a1) + end_text(m1);
                    let r2 = attrs_text(a2) + end_text(m2);
                    assert(x1 =~= seq!['<'] + (t1 + r1));
                    assert(x2 =~= seq!['<'] + (t2 + r2));
                    lemma_holds_split(w, 0, seq!['<'], t1 + r1);
                    lemma_holds_split(w, 0, seq!['<'], t2 + r2);
                    lemma_holds_split(w, 1, t1, r1);
                    lemma_holds_split(w, 1, t2, r2);
                    lemma_holds_one(w, 1 + (t1.len() as int), r1, 0);
                    lemma_holds_one(w, 1 + (t2.len() as int), r2, 0);
                    if a1.len() > 0 {
                        lemma_attrs_front(a1, end_text(m1));
                    } else {
                        assert(r1 =~= end_text(m1));
                    }
                    if a2.len() > 0 {
                        lemma_attrs_front(a2, end_text(m2));
                    } else {
                        assert(r2 =~= end_text(m2));
                    }
                    lemma_run_unique(w, 1, t1, t2, |c: char| is_name_char(c));
                    lemma_attrs_unique(w, 1 + (t1.len() as int), a1, m1, a2, m2);
                },
            }
        },
    }
}

/// A well-formed stream is fixed by its text.
pub proof fn lemma_stream_unique(s1: Seq<Ev>, s2: Seq<Ev>)
    requires
        stream_ok(s1),
        stream_ok(s2),
        render(s1) == render(s2),
    ensures
        s1 == s2,
    decreases s1.len(),
{
    let w = render(s1);
    if s1.len() > 0 {
        lemma_render_step(s1, 0);
        assert(s1.subrange(0, s1.len() as int) =~= s1);
        assert(event_ok(s1[0]));
        lemma_event_text_nonempty(s1[0]);
    }
    if s2.len() > 0 {
        lemma_render_step(s2, 0);
        assert(s2.subrange(0, s2.len() as int) =~= s2);
        assert(event_ok(s2[0]));
        lemma_event_text_nonempty(s2[0]);
    }
    if s1.len() == 0 || s2.len() == 0 {
        if s1.len() == 0 && s2.len() == 0 {
            assert(s1 =~= s2);
        }
    } else {
        let x1 = event_text(s1[0]);
        let x2 = event_text(s2[0]);
        let b1 = s1.subrange(1, s1.len() as int);
        let b2 = s2.subrange(1, s2.len() as int);
        assert(w == x1 + render(b1));
        assert(w == x2 + render(b2));
        assert(holds_at(w, 0, x1)) by {
            assert(w.subrange(0, x1.len() as int) =~= x1);
        }
        assert(holds_at(w, 0, x2)) by {
            assert(w.subrange(0, x2.len() as int) =~= x2);
        }
        lemma_txt_extent(s1);
        lemma_txt_extent(s2);
        lemma_event_unique(w, s1[0], s2[0]);
        assert(render(b1) =~= w.subrange(x1.len() as int, w.len() as int));
        assert(render(b2) =~= w.subrange(x2.len() as int, w.len() as int));
        lemma_stream_tail(s1);
        lemma_stream_tail(s2);
        lemma_stream_unique(b1, b2);
        assert(s1 =~= seq![s1[0]] + b1);
        assert(s2 =~= seq![s2[0]] + b2);
    }
}

proof fn lemma_event_text_nonempty(e: Ev)
    requires
        event_ok(e),
    ensures
        event_text(e).len() > 0,
        !(e is Txt) ==> event_text(e)[0] == '<',
{
}

proof fn lemma_stream_tail(s: Seq<Ev>)
    requires
        stream_ok(s),
        s.len() > 0,
    ensures
        stream_ok(s.subrange(1, s.len() as int)),
{
    let b = s.subrange(1, s.len() as int);
    assert forall|k: int| 0 <= k < b.len() implies event_ok(#[trigger] b[k]) by {
        assert(b[k] == s[k + 1]);
    }
    assert forall|k: int| 0 <= k < b.len() - 1 implies !(#[trigger] b[k] is Txt && b[k + 1] is Txt) by {
        assert(b[k] == s[k + 1]);
        assert(b[k + 1] == s[k + 2]);
    }
}

/// Character data at the front of a stream's text runs up to a `<` or to the
/// end.
proof fn lemma_txt_extent(s: Seq<Ev>)
    requires
        stream_ok(s),
        s.len() > 0,
    ensures
        s[0] is Txt ==> event_text(s[0]).len() == render(s).len() || render(s)[event_text(s[0]).len() as int] == '<',
{
    lemma_render_step(s, 0);
    assert(s.subrange(0, s.len() as int) =~= s);
    if s[0] is Txt && s.len() > 1 {
        let b = s.subrange(1, s.len() as int);
        lemma_render_step(s, 1);
        assert(event_ok(s[1]));
        assert(!(s[0] is Txt && s[1] is Txt));
        lemma_event_text_nonempty(s[1]);
        assert(render(b)[0] == event_text(s[1])[0]);
    } else if s[0] is Txt {
        assert(s.subrange(1, s.len() as int) =~= Seq::<Ev>::empty());
    }
}

/// Splits XML text into events: tags with double-quoted attributes, each
/// after one space, and character data between them. On success the events
/// render back to exactly the input and form a well-formed stream; the
/// rendering of a well-formed stream gives back exactly that stream.
pub fn parse_events(input: &Vec<char>) -> (r: Result<Vec<Event>, ParseError>)
    ensures
        r matches Ok(evs) ==> render(events_model(evs@)) == input@ && stream_ok(events_model(evs@)),
        (exists|s: Seq<Ev>| stream_ok(s) && render(s) == input@) ==> r is Ok,
        forall|s: Seq<Ev>|
            stream_ok(s) && render(s) == input@ ==> (r matches Ok(evs) && events_model(evs@) == s),
{
    let ghost pre = exists|s: Seq<Ev>| stream_ok(s) && render(s) == input@;
    let ghost es: Seq<Ev> = if pre {
        choose|s: Seq<Ev>| stream_ok(s) && render(s) == input@
    } else {
        Seq::empty()
    };
    let ghost mut k: int = 0;
    let n = input.len();
    let mut out: Vec<Event> = Vec::new();
    let mut i: usize = 0;
    assert(events_model(out@) =~= Seq::empty());
    assert(input@.subrange(0, 0) =~= Seq::<char>::empty());
    proof {
        if pre {
            assert(es.subrange(0, es.len() as int) =~= es);
            assert(input@.subrange(0, n as int) =~= input@);
        }
    }
    while i < n
        invariant
            i <= n,
            n == input@.len(),
            render(events_model(out@)) == input@.subrange(0, i as int),
            stream_ok(events_model(out@)),
            out@.len() > 0 && events_model(out@).last() is Txt ==> i == n || input@[i as int] == '<',
            pre == (exists|s: Seq<Ev>| stream_ok(s) && render(s) == input@),
            pre ==> stream_ok(es) && 0 <= k <= es.len() && holds_at(
                input@,
                i as int,
                render(es.subrange(k, es.len() as int)),
            ) && i + render(es.subrange(k, es.len() as int)).len() == n,
        decreases n - i,
    {
        let ghost before = events_model(out@);
        let ghost cur = if pre && k < es.len() {
            es[k]
        } else {
            Ev::Txt(Seq::empty())
        };
        proof {
            if pre {
                if k == es.len() {
                    assert(es.subrange(k, es.len() as int) =~= Seq::<Ev>::empty());
                }
                assert(k < es.len());
                lemma_render_step(es, k);
                let rest = render(es.subrange(k + 1, es.len() as int));
                lemma_holds_split(input@, i as int, event_text(cur), rest);
                assert(event_ok(cur));
                lemma_holds_one(input@, i as int, event_text(cur), 0);
                match cur {
                    Ev::Txt(t) => {
                        assert(t[0] != '<');
                        lemma_holds_index(input@, i as int, t);
                        if k + 1 < es.len() {
                            assert(!(es[k] is Txt && es[k + 1] is Txt));
                            lemma_render_step(es, k + 1);
                            let nx = es[k + 1];
                            lemma_holds_split(input@, i + t.len(), event_text(nx), render(es.subrange(k + 2, es.len() as int)));
                            assert(event_ok(nx));
                            lemma_holds_one(input@, i + t.len(), event_text(nx), 0);
                            assert(input@[i + t.len()] == '<');
                        } else {
                            assert(es.subrange(k + 1, es.len() as int) =~= Seq::<Ev>::empty());
                            assert(i + t.len() == n);
                        }
                    },
                    Ev::Open(t, _, _) => {
                        assert(input@[i as int] == '<');
                    },
                    Ev::Close(t) => {
                        assert(input@[i as int] == '<');
                    },
                }
            }
        }
        let e;
        let j;
        if input[i] == '<' {
            match parse_tag(input, i, Ghost(cur)) {
                Ok((e0, j0)) => {
                    e = e0;
                    j = j0;
                },
                Err(x) => {
                    return Err(x);
                },
            }
        } else {
            j = scan_until(input, i, '<');
            proof {
                if pre {
                    let t = cur->Txt_0;
                    if j < i + t.len() {
                        assert(input@[j as int] == t[j - i]);
                    }
                    if j > i + t.len() {
                        assert(input@[i + t.len()] == '<');
                    }
                    assert(j == i + t.len());
                }
            }
            e = Event::Text(take(input, i, j));
            assert(chardata_ok(e.model()->Txt_0));
        }
        assert(i < j);
        let ghost em = e.model();
        assert(event_text(em) == input@.subrange(i as int, j as int));
        assert(event_ok(em));
        assert(em is Txt ==> j == n || input@[j as int] == '<');
        assert(em is Txt ==> !(before.len() > 0 && before.last() is Txt));
        out.push(e);
        proof {
            assert(events_model(out@) =~= before.push(em));
            assert forall|q: int| 0 <= q < events_model(out@).len() implies event_ok(#[trigger] events_model(out@)[q]) by {
                if q < before.len() {
                    assert(events_model(out@)[q] == before[q]);
                }
            }
            assert forall|q: int| 0 <= q < events_model(out@).len() - 1 implies !(#[trigger] events_model(out@)[q] is Txt && events_model(out@)[q + 1] is Txt) by {
                if q < before.len() - 1 {
                    assert(events_model(out@)[q] == before[q]);
                    assert(events_model(out@)[q + 1] == before[q + 1]);
                } else {
                    assert(events_model(out@)[q] == before.last());
                }
            }
            lemma_render_push(before, em);
            assert(input@.subrange(0, j as int) =~= input@.subrange(0, i as int) + input@.subrange(i as int, j as int));
            if pre {
                assert(j == i + event_text(cur).len());
                k = k + 1;
            }
        }
        i = j;
    }
    assert(input@.subrange(0, n as int) =~= input@);
    assert forall|s: Seq<Ev>| stream_ok(s) && render(s) == input@ implies events_model(out@) == s by {
        lemma_stream_unique(events_model(out@), s);
    }
    Ok(out)
}

/// The characters of a string.
pub fn chars_of(s: &str) -> (r: Vec<char>)
    ensures
        r@ == s@,
{
    let n = s.unicode_len();
    let mut r: Vec<char> = Vec::new();
    let mut i: usize = 0;
    while i < n
        invariant
            i <= n,
            n == s@.len(),
            r@ == s@.subrange(0, i as int),
        decreases n - i,
    {
        r.push(s.get_char(i));
        i = i + 1;
        assert(r@ =~= s@.subrange(0, i as int));
    }
    assert(r@ =~= s@);
    r
}

} // verus!
