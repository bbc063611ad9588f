use docx::codec::{decode_bool, decode_u64, encode_bool, encode_u64};
use docx::document::{from_xml, to_xml, variant_from_xml, XmlError};
use docx::event::{render_events, Event};
use docx::parse::{chars_of, parse_events, ParseError};
use docx::reader::{read_element, skip_element, ReadError};
use docx::schema::{
    AttrBinding, Attribute, Cardinality, ChildBinding, Element, ElementSchema, SchemaSet,
    TextBinding,
};
use docx::styles::{styles_extend_attrs, styles_schema, Styles};
use docx::validate::check_schemas;
use docx::variant::VariantSet;
use docx::writer::write_document;

fn chars(s: &str) -> Vec<char> {
    s.chars().collect()
}

fn text(v: &[char]) -> String {
    v.iter().collect()
}

const ITEM: usize = 0;
const FLAG: usize = 1;
const ROOT: usize = 2;
const NOTE: usize = 3;

/// item: optional attribute `id`, direct text.
/// flag: required attribute `on`, no body.
/// root: required attribute `a`, many `item`, optional `flag`, flattened text in `text`.
/// note: one required `item` child.
fn schemas() -> SchemaSet {
    SchemaSet {
        schemas: vec![
            ElementSchema {
                tag: chars("item"),
                attrs: vec![AttrBinding { name: chars("id"), required: false }],
                children: vec![],
                text: TextBinding::Direct,
                ns_decls: vec![],
            },
            ElementSchema {
                tag: chars("flag"),
                attrs: vec![AttrBinding { name: chars("on"), required: true }],
                children: vec![],
                text: TextBinding::NoText,
                ns_decls: vec![],
            },
            ElementSchema {
                tag: chars("root"),
                attrs: vec![AttrBinding { name: chars("a"), required: true }],
                children: vec![
                    ChildBinding { tag: chars("item"), card: Cardinality::Many, schema: ITEM },
                    ChildBinding { tag: chars("flag"), card: Cardinality::Optional, schema: FLAG },
                ],
                text: TextBinding::Flattened(chars("text")),
                ns_decls: vec![Attribute { name: chars("xmlns:x"), value: chars("urn:x") }],
            },
            ElementSchema {
                tag: chars("note"),
                attrs: vec![],
                children: vec![ChildBinding {
                    tag: chars("item"),
                    card: Cardinality::One,
                    schema: ITEM,
                }],
                text: TextBinding::NoText,
                ns_decls: vec![],
            },
        ],
    }
}

fn item(id: Option<&str>, body: &str) -> Element {
    Element { attrs: vec![id.map(chars)], children: vec![], text: Some(chars(body)) }
}

fn flag(on: &str) -> Element {
    Element { attrs: vec![Some(chars(on))], children: vec![], text: None }
}

fn root(a: &str, items: Vec<Element>, fl: Option<Element>, t: Option<&str>) -> Element {
    Element {
        attrs: vec![Some(chars(a))],
        children: vec![items, fl.into_iter().collect()],
        text: t.map(chars),
    }
}

fn show(e: &Element) -> String {
    format!("{:?}", e)
}

fn read(sid: usize, s: &str) -> Result<Element, XmlError> {
    from_xml(&schemas(), sid, &chars(s))
}

fn write(sid: usize, e: &Element) -> String {
    text(&to_xml(&schemas(), sid, e))
}

#[test]
fn round_trip_through_text() {
    let e = root(
        "v",
        vec![item(Some("1"), "one"), item(None, "two")],
        Some(flag("yes")),
        Some("body"),
    );
    let out = write(ROOT, &e);
    let back = read(ROOT, &out).unwrap();
    assert_eq!(show(&back), show(&e));
}

#[test]
fn round_trip_with_empty_slots() {
    let e = root("v", vec![], None, None);
    let out = write(ROOT, &e);
    assert_eq!(out, r#"<root a="v" xmlns:x="urn:x"/>"#);
    assert_eq!(show(&read(ROOT, &out).unwrap()), show(&e));
}

#[test]
fn namespace_declarations_only_on_the_root() {
    let e = root("v", vec![item(None, "x")], None, None);
    assert_eq!(write(ROOT, &e), r#"<root a="v" xmlns:x="urn:x"><item>x</item></root>"#);
}

#[test]
fn order_kept_across_interleaving() {
    let e = read(
        ROOT,
        r#"<root a="v"><item>x</item><flag on="1"/><other/><item>y</item><text>t</text><item>z</item></root>"#,
    )
    .unwrap();
    let bodies: Vec<String> =
        e.children[0].iter().map(|c| text(c.text.as_deref().unwrap())).collect();
    assert_eq!(bodies, vec!["x", "y", "z"]);
    assert_eq!(e.children[1].len(), 1);
    assert_eq!(text(e.text.as_deref().unwrap()), "t");
}

#[test]
fn optional_absence_writes_nothing() {
    let e = root("v", vec![item(None, "x")], None, None);
    let out = write(ROOT, &e);
    assert!(!out.contains("id="));
    assert!(!out.contains("<flag"));
    assert!(!out.contains("<text"));
    let back = read(ROOT, &out).unwrap();
    assert!(back.children[0][0].attrs[0].is_none());
    assert!(back.children[1].is_empty());
    assert!(back.text.is_none());
}

#[test]
fn unknown_content_is_ignored() {
    let e = read(
        ROOT,
        r#"<root a="v" extra="1"><zzz q="1"><item>inner</item><deep><x/></deep></zzz><item id="7">x</item></root>"#,
    )
    .unwrap();
    assert_eq!(text(e.attrs[0].as_deref().unwrap()), "v");
    assert_eq!(e.children[0].len(), 1);
    assert_eq!(text(e.children[0][0].attrs[0].as_deref().unwrap()), "7");
    assert_eq!(text(e.children[0][0].text.as_deref().unwrap()), "x");
}

#[test]
fn variant_dispatch_by_tag() {
    let set = schemas();
    let vs = VariantSet { members: vec![ITEM, FLAG, ROOT] };
    let a = variant_from_xml(&set, &vs, &chars(r#"<item id="1">a</item>"#)).unwrap();
    assert_eq!(a.kind, 0);
    assert_eq!(text(a.value.text.as_deref().unwrap()), "a");
    let b = variant_from_xml(&set, &vs, &chars(r#"<flag on="yes"/>"#)).unwrap();
    assert_eq!(b.kind, 1);
    assert_eq!(text(b.value.attrs[0].as_deref().unwrap()), "yes");
    let c = variant_from_xml(&set, &vs, &chars(r#"<root a="r"></root>"#)).unwrap();
    assert_eq!(c.kind, 2);
    assert_eq!(text(c.value.attrs[0].as_deref().unwrap()), "r");
    let d = variant_from_xml(&set, &vs, &chars(r#"<note/>"#));
    assert_eq!(d.unwrap_err(), XmlError::Read(ReadError::UnknownVariant));
}

#[test]
fn scenario_attribute_and_repeated_children() {
    let e = root("a1", vec![item(None, "x"), item(None, "y")], None, None);
    let out = write(ROOT, &e);
    assert_eq!(out, r#"<root a="a1" xmlns:x="urn:x"><item>x</item><item>y</item></root>"#);
    assert!(out.find("<item>x").unwrap() < out.find("<item>y").unwrap());
    assert_eq!(show(&read(ROOT, &out).unwrap()), show(&e));
}

#[test]
fn duplicate_optional_child_keeps_the_first() {
    let e = read(ROOT, r#"<root a="v"><flag on="1"/><flag on="2"/></root>"#).unwrap();
    assert_eq!(e.children[1].len(), 1);
    assert_eq!(text(e.children[1][0].attrs[0].as_deref().unwrap()), "1");
}

#[test]
fn error_unexpected_tag() {
    assert_eq!(read(ROOT, r#"<item>x</item>"#).unwrap_err(), XmlError::Read(ReadError::UnexpectedTag));
    assert_eq!(
        read(ITEM, r#"<item>x</other>"#).unwrap_err(),
        XmlError::Read(ReadError::UnexpectedTag)
    );
}

#[test]
fn error_missing_attribute() {
    assert_eq!(
        read(ROOT, r#"<root b="v"></root>"#).unwrap_err(),
        XmlError::Read(ReadError::MissingAttribute)
    );
}

#[test]
fn error_missing_required_child() {
    assert_eq!(read(NOTE, r#"<note/>"#).unwrap_err(), XmlError::Read(ReadError::MissingRequiredChild));
    assert_eq!(
        read(NOTE, r#"<note><flag on="1"/></note>"#).unwrap_err(),
        XmlError::Read(ReadError::MissingRequiredChild)
    );
    let ok = read(NOTE, r#"<note><item>x</item></note>"#).unwrap();
    assert_eq!(ok.children[0].len(), 1);
}

#[test]
fn error_unexpected_end() {
    assert_eq!(
        read(ROOT, r#"<root a="v"><item>x</item>"#).unwrap_err(),
        XmlError::Read(ReadError::UnexpectedEnd)
    );
    assert_eq!(read(ROOT, "").unwrap_err(), XmlError::Read(ReadError::UnexpectedEnd));
}

#[test]
fn error_malformed_text() {
    assert_eq!(read(ROOT, r#"<root a=v/>"#).unwrap_err(), XmlError::Parse(ParseError::BadTag));
    assert_eq!(read(ROOT, r#"<>"#).unwrap_err(), XmlError::Parse(ParseError::BadTag));
}

#[test]
fn parse_and_render_agree() {
    let src = r#"<a x="1" y=""><b/>text<c>d</c></a>"#;
    let evs = parse_events(&chars(src)).unwrap();
    assert_eq!(evs.len(), 7);
    assert_eq!(evs[1], Event::Empty(chars("b"), vec![]));
    assert_eq!(evs[2], Event::Text(chars("text")));
    assert_eq!(text(&render_events(&evs)), src);
}

#[test]
fn skip_passes_over_nested_element() {
    let evs = parse_events(&chars("<a><b><c/></b>t</a><z/>")).unwrap();
    assert_eq!(skip_element(&evs, 0), Ok(6));
    assert_eq!(skip_element(&evs, 1), Ok(4));
    assert_eq!(skip_element(&evs, 6), Ok(7));
}

#[test]
fn read_stops_after_the_element() {
    let evs = parse_events(&chars(r#"<flag on="1"/><item>x</item>"#)).unwrap();
    let (e, q) = read_element(&schemas(), FLAG, &evs, 0).unwrap();
    assert_eq!(q, 1);
    assert_eq!(text(e.attrs[0].as_deref().unwrap()), "1");
    let (i, q2) = read_element(&schemas(), ITEM, &evs, 1).unwrap();
    assert_eq!(q2, 4);
    assert_eq!(text(i.text.as_deref().unwrap()), "x");
}

#[test]
fn direct_text_concatenates() {
    let evs = vec![
        Event::Start(chars("item"), vec![]),
        Event::Text(chars("ab")),
        Event::Text(chars("cd")),
        Event::End(chars("item")),
    ];
    let (e, _) = read_element(&schemas(), ITEM, &evs, 0).unwrap();
    assert_eq!(text(e.text.as_deref().unwrap()), "abcd");
}

#[test]
fn write_events_of_document() {
    let evs = write_document(&schemas(), FLAG, &flag("z"));
    assert_eq!(
        evs,
        vec![Event::Empty(
            chars("flag"),
            vec![Attribute { name: chars("on"), value: chars("z") }]
        )]
    );
}

#[test]
fn codec_integers() {
    assert_eq!(text(&encode_u64(0)), "0");
    assert_eq!(text(&encode_u64(12345)), "12345");
    assert_eq!(text(&encode_u64(u64::MAX)), "18446744073709551615");
    assert_eq!(decode_u64(&chars("12345")), Ok(12345));
    assert_eq!(decode_u64(&chars("007")), Ok(7));
    assert_eq!(decode_u64(&chars("18446744073709551615")), Ok(u64::MAX));
    assert_eq!(decode_u64(&chars("18446744073709551616")), Err(ReadError::InvalidAttributeValue));
    assert_eq!(decode_u64(&chars("12a")), Err(ReadError::InvalidAttributeValue));
    assert_eq!(decode_u64(&chars("")), Err(ReadError::InvalidAttributeValue));
    for v in [0u64, 9, 10, 99, 100, 4096, u64::MAX] {
        assert_eq!(decode_u64(&encode_u64(v)), Ok(v));
    }
}

#[test]
fn codec_booleans() {
    assert_eq!(text(&encode_bool(true)), "true");
    assert_eq!(text(&encode_bool(false)), "false");
    assert_eq!(decode_bool(&chars("true")), Ok(true));
    assert_eq!(decode_bool(&chars("false")), Ok(false));
    assert_eq!(decode_bool(&chars("yes")), Err(ReadError::InvalidAttributeValue));
}

#[test]
fn chars_of_string() {
    assert_eq!(chars_of("héllo"), vec!['h', 'é', 'l', 'l', 'o']);
}

fn styles_set() -> SchemaSet {
    let mut set = schemas();
    let generic = |t: &str| ElementSchema {
        tag: chars(t),
        attrs: vec![AttrBinding { name: chars("w:styleId"), required: false }],
        children: vec![],
        text: TextBinding::NoText,
        ns_decls: vec![],
    };
    set.schemas.push(generic("w:docDefaults"));
    set.schemas.push(generic("w:style"));
    set.schemas.push(styles_schema(4, 5));
    set
}

#[test]
fn styles_build_and_write() {
    let mut st = Styles::new();
    assert!(st.default.is_none());
    assert!(st.styles.is_empty());
    st.default(Element { attrs: vec![None], children: vec![], text: None });
    st.push(Element { attrs: vec![Some(chars("s1"))], children: vec![], text: None });
    st.push(Element { attrs: vec![Some(chars("s2"))], children: vec![], text: None });
    let set = styles_set();
    let out = text(&to_xml(&set, 6, &st.into_element()));
    assert_eq!(
        out,
        r#"<w:styles xmlns:w="http://schemas.openxmlformats.org/wordprocessingml/2006/main"><w:docDefaults/><w:style w:styleId="s1"/><w:style w:styleId="s2"/></w:styles>"#
    );
    let back = Styles::from_element(from_xml(&set, 6, &chars(&out)).unwrap());
    assert!(back.default.is_some());
    assert_eq!(back.styles.len(), 2);
    assert_eq!(text(back.styles[1].attrs[0].as_deref().unwrap()), "s2");
}

#[test]
fn styles_empty_document() {
    let set = styles_set();
    let out = text(&to_xml(&set, 6, &Styles::new().into_element()));
    assert_eq!(
        out,
        r#"<w:styles xmlns:w="http://schemas.openxmlformats.org/wordprocessingml/2006/main"/>"#
    );
    let ns = styles_extend_attrs();
    assert_eq!(text(&ns[0].name), "xmlns:w");
}

#[test]
fn schema_table_checks() {
    assert!(check_schemas(&schemas()));
    assert!(check_schemas(&styles_set()));

    let mut bad_ref = schemas();
    bad_ref.schemas[ROOT].children[0].schema = 9;
    assert!(!check_schemas(&bad_ref));

    let mut dup_child = schemas();
    dup_child.schemas[ROOT].children[1].tag = chars("item");
    assert!(!check_schemas(&dup_child));

    let mut wrong_tag = schemas();
    wrong_tag.schemas[ROOT].children[1].schema = ITEM;
    assert!(!check_schemas(&wrong_tag));

    let mut text_clash = schemas();
    text_clash.schemas[ROOT].text = TextBinding::Flattened(chars("flag"));
    assert!(!check_schemas(&text_clash));

    let mut dup_attr = schemas();
    dup_attr.schemas[ROOT].attrs.push(AttrBinding { name: chars("a"), required: false });
    assert!(!check_schemas(&dup_attr));

    let mut ns_clash = schemas();
    ns_clash.schemas[ROOT].attrs.push(AttrBinding { name: chars("xmlns:x"), required: false });
    assert!(!check_schemas(&ns_clash));
}

#[test]
fn blank_text_between_children_is_ignored() {
    let mut set = schemas();
    set.schemas.push(ElementSchema {
        tag: chars("para"),
        attrs: vec![],
        children: vec![ChildBinding { tag: chars("item"), card: Cardinality::Many, schema: ITEM }],
        text: TextBinding::Direct,
        ns_decls: vec![],
    });
    let e = from_xml(&set, 4, &chars("<para>\n  <item>x</item>\n  <item>y</item>\n</para>")).unwrap();
    assert_eq!(e.children[0].len(), 2);
    assert_eq!(text(e.text.as_deref().unwrap()), "");
    let f = from_xml(&set, 4, &chars("<para> a <item>x</item> b</para>")).unwrap();
    assert_eq!(text(f.text.as_deref().unwrap()), " a  b");
    let g = read(ITEM, "<item>  </item>").unwrap();
    assert_eq!(text(g.text.as_deref().unwrap()), "  ");
}

const MAIN: &str = "http://schemas.openxmlformats.org/wordprocessingml/2006/main";

fn word_styles_set() -> SchemaSet {
    SchemaSet {
        schemas: vec![
            ElementSchema {
                tag: chars("w:docDefaults"),
                attrs: vec![],
                children: vec![],
                text: TextBinding::NoText,
                ns_decls: vec![],
            },
            ElementSchema {
                tag: chars("w:style"),
                attrs: vec![
                    AttrBinding { name: chars("w:type"), required: false },
                    AttrBinding { name: chars("w:styleId"), required: false },
                ],
                children: vec![],
                text: TextBinding::NoText,
                ns_decls: vec![],
            },
            styles_schema(0, 1),
        ],
    }
}

fn styles_text(st: Styles) -> String {
    text(&to_xml(&word_styles_set(), 2, &st.into_element()))
}

fn styles_read(s: &str) -> Styles {
    Styles::from_element(from_xml(&word_styles_set(), 2, &chars(s)).unwrap())
}

fn show_styles(st: &Styles) -> String {
    format!("{:?}", st)
}

#[test]
fn styles_read_write() {
    assert!(check_schemas(&word_styles_set()));

    let empty = Styles::new();
    assert_eq!(styles_text(Styles::new()), format!(r#"<w:styles xmlns:w="{}"/>"#, MAIN));
    let back = styles_read(&format!(r#"<w:styles xmlns:w="{}"></w:styles>"#, MAIN));
    assert_eq!(show_styles(&back), show_styles(&empty));

    let mut with_default = Styles::new();
    with_default.default(Element { attrs: vec![], children: vec![], text: None });
    let expected = show_styles(&with_default);
    assert_eq!(
        styles_text(with_default),
        format!(r#"<w:styles xmlns:w="{}"><w:docDefaults/></w:styles>"#, MAIN)
    );
    let back = styles_read(&format!(
        r#"<w:styles xmlns:w="{}"><w:docDefaults></w:docDefaults></w:styles>"#,
        MAIN
    ));
    assert_eq!(show_styles(&back), expected);

    let mut with_style = Styles::new();
    with_style.push(Element {
        attrs: vec![Some(chars("paragraph")), Some(chars(""))],
        children: vec![],
        text: None,
    });
    let expected = show_styles(&with_style);
    assert_eq!(
        styles_text(with_style),
        format!(r#"<w:styles xmlns:w="{}"><w:style w:type="paragraph" w:styleId=""/></w:styles>"#, MAIN)
    );
    let back = styles_read(&format!(
        r#"<w:styles xmlns:w="{}"><w:style w:type="paragraph" w:styleId=""></w:style></w:styles>"#,
        MAIN
    ));
    assert_eq!(show_styles(&back), expected);
}

#[test]
fn styles_unknown_child_anywhere() {
    let back = styles_read(&format!(
        r#"<w:styles xmlns:w="{}"><w:style w:styleId="a"/><w:latentStyles><w:lsdException w:name="x"/></w:latentStyles><w:style w:styleId="b"/></w:styles>"#,
        MAIN
    ));
    assert!(back.default.is_none());
    assert_eq!(back.styles.len(), 2);
    assert_eq!(text(back.styles[1].attrs[1].as_deref().unwrap()), "b");
}
