use docx::document::{from_xml, to_xml, variant_from_xml, variant_to_xml};
use docx::schema::{
    AttrBinding, Cardinality, ChildBinding, Element, ElementSchema, SchemaSet, TextBinding,
};
use docx::variant::{Variant, VariantSet};

fn chars(s: &str) -> Vec<char> {
    s.chars().collect()
}

fn text(v: &[char]) -> String {
    v.iter().collect()
}

#[derive(PartialEq, Debug)]
struct Tag1 {
    att1: Option<String>,
    content: String,
}

#[derive(PartialEq, Debug)]
struct Tag2 {
    att1: String,
    att2: String,
}

#[derive(PartialEq, Debug)]
struct Tag3 {
    att1: String,
    tag1: Vec<Tag1>,
    tag2: Option<Tag2>,
    text: Option<String>,
}

#[derive(PartialEq, Debug)]
enum Tag {
    Tag1(Tag1),
    Tag2(Tag2),
    Tag3(Tag3),
}

const TAG1: usize = 0;
const TAG2: usize = 1;
const TAG3: usize = 2;

fn schemas() -> SchemaSet {
    let attr = |n: &str, required: bool| AttrBinding { name: chars(n), required };
    SchemaSet {
        schemas: vec![
            ElementSchema {
                tag: chars("tag1"),
                attrs: vec![attr("att1", false)],
                children: vec![],
                text: TextBinding::Direct,
                ns_decls: vec![],
            },
            ElementSchema {
                tag: chars("tag2"),
                attrs: vec![attr("att1", true), attr("att2", true)],
                children: vec![],
                text: TextBinding::NoText,
                ns_decls: vec![],
            },
            ElementSchema {
                tag: chars("tag3"),
                attrs: vec![attr("att1", true)],
                children: vec![
                    ChildBinding { tag: chars("tag1"), card: Cardinality::Many, schema: TAG1 },
                    ChildBinding { tag: chars("tag2"), card: Cardinality::Optional, schema: TAG2 },
                ],
                text: TextBinding::Flattened(chars("text")),
                ns_decls: vec![],
            },
        ],
    }
}

fn variants() -> VariantSet {
    VariantSet { members: vec![TAG1, TAG2, TAG3] }
}

impl Tag1 {
    fn to_element(&self) -> Element {
        Element {
            attrs: vec![self.att1.as_deref().map(chars)],
            children: vec![],
            text: Some(chars(&self.content)),
        }
    }

    fn from_element(e: &Element) -> Tag1 {
        Tag1 {
            att1: e.attrs[0].as_deref().map(text),
            content: e.text.as_deref().map(text).unwrap_or_default(),
        }
    }
}

impl Tag2 {
    fn to_element(&self) -> Element {
        Element {
            attrs: vec![Some(chars(&self.att1)), Some(chars(&self.att2))],
            children: vec![],
            text: None,
        }
    }

    fn from_element(e: &Element) -> Tag2 {
        Tag2 {
            att1: text(e.attrs[0].as_deref().unwrap()),
            att2: text(e.attrs[1].as_deref().unwrap()),
        }
    }
}

impl Tag3 {
    fn to_element(&self) -> Element {
        Element {
            attrs: vec![Some(chars(&self.att1))],
            children: vec![
                self.tag1.iter().map(Tag1::to_element).collect(),
                self.tag2.iter().map(Tag2::to_element).collect(),
            ],
            text: self.text.as_deref().map(chars),
        }
    }

    fn from_element(e: &Element) -> Tag3 {
        Tag3 {
            att1: text(e.attrs[0].as_deref().unwrap()),
            tag1: e.children[0].iter().map(Tag1::from_element).collect(),
            tag2: e.children[1].first().map(Tag2::from_element),
            text: e.text.as_deref().map(text),
        }
    }
}

impl Tag {
    fn to_variant(&self) -> Variant {
        match self {
            Tag::Tag1(t) => Variant { kind: 0, value: t.to_element() },
            Tag::Tag2(t) => Variant { kind: 1, value: t.to_element() },
            Tag::Tag3(t) => Variant { kind: 2, value: t.to_element() },
        }
    }

    fn from_variant(v: &Variant) -> Tag {
        match v.kind {
            0 => Tag::Tag1(Tag1::from_element(&v.value)),
            1 => Tag::Tag2(Tag2::from_element(&v.value)),
            _ => Tag::Tag3(Tag3::from_element(&v.value)),
        }
    }
}

fn write_tag3(t: &Tag3) -> String {
    text(&to_xml(&schemas(), TAG3, &t.to_element()))
}

fn read_tag3(s: &str) -> Tag3 {
    Tag3::from_element(&from_xml(&schemas(), TAG3, &chars(s)).unwrap())
}

fn write_tag(t: &Tag) -> String {
    text(&variant_to_xml(&schemas(), &variants(), &t.to_variant()))
}

fn read_tag(s: &str) -> Tag {
    Tag::from_variant(&variant_from_xml(&schemas(), &variants(), &chars(s)).unwrap())
}

#[test]
fn test_write() {
    assert_eq!(
        r#"<tag3 att1="att1"><tag1 att1="tag1_att1">tag1_content</tag1><tag2 att1="tag2_att1" att2="tag2_att2"/></tag3>"#,
        write_tag3(&Tag3 {
            att1: String::from("att1"),
            tag1: vec![Tag1 {
                att1: Some(String::from("tag1_att1")),
                content: String::from("tag1_content"),
            }],
            tag2: Some(Tag2 {
                att1: String::from("tag2_att1"),
                att2: String::from("tag2_att2"),
            }),
            text: None,
        })
    );

    assert_eq!(
        r#"<tag3 att1="att1"><tag1>tag1_content</tag1><text>tag3_content</text></tag3>"#,
        write_tag3(&Tag3 {
            att1: String::from("att1"),
            tag1: vec![Tag1 { att1: None, content: String::from("tag1_content") }],
            tag2: None,
            text: Some(String::from("tag3_content")),
        })
    );

    assert_eq!(
        r#"<tag3 att1="att1"><tag1>content</tag1><tag1>tag1</tag1><text>tag3_content</text></tag3>"#,
        write_tag3(&Tag3 {
            att1: String::from("att1"),
            tag1: vec![
                Tag1 { att1: None, content: String::from("content") },
                Tag1 { att1: None, content: String::from("tag1") },
            ],
            tag2: None,
            text: Some(String::from("tag3_content")),
        })
    );

    assert_eq!(
        r#"<tag1>tag1_content</tag1>"#,
        write_tag(&Tag::Tag1(Tag1 { att1: None, content: String::from("tag1_content") }))
    );
}

#[test]
fn test_read() {
    assert_eq!(
        read_tag3(
            r#"<tag3 att1="att1"><text>tag3_content</text><tag2 att2="att2" att1="att1"/><tag1 att1="att1">content</tag1></tag3>"#
        ),
        Tag3 {
            att1: String::from("att1"),
            tag1: vec![Tag1 { att1: Some(String::from("att1")), content: String::from("content") }],
            tag2: Some(Tag2 { att1: String::from("att1"), att2: String::from("att2") }),
            text: Some(String::from("tag3_content")),
        }
    );

    assert_eq!(
        read_tag3(r#"<tag3 att1="att1"><tag1>content</tag1><text>tag3_content</text></tag3>"#),
        Tag3 {
            att1: String::from("att1"),
            tag1: vec![Tag1 { att1: None, content: String::from("content") }],
            tag2: None,
            text: Some(String::from("tag3_content")),
        }
    );

    assert_eq!(
        read_tag3(
            r#"<tag3 att1="att1"><tag1 att1="att11">content1</tag1><tag1 att1="att12">content2</tag1></tag3>"#
        ),
        Tag3 {
            att1: String::from("att1"),
            tag1: vec![
                Tag1 { att1: Some(String::from("att11")), content: String::from("content1") },
                Tag1 { att1: Some(String::from("att12")), content: String::from("content2") },
            ],
            tag2: None,
            text: None,
        }
    );

    assert_eq!(
        read_tag(r#"<tag1 att1="att1">content</tag1>"#),
        Tag::Tag1(Tag1 { att1: Some(String::from("att1")), content: String::from("content") })
    );

    assert_eq!(
        read_tag(r#"<tag2 att2="att2" att1="att1"/>"#),
        Tag::Tag2(Tag2 { att1: String::from("att1"), att2: String::from("att2") })
    );
}
