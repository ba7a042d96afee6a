use xmlem::{Document, NewElement, Node, QName};

fn new_el(name: &str) -> NewElement {
    NewElement { name: QName::new(name).unwrap(), attrs: Vec::new() }
}

fn new_el_with(name: &str, attrs: &[(&str, &str)]) -> NewElement {
    NewElement {
        name: QName::new(name).unwrap(),
        attrs: attrs
            .iter()
            .map(|(k, v)| (QName::new(k).unwrap(), v.to_string()))
            .collect(),
    }
}

#[test]
fn test() {
    let mut doc = Document::new("root").unwrap();

    let new_el_handle = doc
        .root()
        .append_new_element(&mut doc, new_el("child"))
        .unwrap();
    new_el_handle
        .append_new_element(&mut doc, new_el("child2"))
        .unwrap();
    let foo = new_el_handle
        .append_new_element(
            &mut doc,
            new_el_with("with-child2", &[("hello", "yes"), ("another-thing", "yes")]),
        )
        .unwrap();
    foo.append_new_element(&mut doc, new_el("child3")).unwrap();
    foo.append_new_element(&mut doc, new_el("child3")).unwrap();
    foo.append_new_element(&mut doc, new_el("child3")).unwrap();
    new_el_handle
        .append_new_element(&mut doc, new_el("child2"))
        .unwrap();

    let _potato = doc
        .root()
        .append_new_element(&mut doc, new_el("potato"))
        .unwrap();

    let parent = foo.parent(&doc).unwrap();
    parent.remove_child(&mut doc, Node::Element(foo)).unwrap();

    println!("{}", doc.to_string());
}

#[test]
fn smoke2() {
    let doc = Document::from_str(
        r#"<root xmlns:x="http://lol" someattr="true">lol <x:sparta/><sparta derp="9000"></sparta> </root>"#,
    )
    .unwrap();
    println!("{}", doc.to_string());
}

#[test]
fn smoke3() {
    let input = r#"<俄语 լեզու="ռուսերեն">данные</俄语>"#;
    let doc = Document::from_str(input).unwrap();
    println!("{}", doc.to_string());
}

#[test]
fn smoke4() {
    let input = "<root>ذ&amp;اكرة USB كبيرة السعة التخزينية (عصا، قرص ذاكرة USB)...</root>";
    let doc = Document::from_str(input).unwrap();
    println!("{}", doc.to_string());
}

#[test]
fn smoke5() {
    let input = "<root>
            Text text &#x202d;text text
            &#x202e;text text &#x202d;text text
        </root>";
    let doc = Document::from_str(input).unwrap();
    println!("{}", doc.to_string());
}

#[test]
fn long_attrs() {
    let input = r#"<root attribute1="potato potato potato"
            attribute2="potato potato potato"
            attribute3="potato potato potato"
            attribute4="potato potato potato"
        >
            <interesting attribute1="potato potato potato" attribute2="potato potato potato"
            />
            <another-one/>
        </root>
        "#;
    let doc = Document::from_str(input).unwrap();
    let mut c1 = xmlem::Config::default_pretty();
    c1.indent = 4;
    c1.max_line_length = 120;
    println!("{}", doc.to_string_pretty_with_config(&c1));
    let mut c2 = xmlem::Config::default_pretty();
    c2.indent = 2;
    c2.max_line_length = 60;
    println!("{}", doc.to_string_pretty_with_config(&c2));
    let mut c3 = xmlem::Config::default_pretty();
    c3.indent = 1;
    c3.max_line_length = 400;
    println!("{}", doc.to_string_pretty_with_config(&c3));
}

#[test]
fn hmm() {
    let input = "<?xml version=\"1.1\" ?>some random text<![CDATA[<hahaha>]]><!DOCTYPE root ahh ahhhh><!-- pre --><root/><!-- comment --> some other text";
    let doc = Document::from_str(input).unwrap();
    println!("{}", doc.to_string_pretty());
}

#[test]
fn after() {
    let input = "<root><a/><b/><c/><d/></root>";
    let mut doc = Document::from_str(input).unwrap();

    let b = doc.root().children(&doc)[1];
    assert_eq!(b.name(&doc), Some("b"));
    b.append_new_element_after(&mut doc, new_el_with("potato", &[("hihi", "oij")]))
        .unwrap();

    let kids = doc.root().children(&doc);
    let names: Vec<&str> = kids.iter().map(|e| e.name(&doc).unwrap()).collect();
    assert_eq!(names, vec!["a", "b", "potato", "c", "d"]);

    let d = kids[4];
    d.append_new_element_after(&mut doc, new_el_with("potato", &[("hihi", "oij")]))
        .unwrap();
    println!("{}", doc.to_string_pretty());
}

#[test]
fn set_text() {
    let input = "<root><a/></root>";
    let mut doc = Document::from_str(input).unwrap();

    doc.root().set_text(&mut doc, "potato").unwrap();

    assert_eq!(doc.to_string(), "<root>potato</root>");
}

#[test]
fn double_use() {
    let input = "<root><a/></root>";
    let mut doc = Document::from_str(input).unwrap();

    let a = doc.root().children(&doc)[0];
    doc.root()
        .remove_child(&mut doc, Node::Element(a))
        .unwrap();
    assert_eq!(a.parent(&doc), None);

    let inner = doc
        .root()
        .append_new_element(&mut doc, new_el("test"))
        .unwrap();

    // The removed child was freed, so its handle is permanently stale and
    // re-attaching it is rejected rather than resolving to another node.
    assert!(inner.append_element(&mut doc, a).is_err());
    println!("{}", doc.to_string_pretty());
}

#[test]
fn non_root_empty_element_name() {
    let input = r#"<root><elem/><x:elem/></root>"#;
    let doc = Document::from_str(input).unwrap();

    let nq_elem = doc.root().children(&doc)[0];
    let nq_name = nq_elem.qname(&doc).unwrap();
    assert_eq!(nq_name.namespace(), None);
    assert_eq!(nq_elem.prefix(&doc), None);
    assert_eq!(nq_name.local_part(), "elem");
    assert_eq!(nq_elem.name(&doc), Some("elem"));

    let q_elem = doc.root().children(&doc)[1];
    let q_name = q_elem.qname(&doc).unwrap();
    assert_eq!(q_name.namespace(), Some("x"));
    assert_eq!(q_elem.prefix(&doc), Some("x"));
    assert_eq!(q_name.local_part(), "elem");
    assert_eq!(q_elem.name(&doc), Some("x:elem"));
}

#[test]
fn non_root_non_empty_element_name() {
    let input = r#"<root><elem></elem><x:elem></x:elem></root>"#;
    let doc = Document::from_str(input).unwrap();

    let nq_elem = doc.root().children(&doc)[0];
    let nq_name = nq_elem.qname(&doc).unwrap();
    assert_eq!(nq_name.namespace(), None);
    assert_eq!(nq_elem.prefix(&doc), None);
    assert_eq!(nq_name.local_part(), "elem");
    assert_eq!(nq_elem.name(&doc), Some("elem"));

    let q_elem = doc.root().children(&doc)[1];
    let q_name = q_elem.qname(&doc).unwrap();
    assert_eq!(q_name.namespace(), Some("x"));
    assert_eq!(q_elem.prefix(&doc), Some("x"));
    assert_eq!(q_name.local_part(), "elem");
    assert_eq!(q_elem.name(&doc), Some("x:elem"));
}

#[test]
fn pretty_minimizes_whitespace() {
    let doc = Document::from_str("<text>\n    Actual Output\n    </text>").unwrap();
    assert_eq!(doc.to_string_pretty(), "<text>\n  Actual Output\n</text>\n");
}

#[test]
fn non_pretty_preserves_whitespace() {
    const EXACT_XML: &str = "<text>\t  \n Actual \n \t Output   \t\n  </text>";
    let doc = Document::from_str(EXACT_XML).unwrap();
    assert_eq!(doc.to_string(), EXACT_XML);
}

#[test]
fn accepts_pi_before_root() {
    Document::from_str(r#"<?xml-stylesheet href="style.css" type="text/css"?><root/>"#).unwrap();
}

fn parse_buffer(buf: &[u8]) -> Result<Document, xmlem::ReadError> {
    Document::from_bytes(buf)
}

#[test]
fn ignored_invalids() {
    parse_buffer(b"<?xml version=\"\xA1\"?><root/>").unwrap();
    parse_buffer(b"<?xml other?><root/>").unwrap();
    parse_buffer(b"<?xml version=\"1.1\" standalone=\"\xA1\"?><root/>").unwrap();
    parse_buffer(b"<?xml version=\"1.1\" encoding=\"\xA1\"?><root/>").unwrap();
}

#[test]
fn erroring_invalids() {
    parse_buffer(b"").unwrap_err();
    parse_buffer(b"</root>").unwrap_err();
    parse_buffer(b"<!DOCTYPE a=\"&\"><root/>").unwrap_err();
    parse_buffer(b"<!DOCTYPE \xA1><root/>").unwrap_err();
    parse_buffer(b"&").unwrap_err();
    parse_buffer(b"<!-- & -->").unwrap_err();
    parse_buffer(b"<\xA1/>").unwrap_err();
    parse_buffer(b"<\x00/>").unwrap_err();
    parse_buffer(b"<root a=\"&\"/>").unwrap_err();
    parse_buffer(b"<root a=\"\xA1\"/>").unwrap_err();
    parse_buffer(b"<root \xA1=\"\"/>").unwrap_err();
    parse_buffer(b"<root><\xA1/></root>").unwrap_err();
    parse_buffer(b"<root><\x00/></root>").unwrap_err();
    parse_buffer(b"<root><elem a=\"\xA1\"/></root>").unwrap_err();
    parse_buffer(b"<root><elem a=\"&\"/></root>").unwrap_err();
    parse_buffer(b"<root><elem \xA1=\"\"/></root>").unwrap_err();
    parse_buffer(b"<root><elem \x00=\"\"/></root>").unwrap_err();
    parse_buffer(b"<root><\xA1></\xA1></root>").unwrap_err();
    parse_buffer(b"<root><\x00></\x00></root>").unwrap_err();
    parse_buffer(b"<root><elem a=\"\xA1\"></elem></root>").unwrap_err();
    parse_buffer(b"<root><elem a=\"&\"></elem></root>").unwrap_err();
    parse_buffer(b"<root><elem \xA1=\"\"></elem></root>").unwrap_err();
    parse_buffer(b"<root><elem \x00=\"\"></elem></root>").unwrap_err();
}

#[test]
fn nested_pretty_scenario() {
    let input = "<root><potato/></root>";
    let mut doc = Document::from_str(input).unwrap();
    let potato = doc.root().children(&doc)[0];
    potato
        .append_new_element(&mut doc, new_el_with("wow", &[("easy", "true"), ("x", "200")]))
        .unwrap();
    let out = doc.to_string_pretty();
    assert!(out.contains("<wow easy=\"true\" x=\"200\" />"));
    assert!(out.contains("\n    <wow"));
}

#[test]
fn escapes_controls_and_quotes() {
    let mut doc = Document::new("root").unwrap();
    let root = doc.root();
    root.set_attribute(&mut doc, "a", "\u{0}\u{0} \"'&'\"")
        .unwrap();
    let out = doc.to_string();
    assert!(out.contains("&#x0000;"));
    assert!(out.contains("&quot;"));
    assert!(out.contains("&amp;"));
    assert!(!out.contains('\u{0}'));
}

#[test]
fn round_trip_compact() {
    let input = "<root a=\"1\" b=\"two\"><x/><y>inner text</y><!--note--></root>";
    let doc = Document::from_str(input).unwrap();
    assert_eq!(doc.to_string(), input);
}

#[test]
fn attribute_lookup_and_order() {
    let mut doc = Document::new("root").unwrap();
    let root = doc.root();
    root.set_attribute(&mut doc, "b", "2").unwrap();
    root.set_attribute(&mut doc, "a", "1").unwrap();
    root.set_attribute(&mut doc, "b", "3").unwrap();
    assert_eq!(root.attribute(&doc, "b").as_deref(), Some("3"));
    assert_eq!(root.attribute(&doc, "a").as_deref(), Some("1"));
    assert_eq!(root.attribute(&doc, "c"), None);
    let attrs = root.attributes(&doc);
    assert_eq!(attrs.len(), 2);
    assert_eq!(attrs[0].0.prefixed_name(), "b");
    assert_eq!(attrs[1].0.prefixed_name(), "a");
    assert_eq!(doc.to_string(), "<root b=\"3\" a=\"1\" />");
}

#[test]
fn declaration_rendering() {
    let mut doc = Document::new("root").unwrap();
    doc.set_declaration(Some(xmlem::Declaration::v1_0()));
    assert_eq!(
        doc.to_string(),
        "<?xml version=\"1.0\" encoding=\"utf-8\"?><root/>"
    );
}

#[test]
fn sort_attributes_by_name() {
    let mut doc = Document::new("root").unwrap();
    let root = doc.root();
    root.set_attribute(&mut doc, "zeta", "1").unwrap();
    root.set_attribute(&mut doc, "alpha", "2").unwrap();
    root.set_attribute(&mut doc, "mid", "3").unwrap();
    doc.sort(false);
    assert_eq!(doc.to_string(), "<root alpha=\"2\" mid=\"3\" zeta=\"1\" />");
}

#[test]
fn sort_attribute_order_invariance() {
    let mut d1 = Document::new("root").unwrap();
    d1.root().set_attribute(&mut d1, "b", "2").unwrap();
    d1.root().set_attribute(&mut d1, "a", "1").unwrap();
    let mut d2 = Document::new("root").unwrap();
    d2.root().set_attribute(&mut d2, "a", "1").unwrap();
    d2.root().set_attribute(&mut d2, "b", "2").unwrap();
    d1.sort(true);
    d2.sort(true);
    assert_eq!(d1.to_string(), d2.to_string());
}

#[test]
fn sort_elements_by_composite_key() {
    let mut doc =
        Document::from_str("<root><c/><a x=\"2\"/><a x=\"1\"/><b/></root>").unwrap();
    doc.sort(true);
    assert_eq!(doc.to_string(), "<root><a x=\"1\" /><a x=\"2\" /><b/><c/></root>");
}

#[test]
fn sort_idempotent_output() {
    let input = "<root b=\"2\" a=\"1\"><z/><y/><!--note--><x/></root>";
    let mut d1 = Document::from_str(input).unwrap();
    d1.sort(true);
    let once = d1.to_string();
    d1.sort(true);
    assert_eq!(d1.to_string(), once);
}

#[test]
fn sort_keeps_mixed_content_order() {
    let input = "<root>word <b/> tail</root>";
    let mut doc = Document::from_str(input).unwrap();
    doc.sort(true);
    assert_eq!(doc.to_string(), input);
}

#[test]
fn doctype_round_trip() {
    let mut doc = Document::new("root").unwrap();
    assert_eq!(doc.doctype(), None);
    doc.set_doctype(Some("root SYSTEM \"x.dtd\""));
    assert_eq!(doc.doctype(), Some("root SYSTEM \"x.dtd\""));
    assert_eq!(doc.to_string(), "<!DOCTYPE root SYSTEM \"x.dtd\"><root/>");
    doc.set_doctype(Some("other"));
    assert_eq!(doc.doctype(), Some("other"));
    doc.set_doctype(None);
    assert_eq!(doc.doctype(), None);
    assert_eq!(doc.to_string(), "<root/>");
}

#[test]
fn clone() {
    let input = r#"<俄语 լեզու="ռուսերեն">данные</俄语>"#;
    let doc = Document::from_str(input).unwrap();
    let mut doc2 = doc.deep_clone();

    let root = doc2.root();
    root.append_new_element(&mut doc2, new_el("lol")).unwrap();

    println!("{}", doc.to_string());
    println!("{}", doc2.to_string());
    assert_eq!(doc.to_string(), input);
    assert!(doc2.to_string().contains("lol"));
}

#[test]
fn walk_and_siblings() {
    let doc = Document::from_str("<root><a><b/></a>mid<c/></root>").unwrap();
    let names: Vec<String> = doc
        .root()
        .walk(&doc)
        .iter()
        .map(|e| e.name(&doc).unwrap().to_string())
        .collect();
    assert_eq!(names, vec!["a", "b", "c"]);
    let kids = doc.root().children(&doc);
    let a = kids[0];
    let c = kids[1];
    assert_eq!(a.next_sibling_element(&doc), Some(c));
    assert_eq!(c.prev_sibling_element(&doc), Some(a));
    assert_eq!(a.prev_sibling_element(&doc), None);
    assert_eq!(c.next_sibling_element(&doc), None);
    assert_eq!(doc.root().prev_sibling_element(&doc), None);
}
