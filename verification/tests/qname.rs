use xmlem::QName;

#[test]
fn qname() {
    assert!(QName::new("9").is_err());
    assert!(QName::new("").is_err());
    assert!(QName::new("\n").is_err());
    assert!(QName::new("9\n").is_err());
    assert!(QName::new("\n9").is_err());
}

#[test]
fn qname_parts() {
    let q = QName::new("latin:keyboardLayout").unwrap();
    assert_eq!(q.namespace(), Some("latin"));
    assert_eq!(q.local_part(), "keyboardLayout");
    assert_eq!(q.prefixed_name(), "latin:keyboardLayout");
    let p = QName::new("row").unwrap();
    assert_eq!(p.namespace(), None);
    assert_eq!(p.local_part(), "row");
    assert_eq!(p.prefixed_name(), "row");
}

#[test]
fn qname_validity() {
    assert!(xmlem::is_valid_qname("a-b.c"));
    assert!(xmlem::is_valid_qname("x:elem"));
    assert!(!xmlem::is_valid_qname("-ab"));
    assert!(!xmlem::is_valid_qname("a b"));
}
