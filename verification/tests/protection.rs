use lopdf::{Dictionary, Document, Object};
use sheaf::error::SheafError;
use sheaf::security::{
    protect, reachable_signature_reports, signature_report, unprotect, FieldNode, SecuritySpec,
    SignatureField,
};

fn tiny_pdf() -> Vec<u8> {
    let mut doc = Document::with_version("1.4");
    let pages_id = doc.new_object_id();
    let mut page = Dictionary::new();
    page.set("Type", Object::Name(b"Page".to_vec()));
    page.set("Parent", Object::Reference(pages_id));
    page.set(
        "MediaBox",
        vec![Object::Integer(0), Object::Integer(0), Object::Integer(200), Object::Integer(200)],
    );
    let page_id = doc.add_object(page);
    let mut pages = Dictionary::new();
    pages.set("Type", Object::Name(b"Pages".to_vec()));
    pages.set("Kids", vec![Object::Reference(page_id)]);
    pages.set("Count", Object::Integer(1));
    doc.objects.insert(pages_id, Object::Dictionary(pages));
    let mut catalog = Dictionary::new();
    catalog.set("Type", Object::Name(b"Catalog".to_vec()));
    catalog.set("Pages", Object::Reference(pages_id));
    let catalog_id = doc.add_object(catalog);
    doc.trailer.set("Root", Object::Reference(catalog_id));
    let mut out = Vec::new();
    doc.save_to(&mut out).unwrap();
    out
}

fn spec_with(owner: &str, user: &str) -> SecuritySpec {
    SecuritySpec {
        user_password: user.to_owned(),
        owner_password: owner.to_owned(),
        allow_print: true,
        allow_print_high_quality: true,
        allow_modify: false,
        allow_copy: true,
        allow_annotate: true,
        allow_fill_forms: true,
        allow_assemble: true,
        allow_accessibility: true,
    }
}

#[test]
fn unprotecting_an_unencrypted_file_returns_it_unchanged() {
    let pdf = tiny_pdf();
    assert_eq!(unprotect(&pdf, None).unwrap(), pdf);
    assert_eq!(unprotect(&pdf, Some("anything")).unwrap(), pdf);
}

#[test]
fn bytes_that_are_not_a_pdf_are_a_parse_error() {
    match unprotect(b"definitely not a pdf", None) {
        Err(SheafError::Pdf(m)) => assert!(m.starts_with("parse: "), "{m}"),
        other => panic!("expected a parse error, got {other:?}"),
    }
    match protect(b"definitely not a pdf", None, &spec_with("o", "u"), 1, &[3u8; 32]) {
        Err(SheafError::Pdf(m)) => assert!(m.starts_with("parse: "), "{m}"),
        other => panic!("expected a parse error, got {other:?}"),
    }
}

#[test]
fn protecting_encrypts_and_unprotecting_with_the_password_decrypts() {
    let pdf = tiny_pdf();
    let locked = protect(&pdf, None, &spec_with("owner", "user"), 1, &[7u8; 32]).unwrap();
    assert!(locked.starts_with(b"%PDF-1.7"), "AES-256 raises the header version");
    assert!(Document::load_mem(&locked).unwrap().is_encrypted());
    let opened = unprotect(&locked, Some("user")).unwrap();
    let reopened = Document::load_mem(&opened).unwrap();
    assert!(!reopened.is_encrypted());
    assert_eq!(reopened.get_pages().len(), 1);
    assert!(unprotect(&locked, Some("wrong")).is_err());
}

fn field(name: Option<&str>, value_ref: Option<(u32, u16)>, declares: bool) -> SignatureField {
    SignatureField {
        field_name: "Sig1".into(),
        name: name.map(|s| s.to_owned()),
        signed_at: Some("D:20240101000000Z".into()),
        reason: None,
        location: Some("Berlin".into()),
        page: Some(0),
        byte_range: vec![0, 4, 10, 4],
        contents: Vec::new(),
        declares_docmdp: declares,
        value_ref,
    }
}

#[test]
fn a_signature_field_is_checked_against_the_file_and_reported() {
    let file = b"AAAA<0000>BBBB";
    let named = signature_report(file, &field(Some("Alice"), Some((5, 0)), false), Some((5, 0)));
    assert_eq!(named.signer, "Alice");
    assert!(named.locks_document, "named by /Perms /DocMDP");
    assert_eq!(named.field_name, "Sig1");
    assert_eq!(named.status, "unknown");
    assert_eq!(named.messages, vec!["Unsigned signature field.".to_owned()]);
    assert_eq!(named.location.as_deref(), Some("Berlin"));
    assert_eq!(named.page, Some(0));
    let anonymous = signature_report(file, &field(None, Some((6, 0)), false), Some((5, 0)));
    assert!(!anonymous.locks_document);
    assert_eq!(anonymous.signer, "", "no /Name and no certificate subject");
    let declared = signature_report(file, &field(None, None, true), None);
    assert!(declared.locks_document, "declares a DocMDP transform");
}

fn node(id: u32, kids: Vec<Option<(u32, u16)>>, ft: Option<&[u8]>, sig: Option<SignatureField>) -> FieldNode {
    FieldNode { id: (id, 0), kids, field_type: ft.map(|t| t.to_vec()), signature: sig }
}

#[test]
fn every_reachable_signature_field_is_reported_once() {
    let file = b"AAAA<0000>BBBB";
    let table = vec![
        node(1, vec![Some((2, 0)), None, Some((9, 0))], None, None),
        node(2, vec![Some((1, 0))], Some(b"Sig"), Some(field(Some("Alice"), Some((5, 0)), false))),
        node(3, vec![], Some(b"Sig"), Some(field(Some("Unreachable"), None, false))),
        node(4, vec![], Some(b"Tx"), Some(field(Some("Text"), None, false))),
        node(6, vec![], Some(b"Sig"), None),
        node(7, vec![], Some(b"Sig"), Some(field(Some("Kid"), None, false))),
    ];
    let top = [Some((1, 0)), Some((2, 0)), Some((4, 0)), Some((6, 0)), None];
    let reports = reachable_signature_reports(file, &top, &table, Some((5, 0)));
    assert_eq!(reports.len(), 1);
    assert_eq!(reports[0].0, 1);
    assert_eq!(reports[0].1.signer, "Alice");
    assert!(reports[0].1.locks_document);

    // A kid reached only through another field is reported too, after it.
    let mut table = table;
    table[0].kids.push(Some((7, 0)));
    let reports = reachable_signature_reports(file, &[Some((1, 0))], &table, None);
    let signers: Vec<&str> = reports.iter().map(|(_, r)| r.signer.as_str()).collect();
    assert_eq!(signers, vec!["Kid", "Alice"]);
    assert!(reachable_signature_reports(file, &[], &table, None).is_empty());
}
