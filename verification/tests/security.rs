use sheaf::error::SheafError;
use sheaf::security::{
    check_signature, civil_from_unix, decode_base64, der_to_pem, display_name, document_error,
    escape_pdf_text, fill_signature, find, find_between, hex_decode, identity_id, load_pkcs12,
    local_key_id, owner_password, patch_byte_range, pdf_date, permission_bits,
    signature_contents, signature_field_name, signature_lines, signed_bytes,
    strip_trailing_zeros, subject_dn, validity_seconds, IdentityStore, SecuritySpec,
    list_identities, IdentityMeta, StoredFile,
};

#[test]
fn civil_date() {
    assert_eq!(civil_from_unix(0), (1970, 1, 1, 0, 0, 0));
    assert_eq!(civil_from_unix(1_788_471_200), (2026, 9, 3, 21, 33, 20));
}

#[test]
fn display_names() {
    assert_eq!(display_name("O=Sheaf, CN=Brian"), "Brian");
    assert_eq!(display_name("CN=A\\, B"), "A\\");
}

#[test]
fn display_name_without_a_common_name_is_the_whole_dn() {
    assert_eq!(display_name("O=Sheaf, C=DE"), "O=Sheaf, C=DE");
    assert_eq!(display_name(""), "");
}

#[test]
fn leap_days_and_year_ends() {
    // 2024-02-29 12:00:00 UTC
    assert_eq!(civil_from_unix(1_709_208_000), (2024, 2, 29, 12, 0, 0));
    // 2000-12-31 23:59:59 UTC
    assert_eq!(civil_from_unix(978_307_199), (2000, 12, 31, 23, 59, 59));
    // 2100-03-01 00:00:00 UTC: 2100 is not a leap year
    assert_eq!(civil_from_unix(4_107_542_400), (2100, 3, 1, 0, 0, 0));
}

#[test]
fn pdf_dates_are_zero_padded_utc() {
    assert_eq!(pdf_date(0), "D:19700101000000Z");
    assert_eq!(pdf_date(1_788_471_200), "D:20260903213320Z");
}

#[test]
fn pem_armour_wraps_base64_at_64_columns() {
    assert_eq!(der_to_pem("X", b""), "-----BEGIN X-----\n-----END X-----\n");
    assert_eq!(der_to_pem("X", b"Man"), "-----BEGIN X-----\nTWFu\n-----END X-----\n");
    assert_eq!(der_to_pem("X", b"Ma"), "-----BEGIN X-----\nTWE=\n-----END X-----\n");
    assert_eq!(der_to_pem("X", b"M"), "-----BEGIN X-----\nTQ==\n-----END X-----\n");
    let der = vec![0xffu8; 60];
    let pem = der_to_pem("CERTIFICATE", &der);
    let lines: Vec<&str> = pem.lines().collect();
    assert_eq!(lines[0], "-----BEGIN CERTIFICATE-----");
    assert_eq!(lines[1].len(), 64);
    assert_eq!(lines[2], "////////////////");
    assert_eq!(lines[3], "-----END CERTIFICATE-----");
}

#[test]
fn local_key_id_is_a_sha256_prefix() {
    let id = local_key_id(b"abc");
    assert_eq!(
        id,
        vec![
            0xba, 0x78, 0x16, 0xbf, 0x8f, 0x01, 0xcf, 0xea, 0x41, 0x41, 0x40, 0xde, 0x5d, 0xae,
            0x22, 0x23, 0xb0, 0x03, 0x61, 0xa3
        ]
    );
}

#[test]
fn identity_files_live_in_the_store_directory() {
    let store = IdentityStore::new("/data/identities".to_owned());
    assert_eq!(store.path_for("self-1"), "/data/identities/self-1.p12");
    assert_eq!(store.meta_path_for("self-1"), "/data/identities/self-1.json");
    assert_eq!(identity_id("import", 42), "import-42");
    let req = store.create_self_signed("  Ada Lovelace ", Some(" Analytical, Ltd "), 17);
    assert_eq!(req.id, "self-17");
    assert_eq!(req.subject, "CN=Ada Lovelace,O=Analytical\\, Ltd");
    assert_eq!(req.validity_secs, 5 * 365 * 24 * 3600);
    assert_eq!(req.p12_path, "/data/identities/self-17.p12");
    assert_eq!(req.meta_path, "/data/identities/self-17.json");
}

#[test]
fn subject_escapes_and_skips_a_blank_organisation() {
    assert_eq!(subject_dn("a=b\\c", Some("   ")), "CN=a\\=b\\\\c");
    assert_eq!(subject_dn("x", None), "CN=x");
    assert_eq!(validity_seconds(0), 365 * 24 * 3600);
    assert_eq!(validity_seconds(2), 2 * 365 * 24 * 3600);
}

#[test]
fn unreadable_pkcs12_is_reported() {
    match load_pkcs12(b"not a pkcs12 file", "pw") {
        Err(SheafError::Pdf(m)) => assert!(m.starts_with("pkcs12: "), "{m}"),
        Err(SheafError::PasswordRequired) => {}
        other => panic!("unexpected {other:?}"),
    }
}

#[test]
fn parse_errors_that_mention_passwords_ask_for_one() {
    assert!(matches!(document_error("invalid password"), SheafError::PasswordRequired));
    assert!(matches!(document_error("failed to Decrypt stream"), SheafError::PasswordRequired));
    match document_error("unexpected EOF") {
        SheafError::Pdf(m) => assert_eq!(m, "parse: unexpected EOF"),
        other => panic!("unexpected {other:?}"),
    }
}

#[test]
fn find_returns_the_first_occurrence() {
    assert_eq!(find(b"abcabc", b"bc"), Some(1));
    assert_eq!(find(b"abcabc", b"cab"), Some(2));
    assert_eq!(find(b"abc", b"abcd"), None);
    assert_eq!(find_between(b"abcabc", 2, 6, b"bc"), Some(4));
    assert_eq!(find_between(b"abcabc", 2, 4, b"bc"), None);
}

#[test]
fn hex_decoding_skips_non_digits_and_pads_an_odd_digit() {
    assert_eq!(hex_decode(b"0aFf"), vec![0x0a, 0xff]);
    assert_eq!(hex_decode(b"1 2\n3"), vec![0x12, 0x30]);
    assert_eq!(hex_decode(b""), Vec::<u8>::new());
    assert_eq!(strip_trailing_zeros(&[1, 0, 2, 0, 0]), vec![1, 0, 2]);
    assert_eq!(strip_trailing_zeros(&[0, 0]), Vec::<u8>::new());
}

fn placeholder_file() -> (Vec<u8>, usize) {
    let unsigned = b"%PDF-1.7\nbody\n".to_vec();
    let mut out = unsigned.clone();
    out.extend_from_slice(
        b"\n7 0 obj\n<< /Type /Sig /ByteRange [0 9999999999 9999999999 9999999999] /Contents <00000000> >>\nendobj\ntrailer\n",
    );
    (out, unsigned.len())
}

#[test]
fn byte_range_is_patched_in_place_and_padded() {
    let (mut out, base) = placeholder_file();
    let len = out.len();
    let slots = patch_byte_range(&mut out, base, 7, 0).unwrap();
    assert_eq!(out.len(), len);
    assert_eq!(out[slots.c_start], b'<');
    assert_eq!(out[slots.c_end - 1], b'>');
    let text = format!("[0 {} {} {}]", slots.c_start, slots.c_end, len - slots.c_end);
    let patched = String::from_utf8(out[slots.br_open..=slots.br_close].to_vec()).unwrap();
    assert!(patched.starts_with(&text));
    assert!(patched[text.len()..].bytes().all(|b| b == b' '));
    assert_eq!(patched.len(), "[0 9999999999 9999999999 9999999999]".len());
}

#[test]
fn a_missing_signature_object_is_reported() {
    let (mut out, base) = placeholder_file();
    match patch_byte_range(&mut out, base, 8, 0) {
        Err(SheafError::Pdf(m)) => assert_eq!(m, "signature object not found"),
        other => panic!("unexpected {other:?}"),
    }
}

#[test]
fn signature_hex_fills_the_reserved_space() {
    let (mut out, base) = placeholder_file();
    let slots = patch_byte_range(&mut out, base, 7, 0).unwrap();
    let before = out.clone();
    fill_signature(&mut out, slots.c_start, slots.c_end, &[0xab]).unwrap();
    assert_eq!(&out[slots.c_start..slots.c_end], b"<AB000000>");
    assert_eq!(&out[..slots.c_start], &before[..slots.c_start]);
    let mut copy = before.clone();
    match fill_signature(&mut copy, slots.c_start, slots.c_end, &[1, 2, 3, 4, 5]) {
        Err(SheafError::Pdf(m)) => assert_eq!(m, "signature larger than the reserved space"),
        other => panic!("unexpected {other:?}"),
    }
    assert_eq!(copy, before);
    let covered = signed_bytes(&out, slots.c_start, slots.c_end);
    assert_eq!(covered.len(), out.len() - (slots.c_end - slots.c_start));
}

#[test]
fn contents_come_from_the_byte_range_gap() {
    let file = b"AAAA<0a0b0000>BBBB";
    assert_eq!(signature_contents(file, &[0, 4, 14, 4], b"ignored"), vec![0x0a, 0x0b, 0, 0]);
    assert_eq!(signature_contents(file, &[0, 4, 40, 4], b"ignored"), Vec::<u8>::new());
    assert_eq!(signature_contents(file, &[-8, 4, 14, 4], b"ignored"), Vec::<u8>::new());
    assert_eq!(signature_contents(file, &[0, 4], b"stored"), b"stored".to_vec());
}

#[test]
fn unsigned_fields_and_ranges_outside_the_file() {
    let file = b"AAAA<0000>BBBB";
    let unsigned = check_signature(file, &[0, 4, 10, 4], b"");
    assert_eq!(unsigned.status, "unknown");
    assert_eq!(unsigned.messages, vec!["Unsigned signature field.".to_owned()]);
    let outside = check_signature(b"AAAA<01>BB", &[0, 4, 8, 40], b"");
    assert_eq!(outside.status, "invalid");
    assert!(!outside.covers_whole_document);
    assert_eq!(outside.messages, vec!["ByteRange points outside the file.".to_owned()]);
}

#[test]
fn garbage_cms_is_unverifiable() {
    let c = check_signature(b"AAAA<01>BB", &[0, 4, 8, 2], b"");
    assert_eq!(c.status, "unknown");
    assert!(c.covers_whole_document);
    assert_eq!(c.messages.len(), 1);
    assert!(c.messages[0].starts_with("Could not parse signature: "), "{:?}", c.messages);
    assert_eq!(c.subject, "");
}

#[test]
fn appearance_text_is_escaped_ascii() {
    assert_eq!(escape_pdf_text("a(b)c\\d"), "a\\(b\\)c\\\\d");
    assert_eq!(escape_pdf_text("Zoë\tX"), "ZoX");
}

#[test]
fn appearance_lines_skip_blank_details() {
    let lines = signature_lines(
        "D:20260903213320Z",
        &Some("Approved".to_owned()),
        &Some("  ".to_owned()),
    );
    assert_eq!(
        lines,
        vec!["Digitally signed 20260903213320Z".to_owned(), "Reason: Approved".to_owned()]
    );
    assert_eq!(signature_field_name(3_000_000_123), "Sheaf-Signature-123");
}

fn spec_with(owner: &str, user: &str) -> SecuritySpec {
    SecuritySpec {
        user_password: user.to_owned(),
        owner_password: owner.to_owned(),
        allow_print: true,
        allow_print_high_quality: true,
        allow_modify: true,
        allow_copy: true,
        allow_annotate: true,
        allow_fill_forms: true,
        allow_assemble: true,
        allow_accessibility: true,
    }
}

#[test]
fn owner_password_falls_back_to_user_then_time() {
    assert_eq!(owner_password(&spec_with("o", "u"), 1), "o");
    assert_eq!(owner_password(&spec_with("", "u"), 1), "u");
    assert_eq!(owner_password(&spec_with("", ""), 255), "000000000000000000000000000000ff");
}

#[test]
fn permission_bits_follow_the_standard_table() {
    let mut s = spec_with("", "");
    assert_eq!(permission_bits(&s), 4 | 8 | 16 | 32 | 256 | 512 | 1024 | 2048);
    s.allow_modify = false;
    s.allow_copy = false;
    assert_eq!(permission_bits(&s), 4 | 32 | 256 | 512 | 1024 | 2048);
}

#[test]
fn base64_decoding_accepts_only_canonical_text() {
    assert_eq!(decode_base64("aGk="), Some(b"hi".to_vec()));
    assert_eq!(decode_base64(""), Some(Vec::new()));
    assert_eq!(decode_base64("aGk"), None);
    assert_eq!(decode_base64("aGl="), None);
    assert_eq!(decode_base64("a b="), None);
}

fn stored(name: &str, subject: Option<&str>) -> StoredFile {
    StoredFile {
        file_name: name.to_owned(),
        path: format!("/ids/{name}"),
        meta: subject.map(|s| IdentityMeta {
            subject: s.to_owned(),
            issuer: "CN=Issuer".to_owned(),
            self_signed: true,
            not_after: "2030".to_owned(),
        }),
    }
}

#[test]
fn identities_are_listed_by_subject_from_p12_files_with_sidecars() {
    let files = [
        stored("self-2.p12", Some("CN=Zed")),
        stored("notes.txt", Some("CN=Bob")),
        stored("import-1.p12", Some("CN=Amy")),
        stored("self-3.p12", None),
        stored("self-4.p12", Some("CN=Zed")),
        stored(".p12", Some("CN=Cat")),
        stored("self-5.P12", Some("CN=Dan")),
    ];
    let listed = list_identities(&files);
    let ids: Vec<&str> = listed.iter().map(|i| i.id.as_str()).collect();
    assert_eq!(ids, vec!["import-1", "self-2", "self-4"]);
    assert_eq!(listed[0].subject, "CN=Amy");
    assert_eq!(listed[0].path, "/ids/import-1.p12");
    assert_eq!(listed[1].issuer, "CN=Issuer");
    assert!(listed[2].self_signed);
    assert!(list_identities(&[]).is_empty());
}

#[test]
fn identity_create_list_delete() {
    let store = IdentityStore::new("/ids".to_owned());
    assert!(list_identities(&[]).is_empty());
    let request = store.create_self_signed("Test Person", Some("Sheaf Tests"), 42);
    assert!(request.id.starts_with("self-"));
    assert!(request.subject.contains("Test Person"), "{}", request.subject);
    assert_eq!(request.p12_path, store.path_for(&request.id));
    let file_name = format!("{}.p12", request.id);
    let files = [stored(&file_name, Some(&request.subject))];
    let listed = list_identities(&files);
    assert_eq!(listed.len(), 1);
    assert_eq!(listed[0].id, request.id);
    assert!(listed[0].subject.contains("Test Person"));
    // Deleting the file leaves nothing to list.
    assert!(list_identities(&[]).is_empty());
}
