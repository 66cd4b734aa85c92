use sheaf::security::{
    check_signature, credentials, pdf_date, protect, signature_field_name, unprotect,
    SecuritySpec, der_to_pem, describe_certificate, finish_signature, load_pkcs12,
    list_signatures, local_key_id, sign, sign_update, signer_name, signing_key, Credentials,
    SignatureUpdate, SigningKey, SIG_PLACEHOLDER_BYTES,
};
use sheaf::error::SheafError;
use lopdf::{Dictionary, Document, Object};
use p12_keystore::{Certificate, KeyStore, KeyStoreEntry, PrivateKey, PrivateKeyChain};
use rsa::pkcs1v15::SigningKey as RsaSigner;
use base64::Engine;
use rsa::pkcs8::{DecodePrivateKey, EncodePrivateKey, EncodePublicKey};
use std::str::FromStr;
use x509_cert::builder::{Builder, CertificateBuilder, Profile};
use x509_cert::der::Encode;
use x509_cert::name::Name;
use x509_cert::serial_number::SerialNumber;
use x509_cert::spki::SubjectPublicKeyInfoOwned;
use x509_cert::time::Validity;

fn test_key() -> SigningKey {
    key_named("Signer One")
}

/// Fixed 1024-bit test keys (base64 of PKCS#8 DER), so that no test spends
/// its time searching for primes.
const KEY_ONE: &str = "MIICdgIBADANBgkqhkiG9w0BAQEFAASCAmAwggJcAgEAAoGBANZKJyHknTRo+MsDCmPjBQkvWx9i0mGGYQeSq46JkqiaiR4ootrRdJKPSfEnXTrlp2Ec/tbtYq+DhfjmHPUXhHXn9Lqj7OJ0PxrbCt3AGXnXomCvX+8wHInRq7JPwAj3o7LBOWaHDUBlsFI1Clg+5MHVaOXTQ7XboF2DwvbO11jpAgMBAAECgYAzZNl50YC6nyp8ViBZ0IrWpxrtrh/S8A25aT3oE6qu8VFNgGV+oZmZxO/w/IXpqEa6jd+44Ho4qgypo1bymU9VH4e86/5ISRux4MEbh49pBfz8RIKA7VZ/3SYYvEOryQKTvDltmkrrjxN55JoNzI5Tj7RVhaO8vkSw21PS7DkTeQJBAPBaTRh7NUXR5TcGTmnMxkTW2Mxp6vtrW/fS91fuRPtADKi9ZxuIYMyhEsYjEM2M7RYAoqM4MUqNQe0b1IkFpo8CQQDkPXyQ1OzfqaaqYuPS0K6qHjMjDecFocCBYD2VmhAiElToayjkMpf3q6cl34UYepXxvGn735GxqHEYYm5VIQUHAkEAlPbClYu3JsDCGWpVKwl5UKz/zSFQO+b8JwqfteW85yN5NRO+VbgelnS2GAsfnOXdAyf9pL9s/VGzLGt1PD8+TQJARkWwHp+QNuTzDa7Y2kWqIXKe6AIVySQeMzdAftkqcnMWdWDY/DmflH/jPMPvJLRJil4qe4RARWTJPWrA8bDy7QJAbPp9Rip16wCpXdi20MV4/nqEcSQnbOBJ4nlIUYlvKA7nwO88dg1xvK0n42jKOU7FOp2cBdZWcsYTcIJwD9egNw==";
const KEY_TWO: &str = "MIICdwIBADANBgkqhkiG9w0BAQEFAASCAmEwggJdAgEAAoGBAKSnwpeCilC8IJm5M6QX/U1S4G7yd2eLTq4Lj6e/1fGK/GpWguslG6SXDm2DqD4WK80juiZM7tEbEGEYuUL98ESBLoJJXD6KUMbfxmnOt6RmKjtFH/z5b+IhDeSrBhnP+w07Gu0znDD03VimsBRHHL93fFCYTey15g46vMciTJn/AgMBAAECgYAm7LXW5XhXT7IRRTQNFdK+5dnCwLUzmD44bOlACdzE5kt3xA3dEv+u8Drr7tTmII2oSEroZQWMD27W1WZujOOwnPdW09T3hJ/RskqJ0mErNS6D7ZCkCeODaLd3nQj+XApN8qrmtpAGCvg+Xxlws8ZZt5dr8dKw9Z4qUKl9BcoTYQJBANibQJwGj2/PFMTgGHEX/OEln8tEEnLsGAzcDlpvzuUUu29Emo25hq1p2Sm3ZJV2eygMIFwCOksicsAvgVWuX48CQQDCmcUvfpL4ep5Kna2igrp3Y/8HgaNEWGCBgBInqiXBZeHADvFh6WWS+cvOEoQVqnjjq0jRjy7RbFB250PtcuaRAkBgCU23H81+1ECwHW+YzPro1CaqF89aNsVfBj4y6LnBpdSIu9EOn0BQKMsJDO/CuNpX4jCCutYfs/FOtoFQfNSPAkEAjVDtiRf50sf4u2bV+PXGQ30yblkOH0uuiVxf0r4UvOUnkzlGwTukr58HCZcYpEMvluWD8+purVZi+HXpNj4CgQJBAJppJ6OaqTz4SMHcx1F4rduzbdr1XL7UIPVKhoPRLeU4khLm0lSi0FzhRmHvRg4YOHnE8PJmxbKoBEvkCTck1s8=";

fn key_named(common_name: &str) -> SigningKey {
    let encoded = if common_name == "Signer Two" { KEY_TWO } else { KEY_ONE };
    let der = base64::engine::general_purpose::STANDARD.decode(encoded).unwrap();
    let key = rsa::RsaPrivateKey::from_pkcs8_der(&der).unwrap();
    let private_key = key.to_pkcs8_der().unwrap().as_bytes().to_vec();
    let signer = RsaSigner::<sha2::Sha256>::new(key.clone());
    let pub_der = key.to_public_key().to_public_key_der().unwrap();
    let spki = SubjectPublicKeyInfoOwned::try_from(pub_der.as_bytes()).unwrap();
    let subject = Name::from_str(&format!("CN={common_name}")).unwrap();
    let validity = Validity::from_now(std::time::Duration::from_secs(86_400)).unwrap();
    let builder =
        CertificateBuilder::new(Profile::Root, SerialNumber::from(7u32), validity, subject, spki, &signer)
            .unwrap();
    let cert = builder.build::<rsa::pkcs1v15::Signature>().unwrap();
    SigningKey { certificate: cert.to_der().unwrap(), private_key }
}

fn byte_range(file: &[u8]) -> Vec<i64> {
    let text = String::from_utf8_lossy(file);
    let key = text.find("/ByteRange").unwrap();
    let start = key + text[key..].find('[').unwrap() + 1;
    let end = start + text[start..].find(']').unwrap();
    text[start..end].split_whitespace().map(|n| n.parse().unwrap()).collect()
}

#[test]
fn a_signature_is_valid_until_the_file_changes() {
    let key = test_key();
    let unsigned = b"%PDF-1.7\n1 0 obj\n<< /Type /Catalog >>\nendobj\n".to_vec();
    let mut out = unsigned.clone();
    out.extend_from_slice(b"\n7 0 obj\n<< /Type /Sig /ByteRange [0 9999999999 9999999999 9999999999] /Contents <");
    out.extend(std::iter::repeat(b'0').take(2 * SIG_PLACEHOLDER_BYTES));
    out.extend_from_slice(b"> >>\nendobj\n");
    let signed = finish_signature(out, unsigned.len(), 7, 0, &key, &Some("Approved".into()), &None, &None).unwrap();
    assert_eq!(&signed[..unsigned.len()], &unsigned[..]);
    let br = byte_range(&signed);
    assert_eq!(br.len(), 4);

    let fresh = check_signature(&signed, &br, b"");
    assert_eq!(fresh.status, "valid", "{fresh:?}");
    assert!(fresh.covers_whole_document);
    assert!(fresh.self_signed);
    assert_eq!(fresh.subject, "CN=Signer One");

    // An update appended later leaves the signature intact but partial.
    let mut later = signed.clone();
    later.extend_from_slice(b"\n% a later incremental update\n");
    let after = check_signature(&later, &br, b"");
    assert_eq!(after.status, "modified", "{after:?}");
    assert!(!after.covers_whole_document);
    assert_eq!(after.subject, fresh.subject);

    // Changing a signed byte breaks it.
    let mut bad = signed.clone();
    bad[3] ^= 0x55;
    assert_eq!(check_signature(&bad, &br, b"").status, "invalid");
}

#[test]
fn pem_credentials_give_the_signing_key_and_its_name() {
    let key = test_key();
    let creds = Credentials {
        cert_pem: der_to_pem("CERTIFICATE", &key.certificate),
        key_pem: der_to_pem("PRIVATE KEY", &key.private_key),
    };
    let back = signing_key(&creds).unwrap();
    assert_eq!(back.certificate, key.certificate);
    assert_eq!(back.private_key, key.private_key);
    assert_eq!(signer_name(&None, &back), "Signer One");
    assert_eq!(signer_name(&Some("  ".into()), &back), "Signer One");
    assert_eq!(signer_name(&Some("S. Two".into()), &back), "S. Two");
    let info = describe_certificate(&back.certificate).unwrap();
    assert_eq!(info.subject, "CN=Signer One");
    assert!(info.self_signed);
    assert!(!info.not_after.is_empty());
}

fn p12_of(key: &SigningKey, password: &str) -> Vec<u8> {
    let chain = PrivateKeyChain::new(
        local_key_id(&key.certificate),
        PrivateKey::from_der(&key.private_key).unwrap(),
        vec![Certificate::from_der(&key.certificate).unwrap()],
    );
    let mut ks = KeyStore::new();
    ks.add_entry("id", KeyStoreEntry::PrivateKeyChain(chain));
    ks.writer(password).write().unwrap()
}

#[test]
fn pkcs12_files_open_with_their_password_only() {
    let key = test_key();
    let p12 = p12_of(&key, "right");
    let (cert, private_key, chain) = load_pkcs12(&p12, "right").unwrap();
    assert_eq!(cert, key.certificate);
    assert_eq!(private_key, key.private_key);
    assert!(chain.is_empty());
    let creds = credentials(&p12, "right").unwrap();
    assert_eq!(creds.cert_pem, der_to_pem("CERTIFICATE", &key.certificate));
    assert!(matches!(load_pkcs12(&p12, "wrong"), Err(SheafError::PasswordRequired)));
    assert!(matches!(credentials(&p12, "wrong"), Err(SheafError::PasswordRequired)));
}

#[test]
fn signing_an_update_keeps_the_original_bytes() {
    let key = test_key();
    let unsigned = b"%PDF-1.7\n1 0 obj\n<< /Type /Catalog >>\nendobj\n".to_vec();
    let mut out = unsigned.clone();
    out.extend_from_slice(b"\n7 0 obj\n<< /Type /Sig /ByteRange [0 9999999999 9999999999 9999999999] /Contents <");
    out.extend(std::iter::repeat(b'0').take(2 * SIG_PLACEHOLDER_BYTES));
    out.extend_from_slice(b"> >>\nendobj\n");
    let signed = sign_update(&unsigned, out.clone(), 7, 0, &key, &None, &None, &None).unwrap();
    assert_eq!(&signed[..unsigned.len()], &unsigned[..]);
    assert_eq!(check_signature(&signed, &byte_range(&signed), b"").status, "valid");

    let mut other = out.clone();
    other[2] = b'X';
    match sign_update(&unsigned, other, 7, 0, &key, &None, &None, &None) {
        Err(SheafError::Pdf(m)) => {
            assert_eq!(m, "incremental update does not start with the original file")
        }
        r => panic!("expected a refusal, got {r:?}"),
    }
    match sign_update(&out, unsigned.clone(), 7, 0, &key, &None, &None, &None) {
        Err(SheafError::Pdf(m)) => assert_eq!(m, "signature object not found"),
        r => panic!("expected a refusal, got {r:?}"),
    }
}

#[test]
fn adding_a_signature_sets_both_signature_flags() {
    assert_eq!(sheaf::security::signature_flags(None), 3);
    assert_eq!(sheaf::security::signature_flags(Some(1)), 3);
    assert_eq!(sheaf::security::signature_flags(Some(4)), 7);
}

fn one_page_pdf() -> Vec<u8> {
    let mut doc = Document::with_version("1.7");
    let pages_id = doc.new_object_id();
    let mut page = Dictionary::new();
    page.set("Type", Object::Name(b"Page".to_vec()));
    page.set("Parent", Object::Reference(pages_id));
    page.set(
        "MediaBox",
        vec![Object::Integer(0), Object::Integer(0), Object::Integer(200), Object::Integer(200)],
    );
    let page_id = doc.add_object(page);
    let mut pages = Dictionary::new();
    pages.set("Type", Object::Name(b"Pages".to_vec()));
    pages.set("Kids", vec![Object::Reference(page_id)]);
    pages.set("Count", Object::Integer(1));
    doc.objects.insert(pages_id, Object::Dictionary(pages));
    let mut catalog = Dictionary::new();
    catalog.set("Type", Object::Name(b"Catalog".to_vec()));
    catalog.set("Pages", Object::Reference(pages_id));
    let catalog_id = doc.add_object(catalog);
    doc.trailer.set("Root", Object::Reference(catalog_id));
    let mut out = Vec::new();
    doc.save_to(&mut out).unwrap();
    out
}

fn zero_box() -> lopdf::Object {
    lopdf::Object::Array(vec![
        lopdf::Object::Integer(0),
        lopdf::Object::Integer(0),
        lopdf::Object::Integer(0),
        lopdf::Object::Integer(0),
    ])
}

#[test]
fn signing_a_document_appends_a_valid_signature_after_the_original_bytes() {
    let key = test_key();
    let pdf = one_page_pdf();
    let update = SignatureUpdate {
        page: 0,
        signer: "Signer One".into(),
        date: "D:20240101000000Z".into(),
        reason: Some("Approved".into()),
        location: None,
        contact: None,
        field_name: "Sheaf-Signature-1".into(),
        appearance: Vec::new(),
        lock: true,
    };
    let signed = sign(&pdf, None, &key, &update, zero_box(), zero_box()).unwrap();
    assert_eq!(&signed[..pdf.len()], &pdf[..]);
    let check = check_signature(&signed, &byte_range(&signed), b"");
    assert_eq!(check.status, "valid", "{check:?}");
    assert!(check.covers_whole_document);
    let doc = lopdf::Document::load_mem(&signed).unwrap();
    let acro = doc.catalog().unwrap().get(b"AcroForm").unwrap().as_dict().unwrap().clone();
    assert_eq!(acro.get(b"SigFlags").unwrap().as_i64().unwrap(), 3);
    assert!(doc.catalog().unwrap().has(b"Perms"));

    let listed = list_signatures(&signed, None).unwrap();
    assert_eq!(listed.len(), 1);
    let report = &listed[0].1;
    assert_eq!(report.status, "valid");
    assert_eq!(report.signer, "Signer One");
    assert_eq!(report.field_name, "Sheaf-Signature-1");
    assert_eq!(report.reason.as_deref(), Some("Approved"));
    assert_eq!(report.page, Some(0));
    assert!(report.locks_document);
    assert!(report.covers_whole_document);
    assert!(list_signatures(&pdf, None).unwrap().is_empty());

    let elsewhere = SignatureUpdate { page: 4, ..update };
    match sign(&pdf, None, &key, &elsewhere, zero_box(), zero_box()) {
        Err(SheafError::NoSuchPage(4)) => {},
        r => panic!("expected no such page, got {r:?}"),
    }
}

/// A one-page document whose first object is a content stream of text.
fn sample() -> Vec<u8> {
    let mut doc = Document::with_version("1.4");
    let text = "BT /F1 12 Tf 72 720 Td (Lorem ipsum dolor sit amet, consectetur adipiscing elit, sed do eiusmod tempor incididunt) Tj ET";
    let content_id = doc.add_object(Object::Stream(lopdf::Stream::new(Dictionary::new(), text.as_bytes().to_vec())));
    let pages_id = doc.new_object_id();
    let mut page = Dictionary::new();
    page.set("Type", Object::Name(b"Page".to_vec()));
    page.set("Parent", Object::Reference(pages_id));
    page.set("Contents", Object::Reference(content_id));
    page.set(
        "MediaBox",
        vec![Object::Integer(0), Object::Integer(0), Object::Integer(612), Object::Integer(792)],
    );
    let page_id = doc.add_object(page);
    let mut pages = Dictionary::new();
    pages.set("Type", Object::Name(b"Pages".to_vec()));
    pages.set("Kids", vec![Object::Reference(page_id)]);
    pages.set("Count", Object::Integer(1));
    doc.objects.insert(pages_id, Object::Dictionary(pages));
    let mut catalog = Dictionary::new();
    catalog.set("Type", Object::Name(b"Catalog".to_vec()));
    catalog.set("Pages", Object::Reference(pages_id));
    let catalog_id = doc.add_object(catalog);
    doc.trailer.set("Root", Object::Reference(catalog_id));
    let mut out = Vec::new();
    doc.save_to(&mut out).unwrap();
    out
}

fn real_box(values: [f32; 4]) -> Object {
    Object::Array(values.iter().map(|v| Object::Real(*v)).collect())
}

/// What signing asks for: the signer named, or the certificate's name.
fn update_for(key: &SigningKey, rect: [f32; 4], reason: Option<&str>, location: Option<&str>, name: Option<&str>, lock: bool) -> (SignatureUpdate, Object, Object) {
    let signer = signer_name(&name.map(|n| n.to_owned()), key);
    let update = SignatureUpdate {
        page: 0,
        signer,
        date: pdf_date(1_700_000_000),
        reason: reason.map(|r| r.to_owned()),
        location: location.map(|l| l.to_owned()),
        contact: None,
        field_name: signature_field_name(1_700_000_000_123),
        appearance: b"q 0.93 0.95 0.99 rg 0 0 10 10 re f Q".to_vec(),
        lock,
    };
    let (w, h) = ((rect[2] - rect[0]).abs(), (rect[3] - rect[1]).abs());
    (update, real_box([0.0, 0.0, w, h]), real_box(rect))
}

fn rect_x(file: &[u8], id: (u32, u16)) -> Option<i32> {
    let doc = Document::load_mem(file).unwrap();
    let r = doc.get_dictionary(id).unwrap().get(b"Rect").unwrap().as_array().unwrap().clone();
    r[0].as_float().ok().map(|x| x as i32)
}

#[test]
fn sign_verify_tamper_and_second_signature() {
    let key = key_named("Signer One");
    let src = sample();
    let (update, bbox, rect) = update_for(&key, [72.0, 72.0, 300.0, 140.0], Some("Approved"), Some("Test"), None, false);
    let signed = sign(&src, None, &key, &update, bbox, rect).unwrap();
    // Incremental update: original bytes are a prefix.
    assert_eq!(&signed[..src.len()], &src[..]);
    assert!(signed.len() > src.len() + 20_000);

    let sigs = list_signatures(&signed, None).unwrap();
    assert_eq!(sigs.len(), 1, "{sigs:?}");
    let (id, s) = &sigs[0];
    assert_eq!(s.status, "valid", "{s:?}");
    assert!(s.covers_whole_document);
    assert_eq!(s.signer, "Signer One");
    assert_eq!(s.reason.as_deref(), Some("Approved"));
    assert_eq!(s.page, Some(0));
    assert!(s.self_signed);
    assert_eq!(rect_x(&signed, *id), Some(72));

    // Tamper with a byte inside the signed range.
    let mut bad = signed.clone();
    bad[100] ^= 0x55;
    let sigs = list_signatures(&bad, None).unwrap();
    assert_eq!(sigs[0].1.status, "invalid", "{:?}", sigs[0]);

    // A second signature keeps the first valid but it no longer covers the whole file.
    let key2 = key_named("Signer Two");
    let (update2, bbox2, rect2) = update_for(&key2, [320.0, 72.0, 540.0, 140.0], None, None, Some("S. Two"), true);
    let twice = sign(&signed, None, &key2, &update2, bbox2, rect2).unwrap();
    assert_eq!(&twice[..signed.len()], &signed[..]);
    let sigs = list_signatures(&twice, None).unwrap();
    assert_eq!(sigs.len(), 2, "{sigs:?}");
    let one = &sigs.iter().find(|s| s.1.signer == "Signer One").unwrap().1;
    let two = &sigs.iter().find(|s| s.1.signer == "S. Two").unwrap().1;
    assert_eq!(one.status, "modified", "{one:?}");
    assert_eq!(two.status, "valid", "{two:?}");
    assert!(two.covers_whole_document);
    assert!(two.locks_document);
    assert!(!one.locks_document);

    // Structural sanity: the appended data has an AcroForm with SigFlags and both fields.
    let tail = String::from_utf8_lossy(&twice[src.len()..]);
    assert!(tail.contains("/SigFlags 3"));
    assert!(tail.contains("/DocMDP"));
    assert!(tail.contains("/FT /Sig") || tail.contains("/FT/Sig"), "{}", &tail[..2000]);
}

#[test]
fn protect_and_unprotect_roundtrip() {
    let src = sample();
    let spec = SecuritySpec {
        user_password: "open-me".into(),
        owner_password: "owner".into(),
        allow_print: true,
        allow_print_high_quality: false,
        allow_modify: false,
        allow_copy: false,
        allow_annotate: true,
        allow_fill_forms: true,
        allow_assemble: false,
        allow_accessibility: true,
    };
    let enc = protect(&src, None, &spec, 1_700_000_000_000_000_000, &[9u8; 32]).unwrap();
    let head = String::from_utf8_lossy(&enc[..1024.min(enc.len())]);
    assert!(head.starts_with("%PDF-1.7"), "{head}");
    assert!(enc.windows(8).any(|w| w == b"/Encrypt"));
    let text = String::from_utf8_lossy(&enc);
    let i = text.find("/Filter /Standard").or_else(|| text.find("/Filter/Standard")).expect("no /Encrypt dictionary");
    let dict = &text[i..(i + 600).min(text.len())];
    let norm = dict.replace(' ', "").replace('\n', "");
    assert!(norm.contains("/V5") && norm.contains("/R6") && norm.contains("/CFM/AESV3"), "expected AES-256 V5/R6: {dict}");
    // Text of the sample must not be visible in the clear.
    assert!(!enc.windows(5).any(|w| w == b"Lorem") || !src.windows(5).any(|w| w == b"Lorem"));

    // lopdf must refuse the wrong password and accept the right one.
    assert!(Document::load_mem_with_options(&enc, lopdf::LoadOptions::with_password("nope")).is_err());
    let d = Document::load_mem_with_options(&enc, lopdf::LoadOptions::with_password("open-me")).unwrap();
    assert!(!d.get_pages().is_empty());
    let d = Document::load_mem_with_options(&enc, lopdf::LoadOptions::with_password("owner")).unwrap();
    assert!(!d.get_pages().is_empty());

    // Remove security.
    let plain = unprotect(&enc, Some("open-me")).unwrap();
    assert!(!plain.windows(8).any(|w| w == b"/Encrypt"));
    let d = Document::load_mem(&plain).unwrap();
    assert_eq!(d.get_pages().len(), Document::load_mem(&src).unwrap().get_pages().len());

    // Wrong current password fails.
    assert!(unprotect(&enc, Some("bad")).is_err());

    // Signing an encrypted document with the password works and stays encrypted.
    let key = key_named("Enc Signer");
    let (update, bbox, rect) = update_for(&key, [0.0; 4], None, None, None, false);
    let signed_enc = sign(&enc, Some("open-me"), &key, &update, bbox, rect).unwrap();
    assert_eq!(&signed_enc[..enc.len()], &enc[..]);
    let sigs = list_signatures(&signed_enc, Some("open-me")).unwrap();
    assert_eq!(sigs.len(), 1, "{sigs:?}");
    assert_eq!(sigs[0].1.status, "valid", "{:?}", sigs[0]);
}

#[test]
fn identity_wrong_password_is_reported() {
    let key = key_named("P");
    let p12 = p12_of(&key, "right");
    let err = credentials(&p12, "wrong").unwrap_err();
    let msg = err.message();
    assert!(
        msg.contains("password") || msg.contains("pkcs12") || msg.contains("mac"),
        "{msg}"
    );
}
