//! Sign and protect.
//!
//! * **Identities**: self-signed certificates generated locally, or PKCS#12
//!   (`.p12`/`.pfx`) files imported by the user, stored as PKCS#12 under the
//!   app data dir, one file per identity, with a JSON sidecar describing the
//!   certificate so that listing never needs a password.
//! * **Signing**: a `/Sig` field is appended with `lopdf` as an incremental
//!   update whose `/ByteRange` and `/Contents` placeholders are patched in
//!   place here, byte by byte, once the update has been serialized. The
//!   existing bytes are never modified, so earlier signatures stay valid.
//! * **Verifying**: every `/Sig` reachable from the AcroForm is checked for
//!   ByteRange coverage and CMS/messageDigest validity.
//! * **Protecting**: AES-256 (V5/R6) password and permission encryption, and
//!   its removal, via `lopdf`.
use vstd::prelude::*;

use base64::Engine;
use sha2::Digest;
use pdf_oxide::signatures::SignerVerify;
use lopdf::encryption::crypt_filters::{Aes256CryptFilter, CryptFilter};

use crate::desktop_integration::{join, join_text};
use crate::error::{pdf_error, SheafError};
use crate::paths::{extension_of, last_index_of, split_chars, split_on, views};
use crate::text::{
    decimal_chars, zero_pad, zero_pad_chars, copy_opt_string, opt_view, chars_of, decimal, decimal_chars_wide, is_prefix, lowercase, lowercase_chars, push_all,
    push_str, slice_range, starts_with_chars, string_of, trim, trim_vec,
};

verus! {

// ---------- identities ----------
/// A signing identity as the user sees it.
#[derive(Debug, Clone)]
pub struct Identity {
    /// File stem under the identities dir (also the stable id).
    pub id: String,
    pub subject: String,
    pub issuer: String,
    pub self_signed: bool,
    pub not_after: String,
    pub path: String,
}

/// The text after `CN=` in the first comma-separated piece of a DN that
/// starts with it once trimmed.
pub open spec fn first_common_name(pieces: Seq<Seq<char>>) -> Option<Seq<char>>
    decreases pieces.len(),
{
    if pieces.len() == 0 {
        None
    } else if is_prefix("CN="@, trim(pieces[0])) {
        Some(trim(pieces[0]).skip(3))
    } else {
        first_common_name(pieces.skip(1))
    }
}

/// Friendly display name: the CN if present, else the whole DN.
pub open spec fn display_name_of(dn: Seq<char>) -> Seq<char> {
    match first_common_name(split_on(dn, ',')) {
        Some(cn) => cn,
        None => dn,
    }
}

/// Friendly display name: the CN if present, else the whole DN.
pub fn display_name(dn: &str) -> (r: String)
    ensures
        r@ == display_name_of(dn@),
{
    proof {
        reveal_strlit("CN=");
    }
    let cs = chars_of(dn);
    let pieces = split_chars(cs.as_slice(), ',');
    let ghost ps = views(pieces@);
    let prefix = chars_of("CN=");
    let mut i: usize = 0;
    assert(ps.skip(0) =~= ps);
    while i < pieces.len()
        invariant
            i <= pieces@.len(),
            ps == views(pieces@),
            ps == split_on(dn@, ','),
            prefix@ == "CN="@,
            prefix@.len() == 3,
            first_common_name(ps) == first_common_name(ps.skip(i as int)),
        decreases pieces.len() - i,
    {
        let t = trim_vec(pieces[i].as_slice());
        assert(ps.skip(i as int)[0] == pieces@[i as int]@);
        if starts_with_chars(t.as_slice(), prefix.as_slice()) {
            let rest = slice_range(t.as_slice(), 3, t.len());
            assert(rest@ =~= t@.skip(3));
            return string_of(rest.as_slice());
        }
        assert(ps.skip(i as int).skip(1) =~= ps.skip(i + 1));
        i = i + 1;
    }
    assert(ps.skip(i as int) =~= Seq::<Seq<char>>::empty());
    dn.to_owned()
}

/// The character of the standard base64 alphabet for a 6-bit value.
pub open spec fn base64_digit(v: int) -> char {
    if v < 26 {
        (65 + v) as char
    } else if v < 52 {
        (97 + v - 26) as char
    } else if v < 62 {
        (48 + v - 52) as char
    } else if v == 62 {
        '+'
    } else {
        '/'
    }
}

/// Standard base64 (RFC 4648, `+` and `/`, padded with `=`).
pub open spec fn base64_of(s: Seq<u8>) -> Seq<char>
    decreases s.len(),
{
    if s.len() == 0 {
        Seq::empty()
    } else if s.len() == 1 {
        seq![base64_digit(s[0] as int / 4), base64_digit((s[0] as int % 4) * 16), '=', '=']
    } else if s.len() == 2 {
        seq![
            base64_digit(s[0] as int / 4),
            base64_digit((s[0] as int % 4) * 16 + s[1] as int / 16),
            base64_digit((s[1] as int % 16) * 4),
            '=',
        ]
    } else {
        seq![
            base64_digit(s[0] as int / 4),
            base64_digit((s[0] as int % 4) * 16 + s[1] as int / 16),
            base64_digit((s[1] as int % 16) * 4 + s[2] as int / 64),
            base64_digit(s[2] as int % 64),
        ] + base64_of(s.skip(3))
    }
}

/// `base64::engine::general_purpose::STANDARD.encode`: the standard
/// alphabet with padding, as RFC 4648 defines it.
#[verifier::external_body]
pub(crate) fn base64_standard(data: &[u8]) -> (r: String)
    ensures
        r@ == base64_of(data@),
{
    base64::engine::general_purpose::STANDARD.encode(data)
}

proof fn lemma_base64_digit(u: int, v: int)
    requires
        0 <= u < 64,
        0 <= v < 64,
        base64_digit(u) == base64_digit(v),
    ensures
        u == v,
{
    assert(base64_digit(u) as int == base64_digit(v) as int);
}

proof fn lemma_base64_digit_not_pad(u: int)
    requires
        0 <= u < 64,
    ensures
        base64_digit(u) != '=',
{
    assert(base64_digit(u) as int != '=' as int);
}

/// Different bytes have different base64 encodings.
pub proof fn lemma_base64_injective(s: Seq<u8>, t: Seq<u8>)
    requires
        base64_of(s) == base64_of(t),
    ensures
        s == t,
    decreases s.len(),
{
    let es = base64_of(s);
    let et = base64_of(t);
    if s.len() == 0 || t.len() == 0 {
        if s.len() > 0 {
            assert(es.len() > 0);
        }
        if t.len() > 0 {
            assert(et.len() > 0);
        }
        assert(s =~= t);
    } else {
        let a0 = s[0] as int;
        let b0 = t[0] as int;
        assert(es[0] == base64_digit(a0 / 4));
        assert(et[0] == base64_digit(b0 / 4));
        lemma_base64_digit(a0 / 4, b0 / 4);
        if s.len() == 1 || t.len() == 1 {
            if s.len() >= 2 {
                lemma_base64_digit_not_pad((s[1] as int % 16) * 4 + (if s.len() >= 3 { s[2] as int / 64 } else { 0 }));
                assert(es[2] != '=');
                assert(et[2] == '=');
            }
            if t.len() >= 2 {
                lemma_base64_digit_not_pad((t[1] as int % 16) * 4 + (if t.len() >= 3 { t[2] as int / 64 } else { 0 }));
                assert(et[2] != '=');
                assert(es[2] == '=');
            }
            lemma_base64_digit((a0 % 4) * 16, (b0 % 4) * 16);
            assert(s =~= t);
        } else {
            let a1 = s[1] as int;
            let b1 = t[1] as int;
            assert(es[1] == base64_digit((a0 % 4) * 16 + a1 / 16));
            assert(et[1] == base64_digit((b0 % 4) * 16 + b1 / 16));
            lemma_base64_digit((a0 % 4) * 16 + a1 / 16, (b0 % 4) * 16 + b1 / 16);
            if s.len() == 2 || t.len() == 2 {
                if s.len() >= 3 {
                    lemma_base64_digit_not_pad(s[2] as int % 64);
                    assert(es[3] != '=');
                    assert(et[3] == '=');
                }
                if t.len() >= 3 {
                    lemma_base64_digit_not_pad(t[2] as int % 64);
                    assert(et[3] != '=');
                    assert(es[3] == '=');
                }
                lemma_base64_digit((a1 % 16) * 4, (b1 % 16) * 4);
                assert(s =~= t);
            } else {
                let a2 = s[2] as int;
                let b2 = t[2] as int;
                assert(es[2] == base64_digit((a1 % 16) * 4 + a2 / 64));
                assert(et[2] == base64_digit((b1 % 16) * 4 + b2 / 64));
                assert(es[3] == base64_digit(a2 % 64));
                assert(et[3] == base64_digit(b2 % 64));
                lemma_base64_digit((a1 % 16) * 4 + a2 / 64, (b1 % 16) * 4 + b2 / 64);
                lemma_base64_digit(a2 % 64, b2 % 64);
                assert(es.skip(4) =~= base64_of(s.skip(3)));
                assert(et.skip(4) =~= base64_of(t.skip(3)));
                lemma_base64_injective(s.skip(3), t.skip(3));
                assert(s =~= seq![s[0], s[1], s[2]] + s.skip(3));
                assert(t =~= seq![t[0], t[1], t[2]] + t.skip(3));
            }
        }
    }
}

/// The bytes whose standard base64 encoding is `text`, if there are any
/// (there is at most one such sequence).
pub open spec fn base64_bytes(text: Seq<char>) -> Option<Seq<u8>> {
    if exists|b: Seq<u8>| base64_of(b) == text {
        Some(choose|b: Seq<u8>| base64_of(b) == text)
    } else {
        None
    }
}

/// `base64::engine::general_purpose::STANDARD.decode`, which requires
/// canonical padding and no trailing bits: it succeeds exactly on the
/// encodings of byte sequences, and gives back the bytes encoded.
#[verifier::external_body]
fn base64_standard_decode(text: &str) -> (r: Option<Vec<u8>>)
    ensures
        match r {
            Some(b) => base64_of(b@) == text@,
            None => forall|b: Seq<u8>| base64_of(b) != text@,
        },
{
    base64::engine::general_purpose::STANDARD.decode(text).ok()
}

/// Standard base64 decoding: the bytes that `text` encodes, or `None`
/// when it is not such an encoding.
pub fn decode_base64(text: &str) -> (r: Option<Vec<u8>>)
    ensures
        crate::engine::opt_bytes(r) == base64_bytes(text@),
{
    let r = base64_standard_decode(text);
    proof {
        if r is Some {
            let c = choose|c: Seq<u8>| base64_of(c) == text@;
            lemma_base64_injective(r->0@, c);
        }
    }
    r
}

/// Base64 text cut into lines of 64 characters, each ended by a newline.
pub open spec fn pem_lines(b: Seq<char>) -> Seq<char>
    decreases b.len(),
{
    if b.len() == 0 {
        Seq::empty()
    } else if b.len() <= 64 {
        b.push('\n')
    } else {
        b.take(64).push('\n') + pem_lines(b.skip(64))
    }
}

/// PEM armour of `der` under `label`.
pub open spec fn pem_of(label: Seq<char>, der: Seq<u8>) -> Seq<char> {
    "-----BEGIN "@ + label + "-----\n"@ + pem_lines(base64_of(der)) + "-----END "@ + label
        + "-----\n"@
}

/// PEM armour of `der` under `label`.
pub fn der_to_pem(label: &str, der: &[u8]) -> (r: String)
    ensures
        r@ == pem_of(label@, der@),
{
    let b = chars_of(base64_standard(der).as_str());
    let mut out = chars_of("-----BEGIN ");
    push_str(&mut out, label);
    push_str(&mut out, "-----\n");
    let ghost head = out@;
    let mut i: usize = 0;
    assert(b@.skip(0) =~= b@);
    while i < b.len()
        invariant
            i <= b@.len(),
            out@ + pem_lines(b@.skip(i as int)) == head + pem_lines(b@),
        decreases b.len() - i,
    {
        let ghost rest = b@.skip(i as int);
        let end = if b.len() - i <= 64 {
            b.len()
        } else {
            i + 64
        };
        let chunk = slice_range(b.as_slice(), i, end);
        if b.len() - i <= 64 {
            assert(chunk@ =~= rest);
            assert(b@.skip(end as int) =~= Seq::<char>::empty());
        } else {
            assert(chunk@ =~= rest.take(64));
            assert(rest.skip(64) =~= b@.skip(end as int));
        }
        let ghost before = out@;
        push_all(&mut out, chunk.as_slice());
        out.push('\n');
        assert(out@ =~= before + chunk@.push('\n'));
        i = end;
    }
    assert(b@.skip(i as int) =~= Seq::<char>::empty());
    assert(out@ =~= head + pem_lines(b@));
    push_str(&mut out, "-----END ");
    push_str(&mut out, label);
    push_str(&mut out, "-----\n");
    string_of(out.as_slice())
}

/// What `sha2::Sha256::digest` returns for `data`.
pub uninterp spec fn sha256_of(data: Seq<u8>) -> Seq<u8>;

/// `sha2::Sha256::digest`: the SHA-256 digest of `data`, 32 bytes long.
#[verifier::external_body]
fn sha256(data: &[u8]) -> (r: Vec<u8>)
    ensures
        r@ == sha256_of(data@),
        r@.len() == 32,
{
    sha2::Sha256::digest(data).to_vec()
}

/// The PKCS#12 local key id of a certificate: the first 20 bytes of the
/// SHA-256 digest of its DER.
pub fn local_key_id(cert_der: &[u8]) -> (r: Vec<u8>)
    ensures
        r@ == sha256_of(cert_der@).take(20),
{
    let d = sha256(cert_der);
    let mut r: Vec<u8> = Vec::new();
    let mut i: usize = 0;
    while i < 20
        invariant
            i <= 20,
            d@.len() == 32,
            r@ == d@.take(i as int),
        decreases 20 - i,
    {
        r.push(d[i]);
        assert(r@ =~= d@.take(i + 1));
        i = i + 1;
    }
    r
}

/// Where identities are kept: one `<id>.p12` file per identity, with an
/// `<id>.json` sidecar.
pub struct IdentityStore {
    dir: String,
}

impl View for IdentityStore {
    type V = Seq<char>;

    closed spec fn view(&self) -> Seq<char> {
        self.dir@
    }
}

/// `dir/<id>.p12`.
pub open spec fn p12_path(dir: Seq<char>, id: Seq<char>) -> Seq<char> {
    join_text(dir, id + ".p12"@)
}

/// The sidecar of `dir/<id>.p12`: its extension replaced by `json`. A file
/// name that is only `.p12` has no extension, so `.json` is appended to it.
pub open spec fn meta_path(dir: Seq<char>, id: Seq<char>) -> Seq<char> {
    if id.len() == 0 || id.last() == '/' {
        join_text(dir, id + ".p12.json"@)
    } else {
        join_text(dir, id + ".json"@)
    }
}

/// `<prefix>-<nanos>`, the id of an identity made at `nanos` nanoseconds
/// after the Unix epoch.
pub open spec fn identity_id_of(prefix: Seq<char>, nanos: nat) -> Seq<char> {
    prefix + "-"@ + decimal(nanos)
}

pub fn identity_id(prefix: &str, nanos: u128) -> (r: String)
    ensures
        r@ == identity_id_of(prefix@, nanos as nat),
{
    let mut out = chars_of(prefix);
    out.push('-');
    push_all(&mut out, decimal_chars_wide(nanos).as_slice());
    proof {
        reveal_strlit("-");
    }
    string_of(out.as_slice())
}

/// Escaping of one character in an RFC 4514 attribute value.
pub open spec fn dn_escape_char(c: char) -> Seq<char> {
    if c == '\\' {
        seq!['\\', '\\']
    } else if c == ',' {
        seq!['\\', ',']
    } else if c == '=' {
        seq!['\\', '=']
    } else {
        seq![c]
    }
}

pub open spec fn dn_escape(s: Seq<char>) -> Seq<char>
    decreases s.len(),
{
    if s.len() == 0 {
        Seq::empty()
    } else {
        dn_escape(s.drop_last()) + dn_escape_char(s.last())
    }
}

fn dn_escape_chars(s: &[char]) -> (r: Vec<char>)
    ensures
        r@ == dn_escape(s@),
{
    let mut out: Vec<char> = Vec::new();
    let mut i: usize = 0;
    assert(s@.take(0) =~= Seq::<char>::empty());
    while i < s.len()
        invariant
            i <= s@.len(),
            out@ == dn_escape(s@.take(i as int)),
        decreases s.len() - i,
    {
        let c = s[i];
        assert(s@.take(i + 1).drop_last() =~= s@.take(i as int));
        let ghost before = out@;
        if c == '\\' || c == ',' || c == '=' {
            out.push('\\');
        }
        out.push(c);
        assert(out@ =~= before + dn_escape_char(c));
        i = i + 1;
    }
    assert(s@.take(s@.len() as int) =~= s@);
    out
}

/// The subject of a self-signed certificate: `CN=<name>`, and `,O=<org>`
/// when an organisation is given; both trimmed and escaped.
pub open spec fn subject_dn_of(common_name: Seq<char>, org: Option<Seq<char>>) -> Seq<char> {
    let base = "CN="@ + dn_escape(trim(common_name));
    match org {
        Some(o) => if trim(o).len() > 0 {
            base + ",O="@ + dn_escape(trim(o))
        } else {
            base
        },
        None => base,
    }
}

pub open spec fn opt_str_chars(o: Option<&str>) -> Option<Seq<char>> {
    match o {
        Some(s) => Some(s@),
        None => None,
    }
}

pub fn subject_dn(common_name: &str, org: Option<&str>) -> (r: String)
    ensures
        r@ == subject_dn_of(common_name@, opt_str_chars(org)),
{
    let mut out = chars_of("CN=");
    let cn = trim_vec(chars_of(common_name).as_slice());
    push_all(&mut out, dn_escape_chars(cn.as_slice()).as_slice());
    match org {
        Some(o) => {
            let t = trim_vec(chars_of(o).as_slice());
            if t.len() > 0 {
                push_str(&mut out, ",O=");
                push_all(&mut out, dn_escape_chars(t.as_slice()).as_slice());
            }
        },
        None => {},
    }
    string_of(out.as_slice())
}

/// How long a new certificate stays valid: at least one year of 365 days.
pub open spec fn validity_seconds_of(years: nat) -> nat {
    (if years < 1 {
        1
    } else {
        years
    }) * 31536000
}

pub fn validity_seconds(years: u32) -> (r: u64)
    ensures
        r == validity_seconds_of(years as nat),
{
    let y: u64 = if years < 1 {
        1
    } else {
        years as u64
    };
    y * 31536000
}

/// What a self-signed identity is made of before its key is generated: its
/// id, the certificate's subject and lifetime, and where it is written.
#[derive(Debug, Clone)]
pub struct SelfSignedRequest {
    pub id: String,
    pub subject: String,
    pub validity_secs: u64,
    pub p12_path: String,
    pub meta_path: String,
}

/// Key material read from a PKCS#12 file and re-armoured for signing.
#[derive(Debug, Clone)]
pub struct Credentials {
    pub cert_pem: String,
    pub key_pem: String,
}

/// An imported identity: its id and files, and the material to re-encrypt
/// under the store password.
#[derive(Debug, Clone)]
pub struct ImportedIdentity {
    pub id: String,
    pub p12_path: String,
    pub meta_path: String,
    pub cert_der: Vec<u8>,
    pub key_der: Vec<u8>,
    pub chain: Vec<Vec<u8>>,
}

pub open spec fn ders(v: Seq<Vec<u8>>) -> Seq<Seq<u8>> {
    v.map_values(|x: Vec<u8>| x@)
}

impl IdentityStore {
    pub fn new(dir: String) -> (r: IdentityStore)
        ensures
            r@ == dir@,
    {
        IdentityStore { dir }
    }

    pub fn path_for(&self, id: &str) -> (r: String)
        ensures
            r@ == p12_path(self@, id@),
    {
        let mut name = chars_of(id);
        push_str(&mut name, ".p12");
        join(self.dir.as_str(), string_of(name.as_slice()).as_str())
    }

    pub fn meta_path_for(&self, id: &str) -> (r: String)
        ensures
            r@ == meta_path(self@, id@),
    {
        let mut name = chars_of(id);
        if name.len() == 0 || name[name.len() - 1] == '/' {
            push_str(&mut name, ".p12.json");
        } else {
            push_str(&mut name, ".json");
        }
        join(self.dir.as_str(), string_of(name.as_slice()).as_str())
    }

    /// Everything about a new self-signed identity (valid for five years)
    /// that does not depend on the generated key; `nanos` is the current
    /// time in nanoseconds since the Unix epoch.
    pub fn create_self_signed(&self, common_name: &str, org: Option<&str>, nanos: u128) -> (r:
        SelfSignedRequest)
        ensures
            r.id@ == identity_id_of("self"@, nanos as nat),
            r.subject@ == subject_dn_of(common_name@, opt_str_chars(org)),
            r.validity_secs == validity_seconds_of(5),
            r.p12_path@ == p12_path(self@, r.id@),
            r.meta_path@ == meta_path(self@, r.id@),
    {
        let id = identity_id("self", nanos);
        let p12_path = self.path_for(id.as_str());
        let meta_path = self.meta_path_for(id.as_str());
        SelfSignedRequest {
            id,
            subject: subject_dn(common_name, org),
            validity_secs: validity_seconds(5),
            p12_path,
            meta_path,
        }
    }

    /// Import the PKCS#12 file `bytes`: it is opened with `file_password`
    /// and given the id `import-<nanos>`, so that it can be re-encrypted
    /// with a password the user picks for day-to-day use.
    pub fn import_pkcs12(&self, bytes: &[u8], file_password: &str, nanos: u128) -> (r: Result<
        ImportedIdentity,
        SheafError,
    >)
        ensures
            match pkcs12_outcome(bytes@, file_password@) {
                Ok((cert, key, chain)) => r matches Ok(imp) && imp.id@ == identity_id_of(
                    "import"@,
                    nanos as nat,
                ) && imp.p12_path@ == p12_path(self@, imp.id@) && imp.meta_path@ == meta_path(
                    self@,
                    imp.id@,
                ) && imp.cert_der@ == cert && imp.key_der@ == key && ders(imp.chain@) == chain,
                Err(f) => r matches Err(e) && error_is(e, f),
            },
    {
        let (cert_der, key_der, chain) = match load_pkcs12(bytes, file_password) {
            Ok(t) => t,
            Err(e) => return Err(e),
        };
        let id = identity_id("import", nanos);
        let p12_path = self.path_for(id.as_str());
        let meta_path = self.meta_path_for(id.as_str());
        Ok(ImportedIdentity { id, p12_path, meta_path, cert_der, key_der, chain })
    }
}

// ---------- listing identities ----------
/// The public description of an identity that its JSON sidecar holds, so
/// that listing never needs a password.
#[derive(Debug, Clone)]
pub struct IdentityMeta {
    pub subject: String,
    pub issuer: String,
    pub self_signed: bool,
    pub not_after: String,
}

/// A file of the identities directory: its name, its path, and the
/// description that the sidecar beside it holds, when that could be read.
#[derive(Debug, Clone)]
pub struct StoredFile {
    pub file_name: String,
    pub path: String,
    pub meta: Option<IdentityMeta>,
}

/// The stem of a file name whose extension is `p12`.
pub open spec fn p12_stem(name: Seq<char>) -> Option<Seq<char>> {
    if extension_of(name) == Some("p12"@) {
        Some(name.take(last_index_of(name, '.')))
    } else {
        None
    }
}

/// A stored file is listed when it is a `.p12` file with a readable sidecar.
pub open spec fn lists_file(f: StoredFile) -> bool {
    p12_stem(f.file_name@) is Some && f.meta is Some
}

/// The positions of the files that are listed, in the order given.
pub open spec fn listed_positions(files: Seq<StoredFile>) -> Seq<int>
    decreases files.len(),
{
    if files.len() == 0 {
        Seq::empty()
    } else {
        let before = listed_positions(files.drop_last());
        if lists_file(files.last()) {
            before.push(files.len() - 1)
        } else {
            before
        }
    }
}

pub open spec fn subject_at(files: Seq<StoredFile>, i: int) -> Seq<char> {
    files[i].meta->0.subject@
}

/// Where the file at `i` goes among the positions `sorted`: before the
/// first whose subject sorts after its own, so files with equal subjects
/// keep their order.
pub open spec fn insert_at(files: Seq<StoredFile>, sorted: Seq<int>, i: int) -> int
    decreases sorted.len(),
{
    if sorted.len() == 0 {
        0
    } else if text_before(subject_at(files, i), subject_at(files, sorted[0])) {
        0
    } else {
        1 + insert_at(files, sorted.skip(1), i)
    }
}

/// The positions `idx` stably sorted by subject, as `sort_by` on the
/// subjects' text orders them.
pub open spec fn by_subject(files: Seq<StoredFile>, idx: Seq<int>) -> Seq<int>
    decreases idx.len(),
{
    if idx.len() == 0 {
        idx
    } else {
        let t = by_subject(files, idx.drop_last());
        t.insert(insert_at(files, t, idx.last()), idx.last())
    }
}

/// The listing order: the listed files, stably sorted by subject.
pub open spec fn listing(files: Seq<StoredFile>) -> Seq<int> {
    by_subject(files, listed_positions(files))
}

/// `idn` is the identity that the stored file `f` describes.
pub open spec fn describes(idn: Identity, f: StoredFile) -> bool {
    let m = f.meta->0;
    &&& idn.id@ == p12_stem(f.file_name@)->0
    &&& idn.subject@ == m.subject@
    &&& idn.issuer@ == m.issuer@
    &&& idn.self_signed == m.self_signed
    &&& idn.not_after@ == m.not_after@
    &&& idn.path@ == f.path@
}

fn p12_stem_chars(name: &[char]) -> (r: Option<Vec<char>>)
    ensures
        match r {
            Some(t) => p12_stem(name@) == Some(t@),
            None => p12_stem(name@) is None,
        },
{
    let ext = crate::macos_uninstall::extension(name);
    let p12 = vec!['p', '1', '2'];
    proof {
        reveal_strlit("p12");
    }
    assert(p12@ =~= "p12"@);
    match ext {
        Some(e) => {
            if !crate::text::chars_eq(&e, &p12) {
                return None;
            }
        },
        None => {
            return None;
        },
    }
    let mut j: usize = name.len();
    assert(name@.take(name@.len() as int) =~= name@);
    while j > 0 && name[j - 1] != '.'
        invariant
            j <= name@.len(),
            last_index_of(name@, '.') == last_index_of(name@.take(j as int), '.'),
        decreases j,
    {
        assert(name@.take(j as int).drop_last() =~= name@.take(j - 1));
        j = j - 1;
    }
    if j == 0 {
        assert(name@.take(0) =~= Seq::<char>::empty());
        return None;
    }
    assert(name@.take(j as int).last() == name@[j - 1]);
    let stem = slice_range(name, 0, j - 1);
    assert(stem@ =~= name@.take(j - 1));
    Some(stem)
}

proof fn lemma_by_subject_len(files: Seq<StoredFile>, idx: Seq<int>)
    ensures
        by_subject(files, idx).len() == idx.len(),
        forall|k: int|
            0 <= k < by_subject(files, idx).len() ==> idx.contains(#[trigger] by_subject(files, idx)[k]),
        forall|k: int| 0 <= k < idx.len() ==> by_subject(files, idx).contains(#[trigger] idx[k]),
    decreases idx.len(),
{
    if idx.len() > 0 {
        let rest = idx.drop_last();
        lemma_by_subject_len(files, rest);
        let t = by_subject(files, rest);
        lemma_insert_at_bounds(files, t, idx.last());
        let p = insert_at(files, t, idx.last());
        let u = t.insert(p, idx.last());
        assert forall|k: int| 0 <= k < u.len() implies idx.contains(#[trigger] u[k]) by {
            if k < p {
                assert(u[k] == t[k]);
                let w = choose|w: int| 0 <= w < rest.len() && rest[w] == t[k];
                assert(idx[w] == rest[w]);
            } else if k == p {
                assert(idx[idx.len() - 1] == idx.last());
            } else {
                assert(u[k] == t[k - 1]);
                let w = choose|w: int| 0 <= w < rest.len() && rest[w] == t[k - 1];
                assert(idx[w] == rest[w]);
            }
        }
        assert forall|k: int| 0 <= k < idx.len() implies u.contains(#[trigger] idx[k]) by {
            if k == idx.len() - 1 {
                assert(u[p] == idx.last());
            } else {
                assert(rest[k] == idx[k]);
                let w = choose|w: int| 0 <= w < t.len() && t[w] == rest[k];
                if w < p {
                    assert(u[w] == t[w]);
                } else {
                    assert(u[w + 1] == t[w]);
                }
            }
        }
    }
}

proof fn lemma_insert_at_bounds(files: Seq<StoredFile>, sorted: Seq<int>, i: int)
    ensures
        0 <= insert_at(files, sorted, i) <= sorted.len(),
    decreases sorted.len(),
{
    if sorted.len() > 0 {
        lemma_insert_at_bounds(files, sorted.skip(1), i);
    }
}

fn subject_before(files: &[StoredFile], a: usize, b: usize) -> (r: bool)
    requires
        a < files@.len(),
        b < files@.len(),
        files@[a as int].meta is Some,
        files@[b as int].meta is Some,
    ensures
        r == text_before(subject_at(files@, a as int), subject_at(files@, b as int)),
{
    match (&files[a].meta, &files[b].meta) {
        (Some(x), Some(y)) => text_before_chars(
            chars_of(x.subject.as_str()).as_slice(),
            chars_of(y.subject.as_str()).as_slice(),
        ),
        _ => false,
    }
}

/// The identities that the files of the identities directory describe:
/// every `.p12` file whose sidecar could be read, with the file's stem as
/// its id, sorted by subject (files with equal subjects keep their order).
pub fn list_identities(files: &[StoredFile]) -> (r: Vec<Identity>)
    ensures
        r@.len() == listing(files@).len(),
        forall|k: int|
            0 <= k < r@.len() ==> describes(#[trigger] r@[k], files@[listing(files@)[k]]),
{
    let ghost fs = files@;
    let mut order: Vec<usize> = Vec::new();
    let mut i: usize = 0;
    while i < files.len()
        invariant
            i <= fs.len(),
            fs == files@,
            positions(order@) == by_subject(fs, listed_positions(fs.take(i as int))),
            forall|k: int| 0 <= k < order@.len() ==> #[trigger] order@[k] < i,
            forall|k: int| 0 <= k < order@.len() ==> lists_file(fs[#[trigger] order@[k] as int]),
        decreases files.len() - i,
    {
        assert(fs.take(i + 1).drop_last() =~= fs.take(i as int));
        assert(fs.take(i + 1).last() == fs[i as int]);
        let listed = files[i].meta.is_some() && p12_stem_chars(
            chars_of(files[i].file_name.as_str()).as_slice(),
        ).is_some();
        if listed {
            let ghost t = positions(order@);
            let mut p: usize = 0;
            assert(t.skip(0) =~= t);
            loop
                invariant
                    p <= order@.len(),
                    fs == files@,
                    i < fs.len(),
                    lists_file(fs[i as int]),
                    t == positions(order@),
                    forall|k: int| 0 <= k < order@.len() ==> #[trigger] order@[k] < i,
                    forall|k: int| 0 <= k < order@.len() ==> lists_file(fs[#[trigger] order@[k] as int]),
                    insert_at(fs, t, i as int) == p + insert_at(fs, t.skip(p as int), i as int),
                ensures
                    p <= order@.len(),
                    insert_at(fs, t, i as int) == p,
                decreases order.len() - p,
            {
                if p >= order.len() {
                    assert(t.skip(p as int) =~= Seq::<int>::empty());
                    break;
                }
                assert(t.skip(p as int)[0] == order@[p as int] as int);
                if subject_before(files, i, order[p]) {
                    break;
                }
                assert(t.skip(p as int).skip(1) =~= t.skip(p + 1));
                p = p + 1;
            }
            let ghost before = order@;
            order.insert(p, i);
            assert(positions(order@) =~= t.insert(p as int, i as int));
            assert(listed_positions(fs.take(i + 1)) == listed_positions(fs.take(i as int)).push(
                i as int,
            ));
            assert(listed_positions(fs.take(i as int)).push(i as int).drop_last() =~= listed_positions(
                fs.take(i as int),
            ));
            assert(forall|k: int| 0 <= k < order@.len() ==> #[trigger] order@[k] < i + 1) by {
                assert forall|k: int| 0 <= k < order@.len() implies #[trigger] order@[k] < i + 1 by {
                    if k < p {
                        assert(order@[k] == before[k]);
                    } else if k > p {
                        assert(order@[k] == before[k - 1]);
                    }
                }
            }
            assert forall|k: int| 0 <= k < order@.len() implies lists_file(
                fs[#[trigger] order@[k] as int],
            ) by {
                if k < p {
                    assert(order@[k] == before[k]);
                } else if k > p {
                    assert(order@[k] == before[k - 1]);
                }
            }
        } else {
            assert(listed_positions(fs.take(i + 1)) == listed_positions(fs.take(i as int)));
        }
        i = i + 1;
    }
    assert(fs.take(fs.len() as int) =~= fs);
    let mut out: Vec<Identity> = Vec::new();
    let mut k: usize = 0;
    while k < order.len()
        invariant
            k <= order@.len(),
            fs == files@,
            positions(order@) == listing(fs),
            forall|j: int| 0 <= j < order@.len() ==> #[trigger] order@[j] < fs.len(),
            forall|j: int| 0 <= j < order@.len() ==> lists_file(fs[#[trigger] order@[j] as int]),
            out@.len() == k,
            forall|j: int| 0 <= j < k ==> describes(#[trigger] out@[j], fs[listing(fs)[j]]),
        decreases order.len() - k,
    {
        let at = order[k];
        assert(listing(fs)[k as int] == at as int);
        assert(lists_file(fs[at as int]));
        let f = &files[at];
        let stem = match p12_stem_chars(chars_of(f.file_name.as_str()).as_slice()) {
            Some(t) => t,
            None => {
                return out;
            },
        };
        let m = match &f.meta {
            Some(m) => m,
            None => {
                return out;
            },
        };
        out.push(
            Identity {
                id: string_of(stem.as_slice()),
                subject: m.subject.clone(),
                issuer: m.issuer.clone(),
                self_signed: m.self_signed,
                not_after: m.not_after.clone(),
                path: f.path.clone(),
            },
        );
        k = k + 1;
    }
    out
}

/// An identity that was created or imported, so that its `<id>.p12` file
/// and the sidecar beside it are in the identities directory, is listed,
/// under its id.
pub proof fn lemma_stored_identity_is_listed(files: Seq<StoredFile>, i: int, id: Seq<char>)
    requires
        0 <= i < files.len(),
        files[i].file_name@ == id + ".p12"@,
        id.len() > 0,
        files[i].meta is Some,
    ensures
        exists|k: int| 0 <= k < listing(files).len() && #[trigger] listing(files)[k] == i,
        p12_stem(files[i].file_name@) == Some(id),
{
    let name = id + ".p12"@;
    reveal_strlit(".p12");
    lemma_p12_name(id);
    assert(lists_file(files[i]));
    lemma_listed_positions(files, i);
    let l = listed_positions(files);
    lemma_by_subject_len(files, l);
    let w = choose|w: int| 0 <= w < l.len() && l[w] == i;
    assert(by_subject(files, l).contains(l[w]));
    let k = choose|k: int| 0 <= k < by_subject(files, l).len() && by_subject(files, l)[k] == l[w];
    assert(listing(files)[k] == i);
}

proof fn lemma_p12_name(id: Seq<char>)
    requires
        id.len() > 0,
    ensures
        p12_stem(id + ".p12"@) == Some(id),
{
    reveal_strlit(".p12");
    reveal_strlit("p12");
    let name = id + ".p12"@;
    let n = id.len() as int;
    assert(name.drop_last().drop_last().drop_last() =~= id.push('.'));
    assert(last_index_of(name, '.') == last_index_of(name.drop_last(), '.'));
    assert(last_index_of(name.drop_last(), '.') == last_index_of(name.drop_last().drop_last(), '.'));
    assert(last_index_of(name.drop_last().drop_last(), '.') == last_index_of(
        name.drop_last().drop_last().drop_last(),
        '.',
    ));
    assert(last_index_of(id.push('.'), '.') == n);
    assert(name.skip(n + 1) =~= "p12"@);
    assert(name.take(n) =~= id);
}

proof fn lemma_listed_positions(files: Seq<StoredFile>, i: int)
    requires
        0 <= i < files.len(),
        lists_file(files[i]),
    ensures
        listed_positions(files).contains(i),
    decreases files.len(),
{
    if i == files.len() - 1 {
        assert(listed_positions(files).last() == i);
    } else {
        lemma_listed_positions(files.drop_last(), i);
        let before = listed_positions(files.drop_last());
        let w = choose|w: int| 0 <= w < before.len() && before[w] == i;
        if lists_file(files.last()) {
            assert(listed_positions(files)[w] == i);
        }
    }
}

/// The signing key and certificate of the PKCS#12 file `bytes`, as PEM.
pub fn credentials(bytes: &[u8], password: &str) -> (r: Result<Credentials, SheafError>)
    ensures
        match pkcs12_outcome(bytes@, password@) {
            Ok((cert, key, _chain)) => r matches Ok(c) && c.cert_pem@ == pem_of(
                "CERTIFICATE"@,
                cert,
            ) && c.key_pem@ == pem_of("PRIVATE KEY"@, key),
            Err(f) => r matches Err(e) && error_is(e, f),
        },
{
    let (cert, key, _chain) = match load_pkcs12(bytes, password) {
        Ok(t) => t,
        Err(e) => return Err(e),
    };
    Ok(
        Credentials {
            cert_pem: der_to_pem("CERTIFICATE", cert.as_slice()),
            key_pem: der_to_pem("PRIVATE KEY", key.as_slice()),
        },
    )
}

// ---------- PKCS#12 ----------
/// What `p12_keystore::KeyStore::from_pkcs12` (relaxed import policy) makes
/// of `bytes` opened with `password`: the error's text, or the key DER and
/// certificate DERs of the first private-key chain, if there is one.
pub uninterp spec fn pkcs12_parse(bytes: Seq<u8>, password: Seq<char>) -> Result<
    Option<(Seq<u8>, Seq<Seq<u8>>)>,
    Seq<char>,
>;

pub open spec fn pkcs12_view(r: Result<Option<(Vec<u8>, Vec<Vec<u8>>)>, String>) -> Result<
    Option<(Seq<u8>, Seq<Seq<u8>>)>,
    Seq<char>,
> {
    match r {
        Ok(Some((k, cs))) => Ok(Some((k@, ders(cs@)))),
        Ok(None) => Ok(None),
        Err(m) => Err(m@),
    }
}

/// `p12_keystore::KeyStore::from_pkcs12` with the relaxed import policy,
/// then `private_key_chain`: the error's `to_string`, or the DER of the
/// chain's key and of its certificates, in order.
#[verifier::external_body]
fn read_pkcs12(bytes: &[u8], password: &str) -> (r: Result<
    Option<(Vec<u8>, Vec<Vec<u8>>)>,
    String,
>)
    ensures
        pkcs12_view(r) == pkcs12_parse(bytes@, password@),
{
    let policy = p12_keystore::Pkcs12ImportPolicy::Relaxed;
    match p12_keystore::KeyStore::from_pkcs12(bytes, password, policy) {
        Err(e) => Err(e.to_string()),
        Ok(ks) => Ok(
            ks.private_key_chain().map(
                |(_, c)| (c.key().as_der().to_vec(), c.certs().iter().map(|x| x.as_der().to_vec()).collect()),
            ),
        ),
    }
}

/// Whether `n` occurs in `h`.
pub open spec fn mentions(h: Seq<char>, n: Seq<char>) -> bool {
    exists|i: int| 0 <= i && i + n.len() <= h.len() && #[trigger] h.subrange(i, i + n.len()) == n
}

pub fn mentions_chars(h: &[char], n: &[char]) -> (r: bool)
    ensures
        r == mentions(h@, n@),
{
    if n.len() > h.len() {
        return false;
    }
    let last = h.len() - n.len();
    let mut i: usize = 0;
    loop
        invariant
            n@.len() <= h@.len(),
            last == h@.len() - n@.len(),
            h.len() == h@.len(),
            n.len() == n@.len(),
            i <= last,
            forall|j: int| 0 <= j < i ==> #[trigger] h@.subrange(j, j + n@.len()) != n@,
        decreases last - i,
    {
        let w = slice_range(h, i, i + n.len());
        if crate::text::chars_eq(w.as_slice(), n) {
            return true;
        }
        if i == last {
            assert forall|j: int| 0 <= j && j + n@.len() <= h@.len() implies #[trigger] h@.subrange(
                j,
                j + n@.len(),
            ) != n@ by {
                assert(j <= i);
            }
            return false;
        }
        i = i + 1;
    }
}

/// A failure described by its kind and text.
pub enum Fault {
    PasswordRequired,
    Pdf(Seq<char>),
}

/// Whether `e` is the failure `f`.
pub open spec fn error_is(e: SheafError, f: Fault) -> bool {
    match f {
        Fault::PasswordRequired => e is PasswordRequired,
        Fault::Pdf(m) => e matches SheafError::Pdf(x) && x@ == m,
    }
}

/// Whether an error text, lower-cased, mentions `a` or `b`.
pub open spec fn mentions_either(m: Seq<char>, a: Seq<char>, b: Seq<char>) -> bool {
    mentions(lowercase(m), a) || mentions(lowercase(m), b)
}

fn mentions_either_str(m: &str, a: &str, b: &str) -> (r: bool)
    ensures
        r == mentions_either(m@, a@, b@),
{
    let low = lowercase_chars(chars_of(m).as_slice());
    mentions_chars(low.as_slice(), chars_of(a).as_slice()) || mentions_chars(
        low.as_slice(),
        chars_of(b).as_slice(),
    )
}

/// The leaf certificate, the key and the rest of the chain of a PKCS#12
/// file, or why it could not be read: a bad MAC or a password problem asks
/// for the password, anything else is reported.
pub open spec fn pkcs12_outcome(bytes: Seq<u8>, password: Seq<char>) -> Result<
    (Seq<u8>, Seq<u8>, Seq<Seq<u8>>),
    Fault,
> {
    match pkcs12_parse(bytes, password) {
        Err(m) => Err(
            if mentions_either(m, "mac"@, "password"@) {
                Fault::PasswordRequired
            } else {
                Fault::Pdf("pkcs12: "@ + m)
            },
        ),
        Ok(None) => Err(Fault::Pdf("the PKCS#12 file has no private key with a certificate"@)),
        Ok(Some((key, certs))) => if certs.len() == 0 {
            Err(Fault::Pdf("no certificate in PKCS#12"@))
        } else {
            Ok((certs[0], key, certs.skip(1)))
        },
    }
}

fn pdf_with(prefix: &str, m: &str) -> (e: SheafError)
    ensures
        e matches SheafError::Pdf(x) && x@ == prefix@ + m@,
{
    let mut t = chars_of(prefix);
    push_str(&mut t, m);
    SheafError::Pdf(string_of(t.as_slice()))
}

/// (leaf certificate DER, PKCS#8 key DER, chain DERs) of a PKCS#12 file.
pub fn load_pkcs12(bytes: &[u8], password: &str) -> (r: Result<
    (Vec<u8>, Vec<u8>, Vec<Vec<u8>>),
    SheafError,
>)
    ensures
        match pkcs12_outcome(bytes@, password@) {
            Ok((cert, key, chain)) => r matches Ok((c, k, ch)) && c@ == cert && k@ == key && ders(
                ch@,
            ) == chain,
            Err(f) => r matches Err(e) && error_is(e, f),
        },
{
    match read_pkcs12(bytes, password) {
        Err(m) => {
            if mentions_either_str(m.as_str(), "mac", "password") {
                Err(SheafError::PasswordRequired)
            } else {
                Err(pdf_with("pkcs12: ", m.as_str()))
            }
        },
        Ok(None) => Err(pdf_error("the PKCS#12 file has no private key with a certificate")),
        Ok(Some((key, certs))) => {
            if certs.len() == 0 {
                return Err(pdf_error("no certificate in PKCS#12"));
            }
            let mut certs = certs;
            let ghost all = certs@;
            let leaf = certs.remove(0);
            assert(ders(certs@) =~= ders(all).skip(1));
            Ok((leaf, key, certs))
        },
    }
}

/// The error for a PDF that could not be parsed: a password or decryption
/// problem asks for the password, anything else is reported.
pub open spec fn document_fault(m: Seq<char>) -> Fault {
    if mentions_either(m, "password"@, "decrypt"@) {
        Fault::PasswordRequired
    } else {
        Fault::Pdf("parse: "@ + m)
    }
}

pub fn document_error(message: &str) -> (e: SheafError)
    ensures
        error_is(e, document_fault(message@)),
{
    if mentions_either_str(message, "password", "decrypt") {
        SheafError::PasswordRequired
    } else {
        pdf_with("parse: ", message)
    }
}

// ---------- signing ----------
/// Bytes reserved for the CMS signature in `/Contents`.
pub const SIG_PLACEHOLDER_BYTES: usize = 12288;

/// Ten-digit placeholder; real offsets are padded with spaces to this width.
pub const BR_PLACEHOLDER: i64 = 9_999_999_999;

/// Whether `needle` occurs in `hay` at `i`.
pub open spec fn occurs_at(hay: Seq<u8>, needle: Seq<u8>, i: int) -> bool {
    0 <= i && i + needle.len() <= hay.len() && hay.subrange(i, i + needle.len()) == needle
}

/// The first position at or after `from` where `needle` occurs in `hay`.
pub open spec fn first_from(hay: Seq<u8>, needle: Seq<u8>, from: nat) -> Option<nat>
    decreases hay.len() + 1 - from,
{
    if from + needle.len() > hay.len() {
        None
    } else if occurs_at(hay, needle, from as int) {
        Some(from)
    } else {
        first_from(hay, needle, from + 1)
    }
}

/// The first position of `needle` in `hay[from..to]`, counted from the start
/// of `hay`.
pub open spec fn find_between_spec(hay: Seq<u8>, from: nat, to: nat, needle: Seq<u8>) -> Option<
    nat,
> {
    match first_from(hay.subrange(from as int, to as int), needle, 0) {
        Some(k) => Some(from + k),
        None => None,
    }
}

pub open spec fn opt_nat(o: Option<usize>) -> Option<nat> {
    match o {
        Some(i) => Some(i as nat),
        None => None,
    }
}

proof fn lemma_first_from_found(hay: Seq<u8>, needle: Seq<u8>, from: nat)
    requires
        first_from(hay, needle, from) is Some,
    ensures
        occurs_at(hay, needle, first_from(hay, needle, from)->0 as int),
        from <= first_from(hay, needle, from)->0,
    decreases hay.len() + 1 - from,
{
    if from + needle.len() <= hay.len() && !occurs_at(hay, needle, from as int) {
        lemma_first_from_found(hay, needle, from + 1);
    }
}

/// The first position of `needle` in `hay[from..to]`.
pub fn find_between(hay: &[u8], from: usize, to: usize, needle: &[u8]) -> (r: Option<usize>)
    requires
        from <= to <= hay@.len(),
    ensures
        opt_nat(r) == find_between_spec(hay@, from as nat, to as nat, needle@),
{
    let ghost sub = hay@.subrange(from as int, to as int);
    let n = needle.len();
    let mut k: usize = 0;
    while k <= to - from
        invariant
            from <= to <= hay@.len(),
            sub == hay@.subrange(from as int, to as int),
            n == needle@.len(),
            k <= to - from + 1,
            first_from(sub, needle@, 0) == first_from(sub, needle@, k as nat),
        decreases to - from + 1 - k,
    {
        if n > to - from - k {
            return None;
        }
        let mut j: usize = 0;
        let mut same = true;
        while j < n
            invariant
                from <= to <= hay@.len(),
                n == needle@.len(),
                k + n <= to - from,
                j <= n,
                same == forall|t: int| 0 <= t < j ==> hay@[from + k + t] == needle@[t],
            decreases n - j,
        {
            if hay[from + k + j] != needle[j] {
                same = false;
            }
            j = j + 1;
        }
        if same {
            assert(sub.subrange(k as int, k + n) =~= needle@);
            return Some(from + k);
        }
        proof {
            if sub.subrange(k as int, k + n) == needle@ {
                let t = choose|t: int| 0 <= t < n && hay@[from + k + t] != needle@[t];
                assert(sub.subrange(k as int, k + n)[t] == needle@[t]);
            }
        }
        k = k + 1;
    }
    None
}

/// The first position of `needle` in `hay` (`windows(..).position(..)`).
pub fn find(hay: &[u8], needle: &[u8]) -> (r: Option<usize>)
    requires
        needle@.len() > 0,
    ensures
        opt_nat(r) == first_from(hay@, needle@, 0),
{
    let r = find_between(hay, 0, hay.len(), needle);
    assert(hay@.subrange(0, hay@.len() as int) =~= hay@);
    r
}

/// The ASCII digits of `n`.
pub open spec fn decimal_ascii(n: nat) -> Seq<u8>
    decreases n,
{
    if n < 10 {
        seq![(48 + n) as u8]
    } else {
        decimal_ascii(n / 10).push((48 + n % 10) as u8)
    }
}

pub fn decimal_ascii_bytes(n: u64) -> (r: Vec<u8>)
    ensures
        r@ == decimal_ascii(n as nat),
    decreases n,
{
    if n < 10 {
        let r = vec![(48 + n) as u8];
        assert(r@ =~= decimal_ascii(n as nat));
        r
    } else {
        let mut r = decimal_ascii_bytes(n / 10);
        r.push((48 + n % 10) as u8);
        r
    }
}

pub open spec fn endobj_bytes() -> Seq<u8> {
    seq![101u8, 110u8, 100u8, 111u8, 98u8, 106u8]
}

pub open spec fn contents_key() -> Seq<u8> {
    seq![47u8, 67u8, 111u8, 110u8, 116u8, 101u8, 110u8, 116u8, 115u8]
}

pub open spec fn byte_range_key() -> Seq<u8> {
    seq![47u8, 66u8, 121u8, 116u8, 101u8, 82u8, 97u8, 110u8, 103u8, 101u8]
}

/// `\n<num> <gen> obj`, the header of an indirect object.
pub open spec fn object_header(num: nat, generation: nat) -> Seq<u8> {
    seq![10u8] + decimal_ascii(num) + seq![32u8] + decimal_ascii(generation) + seq![
        32u8,
        111u8,
        98u8,
        106u8,
    ]
}

fn object_header_bytes(num: u32, generation: u16) -> (r: Vec<u8>)
    ensures
        r@ == object_header(num as nat, generation as nat),
{
    let mut r: Vec<u8> = vec![10u8];
    r.append(&mut decimal_ascii_bytes(num as u64));
    r.push(32u8);
    r.append(&mut decimal_ascii_bytes(generation as u64));
    r.push(32u8);
    r.push(111u8);
    r.push(98u8);
    r.push(106u8);
    assert(r@ =~= object_header(num as nat, generation as nat));
    r
}

/// Where the placeholders of a signature dictionary are in the serialized
/// file: the `/Contents` hex string `<..>` is `[c_start, c_end)`, the
/// `/ByteRange` array `[..]` is `[br_open, br_close]`.
#[derive(Debug, Clone, Copy)]
pub struct SignatureSlots {
    pub c_start: usize,
    pub c_end: usize,
    pub br_open: usize,
    pub br_close: usize,
}

pub struct Slots {
    pub c_start: nat,
    pub c_end: nat,
    pub br_open: nat,
    pub br_close: nat,
}

/// The placeholders of the signature object `num gen` in the part of `out`
/// after `base`, or why they were not found.
pub open spec fn locate_slots(out: Seq<u8>, base: nat, num: nat, generation: nat) -> Result<
    Slots,
    Seq<char>,
> {
    let len = out.len();
    match find_between_spec(out, base, len, object_header(num, generation)) {
        None => Err("signature object not found"@),
        Some(o_start) => match find_between_spec(out, o_start, len, endobj_bytes()) {
            None => Err("signature object end"@),
            Some(o_end) => match find_between_spec(out, o_start, o_end, contents_key()) {
                None => Err("Contents not found"@),
                Some(c_key) => match find_between_spec(out, c_key, o_end, seq![60u8]) {
                    None => Err("Contents string"@),
                    Some(c_start) => match find_between_spec(out, c_start, o_end, seq![62u8]) {
                        None => Err("Contents string"@),
                        Some(gt) => match find_between_spec(out, o_start, o_end, byte_range_key()) {
                            None => Err("ByteRange not found"@),
                            Some(br_key) => match find_between_spec(out, br_key, o_end, seq![91u8]) {
                                None => Err("ByteRange array"@),
                                Some(br_open) => match find_between_spec(
                                    out,
                                    br_open,
                                    o_end,
                                    seq![93u8],
                                ) {
                                    None => Err("ByteRange array"@),
                                    Some(br_close) => Ok(
                                        Slots { c_start, c_end: gt + 1, br_open, br_close },
                                    ),
                                },
                            },
                        },
                    },
                },
            },
        },
    }
}

proof fn lemma_found_within(hay: Seq<u8>, from: nat, to: nat, needle: Seq<u8>)
    requires
        from <= to <= hay.len(),
        find_between_spec(hay, from, to, needle) is Some,
    ensures
        from <= find_between_spec(hay, from, to, needle)->0,
        find_between_spec(hay, from, to, needle)->0 + needle.len() <= to,
{
    lemma_first_from_found(hay.subrange(from as int, to as int), needle, 0);
}

fn pdf_fail(msg: &str) -> (e: SheafError)
    ensures
        error_is(e, Fault::Pdf(msg@)),
{
    pdf_error(msg)
}

/// Find the placeholders of the signature object `num gen` that was
/// serialized after the existing `base` bytes of `out`.
pub fn locate_signature(out: &[u8], base: usize, num: u32, generation: u16) -> (r: Result<
    SignatureSlots,
    SheafError,
>)
    requires
        base <= out@.len(),
    ensures
        match locate_slots(out@, base as nat, num as nat, generation as nat) {
            Ok(s) => r matches Ok(t) && t.c_start == s.c_start && t.c_end == s.c_end && t.br_open
                == s.br_open && t.br_close == s.br_close,
            Err(m) => r matches Err(e) && error_is(e, Fault::Pdf(m)),
        },
{
    let len = out.len();
    let head = object_header_bytes(num, generation);
    let o_start = match find_between(out, base, len, head.as_slice()) {
        Some(i) => i,
        None => return Err(pdf_fail("signature object not found")),
    };
    proof {
        lemma_found_within(out@, base as nat, len as nat, head@);
    }
    let endobj: Vec<u8> = vec![101u8, 110u8, 100u8, 111u8, 98u8, 106u8];
    assert(endobj@ =~= endobj_bytes());
    let o_end = match find_between(out, o_start, len, endobj.as_slice()) {
        Some(i) => i,
        None => return Err(pdf_fail("signature object end")),
    };
    proof {
        lemma_found_within(out@, o_start as nat, len as nat, endobj@);
    }
    let ck: Vec<u8> = vec![47u8, 67u8, 111u8, 110u8, 116u8, 101u8, 110u8, 116u8, 115u8];
    assert(ck@ =~= contents_key());
    let c_key = match find_between(out, o_start, o_end, ck.as_slice()) {
        Some(i) => i,
        None => return Err(pdf_fail("Contents not found")),
    };
    proof {
        lemma_found_within(out@, o_start as nat, o_end as nat, ck@);
    }
    let lt: Vec<u8> = vec![60u8];
    assert(lt@ =~= seq![60u8]);
    let c_start = match find_between(out, c_key, o_end, lt.as_slice()) {
        Some(i) => i,
        None => return Err(pdf_fail("Contents string")),
    };
    proof {
        lemma_found_within(out@, c_key as nat, o_end as nat, lt@);
    }
    let gt: Vec<u8> = vec![62u8];
    assert(gt@ =~= seq![62u8]);
    let gt_at = match find_between(out, c_start, o_end, gt.as_slice()) {
        Some(i) => i,
        None => return Err(pdf_fail("Contents string")),
    };
    proof {
        lemma_found_within(out@, c_start as nat, o_end as nat, gt@);
    }
    let bk: Vec<u8> = vec![47u8, 66u8, 121u8, 116u8, 101u8, 82u8, 97u8, 110u8, 103u8, 101u8];
    assert(bk@ =~= byte_range_key());
    let br_key = match find_between(out, o_start, o_end, bk.as_slice()) {
        Some(i) => i,
        None => return Err(pdf_fail("ByteRange not found")),
    };
    proof {
        lemma_found_within(out@, o_start as nat, o_end as nat, bk@);
    }
    let lb: Vec<u8> = vec![91u8];
    assert(lb@ =~= seq![91u8]);
    let br_open = match find_between(out, br_key, o_end, lb.as_slice()) {
        Some(i) => i,
        None => return Err(pdf_fail("ByteRange array")),
    };
    proof {
        lemma_found_within(out@, br_key as nat, o_end as nat, lb@);
    }
    let rb: Vec<u8> = vec![93u8];
    assert(rb@ =~= seq![93u8]);
    let br_close = match find_between(out, br_open, o_end, rb.as_slice()) {
        Some(i) => i,
        None => return Err(pdf_fail("ByteRange array")),
    };
    Ok(SignatureSlots { c_start, c_end: gt_at + 1, br_open, br_close })
}

/// `[0 <c_start> <c_end> <len - c_end>]`.
pub open spec fn byte_range_text(c_start: nat, c_end: nat, len: nat) -> Seq<u8> {
    seq![91u8, 48u8, 32u8] + decimal_ascii(c_start) + seq![32u8] + decimal_ascii(c_end) + seq![32u8]
        + decimal_ascii((len - c_end) as nat) + seq![93u8]
}

/// `n` copies of `b`.
pub open spec fn repeat(b: u8, n: nat) -> Seq<u8> {
    Seq::new(n, |i: int| b)
}

/// `out` with the `/ByteRange` placeholder replaced by the real ranges,
/// padded with spaces to the placeholder's width.
pub open spec fn patched(out: Seq<u8>, s: Slots) -> Result<Seq<u8>, Seq<char>> {
    let text = byte_range_text(s.c_start, s.c_end, out.len());
    let avail = (s.br_close + 1 - s.br_open) as nat;
    if text.len() > avail {
        Err("ByteRange does not fit its placeholder"@)
    } else {
        Ok(
            out.subrange(0, s.br_open as int) + text + repeat(32u8, (avail - text.len()) as nat)
                + out.subrange(s.br_close + 1int, out.len() as int),
        )
    }
}

/// The placeholders that `locate_slots` finds lie inside `out`, in order,
/// and the `/Contents` string runs from its `<` to its `>`.
pub proof fn lemma_slots_in_bounds(out: Seq<u8>, base: nat, num: nat, generation: nat)
    requires
        base <= out.len(),
        locate_slots(out, base, num, generation) is Ok,
    ensures
        ({
            let s = locate_slots(out, base, num, generation)->Ok_0;
            &&& s.c_start + 2 <= s.c_end <= out.len()
            &&& s.br_open <= s.br_close < out.len()
            &&& base <= s.c_start
            &&& base <= s.br_open
            &&& out[s.c_start as int] == 60u8
            &&& out[s.c_end - 1] == 62u8
        }),
{
    let len = out.len();
    let h = object_header(num, generation);
    lemma_found_within(out, base, len, h);
    let o_start = find_between_spec(out, base, len, h)->0;
    lemma_found_within(out, o_start, len, endobj_bytes());
    let o_end = find_between_spec(out, o_start, len, endobj_bytes())->0;
    lemma_found_within(out, o_start, o_end, contents_key());
    let c_key = find_between_spec(out, o_start, o_end, contents_key())->0;
    lemma_found_within(out, c_key, o_end, seq![60u8]);
    let c_start = find_between_spec(out, c_key, o_end, seq![60u8])->0;
    lemma_found_within(out, c_start, o_end, seq![62u8]);
    let gt = find_between_spec(out, c_start, o_end, seq![62u8])->0;
    lemma_first_from_found(out.subrange(c_key as int, o_end as int), seq![60u8], 0);
    lemma_first_from_found(out.subrange(c_start as int, o_end as int), seq![62u8], 0);
    assert(out.subrange(c_key as int, o_end as int).subrange(
        c_start - c_key,
        c_start - c_key + 1,
    )[0] == out[c_start as int]);
    assert(out.subrange(c_start as int, o_end as int).subrange(
        gt - c_start,
        gt - c_start + 1,
    )[0] == out[gt as int]);
    lemma_found_within(out, o_start, o_end, byte_range_key());
    let br_key = find_between_spec(out, o_start, o_end, byte_range_key())->0;
    lemma_found_within(out, br_key, o_end, seq![91u8]);
    let br_open = find_between_spec(out, br_key, o_end, seq![91u8])->0;
    lemma_found_within(out, br_open, o_end, seq![93u8]);
}

/// Signing appends: the bytes of the file as it was, before `base`, are
/// never modified, so the signatures already in it stay valid, and the
/// signed file is as long as the serialized update.
pub proof fn lemma_signing_keeps_existing_bytes(
    out: Seq<u8>,
    base: nat,
    num: nat,
    generation: nat,
    key: SigningKey,
    reason: Option<Seq<char>>,
    location: Option<Seq<char>>,
    contact: Option<Seq<char>>,
)
    requires
        base <= out.len(),
        finished(out, base, num, generation, key, reason, location, contact) is Ok,
    ensures
        ({
            let o = finished(out, base, num, generation, key, reason, location, contact)->Ok_0;
            &&& o.len() == out.len()
            &&& o.take(base as int) == out.take(base as int)
        }),
{
    lemma_slots_in_bounds(out, base, num, generation);
    let s = locate_slots(out, base, num, generation)->Ok_0;
    let o1 = patched(out, s)->Ok_0;
    assert(o1.len() == out.len());
    assert(o1.take(base as int) =~= out.take(base as int));
    let cms = detached_cms(
        key.certificate@,
        key.private_key@,
        reason,
        location,
        contact,
        signed_region(o1, s.c_start, s.c_end),
    )->Ok_0;
    lemma_hex_len(cms);
    let o2 = filled(o1, s.c_start, s.c_end, cms)->Ok_0;
    assert(o2.len() == o1.len());
    assert(o2.take(base as int) =~= o1.take(base as int));
}

/// Find the placeholders of the signature object `num gen`, serialized
/// after the first `base` bytes of `out`, and write the real `/ByteRange`
/// over its placeholder.
pub fn patch_byte_range(out: &mut Vec<u8>, base: usize, num: u32, generation: u16) -> (r: Result<
    SignatureSlots,
    SheafError,
>)
    requires
        base <= old(out)@.len(),
    ensures
        match locate_slots(old(out)@, base as nat, num as nat, generation as nat) {
            Err(m) => r matches Err(e) && error_is(e, Fault::Pdf(m)),
            Ok(s) => match patched(old(out)@, s) {
                Err(m) => r matches Err(e) && error_is(e, Fault::Pdf(m)),
                Ok(o) => r matches Ok(t) && t.c_start == s.c_start && t.c_end == s.c_end
                    && t.br_open == s.br_open && t.br_close == s.br_close && final(out)@ == o,
            },
        },
{
    let slots = match locate_signature(out.as_slice(), base, num, generation) {
        Ok(s) => s,
        Err(e) => return Err(e),
    };
    proof {
        lemma_slots_in_bounds(old(out)@, base as nat, num as nat, generation as nat);
    }
    let len = out.len();
    let mut text: Vec<u8> = vec![91u8, 48u8, 32u8];
    text.append(&mut decimal_ascii_bytes(slots.c_start as u64));
    text.push(32u8);
    text.append(&mut decimal_ascii_bytes(slots.c_end as u64));
    text.push(32u8);
    text.append(&mut decimal_ascii_bytes((len - slots.c_end) as u64));
    text.push(93u8);
    assert(text@ =~= byte_range_text(slots.c_start as nat, slots.c_end as nat, len as nat));
    let avail = slots.br_close + 1 - slots.br_open;
    if text.len() > avail {
        return Err(pdf_fail("ByteRange does not fit its placeholder"));
    }
    let ghost tl = text@.len();
    while text.len() < avail
        invariant
            tl <= text@.len() <= avail,
            text@ == byte_range_text(slots.c_start as nat, slots.c_end as nat, len as nat) + repeat(
                32u8,
                (text@.len() - tl) as nat,
            ),
        decreases avail - text.len(),
    {
        text.push(32u8);
        assert(text@ =~= byte_range_text(slots.c_start as nat, slots.c_end as nat, len as nat)
            + repeat(32u8, (text@.len() - tl) as nat));
    }
    let ghost before = out@;
    let mut k: usize = 0;
    while k < avail
        invariant
            k <= avail,
            avail == text@.len(),
            slots.br_open + avail <= before.len(),
            out@.len() == before.len(),
            out.len() == out@.len(),
            forall|i: int| 0 <= i < out@.len() ==> #[trigger] out@[i] == if slots.br_open <= i
                < slots.br_open + k {
                text@[i - slots.br_open]
            } else {
                before[i]
            },
        decreases avail - k,
    {
        out.set(slots.br_open + k, text[k]);
        k = k + 1;
    }
    assert(out@ =~= before.subrange(0, slots.br_open as int) + text@ + before.subrange(
        slots.br_close + 1,
        before.len() as int,
    ));
    Ok(slots)
}

/// An upper-case hexadecimal digit, as an ASCII byte.
pub open spec fn hex_digit_upper(v: int) -> u8 {
    if v < 10 {
        (48 + v) as u8
    } else {
        (55 + v) as u8
    }
}

/// Upper-case hexadecimal text of `b`, two digits per byte.
pub open spec fn hex_upper(b: Seq<u8>) -> Seq<u8>
    decreases b.len(),
{
    if b.len() == 0 {
        Seq::empty()
    } else {
        hex_upper(b.drop_last()) + seq![
            hex_digit_upper(b.last() as int / 16),
            hex_digit_upper(b.last() as int % 16),
        ]
    }
}

proof fn lemma_hex_len(b: Seq<u8>)
    ensures
        hex_upper(b).len() == 2 * b.len(),
    decreases b.len(),
{
    if b.len() > 0 {
        lemma_hex_len(b.drop_last());
    }
}

fn hex_upper_bytes(b: &[u8]) -> (r: Vec<u8>)
    ensures
        r@ == hex_upper(b@),
{
    let mut out: Vec<u8> = Vec::new();
    let mut i: usize = 0;
    assert(b@.take(0) =~= Seq::<u8>::empty());
    while i < b.len()
        invariant
            i <= b@.len(),
            out@ == hex_upper(b@.take(i as int)),
        decreases b.len() - i,
    {
        let v = b[i];
        assert(b@.take(i + 1).drop_last() =~= b@.take(i as int));
        let hi = v / 16;
        let lo = v % 16;
        out.push(if hi < 10 { 48 + hi } else { 55 + hi });
        out.push(if lo < 10 { 48 + lo } else { 55 + lo });
        assert(out@ =~= hex_upper(b@.take(i + 1)));
        i = i + 1;
    }
    assert(b@.take(b@.len() as int) =~= b@);
    out
}

/// `out` with the CMS `cms`, in upper-case hex, written into the
/// `/Contents` string `[c_start, c_end)` and the rest of the string filled
/// with `0`; or why it does not fit.
pub open spec fn filled(out: Seq<u8>, c_start: nat, c_end: nat, cms: Seq<u8>) -> Result<
    Seq<u8>,
    Seq<char>,
> {
    let slot = (c_end - 1 - (c_start + 1)) as nat;
    let hex = hex_upper(cms);
    if hex.len() > slot {
        Err("signature larger than the reserved space"@)
    } else {
        Ok(
            out.subrange(0, c_start + 1int) + hex + repeat(48u8, (slot - hex.len()) as nat)
                + out.subrange(c_end - 1int, out.len() as int),
        )
    }
}

/// Write the CMS `cms` into the `/Contents` string `[c_start, c_end)`.
pub fn fill_signature(out: &mut Vec<u8>, c_start: usize, c_end: usize, cms: &[u8]) -> (r: Result<
    (),
    SheafError,
>)
    requires
        c_start + 2 <= c_end <= old(out)@.len(),
    ensures
        match filled(old(out)@, c_start as nat, c_end as nat, cms@) {
            Err(m) => r matches Err(e) && error_is(e, Fault::Pdf(m)) && final(out)@ == old(out)@,
            Ok(o) => r is Ok && final(out)@ == o,
        },
{
    let mut hex = hex_upper_bytes(cms);
    let slot = c_end - 1 - (c_start + 1);
    if hex.len() > slot {
        return Err(pdf_fail("signature larger than the reserved space"));
    }
    let ghost hl = hex@.len();
    let ghost h0 = hex@;
    while hex.len() < slot
        invariant
            hl <= hex@.len() <= slot,
            hex@ == h0 + repeat(48u8, (hex@.len() - hl) as nat),
        decreases slot - hex.len(),
    {
        hex.push(48u8);
        assert(hex@ =~= h0 + repeat(48u8, (hex@.len() - hl) as nat));
    }
    let ghost before = out@;
    let start = c_start + 1;
    let mut k: usize = 0;
    while k < slot
        invariant
            k <= slot,
            slot == hex@.len(),
            start + slot < before.len(),
            out@.len() == before.len(),
            out.len() == out@.len(),
            forall|i: int| 0 <= i < out@.len() ==> #[trigger] out@[i] == if start <= i < start
                + k {
                hex@[i - start]
            } else {
                before[i]
            },
        decreases slot - k,
    {
        out.set(start + k, hex[k]);
        k = k + 1;
    }
    assert(out@ =~= before.subrange(0, c_start + 1) + hex@ + before.subrange(
        c_end - 1,
        before.len() as int,
    ));
    Ok(())
}

/// The bytes a signature covers: everything but the `/Contents` string.
pub open spec fn signed_region(out: Seq<u8>, c_start: nat, c_end: nat) -> Seq<u8> {
    out.subrange(0, c_start as int) + out.subrange(c_end as int, out.len() as int)
}

pub fn signed_bytes(out: &[u8], c_start: usize, c_end: usize) -> (r: Vec<u8>)
    requires
        c_start <= c_end <= out@.len(),
    ensures
        r@ == signed_region(out@, c_start as nat, c_end as nat),
{
    let mut r: Vec<u8> = Vec::new();
    let mut i: usize = 0;
    while i < c_start
        invariant
            i <= c_start <= c_end <= out@.len(),
            r@ == out@.subrange(0, i as int),
        decreases c_start - i,
    {
        r.push(out[i]);
        assert(r@ =~= out@.subrange(0, i + 1));
        i = i + 1;
    }
    let mut j: usize = c_end;
    while j < out.len()
        invariant
            c_start <= c_end <= j <= out@.len(),
            r@ == out@.subrange(0, c_start as int) + out@.subrange(c_end as int, j as int),
        decreases out.len() - j,
    {
        r.push(out[j]);
        assert(r@ =~= out@.subrange(0, c_start as int) + out@.subrange(c_end as int, j + 1));
        j = j + 1;
    }
    r
}

/// A certificate and its private key, as DER, ready to sign.
#[derive(Debug, Clone)]
pub struct SigningKey {
    pub certificate: Vec<u8>,
    pub private_key: Vec<u8>,
}

/// What `pdf_oxide::signatures::SigningCredentials::from_pem` makes of a
/// certificate PEM and a key PEM: the error's text, or the certificate DER
/// and key DER.
pub uninterp spec fn pem_key_pair(cert_pem: Seq<char>, key_pem: Seq<char>) -> Result<
    (Seq<u8>, Seq<u8>),
    Seq<char>,
>;

/// `pdf_oxide::signatures::SigningCredentials::from_pem`: the DER of the
/// certificate and of the key, or the error's `to_string`.
#[verifier::external_body]
fn key_pair_from_pem(cert_pem: &str, key_pem: &str) -> (r: Result<(Vec<u8>, Vec<u8>), String>)
    ensures
        match r {
            Ok((c, k)) => pem_key_pair(cert_pem@, key_pem@) == Ok::<(Seq<u8>, Seq<u8>), Seq<char>>(
                (c@, k@),
            ),
            Err(m) => pem_key_pair(cert_pem@, key_pem@) == Err::<(Seq<u8>, Seq<u8>), Seq<char>>(
                m@,
            ),
        },
{
    match pdf_oxide::signatures::SigningCredentials::from_pem(cert_pem, key_pem) {
        Ok(c) => Ok((c.certificate, c.private_key)),
        Err(e) => Err(e.to_string()),
    }
}

/// The key to sign with, from PEM credentials.
pub fn signing_key(creds: &Credentials) -> (r: Result<SigningKey, SheafError>)
    ensures
        match pem_key_pair(creds.cert_pem@, creds.key_pem@) {
            Ok((c, k)) => r matches Ok(key) && key.certificate@ == c && key.private_key@ == k,
            Err(m) => r matches Err(e) && error_is(e, Fault::Pdf("credentials: "@ + m)),
        },
{
    match key_pair_from_pem(creds.cert_pem.as_str(), creds.key_pem.as_str()) {
        Ok((certificate, private_key)) => Ok(SigningKey { certificate, private_key }),
        Err(m) => Err(pdf_with("credentials: ", m.as_str())),
    }
}

/// What `SigningCredentials::subject` gives for a certificate DER: its
/// subject DN as text, or the error's text.
pub uninterp spec fn certificate_subject(cert: Seq<u8>) -> Result<Seq<char>, Seq<char>>;

/// `pdf_oxide::signatures::SigningCredentials::subject` of a certificate.
#[verifier::external_body]
fn subject_of(cert: &[u8]) -> (r: Result<String, String>)
    ensures
        match r {
            Ok(s) => certificate_subject(cert@) == Ok::<Seq<char>, Seq<char>>(s@),
            Err(m) => certificate_subject(cert@) == Err::<Seq<char>, Seq<char>>(m@),
        },
{
    let creds = pdf_oxide::signatures::SigningCredentials::new(cert.to_vec(), Vec::new());
    creds.subject().map_err(|e| e.to_string())
}

/// The name shown on a signature: the one asked for unless it is blank,
/// else the certificate's CN, else `Signer`.
pub open spec fn signer_name_of(requested: Option<Seq<char>>, cert: Seq<u8>) -> Seq<char> {
    let cn = match certificate_subject(cert) {
        Ok(s) => display_name_of(s),
        Err(_) => "Signer"@,
    };
    match requested {
        Some(n) => if trim(n).len() > 0 {
            n
        } else {
            cn
        },
        None => cn,
    }
}

pub fn signer_name(requested: &Option<String>, key: &SigningKey) -> (r: String)
    ensures
        r@ == signer_name_of(opt_view(*requested), key.certificate@),
{
    let cn = match subject_of(key.certificate.as_slice()) {
        Ok(s) => display_name(s.as_str()),
        Err(_) => "Signer".to_owned(),
    };
    match requested {
        Some(n) => {
            if trim_vec(chars_of(n.as_str()).as_slice()).len() > 0 {
                n.clone()
            } else {
                cn
            }
        },
        None => cn,
    }
}

/// What `pdf_oxide::signatures::PdfSigner::sign` returns for `data` when
/// signing with the certificate `cert` and key `key` and the reason,
/// location and contact given: the detached CMS `SignedData`, or the
/// error's text.
pub uninterp spec fn detached_cms(
    cert: Seq<u8>,
    key: Seq<u8>,
    reason: Option<Seq<char>>,
    location: Option<Seq<char>>,
    contact: Option<Seq<char>>,
    data: Seq<u8>,
) -> Result<Seq<u8>, Seq<char>>;

/// `pdf_oxide::signatures::PdfSigner::sign` over `data`, with default
/// options but for the reason, location and contact.
#[verifier::external_body]
fn sign_detached(
    key: &SigningKey,
    reason: Option<String>,
    location: Option<String>,
    contact: Option<String>,
    data: &[u8],
) -> (r: Result<Vec<u8>, String>)
    ensures
        match r {
            Ok(c) => detached_cms(
                key.certificate@,
                key.private_key@,
                opt_view(reason),
                opt_view(location),
                opt_view(contact),
                data@,
            ) == Ok::<Seq<u8>, Seq<char>>(c@),
            Err(m) => detached_cms(
                key.certificate@,
                key.private_key@,
                opt_view(reason),
                opt_view(location),
                opt_view(contact),
                data@,
            ) == Err::<Seq<u8>, Seq<char>>(m@),
        },
{
    let creds = pdf_oxide::signatures::SigningCredentials::new(
        key.certificate.clone(),
        key.private_key.clone(),
    );
    let opts = pdf_oxide::signatures::SignOptions {
        reason,
        location,
        contact_info: contact,
        ..Default::default()
    };
    pdf_oxide::signatures::PdfSigner::new(creds, opts).sign(data).map_err(|e| e.to_string())
}

/// The signed file: the ByteRange patched, the covered bytes signed, and
/// the CMS written into `/Contents`; or why that failed.
pub open spec fn finished(
    out: Seq<u8>,
    base: nat,
    num: nat,
    generation: nat,
    key: SigningKey,
    reason: Option<Seq<char>>,
    location: Option<Seq<char>>,
    contact: Option<Seq<char>>,
) -> Result<Seq<u8>, Seq<char>> {
    match locate_slots(out, base, num, generation) {
        Err(m) => Err(m),
        Ok(s) => match patched(out, s) {
            Err(m) => Err(m),
            Ok(o) => match detached_cms(
                key.certificate@,
                key.private_key@,
                reason,
                location,
                contact,
                signed_region(o, s.c_start, s.c_end),
            ) {
                Err(m) => Err("sign: "@ + m),
                Ok(cms) => filled(o, s.c_start, s.c_end, cms),
            },
        },
    }
}

/// Sign `out`, the existing `base` bytes followed by an incremental update
/// that holds the signature object `num gen` with its placeholders.
pub fn finish_signature(
    out: Vec<u8>,
    base: usize,
    num: u32,
    generation: u16,
    key: &SigningKey,
    reason: &Option<String>,
    location: &Option<String>,
    contact: &Option<String>,
) -> (r: Result<Vec<u8>, SheafError>)
    requires
        base <= out@.len(),
    ensures
        match finished(
            out@,
            base as nat,
            num as nat,
            generation as nat,
            *key,
            opt_view(*reason),
            opt_view(*location),
            opt_view(*contact),
        ) {
            Ok(o) => r matches Ok(v) && v@ == o,
            Err(m) => r matches Err(e) && error_is(e, Fault::Pdf(m)),
        },
{
    let mut out = out;
    let ghost before = out@;
    let slots = match patch_byte_range(&mut out, base, num, generation) {
        Ok(s) => s,
        Err(e) => return Err(e),
    };
    proof {
        lemma_slots_in_bounds(before, base as nat, num as nat, generation as nat);
    }
    let signed = signed_bytes(out.as_slice(), slots.c_start, slots.c_end);
    let cms = match sign_detached(
        key,
        copy_opt_string(reason),
        copy_opt_string(location),
        copy_opt_string(contact),
        signed.as_slice(),
    ) {
        Ok(c) => c,
        Err(m) => return Err(pdf_with("sign: ", m.as_str())),
    };
    match fill_signature(&mut out, slots.c_start, slots.c_end, cms.as_slice()) {
        Ok(()) => Ok(out),
        Err(e) => Err(e),
    }
}

/// The AcroForm's `/SigFlags` once a signature is added: the flags it had
/// (none counts as 0) with `SignaturesExist` (1) and `AppendOnly` (2) set.
pub open spec fn signature_flags_of(existing: Option<i64>) -> i64 {
    (match existing {
        Some(f) => f,
        None => 0i64,
    }) | 3i64
}

pub fn signature_flags(existing: Option<i64>) -> (r: i64)
    ensures
        r == signature_flags_of(existing),
{
    let f: i64 = match existing {
        Some(f) => f,
        None => 0,
    };
    f | 3
}

/// What signing the update `out` that was serialized after the file `bytes`
/// gives: `out` must be at least as long as `bytes` and start with them.
pub open spec fn signed_update(
    bytes: Seq<u8>,
    out: Seq<u8>,
    num: nat,
    generation: nat,
    key: SigningKey,
    reason: Option<Seq<char>>,
    location: Option<Seq<char>>,
    contact: Option<Seq<char>>,
) -> Result<Seq<u8>, Seq<char>> {
    if out.len() < bytes.len() {
        Err("signature object not found"@)
    } else if out.take(bytes.len() as int) != bytes {
        Err("incremental update does not start with the original file"@)
    } else {
        finished(out, bytes.len(), num, generation, key, reason, location, contact)
    }
}

/// Sign the file `bytes` through the incremental update `out` serialized
/// after it, which holds the signature object `num gen` with its
/// placeholders. The original bytes are never modified: a signed file
/// starts with them, so earlier signatures stay valid.
pub fn sign_update(
    bytes: &[u8],
    out: Vec<u8>,
    num: u32,
    generation: u16,
    key: &SigningKey,
    reason: &Option<String>,
    location: &Option<String>,
    contact: &Option<String>,
) -> (r: Result<Vec<u8>, SheafError>)
    ensures
        match signed_update(
            bytes@,
            out@,
            num as nat,
            generation as nat,
            *key,
            opt_view(*reason),
            opt_view(*location),
            opt_view(*contact),
        ) {
            Ok(o) => r matches Ok(v) && v@ == o,
            Err(m) => r matches Err(e) && error_is(e, Fault::Pdf(m)),
        },
        r matches Ok(v) ==> bytes@.len() <= v@.len() && v@.take(bytes@.len() as int) == bytes@,
{
    let base = bytes.len();
    if base > out.len() {
        return Err(SheafError::Pdf("signature object not found".to_string()));
    }
    let mut i: usize = 0;
    while i < base
        invariant
            base == bytes@.len(),
            base <= out@.len(),
            i <= base,
            out@.take(i as int) == bytes@.take(i as int),
        decreases base - i,
    {
        if out[i] != bytes[i] {
            assert(out@.take(base as int)[i as int] != bytes@[i as int]);
            return Err(
                SheafError::Pdf("incremental update does not start with the original file".to_string()),
            );
        }
        assert(out@.take(i + 1) =~= out@.take(i as int).push(out@[i as int]));
        assert(bytes@.take(i + 1) =~= bytes@.take(i as int).push(bytes@[i as int]));
        i = i + 1;
    }
    assert(bytes@.take(base as int) =~= bytes@);
    let ghost before = out@;
    let r = finish_signature(out, base, num, generation, key, reason, location, contact);
    proof {
        if r is Ok {
            lemma_signing_keeps_existing_bytes(
                before,
                base as nat,
                num as nat,
                generation as nat,
                *key,
                opt_view(*reason),
                opt_view(*location),
                opt_view(*contact),
            );
        }
    }
    r
}

// ---------- verifying ----------
/// Whether `b` is an ASCII hexadecimal digit.
pub open spec fn is_hex_digit(b: u8) -> bool {
    (48 <= b <= 57) || (65 <= b <= 70) || (97 <= b <= 102)
}

/// The value of an ASCII hexadecimal digit.
pub open spec fn hex_value(b: u8) -> u8 {
    if b <= 57 {
        (b - 48) as u8
    } else if b <= 70 {
        (b - 55) as u8
    } else {
        (b - 87) as u8
    }
}

/// The values of the hexadecimal digits of `h`, other bytes skipped.
pub open spec fn hex_digits(h: Seq<u8>) -> Seq<u8>
    decreases h.len(),
{
    if h.len() == 0 {
        Seq::empty()
    } else if is_hex_digit(h.last()) {
        hex_digits(h.drop_last()).push(hex_value(h.last()))
    } else {
        hex_digits(h.drop_last())
    }
}

/// Digit values paired into bytes, high digit first; a lone last digit is
/// the high half of a byte.
pub open spec fn pair_digits(d: Seq<u8>) -> Seq<u8>
    decreases d.len(),
{
    if d.len() == 0 {
        Seq::empty()
    } else if d.len() == 1 {
        seq![(d[0] * 16) as u8]
    } else {
        seq![(d[0] * 16 + d[1]) as u8] + pair_digits(d.skip(2))
    }
}

pub open spec fn hex_decode_of(h: Seq<u8>) -> Seq<u8> {
    pair_digits(hex_digits(h))
}

proof fn lemma_digits_small(h: Seq<u8>)
    ensures
        forall|i: int| 0 <= i < hex_digits(h).len() ==> #[trigger] hex_digits(h)[i] < 16,
    decreases h.len(),
{
    if h.len() > 0 {
        lemma_digits_small(h.drop_last());
        let prev = hex_digits(h.drop_last());
        if is_hex_digit(h.last()) {
            assert(hex_value(h.last()) < 16);
            assert forall|i: int| 0 <= i < hex_digits(h).len() implies #[trigger] hex_digits(h)[i]
                < 16 by {
                if i < prev.len() {
                    assert(hex_digits(h)[i] == prev[i]);
                }
            }
        }
    }
}

/// Decode hexadecimal text, skipping anything that is not a hex digit.
pub fn hex_decode(h: &[u8]) -> (r: Vec<u8>)
    ensures
        r@ == hex_decode_of(h@),
{
    let mut digits: Vec<u8> = Vec::new();
    let mut i: usize = 0;
    assert(h@.take(0) =~= Seq::<u8>::empty());
    while i < h.len()
        invariant
            i <= h@.len(),
            digits@ == hex_digits(h@.take(i as int)),
        decreases h.len() - i,
    {
        let b = h[i];
        assert(h@.take(i + 1).drop_last() =~= h@.take(i as int));
        if 48 <= b && b <= 57 {
            digits.push(b - 48);
        } else if 65 <= b && b <= 70 {
            digits.push(b - 55);
        } else if 97 <= b && b <= 102 {
            digits.push(b - 87);
        }
        i = i + 1;
    }
    assert(h@.take(h@.len() as int) =~= h@);
    proof {
        lemma_digits_small(h@);
    }
    let ghost all = digits@;
    let mut out: Vec<u8> = Vec::new();
    let mut k: usize = 0;
    assert(all.skip(0) =~= all);
    while k < digits.len()
        invariant
            all == digits@,
            all == hex_digits(h@),
            forall|t: int| 0 <= t < all.len() ==> #[trigger] all[t] < 16,
            k <= all.len(),
            out@ + pair_digits(all.skip(k as int)) == pair_digits(all),
        decreases digits.len() - k,
    {
        let ghost rest = all.skip(k as int);
        let hi = digits[k];
        if k + 1 < digits.len() {
            let lo = digits[k + 1];
            assert(rest.skip(2) =~= all.skip(k + 2));
            assert(rest[0] == hi && rest[1] == lo);
            let ghost before = out@;
            out.push(hi * 16 + lo);
            assert(out@ + pair_digits(all.skip(k + 2)) =~= before + pair_digits(rest));
            k = k + 2;
        } else {
            assert(rest =~= seq![hi]);
            let ghost before = out@;
            out.push(hi * 16);
            assert(all.skip(k + 1) =~= Seq::<u8>::empty());
            assert(out@ + pair_digits(all.skip(k + 1)) =~= before + pair_digits(rest));
            k = k + 1;
        }
    }
    assert(all.skip(k as int) =~= Seq::<u8>::empty());
    assert(out@ =~= pair_digits(all));
    out
}

/// A copy of `s`.
pub fn copy_bytes(s: &[u8]) -> (r: Vec<u8>)
    ensures
        r@ == s@,
{
    let mut r: Vec<u8> = Vec::new();
    let mut k: usize = 0;
    while k < s.len()
        invariant
            k <= s@.len(),
            r@ == s@.take(k as int),
        decreases s.len() - k,
    {
        r.push(s[k]);
        assert(r@ =~= s@.take(k + 1));
        k = k + 1;
    }
    assert(r@ =~= s@);
    r
}

/// The hex text of a `/Contents` string cut out of the file: what lies
/// after the first `<` (if any) and before the next `>` (if any).
pub open spec fn gap_hex(raw: Seq<u8>) -> Seq<u8> {
    let a = match first_from(raw, seq![60u8], 0) {
        Some(i) => raw.skip(i + 1int),
        None => raw,
    };
    match first_from(a, seq![62u8], 0) {
        Some(j) => a.take(j as int),
        None => a,
    }
}

/// The raw `/Contents` of a signature. With a four-number `/ByteRange` it is
/// read from the gap between the two signed ranges of the file itself (never
/// through the parser, which would decrypt what is stored as plain hex); a
/// gap that is empty or lies outside the file gives nothing. Without one it
/// is the string stored in the dictionary.
pub open spec fn contents_of(bytes: Seq<u8>, br: Seq<i64>, stored: Seq<u8>) -> Seq<u8> {
    if br.len() == 4 {
        let gap_start = br[0] + br[1];
        let gap_end = br[2] as int;
        if 0 <= gap_start && gap_start < gap_end && gap_end <= bytes.len() {
            hex_decode_of(gap_hex(bytes.subrange(gap_start, gap_end)))
        } else {
            Seq::empty()
        }
    } else {
        stored
    }
}

fn gap_hex_bytes(raw: &[u8]) -> (r: Vec<u8>)
    ensures
        r@ == gap_hex(raw@),
{
    let lt: Vec<u8> = vec![60u8];
    let gt: Vec<u8> = vec![62u8];
    assert(lt@ =~= seq![60u8]);
    assert(gt@ =~= seq![62u8]);
    let a: Vec<u8> = match find(raw, lt.as_slice()) {
        Some(i) => {
            proof {
                lemma_first_from_found(raw@, lt@, 0);
                assert(occurs_at(raw@, lt@, i as int));
                assert(i + 1 <= raw@.len());
                assert(raw@.len() == raw.len());
            }
            let mut v: Vec<u8> = Vec::new();
            let mut k = i + 1;
            while k < raw.len()
                invariant
                    i + 1 <= k <= raw@.len(),
                    v@ == raw@.subrange(i + 1, k as int),
                decreases raw.len() - k,
            {
                v.push(raw[k]);
                assert(v@ =~= raw@.subrange(i + 1, k + 1));
                k = k + 1;
            }
            assert(v@ =~= raw@.skip(i + 1));
            v
        },
        None => copy_bytes(raw),
    };
    match find(a.as_slice(), gt.as_slice()) {
        Some(j) => {
            proof {
                lemma_first_from_found(a@, gt@, 0);
            }
            let mut v: Vec<u8> = Vec::new();
            let mut k: usize = 0;
            while k < j
                invariant
                    j <= a@.len(),
                    k <= j,
                    v@ == a@.take(k as int),
                decreases j - k,
            {
                v.push(a[k]);
                assert(v@ =~= a@.take(k + 1));
                k = k + 1;
            }
            v
        },
        None => a,
    }
}

/// The raw `/Contents` of a signature; `stored` is the string the signature
/// dictionary holds.
pub fn signature_contents(bytes: &[u8], br: &[i64], stored: &[u8]) -> (r: Vec<u8>)
    ensures
        r@ == contents_of(bytes@, br@, stored@),
{
    if br.len() == 4 {
        let gap_start: i128 = br[0] as i128 + br[1] as i128;
        let gap_end: i128 = br[2] as i128;
        if 0 <= gap_start && gap_start < gap_end && gap_end <= bytes.len() as i128 {
            let gs = gap_start as usize;
            let ge = gap_end as usize;
            let mut raw: Vec<u8> = Vec::new();
            let mut k = gs;
            while k < ge
                invariant
                    gs <= k <= ge <= bytes@.len(),
                    raw@ == bytes@.subrange(gs as int, k as int),
                decreases ge - k,
            {
                raw.push(bytes[k]);
                assert(raw@ =~= bytes@.subrange(gs as int, k + 1));
                k = k + 1;
            }
            return hex_decode(gap_hex_bytes(raw.as_slice()).as_slice());
        }
        Vec::new()
    } else {
        copy_bytes(stored)
    }
}

/// `s` without its trailing zero bytes (the padding of the reserved space).
pub open spec fn trim_zeros(s: Seq<u8>) -> Seq<u8>
    decreases s.len(),
{
    if s.len() == 0 {
        s
    } else if s.last() == 0 {
        trim_zeros(s.drop_last())
    } else {
        s
    }
}

pub fn strip_trailing_zeros(s: &[u8]) -> (r: Vec<u8>)
    ensures
        r@ == trim_zeros(s@),
{
    let mut n = s.len();
    assert(s@.take(n as int) =~= s@);
    while n > 0 && s[n - 1] == 0
        invariant
            n <= s@.len(),
            trim_zeros(s@.take(n as int)) == trim_zeros(s@),
        decreases n,
    {
        assert(s@.take(n as int).drop_last() =~= s@.take(n - 1));
        n = n - 1;
    }
    let mut r: Vec<u8> = Vec::new();
    let mut k: usize = 0;
    while k < n
        invariant
            k <= n <= s@.len(),
            r@ == s@.take(k as int),
        decreases n - k,
    {
        r.push(s[k]);
        assert(r@ =~= s@.take(k + 1));
        k = k + 1;
    }
    r
}

/// Whether the two signed ranges `[a, a+b)` and `[c, c+d)` of a
/// `/ByteRange` lie inside a file of `len` bytes, in order. Negative
/// numbers point outside the file.
pub open spec fn ranges_inside(len: nat, br: Seq<i64>) -> bool {
    &&& br.len() == 4
    &&& br[0] >= 0 && br[1] >= 0 && br[2] >= 0 && br[3] >= 0
    &&& br[0] + br[1] <= len
    &&& br[2] + br[3] <= len
    &&& br[0] + br[1] <= br[2]
}

/// The bytes that the ranges `[a, a+b)` and `[c, c+d)` cover.
pub open spec fn covered(bytes: Seq<u8>, br: Seq<i64>) -> Seq<u8> {
    bytes.subrange(br[0] as int, br[0] + br[1]) + bytes.subrange(br[2] as int, br[2] + br[3])
}

/// What `pdf_oxide::signatures::verify_signer_detached` finds for a CMS
/// over `data`.
pub enum Verdict {
    Valid,
    Invalid,
    Unknown,
    /// The CMS could not be parsed; the error's text.
    Unreadable(String),
}

/// The outcome of `verify_signer_detached` as a number: 0 valid, 1 invalid,
/// 2 unknown; or the error's text.
pub uninterp spec fn detached_verdict(cms: Seq<u8>, data: Seq<u8>) -> Result<int, Seq<char>>;

pub open spec fn verdict_code(v: Verdict) -> Result<int, Seq<char>> {
    match v {
        Verdict::Valid => Ok(0),
        Verdict::Invalid => Ok(1),
        Verdict::Unknown => Ok(2),
        Verdict::Unreadable(m) => Err(m@),
    }
}

/// `pdf_oxide::signatures::verify_signer_detached(cms, data)`.
#[verifier::external_body]
fn verify_detached(cms: &[u8], data: &[u8]) -> (r: Verdict)
    ensures
        verdict_code(r) == detached_verdict(cms@, data@),
{
    match pdf_oxide::signatures::verify_signer_detached(cms, data) {
        Ok(SignerVerify::Valid) => Verdict::Valid,
        Ok(SignerVerify::Invalid) => Verdict::Invalid,
        Ok(SignerVerify::Unknown) => Verdict::Unknown,
        Err(e) => Verdict::Unreadable(e.to_string()),
    }
}

/// What `pdf_oxide::signatures::extract_signer_certificate_der` finds in a
/// CMS: the signer's certificate DER, or the error's text.
pub uninterp spec fn signer_certificate(cms: Seq<u8>) -> Result<Seq<u8>, Seq<char>>;

/// `pdf_oxide::signatures::extract_signer_certificate_der`.
#[verifier::external_body]
fn extract_signer(cms: &[u8]) -> (r: Result<Vec<u8>, String>)
    ensures
        match r {
            Ok(d) => signer_certificate(cms@) == Ok::<Seq<u8>, Seq<char>>(d@),
            Err(m) => signer_certificate(cms@) == Err::<Seq<u8>, Seq<char>>(m@),
        },
{
    pdf_oxide::signatures::extract_signer_certificate_der(cms).map_err(|e| e.to_string())
}

/// What `x509_parser::parse_x509_certificate` makes of a DER: the subject
/// and issuer as text and the end of validity in RFC 2822 form (empty when
/// it cannot be written so), or the error's text.
pub uninterp spec fn certificate_fields(der: Seq<u8>) -> Result<
    (Seq<char>, Seq<char>, Seq<char>),
    Seq<char>,
>;

/// `x509_parser::parse_x509_certificate`, then the certificate's subject,
/// issuer and `not_after` (`to_rfc2822`, or empty).
#[verifier::external_body]
fn parse_certificate(der: &[u8]) -> (r: Result<(String, String, String), String>)
    ensures
        match r {
            Ok((s, i, n)) => certificate_fields(der@) == Ok::<
                (Seq<char>, Seq<char>, Seq<char>),
                Seq<char>,
            >((s@, i@, n@)),
            Err(m) => certificate_fields(der@) == Err::<
                (Seq<char>, Seq<char>, Seq<char>),
                Seq<char>,
            >(m@),
        },
{
    match x509_parser::parse_x509_certificate(der) {
        Err(e) => Err(e.to_string()),
        Ok((_, cert)) => Ok(
            (
                cert.subject().to_string(),
                cert.issuer().to_string(),
                cert.validity().not_after.to_rfc2822().unwrap_or_default(),
            ),
        ),
    }
}

/// What a certificate says of its holder.
#[derive(Debug, Clone)]
pub struct CertificateInfo {
    pub subject: String,
    pub issuer: String,
    /// The subject and the issuer are the same.
    pub self_signed: bool,
    pub not_after: String,
}

/// Describe the certificate `der`.
pub fn describe_certificate(der: &[u8]) -> (r: Result<CertificateInfo, SheafError>)
    ensures
        match certificate_fields(der@) {
            Ok((s, i, n)) => r matches Ok(c) && c.subject@ == s && c.issuer@ == i && c.self_signed
                == (s == i) && c.not_after@ == n,
            Err(m) => r matches Err(e) && error_is(e, Fault::Pdf("certificate: "@ + m)),
        },
{
    match parse_certificate(der) {
        Err(m) => Err(pdf_with("certificate: ", m.as_str())),
        Ok((subject, issuer, not_after)) => {
            let same = crate::text::chars_eq(
                chars_of(subject.as_str()).as_slice(),
                chars_of(issuer.as_str()).as_slice(),
            );
            Ok(CertificateInfo { subject, issuer, self_signed: same, not_after })
        },
    }
}

/// What checking one signature found, with every text as characters.
pub struct CheckOutcome {
    pub status: Seq<char>,
    pub covers: bool,
    pub subject: Seq<char>,
    pub issuer: Seq<char>,
    pub self_signed: bool,
    pub messages: Seq<Seq<char>>,
}

pub open spec fn changed_after_signing() -> Seq<char> {
    "The document was changed after this signature was applied."@
}

pub open spec fn bytes_do_not_match() -> Seq<char> {
    "The signed bytes do not match the signature."@
}

pub open spec fn algorithm_unsupported() -> Seq<char> {
    "Signature algorithm is not supported for verification."@
}

pub open spec fn outside_the_file() -> Seq<char> {
    "ByteRange points outside the file."@
}

pub open spec fn unsigned_field() -> Seq<char> {
    "Unsigned signature field."@
}

pub open spec fn self_signed_warning() -> Seq<char> {
    "Signed with a self-signed certificate; identity is not vouched for by a certificate authority."@
}

/// The signer's subject and issuer, and whether they are the same, as far as
/// the CMS shows them; empty when it does not.
pub open spec fn signer_of(cms: Seq<u8>) -> (Seq<char>, Seq<char>, bool) {
    match signer_certificate(cms) {
        Ok(der) => match certificate_fields(der) {
            Ok((s, i, _)) => (s, i, s == i),
            Err(_) => (Seq::empty(), Seq::empty(), false),
        },
        Err(_) => (Seq::empty(), Seq::empty(), false),
    }
}

/// What checking one signature finds: `bytes` is the whole file, `br` its
/// `/ByteRange` numbers and `stored` the `/Contents` string of its
/// dictionary.
///
/// A signature whose two ranges lie inside the file is verified over the
/// bytes they cover: it is `valid` when it verifies and covers the whole
/// file, `modified` when it verifies but the file was appended to
/// afterwards, `invalid` when the bytes do not match, `unknown` otherwise.
/// Ranges outside the file make it `invalid`; a field with no signature is
/// `unknown`.
pub open spec fn check_of(bytes: Seq<u8>, br: Seq<i64>, stored: Seq<u8>) -> CheckOutcome {
    let cms = trim_zeros(contents_of(bytes, br, stored));
    if br.len() == 4 && cms.len() > 0 {
        if ranges_inside(bytes.len(), br) {
            let covers = br[0] == 0 && br[2] + br[3] == bytes.len();
            let (status, messages) = match detached_verdict(cms, covered(bytes, br)) {
                Ok(code) => if code == 0 {
                    if covers {
                        ("valid"@, Seq::<Seq<char>>::empty())
                    } else {
                        ("modified"@, seq![changed_after_signing()])
                    }
                } else if code == 1 {
                    ("invalid"@, seq![bytes_do_not_match()])
                } else {
                    ("unknown"@, seq![algorithm_unsupported()])
                },
                Err(m) => ("unknown"@, seq!["Could not parse signature: "@ + m]),
            };
            let (subject, issuer, self_signed) = signer_of(cms);
            CheckOutcome {
                status,
                covers,
                subject,
                issuer,
                self_signed,
                messages: if self_signed && status == "valid"@ {
                    messages.push(self_signed_warning())
                } else {
                    messages
                },
            }
        } else {
            CheckOutcome {
                status: "invalid"@,
                covers: false,
                subject: Seq::empty(),
                issuer: Seq::empty(),
                self_signed: false,
                messages: seq![outside_the_file()],
            }
        }
    } else {
        CheckOutcome {
            status: "unknown"@,
            covers: false,
            subject: Seq::empty(),
            issuer: Seq::empty(),
            self_signed: false,
            messages: if cms.len() == 0 {
                seq![unsigned_field()]
            } else {
                Seq::empty()
            },
        }
    }
}

/// What checking one signature found.
#[derive(Debug, Clone)]
pub struct SignatureCheck {
    /// `valid`, `modified`, `invalid` or `unknown`.
    pub status: String,
    pub covers_whole_document: bool,
    pub subject: String,
    pub issuer: String,
    pub self_signed: bool,
    pub messages: Vec<String>,
}

pub open spec fn texts(v: Seq<String>) -> Seq<Seq<char>> {
    v.map_values(|m: String| m@)
}

pub open spec fn check_matches(r: SignatureCheck, o: CheckOutcome) -> bool {
    &&& r.status@ == o.status
    &&& r.covers_whole_document == o.covers
    &&& r.subject@ == o.subject
    &&& r.issuer@ == o.issuer
    &&& r.self_signed == o.self_signed
    &&& texts(r.messages@) == o.messages
}

fn covered_bytes(bytes: &[u8], br: &[i64]) -> (r: Vec<u8>)
    requires
        ranges_inside(bytes@.len(), br@),
    ensures
        r@ == covered(bytes@, br@),
{
    assert(0 <= br@[0] <= bytes@.len() && 0 <= br@[1] <= bytes@.len());
    assert(0 <= br@[2] <= bytes@.len() && 0 <= br@[3] <= bytes@.len());
    assert(bytes@.len() == bytes.len());
    let a = br[0] as usize;
    let b = br[1] as usize;
    let c = br[2] as usize;
    let d = br[3] as usize;
    assert(a == br@[0] && b == br@[1] && c == br@[2] && d == br@[3]);
    let mut r: Vec<u8> = Vec::new();
    let ab = a + b;
    let cd = c + d;
    let mut k = a;
    while k < ab
        invariant
            a <= k <= ab <= bytes@.len(),
            ab == a + b,
            r@ == bytes@.subrange(a as int, k as int),
        decreases ab - k,
    {
        r.push(bytes[k]);
        assert(r@ =~= bytes@.subrange(a as int, k + 1));
        k = k + 1;
    }
    let ghost first = r@;
    let mut k = c;
    while k < cd
        invariant
            c <= k <= cd <= bytes@.len(),
            cd == c + d,
            r@ == first + bytes@.subrange(c as int, k as int),
        decreases cd - k,
    {
        r.push(bytes[k]);
        assert(r@ =~= first + bytes@.subrange(c as int, k + 1));
        k = k + 1;
    }
    r
}

fn one_message(m: &str) -> (r: Vec<String>)
    ensures
        texts(r@) == seq![m@],
{
    let r = vec![m.to_owned()];
    assert(texts(r@) =~= seq![m@]);
    r
}

// ---------- what a fresh signature is checked against ----------
proof fn lemma_hex_upper_at(b: Seq<u8>, i: int)
    requires
        0 <= i < b.len(),
    ensures
        hex_upper(b).len() == 2 * b.len(),
        hex_upper(b)[2 * i] == hex_digit_upper(b[i] as int / 16),
        hex_upper(b)[2 * i + 1] == hex_digit_upper(b[i] as int % 16),
    decreases b.len(),
{
    lemma_hex_len(b);
    lemma_hex_len(b.drop_last());
    if i < b.len() - 1 {
        lemma_hex_upper_at(b.drop_last(), i);
    }
}

proof fn lemma_hex_digit_upper(v: int)
    requires
        0 <= v < 16,
    ensures
        is_hex_digit(hex_digit_upper(v)),
        hex_value(hex_digit_upper(v)) == v,
        hex_digit_upper(v) != 62u8,
{
}

/// Text made of hexadecimal digits only reads as their values.
proof fn lemma_hex_digits_all(h: Seq<u8>)
    requires
        forall|i: int| 0 <= i < h.len() ==> is_hex_digit(#[trigger] h[i]),
    ensures
        hex_digits(h) == h.map_values(|c: u8| hex_value(c)),
    decreases h.len(),
{
    if h.len() > 0 {
        lemma_hex_digits_all(h.drop_last());
        assert(h.map_values(|c: u8| hex_value(c)) =~= h.drop_last().map_values(|c: u8| hex_value(c)).push(
            hex_value(h.last()),
        ));
    } else {
        assert(h.map_values(|c: u8| hex_value(c)) =~= Seq::<u8>::empty());
    }
}

proof fn lemma_pair_digits_at(d: Seq<u8>, i: int)
    requires
        0 <= i,
        2 * i < d.len(),
    ensures
        pair_digits(d).len() == (d.len() + 1) / 2,
        pair_digits(d)[i] == (if 2 * i + 1 < d.len() {
            (d[2 * i] * 16 + d[2 * i + 1]) as u8
        } else {
            (d[2 * i] * 16) as u8
        }),
    decreases d.len(),
{
    lemma_pair_digits_len(d);
    if i > 0 {
        lemma_pair_digits_at(d.skip(2), i - 1);
        assert(d.skip(2)[2 * (i - 1)] == d[2 * i]);
        if 2 * i + 1 < d.len() {
            assert(d.skip(2)[2 * (i - 1) + 1] == d[2 * i + 1]);
        }
    }
}

proof fn lemma_pair_digits_len(d: Seq<u8>)
    ensures
        pair_digits(d).len() == (d.len() + 1) / 2,
    decreases d.len(),
{
    if d.len() > 1 {
        lemma_pair_digits_len(d.skip(2));
    }
}

proof fn lemma_trim_padding(b: Seq<u8>, m: nat)
    ensures
        trim_zeros(b + repeat(0u8, m)) == trim_zeros(b),
    decreases m,
{
    if m == 0 {
        assert(b + repeat(0u8, 0) =~= b);
    } else {
        let t = b + repeat(0u8, m);
        assert(t.last() == 0);
        assert(t.drop_last() =~= b + repeat(0u8, (m - 1) as nat));
        lemma_trim_padding(b, (m - 1) as nat);
    }
}

/// Hexadecimal text padded with `0` digits reads back as the bytes written,
/// padded with zero bytes.
proof fn lemma_hex_round_trip(b: Seq<u8>, k: nat)
    ensures
        hex_decode_of(hex_upper(b) + repeat(48u8, k)) == b + repeat(0u8, (k + 1) / 2),
{
    let h = hex_upper(b) + repeat(48u8, k);
    lemma_hex_len(b);
    let n = b.len() as int;
    assert forall|i: int| 0 <= i < h.len() implies is_hex_digit(#[trigger] h[i]) by {
        if i < 2 * n {
            let j = i / 2;
            lemma_hex_upper_at(b, j);
            lemma_hex_digit_upper(b[j] as int / 16);
            lemma_hex_digit_upper(b[j] as int % 16);
            assert(i == 2 * j || i == 2 * j + 1);
        }
    }
    lemma_hex_digits_all(h);
    let d = h.map_values(|c: u8| hex_value(c));
    lemma_pair_digits_len(d);
    let want = b + repeat(0u8, (k + 1) / 2);
    assert forall|i: int| 0 <= i < want.len() implies pair_digits(d)[i] == want[i] by {
        lemma_pair_digits_at(d, i);
        if i < n {
            lemma_hex_upper_at(b, i);
            lemma_hex_digit_upper(b[i] as int / 16);
            lemma_hex_digit_upper(b[i] as int % 16);
            let x = b[i] as int;
            assert(x / 16 * 16 + x % 16 == x);
        }
    }
    assert(pair_digits(d) =~= want);
}

proof fn lemma_first_byte(hay: Seq<u8>, c: u8, k: nat, from: nat)
    requires
        from <= k < hay.len(),
        hay[k as int] == c,
        forall|j: int| from <= j < k ==> hay[j] != c,
    ensures
        first_from(hay, seq![c], from) == Some(k),
    decreases k - from,
{
    if from < k {
        assert(!occurs_at(hay, seq![c], from as int)) by {
            if occurs_at(hay, seq![c], from as int) {
                assert(hay.subrange(from as int, from + 1int)[0] == hay[from as int]);
            }
        }
        lemma_first_byte(hay, c, k, from + 1);
    } else {
        assert(hay.subrange(k as int, k + 1int) =~= seq![c]);
    }
}

/// The `/ByteRange` that signing writes into a file of `len` bytes.
pub open spec fn written_byte_range(s: Slots, len: nat) -> Seq<i64> {
    seq![0i64, s.c_start as i64, s.c_end as i64, (len - s.c_end) as i64]
}

/// Patching the `/ByteRange` changes no byte outside its array.
proof fn lemma_patched_keeps_outside(out: Seq<u8>, s: Slots, p: int)
    requires
        s.br_open <= s.br_close < out.len(),
        patched(out, s) is Ok,
        0 <= p < out.len(),
        p < s.br_open || s.br_close < p,
    ensures
        patched(out, s)->Ok_0.len() == out.len(),
        patched(out, s)->Ok_0[p] == out[p],
{
    let o = patched(out, s)->Ok_0;
    assert(o.len() == out.len());
    if p < s.br_open {
        assert(o[p] == out.subrange(0, s.br_open as int)[p]);
    } else {
        assert(o[p] == out.subrange(s.br_close + 1int, out.len() as int)[p - s.br_close - 1]);
    }
}

/// Filling the `/Contents` string leaves the rest of the file as it was,
/// and the string reads back as the CMS written.
proof fn lemma_filled_reads_back(o: Seq<u8>, c_start: nat, c_end: nat, cms: Seq<u8>, stored: Seq<u8>)
    requires
        c_start + 2 <= c_end <= o.len(),
        o.len() <= i64::MAX,
        o[c_start as int] == 60u8,
        o[c_end - 1] == 62u8,
        filled(o, c_start, c_end, cms) is Ok,
    ensures
        ({
            let f = filled(o, c_start, c_end, cms)->Ok_0;
            let br = seq![0i64, c_start as i64, c_end as i64, (f.len() - c_end) as i64];
            &&& f.len() == o.len()
            &&& ranges_inside(f.len(), br)
            &&& br[0] == 0 && br[2] + br[3] == f.len()
            &&& covered(f, br) == signed_region(o, c_start, c_end)
            &&& trim_zeros(contents_of(f, br, stored)) == trim_zeros(cms)
        }),
{
    let hex = hex_upper(cms);
    lemma_hex_len(cms);
    let slot = (c_end - 1 - (c_start + 1)) as nat;
    let k = (slot - hex.len()) as nat;
    let pad = repeat(48u8, k);
    let f = filled(o, c_start, c_end, cms)->Ok_0;
    assert(f == o.subrange(0, c_start + 1int) + hex + pad + o.subrange(c_end - 1int, o.len() as int));
    assert(f.len() == o.len());
    let br = seq![0i64, c_start as i64, c_end as i64, (f.len() - c_end) as i64];
    assert(covered(f, br) =~= signed_region(o, c_start, c_end));
    let raw = f.subrange(c_start as int, c_end as int);
    assert(raw =~= seq![60u8] + (hex + pad) + seq![62u8]);
    lemma_first_byte(raw, 60u8, 0, 0);
    let a = raw.skip(1);
    assert(a =~= (hex + pad) + seq![62u8]);
    assert forall|j: int| 0 <= j < a.len() - 1 implies a[j] != 62u8 by {
        if j < hex.len() {
            let q = j / 2;
            lemma_hex_upper_at(cms, q);
            lemma_hex_digit_upper(cms[q] as int / 16);
            lemma_hex_digit_upper(cms[q] as int % 16);
            assert(j == 2 * q || j == 2 * q + 1);
        }
    }
    lemma_first_byte(a, 62u8, (a.len() - 1) as nat, 0);
    assert(a.take(a.len() - 1) =~= hex + pad);
    assert(gap_hex(raw) == hex + pad);
    lemma_hex_round_trip(cms, k);
    lemma_trim_padding(cms, (k + 1) / 2);
}

/// A fresh signature is checked against exactly what was signed: the
/// `/ByteRange` written covers the whole file but the `/Contents` string,
/// its two ranges hold the bytes that were signed, and the `/Contents` gap
/// gives back the CMS made over them (up to the zero padding of the
/// reserved space). It holds whenever neither delimiter of the `/Contents`
/// string lies inside the `/ByteRange` array.
pub proof fn lemma_fresh_signature_covers_what_was_signed(
    out: Seq<u8>,
    base: nat,
    num: nat,
    generation: nat,
    key: SigningKey,
    reason: Option<Seq<char>>,
    location: Option<Seq<char>>,
    contact: Option<Seq<char>>,
    stored: Seq<u8>,
)
    requires
        base <= out.len(),
        out.len() <= i64::MAX,
        finished(out, base, num, generation, key, reason, location, contact) is Ok,
        ({
            let s = locate_slots(out, base, num, generation)->Ok_0;
            &&& !(s.br_open <= s.c_start <= s.br_close)
            &&& !(s.br_open <= s.c_end - 1 <= s.br_close)
        }),
    ensures
        ({
            let f = finished(out, base, num, generation, key, reason, location, contact)->Ok_0;
            let s = locate_slots(out, base, num, generation)->Ok_0;
            let data = signed_region(patched(out, s)->Ok_0, s.c_start, s.c_end);
            let cms = detached_cms(
                key.certificate@,
                key.private_key@,
                reason,
                location,
                contact,
                data,
            )->Ok_0;
            let br = written_byte_range(s, f.len());
            &&& ranges_inside(f.len(), br)
            &&& br[0] == 0 && br[2] + br[3] == f.len()
            &&& covered(f, br) == data
            &&& trim_zeros(contents_of(f, br, stored)) == trim_zeros(cms)
        }),
{
    let s = locate_slots(out, base, num, generation)->Ok_0;
    lemma_slots_in_bounds(out, base, num, generation);
    let o = patched(out, s)->Ok_0;
    lemma_patched_keeps_outside(out, s, s.c_start as int);
    lemma_patched_keeps_outside(out, s, s.c_end - 1);
    let data = signed_region(o, s.c_start, s.c_end);
    let cms = detached_cms(key.certificate@, key.private_key@, reason, location, contact, data)->Ok_0;
    lemma_filled_reads_back(o, s.c_start, s.c_end, cms, stored);
}

/// Appending to a signed file, as a later signature or any incremental
/// update does, leaves an earlier signature that was valid over the whole
/// file cryptographically valid: it is then reported as `modified`, no
/// longer covering the whole file, with the same signer.
pub proof fn lemma_appending_keeps_signatures(old: Seq<u8>, more: Seq<u8>, br: Seq<i64>, stored: Seq<u8>)
    requires
        check_of(old, br, stored).status == "valid"@,
        more.len() > 0,
    ensures
        check_of(old + more, br, stored).status == "modified"@,
        !check_of(old + more, br, stored).covers,
        check_of(old + more, br, stored).subject == check_of(old, br, stored).subject,
        check_of(old + more, br, stored).issuer == check_of(old, br, stored).issuer,
        check_of(old + more, br, stored).messages == seq![changed_after_signing()],
{
    reveal_strlit("valid");
    reveal_strlit("modified");
    reveal_strlit("invalid");
    reveal_strlit("unknown");
    let new = old + more;
    assert("invalid"@.len() != "valid"@.len());
    assert("unknown"@.len() != "valid"@.len());
    assert("modified"@.len() != "valid"@.len());
    assert(br.len() == 4);
    assert(ranges_inside(old.len(), br));
    let gs = br[0] + br[1];
    let ge = br[2] as int;
    if 0 <= gs && gs < ge && ge <= old.len() {
        assert(new.subrange(gs, ge) =~= old.subrange(gs, ge));
    }
    assert(contents_of(new, br, stored) == contents_of(old, br, stored));
    assert(covered(new, br) =~= covered(old, br));
    assert(br[0] == 0 && br[2] + br[3] == old.len());
    assert("modified"@ != "valid"@);
}


/// Check one signature of the file `bytes`; `br` holds its `/ByteRange`
/// numbers and `stored` the `/Contents` string of its dictionary.
pub fn check_signature(bytes: &[u8], br: &[i64], stored: &[u8]) -> (r: SignatureCheck)
    ensures
        check_matches(r, check_of(bytes@, br@, stored@)),
{
    let contents = signature_contents(bytes, br, stored);
    let cms = strip_trailing_zeros(contents.as_slice());
    let len = bytes.len();
    if br.len() == 4 && cms.len() > 0 {
        let inside = br[0] >= 0 && br[1] >= 0 && br[2] >= 0 && br[3] >= 0 && (br[0] as i128
            + br[1] as i128) <= len as i128 && (br[2] as i128 + br[3] as i128) <= len as i128 && (
        br[0] as i128 + br[1] as i128) <= br[2] as i128;
        if !inside {
            return SignatureCheck {
                status: "invalid".to_owned(),
                covers_whole_document: false,
                subject: String::new(),
                issuer: String::new(),
                self_signed: false,
                messages: one_message("ByteRange points outside the file."),
            };
        }
        let covers = br[0] == 0 && (br[2] as i128 + br[3] as i128) == len as i128;
        let signed = covered_bytes(bytes, br);
        let (status, mut messages): (String, Vec<String>) = match verify_detached(
            cms.as_slice(),
            signed.as_slice(),
        ) {
            Verdict::Valid => {
                if covers {
                    let m: Vec<String> = Vec::new();
                    assert(texts(m@) =~= Seq::<Seq<char>>::empty());
                    ("valid".to_owned(), m)
                } else {
                    (
                        "modified".to_owned(),
                        one_message("The document was changed after this signature was applied."),
                    )
                }
            },
            Verdict::Invalid => (
                "invalid".to_owned(),
                one_message("The signed bytes do not match the signature."),
            ),
            Verdict::Unknown => (
                "unknown".to_owned(),
                one_message("Signature algorithm is not supported for verification."),
            ),
            Verdict::Unreadable(e) => {
                let mut t = chars_of("Could not parse signature: ");
                push_str(&mut t, e.as_str());
                let m = vec![string_of(t.as_slice())];
                assert(texts(m@) =~= seq!["Could not parse signature: "@ + e@]);
                ("unknown".to_owned(), m)
            },
        };
        let (subject, issuer, self_signed) = match extract_signer(cms.as_slice()) {
            Ok(der) => match describe_certificate(der.as_slice()) {
                Ok(info) => (info.subject, info.issuer, info.self_signed),
                Err(_) => (String::new(), String::new(), false),
            },
            Err(_) => (String::new(), String::new(), false),
        };
        proof {
            reveal_strlit("valid");
            reveal_strlit("modified");
            reveal_strlit("invalid");
            reveal_strlit("unknown");
        }
        let is_valid = crate::text::chars_eq(
            chars_of(status.as_str()).as_slice(),
            chars_of("valid").as_slice(),
        );
        if self_signed && is_valid {
            let ghost before = messages@;
            messages.push(
                "Signed with a self-signed certificate; identity is not vouched for by a certificate authority.".to_owned(),
            );
            assert(texts(messages@) =~= texts(before).push(self_signed_warning()));
        }
        return SignatureCheck {
            status,
            covers_whole_document: covers,
            subject,
            issuer,
            self_signed,
            messages,
        };
    }
    let messages = if cms.len() == 0 {
        one_message("Unsigned signature field.")
    } else {
        let m: Vec<String> = Vec::new();
        assert(texts(m@) =~= Seq::<Seq<char>>::empty());
        m
    };
    SignatureCheck {
        status: "unknown".to_owned(),
        covers_whole_document: false,
        subject: String::new(),
        issuer: String::new(),
        self_signed: false,
        messages,
    }
}

// ---------- dates ----------
/// Gregorian leap years.
pub open spec fn is_leap(y: int) -> bool {
    y % 4 == 0 && (y % 100 != 0 || y % 400 == 0)
}

pub open spec fn days_in_month(y: int, m: int) -> int {
    if m == 2 {
        if is_leap(y) {
            29
        } else {
            28
        }
    } else if m == 4 || m == 6 || m == 9 || m == 11 {
        30
    } else {
        31
    }
}

/// Days of year `y` before the first of month `m`.
pub open spec fn days_before_month(y: int, m: int) -> int {
    let common: int = if m <= 1 {
        0
    } else if m == 2 {
        31
    } else if m == 3 {
        59
    } else if m == 4 {
        90
    } else if m == 5 {
        120
    } else if m == 6 {
        151
    } else if m == 7 {
        181
    } else if m == 8 {
        212
    } else if m == 9 {
        243
    } else if m == 10 {
        273
    } else if m == 11 {
        304
    } else {
        334
    };
    common + if m > 2 && is_leap(y) {
        1int
    } else {
        0int
    }
}

/// Days from 0001-01-01 to the first of January of year `y` (proleptic
/// Gregorian calendar).
pub open spec fn days_before_year(y: int) -> int {
    let p = y - 1;
    365 * p + p / 4 - p / 100 + p / 400
}

/// Days from 1970-01-01 to `y-m-d`.
pub open spec fn days_since_epoch(y: int, m: int, d: int) -> int {
    days_before_year(y) + days_before_month(y, m) + d - 1 - days_before_year(1970)
}

/// Days from the start of a 400-year cycle to the start of its year `k`.
pub open spec fn cycle_start(k: int) -> int {
    365 * k + k / 4 - k / 100 + k / 400
}

pub open spec fn cycle_year_len(k: int) -> int {
    if is_leap(k + 1) {
        366
    } else {
        365
    }
}

proof fn lemma_cycle_step(k: int)
    requires
        0 <= k < 400,
    ensures
        cycle_start(k + 1) == cycle_start(k) + cycle_year_len(k),
{
    assert(k == 4 * (k / 4) + k % 4);
    assert(k + 1 == 4 * ((k + 1) / 4) + (k + 1) % 4);
    assert(k == 100 * (k / 100) + k % 100);
    assert(k + 1 == 100 * ((k + 1) / 100) + (k + 1) % 100);
    assert(k / 400 == 0);
    assert((k + 1) / 400 == if k == 399 {
        1int
    } else {
        0
    });
}

/// The first of January of year `400 * era + k + 1` starts `cycle_start(k)`
/// days into the cycle, and the year has the cycle year's leap status.
proof fn lemma_cycle_year(era: int, k: int)
    requires
        0 <= era,
        0 <= k < 400,
    ensures
        days_before_year(400 * era + k + 1) == 146097 * era + cycle_start(k),
        is_leap(400 * era + k + 1) == is_leap(k + 1),
{
    let p = 400 * era + k;
    vstd::arithmetic::div_mod::lemma_fundamental_div_mod(k, 4);
    vstd::arithmetic::div_mod::lemma_fundamental_div_mod(k, 100);
    vstd::arithmetic::div_mod::lemma_fundamental_div_mod(k, 400);
    vstd::arithmetic::div_mod::lemma_fundamental_div_mod_converse(
        p,
        4,
        100 * era + k / 4,
        k % 4,
    );
    vstd::arithmetic::div_mod::lemma_fundamental_div_mod_converse(
        p,
        100,
        4 * era + k / 100,
        k % 100,
    );
    vstd::arithmetic::div_mod::lemma_fundamental_div_mod_converse(p, 400, era, k);
    let y = p + 1;
    vstd::arithmetic::div_mod::lemma_mod_multiples_vanish(100 * era, k + 1, 4);
    vstd::arithmetic::div_mod::lemma_mod_multiples_vanish(4 * era, k + 1, 100);
    vstd::arithmetic::div_mod::lemma_mod_multiples_vanish(era, k + 1, 400);
    assert(4 * (100 * era) + (k + 1) == y);
    assert(100 * (4 * era) + (k + 1) == y);
    assert(400 * era + (k + 1) == y);
}

fn is_leap_year(y: u64) -> (b: bool)
    ensures
        b == is_leap(y as int),
{
    y % 4 == 0 && (y % 100 != 0 || y % 400 == 0)
}

fn cycle_len(k: u64) -> (r: u64)
    requires
        k < 400,
    ensures
        r == cycle_year_len(k as int),
{
    if is_leap_year(k + 1) {
        366
    } else {
        365
    }
}

fn month_len(y: u64, m: u64) -> (r: u64)
    requires
        1 <= m <= 12,
    ensures
        r == days_in_month(y as int, m as int),
{
    if m == 2 {
        if is_leap_year(y) {
            29
        } else {
            28
        }
    } else if m == 4 || m == 6 || m == 9 || m == 11 {
        30
    } else {
        31
    }
}

/// The UTC date and time `secs` seconds after the Unix epoch, as (year,
/// month, day, hour, minute, second).
pub fn civil_from_unix(secs: u64) -> (r: (i64, u32, u32, u32, u32, u32))
    ensures
        1 <= r.1 <= 12,
        1 <= r.2 <= days_in_month(r.0 as int, r.1 as int),
        days_since_epoch(r.0 as int, r.1 as int, r.2 as int) == secs / 86400,
        r.3 == (secs % 86400) / 3600,
        r.4 == ((secs % 86400) % 3600) / 60,
        r.5 == (secs % 86400) % 60,
        r.0 >= 1,
{
    let days = secs / 86400;
    let rem = secs % 86400;
    let dd = days + 719162;
    let era = dd / 146097;
    let r0 = dd % 146097;
    let mut r = r0;
    let mut k: u64 = 0;
    while r >= cycle_len(k)
        invariant
            k < 400,
            r0 < 146097,
            cycle_start(k as int) + r == r0,
        decreases 400 - k,
    {
        proof {
            lemma_cycle_step(k as int);
        }
        r = r - cycle_len(k);
        if k == 399 {
            proof {
                lemma_cycle_step(399);
                assert(cycle_start(400) == 146097);
            }
        }
        k = k + 1;
    }
    proof {
        lemma_cycle_year(era as int, k as int);
    }
    let year: u64 = era * 400 + k + 1;
    let ghost ry = r;
    let mut m: u64 = 1;
    while r >= month_len(year, m)
        invariant
            1 <= m <= 12,
            ry < cycle_year_len(k as int),
            is_leap(year as int) == is_leap(k + 1),
            days_before_month(year as int, m as int) + r == ry,
        decreases 12 - m,
    {
        r = r - month_len(year, m);
        if m == 12 {
            assert(false);
        }
        m = m + 1;
    }
    proof {
        assert(days_before_year(1970) == 719162);
        vstd::arithmetic::div_mod::lemma_fundamental_div_mod(dd as int, 146097);
    }
    (year as i64, m as u32, (r + 1) as u32, (rem / 3600) as u32, ((rem % 3600) / 60) as u32, (rem
        % 60) as u32)
}

/// `D:YYYYMMDDHHmmSSZ`, the PDF date in UTC of the instant `secs` seconds
/// after the Unix epoch.
pub open spec fn pdf_date_of(secs: nat) -> Seq<char> {
    let days = secs / 86400;
    let rem = secs % 86400;
    "D:"@ + zero_pad(decimal(civil_year(days)), 4) + zero_pad(decimal(civil_month(days)), 2)
        + zero_pad(decimal(civil_day(days)), 2) + zero_pad(decimal(rem / 3600), 2) + zero_pad(
        decimal((rem % 3600) / 60),
        2,
    ) + zero_pad(decimal(rem % 60), 2) + "Z"@
}

/// Whether `y-m-d` is a valid date `days` days after 1970-01-01.
pub open spec fn is_civil(days: int, y: int, m: int, d: int) -> bool {
    y >= 1 && 1 <= m <= 12 && 1 <= d <= days_in_month(y, m) && days_since_epoch(y, m, d) == days
}

/// The year, month and day `days` days after 1970-01-01.
pub open spec fn civil_of(days: nat) -> (nat, nat, nat) {
    choose|t: (nat, nat, nat)| is_civil(days as int, t.0 as int, t.1 as int, t.2 as int)
}

pub open spec fn civil_year(days: nat) -> nat {
    civil_of(days).0
}

pub open spec fn civil_month(days: nat) -> nat {
    civil_of(days).1
}

pub open spec fn civil_day(days: nat) -> nat {
    civil_of(days).2
}

fn two_digits(n: u64) -> (r: Vec<char>)
    ensures
        r@ == zero_pad(decimal(n as nat), 2),
{
    zero_pad_chars(decimal_chars(n).as_slice(), 2)
}

/// The length of year `y` in days.
pub open spec fn year_len(y: int) -> int {
    if is_leap(y) {
        366
    } else {
        365
    }
}

/// How a quotient by `k` grows from `p` to `p + 1`.
proof fn lemma_div_step(p: int, k: int)
    requires
        p >= 0,
        k > 0,
    ensures
        (p + 1) / k == p / k + (if (p + 1) % k == 0 {
            1int
        } else {
            0int
        }),
{
    let q = p / k;
    let r = p % k;
    assert(p == k * q + r && 0 <= r < k) by {
        vstd::arithmetic::div_mod::lemma_fundamental_div_mod(p, k);
    }
    assert(k * q == q * k) by (nonlinear_arith);
    assert((q + 1) * k == q * k + k) by (nonlinear_arith);
    if r + 1 == k {
        vstd::arithmetic::div_mod::lemma_fundamental_div_mod_converse(p + 1, k, q + 1, 0);
    } else {
        vstd::arithmetic::div_mod::lemma_fundamental_div_mod_converse(p + 1, k, q, r + 1);
    }
}

#[verifier::spinoff_prover]
#[verifier::rlimit(30)]
proof fn lemma_year_step(y: int)
    requires
        y >= 1,
    ensures
        days_before_year(y + 1) == days_before_year(y) + year_len(y),
{
    let p = y - 1;
    lemma_div_step(p, 4);
    lemma_div_step(p, 100);
    lemma_div_step(p, 400);
    assert(p + 1 == y);
    assert(days_before_year(y) == 365 * p + p / 4 - p / 100 + p / 400);
    assert(days_before_year(y + 1) == 365 * y + y / 4 - y / 100 + y / 400);
    assert(is_leap(y) == (y % 4 == 0 && (y % 100 != 0 || y % 400 == 0)));
}

proof fn lemma_years_apart(a: int, b: int)
    requires
        1 <= a < b,
    ensures
        days_before_year(a) + year_len(a) <= days_before_year(b),
    decreases b - a,
{
    lemma_year_step(a);
    if a + 1 < b {
        lemma_years_apart(a + 1, b);
        lemma_year_step(a + 1);
    }
}

proof fn lemma_months_apart(y: int, a: int, b: int)
    requires
        1 <= a < b <= 12,
    ensures
        days_before_month(y, a) + days_in_month(y, a) <= days_before_month(y, b),
{
}

proof fn lemma_day_in_year(y: int, m: int, d: int)
    requires
        1 <= m <= 12,
        1 <= d <= days_in_month(y, m),
    ensures
        0 <= days_before_month(y, m) + d - 1 < year_len(y),
{
}

/// A day count since 1970-01-01 names one date only: `civil_from_unix`
/// cannot give two answers for one instant.
pub proof fn lemma_civil_unique(days: int, y1: int, m1: int, d1: int, y2: int, m2: int, d2: int)
    requires
        is_civil(days, y1, m1, d1),
        is_civil(days, y2, m2, d2),
    ensures
        y1 == y2 && m1 == m2 && d1 == d2,
{
    lemma_day_in_year(y1, m1, d1);
    lemma_day_in_year(y2, m2, d2);
    if y1 < y2 {
        lemma_years_apart(y1, y2);
    } else if y2 < y1 {
        lemma_years_apart(y2, y1);
    } else if m1 < m2 {
        lemma_months_apart(y1, m1, m2);
    } else if m2 < m1 {
        lemma_months_apart(y1, m2, m1);
    }
}

/// The PDF date, `D:YYYYMMDDHHmmSSZ` in UTC, of the instant `secs` seconds
/// after the Unix epoch.
pub fn pdf_date(secs: u64) -> (r: String)
    ensures
        r@ == pdf_date_of(secs as nat),
{
    let (y, mo, d, h, mi, s) = civil_from_unix(secs);
    let ghost days = (secs / 86400) as nat;
    proof {
        let t = civil_of(days);
        assert(is_civil(days as int, y as int, mo as int, d as int));
        assert(is_civil(days as int, t.0 as int, t.1 as int, t.2 as int)) by {
            let w: (nat, nat, nat) = (y as nat, mo as nat, d as nat);
            assert(is_civil(days as int, w.0 as int, w.1 as int, w.2 as int));
        }
        lemma_civil_unique(days as int, y as int, mo as int, d as int, t.0 as int, t.1 as int, t.2 as int);
    }
    let mut out = chars_of("D:");
    push_all(&mut out, zero_pad_chars(decimal_chars(y as u64).as_slice(), 4).as_slice());
    push_all(&mut out, two_digits(mo as u64).as_slice());
    push_all(&mut out, two_digits(d as u64).as_slice());
    push_all(&mut out, two_digits(h as u64).as_slice());
    push_all(&mut out, two_digits(mi as u64).as_slice());
    push_all(&mut out, two_digits(s as u64).as_slice());
    out.push('Z');
    proof {
        reveal_strlit("Z");
    }
    string_of(out.as_slice())
}

/// How one character is written inside a PDF literal string of an
/// appearance stream: non-ASCII and control characters are dropped, and
/// backslashes and parentheses escaped.
pub open spec fn pdf_text_char(c: char) -> Seq<char> {
    if (c as u32) < 0x20 || (c as u32) >= 0x7f {
        Seq::empty()
    } else if c == '\\' || c == '(' || c == ')' {
        seq!['\\', c]
    } else {
        seq![c]
    }
}

pub open spec fn pdf_text(s: Seq<char>) -> Seq<char>
    decreases s.len(),
{
    if s.len() == 0 {
        Seq::empty()
    } else {
        pdf_text(s.drop_last()) + pdf_text_char(s.last())
    }
}

pub fn escape_pdf_text(s: &str) -> (r: String)
    ensures
        r@ == pdf_text(s@),
{
    let cs = chars_of(s);
    let mut out: Vec<char> = Vec::new();
    let mut i: usize = 0;
    assert(cs@.take(0) =~= Seq::<char>::empty());
    while i < cs.len()
        invariant
            i <= cs@.len(),
            out@ == pdf_text(cs@.take(i as int)),
        decreases cs.len() - i,
    {
        let c = cs[i];
        assert(cs@.take(i + 1).drop_last() =~= cs@.take(i as int));
        let ghost before = out@;
        let u = c as u32;
        if u >= 0x20 && u < 0x7f {
            if c == '\\' || c == '(' || c == ')' {
                out.push('\\');
            }
            out.push(c);
        }
        assert(out@ =~= before + pdf_text_char(c));
        i = i + 1;
    }
    assert(cs@.take(cs@.len() as int) =~= cs@);
    string_of(out.as_slice())
}

/// Whether an optional text is present and not blank.
pub open spec fn given(o: Option<Seq<char>>) -> bool {
    o is Some && trim(o->0).len() > 0
}

pub fn is_given(o: &Option<String>) -> (b: bool)
    ensures
        b == given(opt_view(*o)),
{
    match o {
        Some(t) => trim_vec(chars_of(t.as_str()).as_slice()).len() > 0,
        None => false,
    }
}

/// The small lines of a visible signature: when it was signed (the PDF date
/// without its `D:`), then the reason and the location when given.
pub open spec fn signature_lines_of(
    date: Seq<char>,
    reason: Option<Seq<char>>,
    location: Option<Seq<char>>,
) -> Seq<Seq<char>> {
    let first = seq!["Digitally signed "@ + date.skip(2)];
    let with_reason = if given(reason) {
        first.push("Reason: "@ + reason->0)
    } else {
        first
    };
    if given(location) {
        with_reason.push("Location: "@ + location->0)
    } else {
        with_reason
    }
}

fn prefixed(prefix: &str, t: &str) -> (r: String)
    ensures
        r@ == prefix@ + t@,
{
    let mut v = chars_of(prefix);
    push_str(&mut v, t);
    string_of(v.as_slice())
}

pub fn signature_lines(date: &str, reason: &Option<String>, location: &Option<String>) -> (r: Vec<
    String,
>)
    requires
        date@.len() >= 2,
    ensures
        texts(r@) == signature_lines_of(date@, opt_view(*reason), opt_view(*location)),
{
    let d = chars_of(date);
    let tail = slice_range(d.as_slice(), 2, d.len());
    assert(tail@ =~= date@.skip(2));
    let mut lines: Vec<String> = Vec::new();
    lines.push(prefixed("Digitally signed ", string_of(tail.as_slice()).as_str()));
    assert(texts(lines@) =~= seq!["Digitally signed "@ + date@.skip(2)]);
    if is_given(reason) {
        let ghost before = texts(lines@);
        match reason {
            Some(t) => lines.push(prefixed("Reason: ", t.as_str())),
            None => {},
        }
        assert(texts(lines@) =~= before.push("Reason: "@ + opt_view(*reason)->0));
    }
    if is_given(location) {
        let ghost before = texts(lines@);
        match location {
            Some(t) => lines.push(prefixed("Location: ", t.as_str())),
            None => {},
        }
        assert(texts(lines@) =~= before.push("Location: "@ + opt_view(*location)->0));
    }
    lines
}

/// `Sheaf-Signature-<n>`, where `n` is the time's nanoseconds below one
/// billion.
pub open spec fn signature_field_name_of(nanos: nat) -> Seq<char> {
    "Sheaf-Signature-"@ + decimal(nanos % 1_000_000_000)
}

pub fn signature_field_name(nanos: u128) -> (r: String)
    ensures
        r@ == signature_field_name_of(nanos as nat),
{
    let mut v = chars_of("Sheaf-Signature-");
    push_all(&mut v, decimal_chars_wide(nanos % 1_000_000_000).as_slice());
    string_of(v.as_slice())
}

// ---------- protecting ----------
/// Passwords and permissions for encrypting a document.
#[derive(Debug, Clone)]
pub struct SecuritySpec {
    /// Password needed to open. Empty means anyone can open.
    pub user_password: String,
    /// Password to change permissions. Empty defaults to the user password,
    /// or a random one if both are empty.
    pub owner_password: String,
    pub allow_print: bool,
    pub allow_print_high_quality: bool,
    pub allow_modify: bool,
    pub allow_copy: bool,
    pub allow_annotate: bool,
    pub allow_fill_forms: bool,
    pub allow_assemble: bool,
    pub allow_accessibility: bool,
}

/// The lower-case hexadecimal digits of `n`, without leading zeros.
pub open spec fn hex_lower(n: nat) -> Seq<char>
    decreases n,
{
    if n < 16 {
        seq![hex_lower_digit(n)]
    } else {
        hex_lower(n / 16).push(hex_lower_digit(n % 16))
    }
}

pub open spec fn hex_lower_digit(d: nat) -> char {
    if d < 10 {
        (48 + d) as char
    } else {
        (87 + d) as char
    }
}

fn hex_lower_chars(n: u128) -> (r: Vec<char>)
    ensures
        r@ == hex_lower(n as nat),
    decreases n,
{
    let d = (n % 16) as u8;
    let c = if d < 10 {
        (48 + d) as char
    } else {
        (87 + d) as char
    };
    if n < 16 {
        let r = vec![c];
        assert(r@ =~= hex_lower(n as nat));
        r
    } else {
        let mut r = hex_lower_chars(n / 16);
        r.push(c);
        r
    }
}

/// The owner password actually used: the one given, else the user
/// password, else 32 hex digits of the time in nanoseconds.
pub open spec fn owner_password_of(owner: Seq<char>, user: Seq<char>, nanos: nat) -> Seq<char> {
    if owner.len() > 0 {
        owner
    } else if user.len() > 0 {
        user
    } else {
        zero_pad(hex_lower(nanos), 32)
    }
}

pub fn owner_password(spec: &SecuritySpec, nanos: u128) -> (r: String)
    ensures
        r@ == owner_password_of(spec.owner_password@, spec.user_password@, nanos as nat),
{
    if chars_of(spec.owner_password.as_str()).len() > 0 {
        spec.owner_password.clone()
    } else if chars_of(spec.user_password.as_str()).len() > 0 {
        spec.user_password.clone()
    } else {
        string_of(zero_pad_chars(hex_lower_chars(nanos).as_slice(), 32).as_slice())
    }
}

/// The permission bits of the standard security handler (ISO 32000-1,
/// table 22) that `spec` grants: print 4, modify 8, copy 16, annotate 32,
/// fill forms 256, accessibility 512, assemble 1024, high-quality print
/// 2048.
pub open spec fn permission_bits_of(spec: SecuritySpec) -> u64 {
    ((if spec.allow_print {
        4int
    } else {
        0
    }) + (if spec.allow_modify {
        8int
    } else {
        0
    }) + (if spec.allow_copy {
        16int
    } else {
        0
    }) + (if spec.allow_annotate {
        32int
    } else {
        0
    }) + (if spec.allow_fill_forms {
        256int
    } else {
        0
    }) + (if spec.allow_accessibility {
        512int
    } else {
        0
    }) + (if spec.allow_assemble {
        1024int
    } else {
        0
    }) + (if spec.allow_print_high_quality {
        2048int
    } else {
        0
    })) as u64
}

pub fn permission_bits(spec: &SecuritySpec) -> (r: u64)
    ensures
        r == permission_bits_of(*spec),
{
    let mut bits: u64 = 0;
    if spec.allow_print {
        bits = bits + 4;
    }
    if spec.allow_modify {
        bits = bits + 8;
    }
    if spec.allow_copy {
        bits = bits + 16;
    }
    if spec.allow_annotate {
        bits = bits + 32;
    }
    if spec.allow_fill_forms {
        bits = bits + 256;
    }
    if spec.allow_accessibility {
        bits = bits + 512;
    }
    if spec.allow_assemble {
        bits = bits + 1024;
    }
    if spec.allow_print_high_quality {
        bits = bits + 2048;
    }
    bits
}

/// The password a document opens with once protected by `spec`: the user
/// password, or the owner password when there is no user password, or
/// none.
pub open spec fn reopen_password_of(user: Seq<char>, owner: Seq<char>) -> Option<Seq<char>> {
    if user.len() == 0 {
        if owner.len() == 0 {
            None
        } else {
            Some(owner)
        }
    } else {
        Some(user)
    }
}

pub fn reopen_password(spec: &SecuritySpec) -> (r: Option<String>)
    ensures
        opt_view(r) == reopen_password_of(spec.user_password@, spec.owner_password@),
{
    if chars_of(spec.user_password.as_str()).len() == 0 {
        if chars_of(spec.owner_password.as_str()).len() == 0 {
            None
        } else {
            Some(spec.owner_password.clone())
        }
    } else {
        Some(spec.user_password.clone())
    }
}


// ---------- listing signatures ----------
/// A `/Sig` field reachable from the AcroForm, as plain values read from
/// the field and from the signature dictionary that its `/V` holds.
#[derive(Debug, Clone)]
pub struct SignatureField {
    /// The field's `/T`, empty when it has none.
    pub field_name: String,
    /// The signature's `/Name`.
    pub name: Option<String>,
    /// The signature's `/M`.
    pub signed_at: Option<String>,
    /// The signature's `/Reason`.
    pub reason: Option<String>,
    /// The signature's `/Location`.
    pub location: Option<String>,
    /// The index of the page that the field's `/P` names.
    pub page: Option<u16>,
    /// The integers of the signature's `/ByteRange`.
    pub byte_range: Vec<i64>,
    /// The bytes of the signature's `/Contents`.
    pub contents: Vec<u8>,
    /// The signature's `/Reference` holds a DocMDP transform.
    pub declares_docmdp: bool,
    /// The object that the field's `/V` refers to, when it is a reference.
    pub value_ref: Option<(u32, u16)>,
}

/// What is reported of one signature.
#[derive(Debug, Clone)]
pub struct SignatureReport {
    pub field_name: String,
    pub signer: String,
    pub subject: String,
    pub issuer: String,
    pub self_signed: bool,
    pub signed_at: Option<String>,
    pub reason: Option<String>,
    pub location: Option<String>,
    pub page: Option<u16>,
    /// `valid`, `modified`, `invalid` or `unknown`.
    pub status: String,
    pub covers_whole_document: bool,
    pub locks_document: bool,
    pub messages: Vec<String>,
}

/// A signature locks the document when it declares a DocMDP transform, or
/// when the catalog's `/Perms /DocMDP` refers to it.
pub open spec fn locks_document(f: SignatureField, docmdp: Option<(u32, u16)>) -> bool {
    f.declares_docmdp || (docmdp is Some && docmdp == f.value_ref)
}

/// `r` reports the field `f`, whose check came out as `o`: the signer is
/// the `/Name` given, else the display name of the certificate's subject.
pub open spec fn report_of(
    r: SignatureReport,
    f: SignatureField,
    docmdp: Option<(u32, u16)>,
    o: CheckOutcome,
) -> bool {
    &&& r.field_name@ == f.field_name@
    &&& r.signer@ == (match f.name {
        Some(n) => n@,
        None => display_name_of(o.subject),
    })
    &&& r.subject@ == o.subject
    &&& r.issuer@ == o.issuer
    &&& r.self_signed == o.self_signed
    &&& opt_view(r.signed_at) == opt_view(f.signed_at)
    &&& opt_view(r.reason) == opt_view(f.reason)
    &&& opt_view(r.location) == opt_view(f.location)
    &&& r.page == f.page
    &&& r.status@ == o.status
    &&& r.covers_whole_document == o.covers
    &&& r.locks_document == locks_document(f, docmdp)
    &&& texts(r.messages@) == o.messages
}

/// Check one signature field of the file `bytes` and report it.
pub fn signature_report(bytes: &[u8], field: &SignatureField, docmdp: Option<(u32, u16)>) -> (r:
    SignatureReport)
    ensures
        report_of(r, *field, docmdp, check_of(bytes@, field.byte_range@, field.contents@)),
{
    let check = check_signature(bytes, field.byte_range.as_slice(), field.contents.as_slice());
    let signer = match &field.name {
        Some(n) => n.clone(),
        None => display_name(check.subject.as_str()),
    };
    let by_perms = match (docmdp, field.value_ref) {
        (Some(d), Some(v)) => d.0 == v.0 && d.1 == v.1,
        _ => false,
    };
    SignatureReport {
        field_name: field.field_name.clone(),
        signer,
        subject: check.subject,
        issuer: check.issuer,
        self_signed: check.self_signed,
        signed_at: copy_opt_string(&field.signed_at),
        reason: copy_opt_string(&field.reason),
        location: copy_opt_string(&field.location),
        page: field.page,
        status: check.status,
        covers_whole_document: check.covers_whole_document,
        locks_document: field.declares_docmdp || by_perms,
        messages: check.messages,
    }
}

// ---------- walking the AcroForm ----------
/// A dictionary object of the document, as the AcroForm walk reads it.
#[derive(Debug)]
pub struct FieldNode {
    /// The object's number and generation.
    pub id: (u32, u16),
    /// The entries of its `/Kids` array, each the object it refers to, or
    /// none for an entry that is not a reference.
    pub kids: Vec<Option<(u32, u16)>>,
    /// Its `/FT` name.
    pub field_type: Option<Vec<u8>>,
    /// The signature that its `/V` holds, when `/V` is, or refers to, a
    /// dictionary.
    pub signature: Option<SignatureField>,
}

/// The position of the first node of `table` with the id `r`, if any.
pub open spec fn node_index(table: Seq<FieldNode>, r: (u32, u16)) -> Option<int> {
    if exists|i: int| 0 <= i < table.len() && table[i].id == r && forall|k: int|
        0 <= k < i ==> table[k].id != r {
        Some(
            choose|i: int|
                0 <= i < table.len() && table[i].id == r && forall|k: int|
                    0 <= k < i ==> table[k].id != r,
        )
    } else {
        None
    }
}

/// The `/FT` value of a signature field.
pub open spec fn sig_name() -> Seq<u8> {
    seq![83u8, 105u8, 103u8]
}

/// A node is reported when it is a signature field whose `/V` holds a
/// signature dictionary.
pub open spec fn reported(n: FieldNode) -> bool {
    &&& n.field_type matches Some(t) && t@ == sig_name()
    &&& n.signature is Some
}

/// The number of nodes not yet visited.
pub open spec fn unseen(seen: Seq<bool>) -> nat
    decreases seen.len(),
{
    if seen.len() == 0 {
        0
    } else {
        unseen(seen.drop_last()) + if seen.last() {
            0nat
        } else {
            1nat
        }
    }
}

/// Marking a node that was not yet visited leaves one fewer to visit.
pub proof fn lemma_unseen_update(seen: Seq<bool>, i: int)
    requires
        0 <= i < seen.len(),
        !seen[i],
    ensures
        unseen(seen.update(i, true)) + 1 == unseen(seen),
    decreases seen.len(),
{
    if i < seen.len() - 1 {
        lemma_unseen_update(seen.drop_last(), i);
        assert(seen.update(i, true).drop_last() =~= seen.drop_last().update(i, true));
    } else {
        assert(seen.update(i, true).drop_last() =~= seen.drop_last());
    }
}

/// The nodes that the walk reports, in order, from the stack of references
/// `stack` with the nodes marked in `seen` already visited. The walk takes
/// the reference on top of the stack; one that is none, names no node, or
/// names a visited node is passed over; otherwise the node is marked
/// visited, its kids go onto the stack, and it is reported when it is a
/// signature field with a signature.
pub open spec fn walk(table: Seq<FieldNode>, stack: Seq<Option<(u32, u16)>>, seen: Seq<bool>) -> Seq<
    int,
>
    decreases unseen(seen), stack.len(),
{
    if stack.len() == 0 {
        Seq::empty()
    } else {
        let rest = stack.drop_last();
        match stack.last() {
            None => walk(table, rest, seen),
            Some(r) => match node_index(table, r) {
                None => walk(table, rest, seen),
                Some(i) => if i < 0 || i >= seen.len() || seen[i] {
                    walk(table, rest, seen)
                } else {
                    proof {
                        lemma_unseen_update(seen, i);
                    }
                    let here: Seq<int> = if reported(table[i]) {
                        seq![i]
                    } else {
                        Seq::empty()
                    };
                    here + walk(table, rest + table[i].kids@, seen.update(i, true))
                },
            },
        }
    }
}

/// The signature fields reachable from the AcroForm's `/Fields`, as
/// positions in `table`: the walk from `top` with nothing visited.
pub open spec fn reachable_signatures(table: Seq<FieldNode>, top: Seq<Option<(u32, u16)>>) -> Seq<
    int,
> {
    walk(table, top, Seq::new(table.len(), |i: int| false))
}

fn find_node(table: &[FieldNode], r: (u32, u16)) -> (found: Option<usize>)
    ensures
        match found {
            Some(i) => node_index(table@, r) == Some(i as int) && i < table@.len(),
            None => node_index(table@, r) is None,
        },
{
    let mut i: usize = 0;
    while i < table.len()
        invariant
            i <= table@.len(),
            forall|k: int| 0 <= k < i ==> table@[k].id != r,
        decreases table.len() - i,
    {
        if table[i].id.0 == r.0 && table[i].id.1 == r.1 {
            assert(table@[i as int].id == r);
            let ghost j = choose|j: int|
                0 <= j < table@.len() && table@[j].id == r && forall|k: int|
                    0 <= k < j ==> table@[k].id != r;
            assert(exists|j: int|
                0 <= j < table@.len() && table@[j].id == r && forall|k: int|
                    0 <= k < j ==> table@[k].id != r);
            proof {
                if j < i {
                    assert(table@[j].id != r);
                }
                if i < j {
                    assert(table@[i as int].id != r);
                }
            }
            return Some(i);
        }
        i = i + 1;
    }
    None
}

fn is_reported(n: &FieldNode) -> (b: bool)
    ensures
        b == reported(*n),
{
    let sig = vec![83u8, 105u8, 103u8];
    assert(sig@ =~= sig_name());
    match &n.field_type {
        Some(t) => bytes_eq(t.as_slice(), sig.as_slice()) && n.signature.is_some(),
        None => false,
    }
}

fn bytes_eq(a: &[u8], b: &[u8]) -> (r: bool)
    ensures
        r == (a@ == b@),
{
    if a.len() != b.len() {
        return false;
    }
    let mut i: usize = 0;
    while i < a.len()
        invariant
            a@.len() == b@.len(),
            i <= a@.len(),
            a@.take(i as int) == b@.take(i as int),
        decreases a.len() - i,
    {
        if a[i] != b[i] {
            return false;
        }
        assert(a@.take(i + 1) =~= a@.take(i as int).push(a@[i as int]));
        assert(b@.take(i + 1) =~= b@.take(i as int).push(b@[i as int]));
        i = i + 1;
    }
    assert(a@.take(a@.len() as int) =~= a@);
    assert(b@.take(b@.len() as int) =~= b@);
    true
}

pub open spec fn positions(v: Seq<usize>) -> Seq<int> {
    v.map_values(|i: usize| i as int)
}

/// The positions in `table` of the signature fields reachable from the
/// AcroForm's `/Fields` entries `top`, each once, in the order of the walk.
pub fn reachable_signature_nodes(top: &[Option<(u32, u16)>], table: &[FieldNode]) -> (r: Vec<
    usize,
>)
    ensures
        positions(r@) == reachable_signatures(table@, top@),
        forall|k: int| 0 <= k < r@.len() ==> #[trigger] r@[k] < table@.len(),
{
    let mut stack: Vec<Option<(u32, u16)>> = Vec::new();
    let mut j: usize = 0;
    while j < top.len()
        invariant
            j <= top@.len(),
            stack@ == top@.take(j as int),
        decreases top.len() - j,
    {
        stack.push(top[j]);
        assert(top@.take(j + 1) =~= top@.take(j as int).push(top@[j as int]));
        j = j + 1;
    }
    assert(top@.take(top@.len() as int) =~= top@);
    let mut seen: Vec<bool> = Vec::new();
    let mut n: usize = 0;
    while n < table.len()
        invariant
            n <= table@.len(),
            seen@ == Seq::new(n as nat, |i: int| false),
        decreases table.len() - n,
    {
        seen.push(false);
        assert(seen@ =~= Seq::new((n + 1) as nat, |i: int| false));
        n = n + 1;
    }
    let mut out: Vec<usize> = Vec::new();
    while stack.len() > 0
        invariant
            seen@.len() == table@.len(),
            positions(out@) + walk(table@, stack@, seen@) == reachable_signatures(table@, top@),
            forall|k: int| 0 <= k < out@.len() ==> #[trigger] out@[k] < table@.len(),
        decreases unseen(seen@), stack@.len(),
    {
        let ghost before_stack = stack@;
        let ghost before_seen = seen@;
        let ghost before_out = out@;
        let top_ref = match stack.pop() {
            Some(x) => x,
            None => None,
        };
        assert(stack@ == before_stack.drop_last());
        match top_ref {
            None => {},
            Some(r) => match find_node(table, r) {
                None => {},
                Some(i) => {
                    if !seen[i] {
                        proof {
                            lemma_unseen_update(before_seen, i as int);
                        }
                        seen.set(i, true);
                        let ghost rest = stack@;
                        let kids = &table[i].kids;
                        let mut k: usize = 0;
                        while k < kids.len()
                            invariant
                                k <= kids@.len(),
                                kids@ == table@[i as int].kids@,
                                stack@ == rest + kids@.take(k as int),
                            decreases kids.len() - k,
                        {
                            stack.push(kids[k]);
                            assert(kids@.take(k + 1) =~= kids@.take(k as int).push(kids@[k as int]));
                            k = k + 1;
                        }
                        assert(kids@.take(kids@.len() as int) =~= kids@);
                        if is_reported(&table[i]) {
                            out.push(i);
                            assert(positions(out@) =~= positions(before_out) + seq![i as int]);
                        }
                    }
                },
            },
        }
    }
    assert(positions(out@) + Seq::<int>::empty() =~= positions(out@));
    out
}

/// The signatures reachable from the AcroForm's `/Fields` entries `top`,
/// each checked against the file `bytes` and reported, with its position
/// in `table`, in the order of the walk. `docmdp` is the object that the
/// catalog's `/Perms /DocMDP` refers to.
pub fn reachable_signature_reports(
    bytes: &[u8],
    top: &[Option<(u32, u16)>],
    table: &[FieldNode],
    docmdp: Option<(u32, u16)>,
) -> (r: Vec<(usize, SignatureReport)>)
    ensures
        r@.len() == reachable_signatures(table@, top@).len(),
        forall|k: int|
            0 <= k < r@.len() ==> {
                let i = reachable_signatures(table@, top@)[k];
                let f = table@[i].signature->0;
                &&& #[trigger] r@[k].0 == i
                &&& 0 <= i < table@.len()
                &&& reported(table@[i])
                &&& report_of(r@[k].1, f, docmdp, check_of(bytes@, f.byte_range@, f.contents@))
            },
{
    let found = reachable_signature_nodes(top, table);
    proof {
        lemma_walk_reports(table@, top@, Seq::new(table@.len(), |i: int| false));
    }
    let mut out: Vec<(usize, SignatureReport)> = Vec::new();
    let mut k: usize = 0;
    while k < found.len()
        invariant
            k <= found@.len(),
            positions(found@) == reachable_signatures(table@, top@),
            forall|j: int| 0 <= j < found@.len() ==> #[trigger] found@[j] < table@.len(),
            forall|j: int|
                0 <= j < reachable_signatures(table@, top@).len() ==> reported(
                    table@[#[trigger] reachable_signatures(table@, top@)[j]],
                ),
            out@.len() == k,
            forall|j: int|
                0 <= j < k ==> {
                    let i = reachable_signatures(table@, top@)[j];
                    let f = table@[i].signature->0;
                    &&& #[trigger] out@[j].0 == i
                    &&& 0 <= i < table@.len()
                    &&& report_of(out@[j].1, f, docmdp, check_of(bytes@, f.byte_range@, f.contents@))
                },
        decreases found.len() - k,
    {
        let i = found[k];
        assert(positions(found@)[k as int] == i as int);
        assert(reported(table@[i as int]));
        let f = match &table[i].signature {
            Some(f) => f,
            None => {
                return out;
            },
        };
        out.push((i, signature_report(bytes, f, docmdp)));
        k = k + 1;
    }
    out
}

proof fn lemma_walk_reports(table: Seq<FieldNode>, stack: Seq<Option<(u32, u16)>>, seen: Seq<bool>)
    ensures
        forall|j: int|
            0 <= j < walk(table, stack, seen).len() ==> {
                let i = #[trigger] walk(table, stack, seen)[j];
                0 <= i < table.len() && reported(table[i])
            },
    decreases unseen(seen), stack.len(),
{
    if stack.len() > 0 {
        let rest = stack.drop_last();
        let w = walk(table, stack, seen);
        match stack.last() {
            None => {
                assert(w == walk(table, rest, seen));
                lemma_walk_reports(table, rest, seen);
            },
            Some(r) => match node_index(table, r) {
                None => {
                    assert(w == walk(table, rest, seen));
                    lemma_walk_reports(table, rest, seen);
                },
                Some(i) => if i < 0 || i >= seen.len() || seen[i] {
                    assert(w == walk(table, rest, seen));
                    lemma_walk_reports(table, rest, seen);
                } else {
                    lemma_unseen_update(seen, i);
                    let next = seen.update(i, true);
                    let more = rest + table[i].kids@;
                    lemma_walk_reports(table, more, next);
                    let w2 = walk(table, more, next);
                    let here: Seq<int> = if reported(table[i]) {
                        seq![i]
                    } else {
                        Seq::empty()
                    };
                    assert(w == here + w2);
                    assert(0 <= i < table.len());
                    assert forall|j: int| 0 <= j < w.len() implies {
                        let x = #[trigger] w[j];
                        0 <= x < table.len() && reported(table[x])
                    } by {
                        if j < here.len() {
                            assert(w[j] == i);
                        } else {
                            assert(w[j] == w2[j - here.len()]);
                        }
                    }
                },
            },
        }
    }
}

// ---------- rewriting with lopdf ----------
#[verifier::external_type_specification]
#[verifier::external_body]
pub struct ExPdfDocument(lopdf::Document);

/// Whether the document that `bytes` hold is encrypted, once they parse.
pub uninterp spec fn pdf_encrypted(bytes: Seq<u8>) -> bool;

/// Why lopdf cannot load `bytes` with the password given, if it cannot.
pub uninterp spec fn pdf_load_error(bytes: Seq<u8>, password: Option<Seq<char>>) -> Option<
    Seq<char>,
>;

/// `lopdf::Document::load_mem` and then `Document::is_encrypted`: the
/// parse error's text, or whether the trailer names an encryption
/// dictionary. `load_mem` is loading with no password.
#[verifier::external_body]
fn probe_encryption(bytes: &[u8]) -> (r: Result<bool, String>)
    ensures
        match r {
            Ok(b) => pdf_load_error(bytes@, None) is None && b == pdf_encrypted(bytes@),
            Err(m) => pdf_load_error(bytes@, None) == Some(m@),
        },
{
    match lopdf::Document::load_mem(bytes) {
        Ok(doc) => Ok(doc.is_encrypted()),
        Err(e) => Err(e.to_string()),
    }
}

/// `lopdf::Document::load_mem_with_options`, with the password given, if
/// any, as the only option set: the loaded document, or the error's text.
#[verifier::external_body]
fn load_pdf(bytes: &[u8], password: Option<&str>) -> (r: Result<lopdf::Document, String>)
    ensures
        match r {
            Ok(_) => pdf_load_error(bytes@, opt_str_chars(password)) is None,
            Err(m) => pdf_load_error(bytes@, opt_str_chars(password)) == Some(m@),
        },
{
    let options = lopdf::LoadOptions {
        password: password.map(|p| p.to_string()),
        ..Default::default()
    };
    lopdf::Document::load_mem_with_options(bytes, options).map_err(|e| e.to_string())
}

/// Clears lopdf's `Document::encryption_state`, so that saving writes the
/// objects as they are.
#[verifier::external_body]
fn drop_encryption_state(doc: &mut lopdf::Document) {
    doc.encryption_state = None;
}

/// Removes `/Encrypt` from the trailer with `Dictionary::remove`.
#[verifier::external_body]
fn remove_encrypt_entry(doc: &mut lopdf::Document) {
    doc.trailer.remove(b"Encrypt");
}

/// The `Document::version` field: the version in the file's header.
#[verifier::external_body]
fn pdf_version(doc: &lopdf::Document) -> String {
    doc.version.clone()
}

/// Sets the `Document::version` field.
#[verifier::external_body]
fn set_pdf_version(doc: &mut lopdf::Document, version: &str) {
    doc.version = version.to_string();
}

/// A step of AES-256 encryption that failed.
#[derive(Debug, Clone, PartialEq, Eq)]
pub enum EncryptFault {
    /// `EncryptionState::try_from` refused the settings.
    Settings(String),
    /// `Document::encrypt` failed.
    Objects(String),
}

/// lopdf's AES-256 (V5, R6) standard security handler, `StdCF` for strings
/// and streams and metadata encrypted, built by `EncryptionState::try_from`
/// from the file key, the passwords and the permission bits (unknown bits
/// dropped by `Permissions::from_bits_truncate`), then applied with
/// `Document::encrypt`. lopdf draws random salts and IVs, so nothing is
/// stated of the result.
#[verifier::external_body]
fn encrypt_aes256(
    doc: &mut lopdf::Document,
    key: &[u8; 32],
    owner: &str,
    user: &str,
    permissions: u64,
) -> (r: Result<(), EncryptFault>) {
    let cf: std::sync::Arc<dyn CryptFilter> = std::sync::Arc::new(Aes256CryptFilter);
    let state = lopdf::EncryptionState::try_from(lopdf::EncryptionVersion::V5 {
        encrypt_metadata: true,
        crypt_filters: std::collections::BTreeMap::from([(b"StdCF".to_vec(), cf)]),
        file_encryption_key: key,
        stream_filter: b"StdCF".to_vec(),
        string_filter: b"StdCF".to_vec(),
        owner_password: owner,
        user_password: user,
        permissions: lopdf::Permissions::from_bits_truncate(permissions),
    }).map_err(|e| EncryptFault::Settings(e.to_string()))?;
    doc.encrypt(&state).map_err(|e| EncryptFault::Objects(e.to_string()))
}

/// `Document::save_to` into a fresh buffer: the file written, or the
/// error's text.
#[verifier::external_body]
fn save_pdf(doc: &mut lopdf::Document) -> (r: Result<Vec<u8>, String>) {
    let mut out = Vec::new();
    doc.save_to(&mut out).map(|_| out).map_err(|e| e.to_string())
}

/// `a` sorts before `b`, character by character.
pub open spec fn text_before(a: Seq<char>, b: Seq<char>) -> bool
    decreases a.len(),
{
    if a.len() == 0 {
        b.len() > 0
    } else if b.len() == 0 {
        false
    } else if a[0] != b[0] {
        a[0] < b[0]
    } else {
        text_before(a.skip(1), b.skip(1))
    }
}

fn text_before_chars(a: &[char], b: &[char]) -> (r: bool)
    ensures
        r == text_before(a@, b@),
{
    let mut i: usize = 0;
    assert(a@.skip(0) =~= a@);
    assert(b@.skip(0) =~= b@);
    while i < a.len() && i < b.len()
        invariant
            i <= a@.len(),
            i <= b@.len(),
            a@.take(i as int) == b@.take(i as int),
            text_before(a@, b@) == text_before(a@.skip(i as int), b@.skip(i as int)),
        decreases a.len() - i,
    {
        if a[i] != b[i] {
            assert(a@.skip(i as int)[0] == a@[i as int]);
            assert(b@.skip(i as int)[0] == b@[i as int]);
            return a[i] < b[i];
        }
        assert(a@.take(i + 1) =~= a@.take(i as int).push(a@[i as int]));
        assert(b@.take(i + 1) =~= b@.take(i as int).push(b@[i as int]));
        assert(a@.skip(i as int).skip(1) =~= a@.skip(i + 1));
        assert(b@.skip(i as int).skip(1) =~= b@.skip(i + 1));
        i = i + 1;
    }
    i < b.len() && i == a.len()
}

proof fn lemma_prefix_of_concat(p: Seq<char>, m: Seq<char>)
    ensures
        is_prefix(p, p + m),
{
    assert((p + m).subrange(0, p.len() as int) =~= p);
}

/// The password a document is loaded with: the one given, or the empty
/// one, when it is encrypted; none when it is not.
pub open spec fn load_password(encrypted: bool, given: Option<Seq<char>>) -> Option<Seq<char>> {
    if encrypted {
        Some(
            match given {
                Some(p) => p,
                None => Seq::empty(),
            },
        )
    } else {
        None
    }
}

/// What loading `bytes` as the input of a rewrite gives: the parse error
/// when they do not parse, the document's own load error otherwise.
pub open spec fn load_fault(bytes: Seq<u8>, given: Option<Seq<char>>) -> Option<Fault> {
    match pdf_load_error(bytes, None) {
        Some(m) => Some(Fault::Pdf("parse: "@ + m)),
        None => if pdf_encrypted(bytes) {
            match pdf_load_error(bytes, load_password(true, given)) {
                Some(m) => Some(document_fault(m)),
                None => None,
            }
        } else {
            None
        },
    }
}

/// Parse `bytes`, decrypting when needed. An encrypted document is loaded
/// with the password up front (the empty one when none is given); one that
/// is not is loaded as it is.
pub fn load_doc(bytes: &[u8], password: Option<&str>) -> (r: Result<lopdf::Document, SheafError>)
    ensures
        match load_fault(bytes@, opt_str_chars(password)) {
            Some(f) => r matches Err(e) && error_is(e, f),
            None => r is Ok,
        },
{
    let encrypted = match probe_encryption(bytes) {
        Ok(b) => b,
        Err(m) => return Err(pdf_with("parse: ", m.as_str())),
    };
    if !encrypted {
        return match load_pdf(bytes, None) {
            Ok(d) => Ok(d),
            Err(m) => Err(pdf_with("parse: ", m.as_str())),
        };
    }
    let pw = match password {
        Some(p) => p,
        None => "",
    };
    proof {
        reveal_strlit("");
        assert(opt_str_chars(Some(pw)) == load_password(true, opt_str_chars(password)));
    }
    match load_pdf(bytes, Some(pw)) {
        Ok(d) => Ok(d),
        Err(m) => Err(document_error(m.as_str())),
    }
}

/// The lowest header version that AES-256 encryption is written under.
pub open spec fn aes256_version() -> Seq<char> {
    seq!['1', '.', '7']
}

/// Encrypt a document with AES-256 (V5, R6) under the user password of
/// `spec`, the owner password that `owner_password` picks for it at time
/// `nanos`, the permission bits that `spec` grants and the file key `key`,
/// and write it out in full: an earlier incremental update, and so any
/// signature, does not survive. `current_password` opens an encrypted
/// input.
pub fn protect(
    bytes: &[u8],
    current_password: Option<&str>,
    spec: &SecuritySpec,
    nanos: u128,
    key: &[u8; 32],
) -> (r: Result<Vec<u8>, SheafError>)
    ensures
        match load_fault(bytes@, opt_str_chars(current_password)) {
            Some(f) => r matches Err(e) && error_is(e, f),
            None => r is Ok || (r matches Err(SheafError::Pdf(m)) && (is_prefix(
                "encryption: "@,
                m@,
            ) || is_prefix("encrypt: "@, m@) || is_prefix("write: "@, m@))),
        },
{
    let mut doc = match load_doc(bytes, current_password) {
        Ok(d) => d,
        Err(e) => return Err(e),
    };
    drop_encryption_state(&mut doc);
    let owner = owner_password(spec, nanos);
    let permissions = permission_bits(spec);
    match encrypt_aes256(&mut doc, key, owner.as_str(), spec.user_password.as_str(), permissions) {
        Ok(()) => {},
        Err(EncryptFault::Settings(m)) => {
            proof {
                lemma_prefix_of_concat("encryption: "@, m@);
            }
            return Err(pdf_with("encryption: ", m.as_str()));
        },
        Err(EncryptFault::Objects(m)) => {
            proof {
                lemma_prefix_of_concat("encrypt: "@, m@);
            }
            return Err(pdf_with("encrypt: ", m.as_str()));
        },
    }
    let version = pdf_version(&doc);
    let target = vec!['1', '.', '7'];
    assert(target@ =~= aes256_version());
    if text_before_chars(chars_of(version.as_str()).as_slice(), target.as_slice()) {
        set_pdf_version(&mut doc, "1.7");
    }
    match save_pdf(&mut doc) {
        Ok(out) => Ok(out),
        Err(m) => {
            proof {
                lemma_prefix_of_concat("write: "@, m@);
            }
            Err(pdf_with("write: ", m.as_str()))
        },
    }
}

/// Remove encryption entirely. A document that is not encrypted comes back
/// byte for byte; an encrypted one is opened with `current_password` (the
/// empty one when none is given) and written out in full without its
/// encryption dictionary.
pub fn unprotect(bytes: &[u8], current_password: Option<&str>) -> (r: Result<Vec<u8>, SheafError>)
    ensures
        match load_fault(bytes@, opt_str_chars(current_password)) {
            Some(f) => r matches Err(e) && error_is(e, f),
            None => if pdf_encrypted(bytes@) {
                r is Ok || (r matches Err(SheafError::Pdf(m)) && is_prefix("write: "@, m@))
            } else {
                r matches Ok(v) && v@ == bytes@
            },
        },
{
    let encrypted = match probe_encryption(bytes) {
        Ok(b) => b,
        Err(m) => return Err(pdf_with("parse: ", m.as_str())),
    };
    if !encrypted {
        return Ok(copy_bytes(bytes));
    }
    let mut doc = match load_doc(bytes, current_password) {
        Ok(d) => d,
        Err(e) => return Err(e),
    };
    drop_encryption_state(&mut doc);
    remove_encrypt_entry(&mut doc);
    match save_pdf(&mut doc) {
        Ok(out) => Ok(out),
        Err(m) => {
            proof {
                lemma_prefix_of_concat("write: "@, m@);
            }
            Err(pdf_with("write: ", m.as_str()))
        },
    }
}


// ---------- appending a signature ----------
#[verifier::external_type_specification]
#[verifier::external_body]
pub struct ExPdfObject(lopdf::Object);

#[verifier::external_type_specification]
#[verifier::external_body]
pub struct ExPdfDictionary(lopdf::Dictionary);

#[verifier::external_type_specification]
#[verifier::external_body]
pub struct ExPdfUpdate(lopdf::IncrementalDocument);

/// `Document::get_pages`, looked up at the page number `number` (counted
/// from 1): the page object's id.
#[verifier::external_body]
fn page_object(doc: &lopdf::Document, number: u32) -> Option<(u32, u16)> {
    doc.get_pages().get(&number).copied()
}

/// The reference that the trailer's `/Root` holds, read with
/// `Dictionary::get` and `Object::as_reference`.
#[verifier::external_body]
fn root_reference(doc: &lopdf::Document) -> Option<(u32, u16)> {
    doc.trailer.get(b"Root").and_then(lopdf::Object::as_reference).ok()
}

/// `IncrementalDocument::create_from`: an empty update after the file
/// `bytes`, whose objects `prev` holds.
#[verifier::external_body]
fn start_update(bytes: &[u8], prev: lopdf::Document) -> lopdf::IncrementalDocument {
    lopdf::IncrementalDocument::create_from(bytes.to_vec(), prev)
}

/// `Document::add_object` on the update's new document: the new object's id.
#[verifier::external_body]
fn add_object(update: &mut lopdf::IncrementalDocument, object: lopdf::Object) -> (u32, u16) {
    update.new_document.add_object(object)
}

/// `Dictionary::new`.
#[verifier::external_body]
fn new_dictionary() -> lopdf::Dictionary {
    lopdf::Dictionary::new()
}

/// `Dictionary::set`.
#[verifier::external_body]
fn set_entry(dict: &mut lopdf::Dictionary, key: &str, value: lopdf::Object) {
    dict.set(key, value);
}

/// `Dictionary::get`, the value cloned.
#[verifier::external_body]
fn entry(dict: &lopdf::Dictionary, key: &str) -> Option<lopdf::Object> {
    dict.get(key.as_bytes()).ok().cloned()
}

/// `Dictionary::has`.
#[verifier::external_body]
fn has_entry(dict: &lopdf::Dictionary, key: &str) -> bool {
    dict.has(key.as_bytes())
}

/// The name object `/name`, as lopdf's `From<&str>` for `Object` makes it.
#[verifier::external_body]
fn name_object(name: &str) -> lopdf::Object {
    lopdf::Object::from(name)
}

/// `Object::string_literal`.
#[verifier::external_body]
fn text_object(text: &str) -> lopdf::Object {
    lopdf::Object::string_literal(text)
}

/// `Object::Integer`.
#[verifier::external_body]
fn integer_object(value: i64) -> lopdf::Object {
    lopdf::Object::Integer(value)
}

/// `Object::Reference`.
#[verifier::external_body]
fn reference_object(id: (u32, u16)) -> lopdf::Object {
    lopdf::Object::Reference(id)
}

/// `Object::Array`.
#[verifier::external_body]
fn array_object(items: Vec<lopdf::Object>) -> lopdf::Object {
    lopdf::Object::Array(items)
}

/// `Object::Dictionary`.
#[verifier::external_body]
fn dictionary_object(dict: lopdf::Dictionary) -> lopdf::Object {
    lopdf::Object::Dictionary(dict)
}

/// `Object::String` in hexadecimal form.
#[verifier::external_body]
fn hex_string_object(bytes: Vec<u8>) -> lopdf::Object {
    lopdf::Object::String(bytes, lopdf::StringFormat::Hexadecimal)
}

/// `Stream::new` with the dictionary and content given, kept uncompressed
/// with `Stream::with_compression(false)`.
#[verifier::external_body]
fn stream_object(dict: lopdf::Dictionary, content: Vec<u8>) -> lopdf::Object {
    lopdf::Object::Stream(lopdf::Stream::new(dict, content).with_compression(false))
}

/// Which variant of `lopdf::Object` a value is, for the variants the
/// update reads.
pub enum PdfKind {
    Array(Vec<lopdf::Object>),
    Reference((u32, u16)),
    Dictionary(lopdf::Dictionary),
    Other,
}

/// Tells the variants of a `lopdf::Object` apart.
#[verifier::external_body]
fn kind(object: lopdf::Object) -> PdfKind {
    match object {
        lopdf::Object::Array(a) => PdfKind::Array(a),
        lopdf::Object::Reference(r) => PdfKind::Reference(r),
        lopdf::Object::Dictionary(d) => PdfKind::Dictionary(d),
        _ => PdfKind::Other,
    }
}

/// `IncrementalDocument::opt_clone_object_to_new_document`.
#[verifier::external_body]
fn clone_to_update(update: &mut lopdf::IncrementalDocument, id: (u32, u16)) -> Result<(), String> {
    update.opt_clone_object_to_new_document(id).map_err(|e| e.to_string())
}

/// `Document::get_object` on the update's new document, cloned.
#[verifier::external_body]
fn updated_object(update: &lopdf::IncrementalDocument, id: (u32, u16)) -> Option<lopdf::Object> {
    update.new_document.get_object(id).ok().cloned()
}

/// `Document::get_object` on the documents before the update, cloned.
#[verifier::external_body]
fn previous_object(update: &lopdf::IncrementalDocument, id: (u32, u16)) -> Option<lopdf::Object> {
    update.get_prev_documents().get_object(id).ok().cloned()
}

/// `Document::get_dictionary` on the update's new document, cloned, or the
/// error's text.
#[verifier::external_body]
fn updated_dictionary(update: &lopdf::IncrementalDocument, id: (u32, u16)) -> Result<
    lopdf::Dictionary,
    String,
> {
    update.new_document.get_dictionary(id).cloned().map_err(|e| e.to_string())
}

/// `Document::get_dictionary_mut` on the update's new document and
/// `Dictionary::set` on it, or the error's text.
#[verifier::external_body]
fn set_in_update(
    update: &mut lopdf::IncrementalDocument,
    id: (u32, u16),
    key: &str,
    value: lopdf::Object,
) -> Result<(), String> {
    match update.new_document.get_dictionary_mut(id) {
        Ok(d) => {
            d.set(key, value);
            Ok(())
        },
        Err(e) => Err(e.to_string()),
    }
}

/// `IncrementalDocument::save_to` into a fresh buffer, or the error's text.
/// lopdf writes the previous file's bytes first and the new objects after
/// them; that the result starts with the original bytes is checked where
/// it is signed, not assumed here.
#[verifier::external_body]
fn save_update(update: &mut lopdf::IncrementalDocument) -> Result<Vec<u8>, String> {
    let mut out = Vec::new();
    update.save_to(&mut out).map(|_| out).map_err(|e| e.to_string())
}

/// The plain values of a signature to append: where and by whom, the
/// appearance's content stream, and whether it locks the document.
#[derive(Debug, Clone)]
pub struct SignatureUpdate {
    /// Index of the page the widget goes on.
    pub page: u16,
    /// The signer's name, written as `/Name`.
    pub signer: String,
    /// The signing time as a PDF date, written as `/M`.
    pub date: String,
    pub reason: Option<String>,
    pub location: Option<String>,
    pub contact: Option<String>,
    /// The widget field's `/T`.
    pub field_name: String,
    /// The appearance's content stream; empty for an invisible signature.
    pub appearance: Vec<u8>,
    /// Lock the document against further changes (DocMDP, P=1).
    pub lock: bool,
}

/// A dictionary with the one entry `key`.
fn single_entry(key: &str, value: lopdf::Object) -> lopdf::Dictionary {
    let mut d = new_dictionary();
    set_entry(&mut d, key, value);
    d
}

/// The signature dictionary with its `/ByteRange` and `/Contents`
/// placeholders.
fn signature_dictionary(update: &SignatureUpdate) -> lopdf::Dictionary {
    let mut sig = new_dictionary();
    set_entry(&mut sig, "Type", name_object("Sig"));
    set_entry(&mut sig, "Filter", name_object("Adobe.PPKLite"));
    set_entry(&mut sig, "SubFilter", name_object("adbe.pkcs7.detached"));
    set_entry(&mut sig, "Name", text_object(update.signer.as_str()));
    set_entry(&mut sig, "M", text_object(update.date.as_str()));
    if is_given(&update.reason) {
        if let Some(t) = &update.reason {
            set_entry(&mut sig, "Reason", text_object(t.as_str()));
        }
    }
    if is_given(&update.location) {
        if let Some(t) = &update.location {
            set_entry(&mut sig, "Location", text_object(t.as_str()));
        }
    }
    if is_given(&update.contact) {
        if let Some(t) = &update.contact {
            set_entry(&mut sig, "ContactInfo", text_object(t.as_str()));
        }
    }
    let placeholders = vec![
        integer_object(0),
        integer_object(BR_PLACEHOLDER),
        integer_object(BR_PLACEHOLDER),
        integer_object(BR_PLACEHOLDER),
    ];
    set_entry(&mut sig, "ByteRange", array_object(placeholders));
    let mut zeros: Vec<u8> = Vec::new();
    let mut i: usize = 0;
    while i < SIG_PLACEHOLDER_BYTES
        decreases SIG_PLACEHOLDER_BYTES - i,
    {
        zeros.push(0u8);
        i = i + 1;
    }
    set_entry(&mut sig, "Contents", hex_string_object(zeros));
    if update.lock {
        let mut params = new_dictionary();
        set_entry(&mut params, "Type", name_object("TransformParams"));
        set_entry(&mut params, "P", integer_object(1));
        set_entry(&mut params, "V", name_object("1.2"));
        let mut reference = new_dictionary();
        set_entry(&mut reference, "Type", name_object("SigRef"));
        set_entry(&mut reference, "TransformMethod", name_object("DocMDP"));
        set_entry(&mut reference, "TransformParams", dictionary_object(params));
        set_entry(&mut sig, "Reference", array_object(vec![dictionary_object(reference)]));
    }
    sig
}

/// The array that an entry holds, directly or through a reference that
/// the update, or else the file before it, resolves; the referenced object
/// is first cloned into the update.
fn resolved_array(update: &mut lopdf::IncrementalDocument, value: Option<lopdf::Object>) -> Vec<
    lopdf::Object,
> {
    match value {
        Some(v) => match kind(v) {
            PdfKind::Array(a) => a,
            PdfKind::Reference(r) => {
                let _ = clone_to_update(update, r);
                match updated_object(update, r) {
                    Some(o) => match kind(o) {
                        PdfKind::Array(a) => {
                            return a;
                        },
                        _ => {},
                    },
                    None => {},
                }
                match previous_object(update, r) {
                    Some(o) => match kind(o) {
                        PdfKind::Array(a) => a,
                        _ => Vec::new(),
                    },
                    None => Vec::new(),
                }
            },
            _ => Vec::new(),
        },
        None => Vec::new(),
    }
}

/// The catalog's `/AcroForm`, directly or through a reference that the
/// update, or else the file before it, resolves; an empty one when there
/// is none.
fn resolved_acroform(update: &mut lopdf::IncrementalDocument, catalog: (u32, u16)) -> lopdf::Dictionary {
    let existing = match updated_dictionary(update, catalog) {
        Ok(c) => entry(&c, "AcroForm"),
        Err(_) => None,
    };
    match existing {
        Some(v) => match kind(v) {
            PdfKind::Dictionary(d) => d,
            PdfKind::Reference(r) => {
                let _ = clone_to_update(update, r);
                match updated_object(update, r) {
                    Some(o) => match kind(o) {
                        PdfKind::Dictionary(d) => {
                            return d;
                        },
                        _ => {},
                    },
                    None => {},
                }
                match previous_object(update, r) {
                    Some(o) => match kind(o) {
                        PdfKind::Dictionary(d) => d,
                        _ => new_dictionary(),
                    },
                    None => new_dictionary(),
                }
            },
            _ => new_dictionary(),
        },
        None => new_dictionary(),
    }
}

/// The `/Fields` of an AcroForm: the array it holds, or the array that its
/// reference names in the file before the update.
fn acroform_fields(update: &lopdf::IncrementalDocument, acro: &lopdf::Dictionary) -> Vec<lopdf::Object> {
    match entry(acro, "Fields") {
        Some(v) => match kind(v) {
            PdfKind::Array(a) => a,
            PdfKind::Reference(r) => match previous_object(update, r) {
                Some(o) => match kind(o) {
                    PdfKind::Array(a) => a,
                    _ => Vec::new(),
                },
                None => Vec::new(),
            },
            _ => Vec::new(),
        },
        None => Vec::new(),
    }
}

/// The `/SigFlags` integer of an AcroForm, if it has one.
fn sig_flags_entry(acro: &lopdf::Dictionary) -> Option<i64> {
    match entry(acro, "SigFlags") {
        Some(v) => integer_of(v),
        None => None,
    }
}

/// `Object::as_i64`.
#[verifier::external_body]
fn integer_of(object: lopdf::Object) -> Option<i64> {
    object.as_i64().ok()
}

/// Sign the file `bytes` on page `update.page`: a `/Sig` field, its widget
/// (with the bounding box `bbox` of its appearance and the rectangle
/// `rect`) and its signature dictionary are appended as an incremental
/// update, with the field added to the AcroForm (`/SigFlags` set to
/// signatures-exist and append-only, a `/DR` font when there is none) and,
/// when locking, the catalog's `/Perms /DocMDP` naming the signature. The
/// update is then signed with `key`. The original bytes are never
/// modified: a signed file starts with them, so earlier signatures stay
/// valid.
pub fn sign(
    bytes: &[u8],
    password: Option<&str>,
    key: &SigningKey,
    update: &SignatureUpdate,
    bbox: lopdf::Object,
    rect: lopdf::Object,
) -> (r: Result<Vec<u8>, SheafError>)
    ensures
        match load_fault(bytes@, opt_str_chars(password)) {
            Some(f) => r matches Err(e) && error_is(e, f),
            None => true,
        },
        r matches Ok(v) ==> bytes@.len() <= v@.len() && v@.take(bytes@.len() as int) == bytes@,
        r matches Ok(v) ==> exists|out: Seq<u8>, num: u32, generation: u16|
            #[trigger] signed_update(
                bytes@,
                out,
                num as nat,
                generation as nat,
                *key,
                opt_view(update.reason),
                opt_view(update.location),
                opt_view(update.contact),
            ) == Ok::<Seq<u8>, Seq<char>>(v@),
{
    let prev = match load_doc(bytes, password) {
        Ok(d) => d,
        Err(e) => return Err(e),
    };
    let page_id = match page_object(&prev, update.page as u32 + 1) {
        Some(id) => id,
        None => return Err(SheafError::NoSuchPage(update.page)),
    };
    let catalog_id = match root_reference(&prev) {
        Some(id) => id,
        None => return Err(SheafError::Pdf("no /Root".to_string())),
    };
    let mut inc = start_update(bytes, prev);

    // ---- objects ----
    let mut font = new_dictionary();
    set_entry(&mut font, "Type", name_object("Font"));
    set_entry(&mut font, "Subtype", name_object("Type1"));
    set_entry(&mut font, "BaseFont", name_object("Helvetica"));
    set_entry(&mut font, "Encoding", name_object("WinAnsiEncoding"));
    let font_id = add_object(&mut inc, dictionary_object(font));
    let fonts = single_entry("Font", dictionary_object(single_entry("Helv", reference_object(font_id))));
    let mut form = new_dictionary();
    set_entry(&mut form, "Type", name_object("XObject"));
    set_entry(&mut form, "Subtype", name_object("Form"));
    set_entry(&mut form, "BBox", bbox);
    set_entry(&mut form, "Resources", dictionary_object(fonts));
    let ap_id = add_object(&mut inc, stream_object(form, copy_bytes(update.appearance.as_slice())));
    let sig_id = add_object(&mut inc, dictionary_object(signature_dictionary(update)));
    let mut widget = new_dictionary();
    set_entry(&mut widget, "Type", name_object("Annot"));
    set_entry(&mut widget, "Subtype", name_object("Widget"));
    set_entry(&mut widget, "FT", name_object("Sig"));
    set_entry(&mut widget, "T", text_object(update.field_name.as_str()));
    set_entry(&mut widget, "Rect", rect);
    // Print + Locked
    set_entry(&mut widget, "F", integer_object(132));
    set_entry(&mut widget, "P", reference_object(page_id));
    set_entry(&mut widget, "V", reference_object(sig_id));
    set_entry(&mut widget, "AP", dictionary_object(single_entry("N", reference_object(ap_id))));
    let widget_id = add_object(&mut inc, dictionary_object(widget));

    // ---- page: append the widget to /Annots ----
    match clone_to_update(&mut inc, page_id) {
        Ok(()) => {},
        Err(m) => return Err(pdf_with("clone page: ", m.as_str())),
    }
    let page = match updated_dictionary(&inc, page_id) {
        Ok(d) => d,
        Err(m) => return Err(pdf_with("page: ", m.as_str())),
    };
    let mut annots = resolved_array(&mut inc, entry(&page, "Annots"));
    annots.push(reference_object(widget_id));
    match set_in_update(&mut inc, page_id, "Annots", array_object(annots)) {
        Ok(()) => {},
        Err(m) => return Err(pdf_with("page: ", m.as_str())),
    }

    // ---- catalog: the AcroForm with the field, SigFlags, DocMDP perms ----
    match clone_to_update(&mut inc, catalog_id) {
        Ok(()) => {},
        Err(m) => return Err(pdf_with("clone catalog: ", m.as_str())),
    }
    let mut acro = resolved_acroform(&mut inc, catalog_id);
    let mut fields = acroform_fields(&inc, &acro);
    fields.push(reference_object(widget_id));
    set_entry(&mut acro, "Fields", array_object(fields));
    let flags = signature_flags(sig_flags_entry(&acro));
    set_entry(&mut acro, "SigFlags", integer_object(flags));
    if !has_entry(&acro, "DR") {
        let dr = single_entry("Font", dictionary_object(single_entry("Helv", reference_object(font_id))));
        set_entry(&mut acro, "DR", dictionary_object(dr));
    }
    match set_in_update(&mut inc, catalog_id, "AcroForm", dictionary_object(acro)) {
        Ok(()) => {},
        Err(m) => return Err(pdf_with("catalog: ", m.as_str())),
    }
    if update.lock {
        let perms = single_entry("DocMDP", reference_object(sig_id));
        match set_in_update(&mut inc, catalog_id, "Perms", dictionary_object(perms)) {
            Ok(()) => {},
            Err(m) => return Err(pdf_with("catalog: ", m.as_str())),
        }
    }
    let out = match save_update(&mut inc) {
        Ok(o) => o,
        Err(m) => return Err(pdf_with("write: ", m.as_str())),
    };

    // ---- patch the placeholders and sign, in the appended region only ----
    let ghost serialized = out@;
    let r = sign_update(
        bytes,
        out,
        sig_id.0,
        sig_id.1,
        key,
        &update.reason,
        &update.location,
        &update.contact,
    );
    proof {
        if r is Ok {
            assert(signed_update(
                bytes@,
                serialized,
                sig_id.0 as nat,
                sig_id.1 as nat,
                *key,
                opt_view(update.reason),
                opt_view(update.location),
                opt_view(update.contact),
            ) == Ok::<Seq<u8>, Seq<char>>(r->Ok_0@));
        }
    }
    r
}


// ---------- reading the AcroForm ----------
/// The ids of every object of the document (`Document::objects`' keys).
#[verifier::external_body]
fn object_ids(doc: &lopdf::Document) -> Vec<(u32, u16)> {
    doc.objects.keys().copied().collect()
}

/// `Document::get_dictionary`, cloned.
#[verifier::external_body]
fn document_dictionary(doc: &lopdf::Document, id: (u32, u16)) -> Option<lopdf::Dictionary> {
    doc.get_dictionary(id).ok().cloned()
}

/// `Document::get_object`, cloned.
#[verifier::external_body]
fn document_object(doc: &lopdf::Document, id: (u32, u16)) -> Option<lopdf::Object> {
    doc.get_object(id).ok().cloned()
}

/// `Document::catalog`, cloned, or the error's text.
#[verifier::external_body]
fn catalog_dictionary(doc: &lopdf::Document) -> Result<lopdf::Dictionary, String> {
    doc.catalog().cloned().map_err(|e| e.to_string())
}

/// `Document::get_pages`: each page number, counted from 1, with its
/// page object's id, in page order.
#[verifier::external_body]
fn page_numbers(doc: &lopdf::Document) -> Vec<(u32, (u32, u16))> {
    doc.get_pages().into_iter().collect()
}

/// `Object::as_name`, copied.
#[verifier::external_body]
fn name_bytes(object: lopdf::Object) -> Option<Vec<u8>> {
    match object.as_name() {
        Ok(n) => Some(n.to_vec()),
        Err(_) => None,
    }
}

/// `Object::as_str`, copied.
#[verifier::external_body]
fn string_bytes(object: lopdf::Object) -> Option<Vec<u8>> {
    match object.as_str() {
        Ok(b) => Some(b.to_vec()),
        Err(_) => None,
    }
}

/// What `String::from_utf8_lossy` gives for `bytes`.
pub uninterp spec fn utf8_lossy(bytes: Seq<u8>) -> Seq<char>;

/// `String::from_utf8_lossy`, owned.
#[verifier::external_body]
fn lossy_text(bytes: &[u8]) -> (r: String)
    ensures
        r@ == utf8_lossy(bytes@),
{
    String::from_utf8_lossy(bytes).into_owned()
}

/// The dictionary a value is, or the one its reference names.
fn resolve_dictionary(doc: &lopdf::Document, value: lopdf::Object) -> Option<lopdf::Dictionary> {
    match kind(value) {
        PdfKind::Dictionary(d) => Some(d),
        PdfKind::Reference(r) => document_dictionary(doc, r),
        _ => None,
    }
}

/// The array a value is, or the one its reference names.
fn resolve_items(doc: &lopdf::Document, value: lopdf::Object) -> Option<Vec<lopdf::Object>> {
    match kind(value) {
        PdfKind::Array(a) => Some(a),
        PdfKind::Reference(r) => match document_object(doc, r) {
            Some(o) => match kind(o) {
                PdfKind::Array(a) => Some(a),
                _ => None,
            },
            None => None,
        },
        _ => None,
    }
}

/// The reference each item is, if it is one.
fn references(items: Vec<lopdf::Object>) -> Vec<Option<(u32, u16)>> {
    let mut out: Vec<Option<(u32, u16)>> = Vec::new();
    let mut items = items;
    while items.len() > 0
        decreases items.len(),
    {
        let item = items.remove(0);
        out.push(
            match kind(item) {
                PdfKind::Reference(r) => Some(r),
                _ => None,
            },
        );
    }
    out
}

/// The text of a string entry of `dict`, decoded as lossy UTF-8.
fn text_entry(dict: &lopdf::Dictionary, key: &str) -> Option<String> {
    match entry(dict, key) {
        Some(v) => match string_bytes(v) {
            Some(b) => Some(lossy_text(b.as_slice())),
            None => None,
        },
        None => None,
    }
}

/// The page index (page number less one) of the page object `id`.
pub open spec fn page_index_of(pages: Seq<(u32, (u32, u16))>, id: (u32, u16)) -> Option<u16>
    decreases pages.len(),
{
    if pages.len() == 0 {
        None
    } else if pages[0].1 == id {
        Some((if pages[0].0 == 0 {
            u32::MAX as int
        } else {
            pages[0].0 - 1
        }) as u16)
    } else {
        page_index_of(pages.skip(1), id)
    }
}

pub fn page_index(pages: &[(u32, (u32, u16))], id: (u32, u16)) -> (r: Option<u16>)
    ensures
        r == page_index_of(pages@, id),
{
    let mut i: usize = 0;
    assert(pages@.skip(0) =~= pages@);
    while i < pages.len()
        invariant
            i <= pages@.len(),
            page_index_of(pages@, id) == page_index_of(pages@.skip(i as int), id),
        decreases pages.len() - i,
    {
        let (n, p) = pages[i];
        assert(pages@.skip(i as int)[0] == pages@[i as int]);
        if p.0 == id.0 && p.1 == id.1 {
            let m: u32 = n.wrapping_sub(1);
            assert(m == (if n == 0 { u32::MAX as int } else { n - 1 }));
            return Some(m as u16);
        }
        assert(pages@.skip(i as int).skip(1) =~= pages@.skip(i + 1));
        i = i + 1;
    }
    None
}

/// The signature dictionary declares a DocMDP transform in its
/// `/Reference` array.
fn declares_docmdp(doc: &lopdf::Document, sig: &lopdf::Dictionary) -> bool {
    let items = match entry(sig, "Reference") {
        Some(v) => match kind(v) {
            PdfKind::Array(a) => a,
            _ => Vec::new(),
        },
        None => Vec::new(),
    };
    let mut items = items;
    while items.len() > 0
        decreases items.len(),
    {
        let item = items.remove(0);
        match kind(item) {
            PdfKind::Dictionary(d) => match entry(&d, "TransformMethod") {
                Some(m) => match name_bytes(m) {
                    Some(n) => {
                        let docmdp = vec![68u8, 111u8, 99u8, 77u8, 68u8, 80u8];
                        if bytes_eq(n.as_slice(), docmdp.as_slice()) {
                            return true;
                        }
                    },
                    None => {},
                },
                None => {},
            },
            _ => {},
        }
    }
    false
}

/// The signature field that the field dictionary `fd` holds, when its `/V`
/// is, or refers to, a dictionary.
fn read_signature(
    doc: &lopdf::Document,
    fd: &lopdf::Dictionary,
    pages: &[(u32, (u32, u16))],
) -> Option<SignatureField> {
    let v = match entry(fd, "V") {
        Some(v) => v,
        None => return None,
    };
    let (sig, value_ref) = match kind(v) {
        PdfKind::Dictionary(d) => (d, None),
        PdfKind::Reference(r) => match document_dictionary(doc, r) {
            Some(d) => (d, Some(r)),
            None => return None,
        },
        _ => return None,
    };
    let field_name = match text_entry(fd, "T") {
        Some(t) => t,
        None => String::new(),
    };
    let page = match entry(fd, "P") {
        Some(p) => match kind(p) {
            PdfKind::Reference(r) => page_index(pages, r),
            _ => None,
        },
        None => None,
    };
    let mut byte_range: Vec<i64> = Vec::new();
    match entry(&sig, "ByteRange") {
        Some(o) => match resolve_items(doc, o) {
            Some(items) => {
                let mut items = items;
                while items.len() > 0
                    decreases items.len(),
                {
                    let item = items.remove(0);
                    match integer_of(item) {
                        Some(n) => byte_range.push(n),
                        None => {},
                    }
                }
            },
            None => {},
        },
        None => {},
    }
    let contents = match entry(&sig, "Contents") {
        Some(o) => match string_bytes(o) {
            Some(b) => b,
            None => Vec::new(),
        },
        None => Vec::new(),
    };
    Some(
        SignatureField {
            field_name,
            name: text_entry(&sig, "Name"),
            signed_at: text_entry(&sig, "M"),
            reason: text_entry(&sig, "Reason"),
            location: text_entry(&sig, "Location"),
            page,
            byte_range,
            contents,
            declares_docmdp: declares_docmdp(doc, &sig),
            value_ref,
        },
    )
}

/// Every dictionary object of the document, read as the AcroForm walk
/// needs it.
fn field_table(doc: &lopdf::Document) -> Vec<FieldNode> {
    let pages = page_numbers(doc);
    let ids = object_ids(doc);
    let mut table: Vec<FieldNode> = Vec::new();
    let mut i: usize = 0;
    while i < ids.len()
        decreases ids.len() - i,
    {
        let id = ids[i];
        match document_dictionary(doc, id) {
            Some(fd) => {
                let kids = match entry(&fd, "Kids") {
                    Some(k) => match resolve_items(doc, k) {
                        Some(items) => references(items),
                        None => Vec::new(),
                    },
                    None => Vec::new(),
                };
                let field_type = match entry(&fd, "FT") {
                    Some(t) => name_bytes(t),
                    None => None,
                };
                let signature = read_signature(doc, &fd, pages.as_slice());
                table.push(FieldNode { id, kids, field_type, signature });
            },
            None => {},
        }
        i = i + 1;
    }
    table
}

/// `r` reports some signature field as checked against the file `bytes`.
pub open spec fn is_checked_report(bytes: Seq<u8>, r: SignatureReport) -> bool {
    exists|f: SignatureField, d: Option<(u32, u16)>|
        #[trigger] report_of(r, f, d, check_of(bytes, f.byte_range@, f.contents@))
}

/// The signatures of a document, each with the id of its field: every
/// `/Sig` field reachable from the AcroForm's `/Fields`, through `/Kids`,
/// whose `/V` holds a signature dictionary, each checked against the
/// original bytes and reported once, in the order of the walk. A document
/// without an AcroForm has none.
pub fn list_signatures(bytes: &[u8], password: Option<&str>) -> (r: Result<
    Vec<((u32, u16), SignatureReport)>,
    SheafError,
>)
    ensures
        match load_fault(bytes@, opt_str_chars(password)) {
            Some(f) => r matches Err(e) && error_is(e, f),
            None => true,
        },
        r matches Ok(v) ==> forall|k: int|
            0 <= k < v@.len() ==> is_checked_report(bytes@, #[trigger] v@[k].1),
{
    let doc = match load_doc(bytes, password) {
        Ok(d) => d,
        Err(e) => return Err(e),
    };
    let catalog = match catalog_dictionary(&doc) {
        Ok(c) => c,
        Err(m) => return Err(pdf_with("catalog: ", m.as_str())),
    };
    let acro = match entry(&catalog, "AcroForm") {
        Some(a) => match resolve_dictionary(&doc, a) {
            Some(d) => d,
            None => new_dictionary(),
        },
        None => return Ok(Vec::new()),
    };
    let top = match entry(&acro, "Fields") {
        Some(f) => match resolve_items(&doc, f) {
            Some(items) => references(items),
            None => Vec::new(),
        },
        None => Vec::new(),
    };
    let docmdp = match entry(&catalog, "Perms") {
        Some(p) => match resolve_dictionary(&doc, p) {
            Some(perms) => match entry(&perms, "DocMDP") {
                Some(d) => match kind(d) {
                    PdfKind::Reference(r) => Some(r),
                    _ => None,
                },
                None => None,
            },
            None => None,
        },
        None => None,
    };
    let table = field_table(&doc);
    let found = reachable_signature_reports(bytes, top.as_slice(), table.as_slice(), docmdp);
    proof {
        assert forall|k: int| 0 <= k < found@.len() implies is_checked_report(
            bytes@,
            #[trigger] found@[k].1,
        ) by {
            let i = reachable_signatures(table@, top@)[k];
            let f = table@[i].signature->0;
            assert(found@[k].0 == i);
            assert(report_of(found@[k].1, f, docmdp, check_of(bytes@, f.byte_range@, f.contents@)));
        }
    }
    let mut out: Vec<((u32, u16), SignatureReport)> = Vec::new();
    let mut found = found;
    while found.len() > 0
        invariant
            forall|k: int| 0 <= k < out@.len() ==> is_checked_report(bytes@, #[trigger] out@[k].1),
            forall|k: int| 0 <= k < found@.len() ==> is_checked_report(bytes@, #[trigger] found@[k].1),
            forall|k: int| 0 <= k < found@.len() ==> #[trigger] found@[k].0 < table@.len(),
        decreases found.len(),
    {
        let ghost before = found@;
        let (i, report) = found.remove(0);
        assert(forall|k: int| 0 <= k < found@.len() ==> found@[k] == before[k + 1]);
        assert(is_checked_report(bytes@, before[0].1));
        assert(before[0].0 < table@.len());
        out.push((table[i].id, report));
    }
    Ok(out)
}

} // verus!
