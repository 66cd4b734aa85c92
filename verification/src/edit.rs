//! Content editing helpers that do not need PDFium.
use vstd::prelude::*;

use crate::security::texts;
use crate::text::{chars_of, decimal, decimal_chars, push_all, push_str, string_of, trim, trim_vec};

verus! {

/// The plain-text export of some pages: each page's text followed by a
/// newline, pages separated by a form feed and a newline.
pub open spec fn exported_text(pages: Seq<Seq<char>>) -> Seq<char>
    decreases pages.len(),
{
    if pages.len() == 0 {
        Seq::empty()
    } else if pages.len() == 1 {
        pages[0].push('\n')
    } else {
        exported_text(pages.drop_last()) + seq!['\u{c}', '\n'] + pages.last().push('\n')
    }
}

pub fn export_text(page_texts: &Vec<String>) -> (r: String)
    ensures
        r@ == exported_text(texts(page_texts@)),
{
    let ghost ps = texts(page_texts@);
    let mut out: Vec<char> = Vec::new();
    let mut i: usize = 0;
    assert(ps.take(0) =~= Seq::<Seq<char>>::empty());
    while i < page_texts.len()
        invariant
            i <= page_texts@.len(),
            ps == texts(page_texts@),
            out@ == exported_text(ps.take(i as int)),
        decreases page_texts.len() - i,
    {
        assert(ps.take(i + 1).drop_last() =~= ps.take(i as int));
        let ghost before = out@;
        if i > 0 {
            out.push('\u{c}');
            out.push('\n');
        }
        push_str(&mut out, page_texts[i].as_str());
        out.push('\n');
        if i == 0 {
            assert(out@ =~= exported_text(ps.take(1)));
        } else {
            assert(out@ =~= exported_text(ps.take(i + 1)));
        }
        i = i + 1;
    }
    assert(ps.take(page_texts@.len() as int) =~= ps);
    string_of(out.as_slice())
}

// Page object types of `fpdf_edit.h`.
pub const PAGEOBJ_TEXT: i32 = 1;
pub const PAGEOBJ_PATH: i32 = 2;
pub const PAGEOBJ_IMAGE: i32 = 3;
pub const PAGEOBJ_SHADING: i32 = 4;
pub const PAGEOBJ_FORM: i32 = 5;

/// The name of a page object type as the editor shows it.
pub open spec fn object_kind_of(ty: i32) -> Seq<char> {
    if ty == PAGEOBJ_TEXT {
        "text"@
    } else if ty == PAGEOBJ_PATH {
        "path"@
    } else if ty == PAGEOBJ_IMAGE {
        "image"@
    } else if ty == PAGEOBJ_SHADING {
        "shading"@
    } else if ty == PAGEOBJ_FORM {
        "form"@
    } else {
        "unknown"@
    }
}

pub fn object_kind(ty: i32) -> (r: String)
    ensures
        r@ == object_kind_of(ty),
{
    let k = if ty == PAGEOBJ_TEXT {
        "text"
    } else if ty == PAGEOBJ_PATH {
        "path"
    } else if ty == PAGEOBJ_IMAGE {
        "image"
    } else if ty == PAGEOBJ_SHADING {
        "shading"
    } else if ty == PAGEOBJ_FORM {
        "form"
    } else {
        "unknown"
    };
    k.to_owned()
}

/// Where a new link points: its URL without surrounding white space when
/// one is given and not blank, else the page (numbered from 1) as a
/// `#page=` fragment the viewer follows; nothing when neither is given.
pub open spec fn link_target_of(uri: Option<Seq<char>>, page: Option<u16>) -> Option<Seq<char>> {
    if uri is Some && trim(uri->0).len() > 0 {
        Some(trim(uri->0))
    } else {
        match page {
            Some(p) => Some("#page="@ + decimal((p + 1) as nat)),
            None => None,
        }
    }
}

pub fn link_target(uri: &Option<String>, page: Option<u16>) -> (r: Option<String>)
    requires
        (crate::text::opt_view(*uri) is Some && trim(crate::text::opt_view(*uri)->0).len() > 0)
            || page != Some(u16::MAX),
    ensures
        crate::text::opt_view(r) == link_target_of(crate::text::opt_view(*uri), page),
{
    if let Some(u) = uri {
        let t = trim_vec(chars_of(u.as_str()).as_slice());
        if t.len() > 0 {
            return Some(string_of(t.as_slice()));
        }
    }
    match page {
        Some(p) => {
            let mut out = chars_of("#page=");
            let n = decimal_chars(p as u64 + 1);
            push_all(&mut out, n.as_slice());
            Some(string_of(out.as_slice()))
        },
        None => None,
    }
}

} // verus!
