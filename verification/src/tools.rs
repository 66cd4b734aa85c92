//! Compare and accessibility: the word-level text diff between two
//! documents, and the accessibility report built from what the engine
//! found in a document.
use vstd::prelude::*;

use similar::ChangeTag;

use crate::security::texts;
use crate::error::{pdf_error, SheafError};
use crate::text::{chars_of, decimal, decimal_chars, push_all, push_str, string_of, trim, trim_vec};

verus! {

// ---------- compare ----------
/// A run of words that both texts share (`equal`), or that only the first
/// (`delete`) or only the second (`insert`) has.
#[derive(Debug, Clone)]
pub struct DiffSegment {
    pub kind: String,
    pub text: String,
}

#[derive(Debug, Clone)]
pub struct PageDiff {
    pub page: u16,
    pub inserted: u32,
    pub deleted: u32,
    pub segments: Vec<DiffSegment>,
}

#[derive(Debug, Clone)]
pub struct CompareResult {
    pub pages: Vec<PageDiff>,
    pub inserted: u32,
    pub deleted: u32,
}

/// What `similar::TextDiff::from_words(old, new).iter_all_changes()`
/// yields: each change's tag (0 equal, 1 delete, 2 insert) and text.
pub uninterp spec fn word_diff(old: Seq<char>, new: Seq<char>) -> Seq<(u8, Seq<char>)>;

pub open spec fn changes_view(v: Seq<(u8, String)>) -> Seq<(u8, Seq<char>)> {
    v.map_values(|c: (u8, String)| (c.0, c.1@))
}

/// `similar::TextDiff::from_words(old, new).iter_all_changes()`, each change
/// as its tag (0 equal, 1 delete, 2 insert) and its text.
#[verifier::external_body]
fn word_changes(old: &str, new: &str) -> (r: Vec<(u8, String)>)
    ensures
        changes_view(r@) == word_diff(old@, new@),
{
    let diff = similar::TextDiff::from_words(old, new);
    diff.iter_all_changes().map(
        |c| (
            match c.tag() {
                ChangeTag::Equal => 0u8,
                ChangeTag::Delete => 1u8,
                ChangeTag::Insert => 2u8,
            },
            c.value().to_string(),
        ),
    ).collect()
}

/// The name of a change kind.
pub open spec fn kind_name(tag: u8) -> Seq<char> {
    if tag == 1 {
        "delete"@
    } else if tag == 2 {
        "insert"@
    } else {
        "equal"@
    }
}

/// Counts kept as the `u32` they are reported in.
pub open spec fn wrap(n: int) -> u32 {
    (n % 0x1_0000_0000) as u32
}

fn wrap_add(a: u32, b: u32) -> (r: u32)
    ensures
        r == wrap(a + b),
{
    let s: u64 = a as u64 + b as u64;
    if s >= 0x1_0000_0000 {
        (s - 0x1_0000_0000) as u32
    } else {
        s as u32
    }
}

/// The segments of a page diff (consecutive changes of one kind merged),
/// and how many words were inserted and deleted.
pub open spec fn merged(changes: Seq<(u8, Seq<char>)>) -> (Seq<(Seq<char>, Seq<char>)>, u32, u32)
    decreases changes.len(),
{
    if changes.len() == 0 {
        (Seq::empty(), 0, 0)
    } else {
        let (segs, ins, del) = merged(changes.drop_last());
        let (tag, text) = changes.last();
        let kind = kind_name(tag);
        let segs2 = if segs.len() > 0 && segs.last().0 == kind {
            segs.update(segs.len() - 1, (kind, segs.last().1 + text))
        } else {
            segs.push((kind, text))
        };
        (
            segs2,
            if tag == 2 {
                wrap(ins + 1)
            } else {
                ins
            },
            if tag == 1 {
                wrap(del + 1)
            } else {
                del
            },
        )
    }
}

pub open spec fn segments_view(v: Seq<DiffSegment>) -> Seq<(Seq<char>, Seq<char>)> {
    v.map_values(|s: DiffSegment| (s.kind@, s.text@))
}

fn kind_text(tag: u8) -> (r: String)
    ensures
        r@ == kind_name(tag),
{
    if tag == 1 {
        "delete".to_owned()
    } else if tag == 2 {
        "insert".to_owned()
    } else {
        "equal".to_owned()
    }
}

/// The diff of page `page`: `changes` merged into segments, with counts.
pub fn page_diff(page: u16, changes: &Vec<(u8, String)>) -> (r: PageDiff)
    ensures
        r.page == page,
        (segments_view(r.segments@), r.inserted, r.deleted) == merged(changes_view(changes@)),
{
    let ghost cs = changes_view(changes@);
    let mut segs: Vec<DiffSegment> = Vec::new();
    let mut ins: u32 = 0;
    let mut del: u32 = 0;
    let mut k: usize = 0;
    assert(cs.take(0) =~= Seq::<(u8, Seq<char>)>::empty());
    assert(segments_view(segs@) =~= Seq::<(Seq<char>, Seq<char>)>::empty());
    while k < changes.len()
        invariant
            k <= changes@.len(),
            cs == changes_view(changes@),
            (segments_view(segs@), ins, del) == merged(cs.take(k as int)),
        decreases changes.len() - k,
    {
        assert(cs.take(k + 1).drop_last() =~= cs.take(k as int));
        assert(cs.take(k + 1).last() == (changes@[k as int].0, changes@[k as int].1@));
        let tag = changes[k].0;
        let kind = kind_text(tag);
        let ghost sv = segments_view(segs@);
        let n = segs.len();
        let same = n > 0 && crate::text::chars_eq(
            chars_of(segs[n - 1].kind.as_str()).as_slice(),
            chars_of(kind.as_str()).as_slice(),
        );
        if same {
            let mut t = chars_of(segs[n - 1].text.as_str());
            push_str(&mut t, changes[k].1.as_str());
            let seg = DiffSegment { kind, text: string_of(t.as_slice()) };
            segs.set(n - 1, seg);
            assert(segments_view(segs@) =~= sv.update(
                sv.len() - 1,
                (kind_name(tag), sv.last().1 + changes@[k as int].1@),
            ));
        } else {
            segs.push(DiffSegment { kind, text: changes[k].1.clone() });
            assert(segments_view(segs@) =~= sv.push((kind_name(tag), changes@[k as int].1@)));
        }
        if tag == 2 {
            ins = wrap_add(ins, 1);
        }
        if tag == 1 {
            del = wrap_add(del, 1);
        }
        k = k + 1;
    }
    assert(cs.take(changes@.len() as int) =~= cs);
    PageDiff { page, inserted: ins, deleted: del, segments: segs }
}

/// The text of page `i` of a document, or nothing past its end.
pub open spec fn page_text_or_empty(pages: Seq<Seq<char>>, i: int) -> Seq<char> {
    if i < pages.len() {
        pages[i]
    } else {
        Seq::empty()
    }
}

/// The page-by-page word diff of two documents given by the text of their
/// pages; the shorter is treated as having empty pages at its end.
pub fn compare_text(a: &Vec<String>, b: &Vec<String>) -> (r: CompareResult)
    requires
        a@.len() <= u16::MAX,
        b@.len() <= u16::MAX,
    ensures
        r.pages@.len() == if a@.len() > b@.len() {
            a@.len()
        } else {
            b@.len()
        },
        forall|i: int|
            0 <= i < r.pages@.len() ==> {
                let p = #[trigger] r.pages@[i];
                &&& p.page == i
                &&& (segments_view(p.segments@), p.inserted, p.deleted) == merged(
                    word_diff(page_text_or_empty(texts(a@), i), page_text_or_empty(texts(b@), i)),
                )
            },
        r.inserted == wrap(total_inserted(r.pages@) as int),
        r.deleted == wrap(total_deleted(r.pages@) as int),
{
    let n = if a.len() > b.len() {
        a.len()
    } else {
        b.len()
    };
    let mut pages: Vec<PageDiff> = Vec::new();
    let mut ins: u32 = 0;
    let mut del: u32 = 0;
    let mut i: usize = 0;
    while i < n
        invariant
            n <= u16::MAX,
            n == if a@.len() > b@.len() {
                a@.len()
            } else {
                b@.len()
            },
            i <= n,
            pages@.len() == i,
            forall|j: int|
                0 <= j < i ==> {
                    let p = #[trigger] pages@[j];
                    &&& p.page == j
                    &&& (segments_view(p.segments@), p.inserted, p.deleted) == merged(
                        word_diff(
                            page_text_or_empty(texts(a@), j),
                            page_text_or_empty(texts(b@), j),
                        ),
                    )
                },
            ins == wrap(total_inserted(pages@) as int),
            del == wrap(total_deleted(pages@) as int),
        decreases n - i,
    {
        let ta: &str = if i < a.len() {
            a[i].as_str()
        } else {
            ""
        };
        let tb: &str = if i < b.len() {
            b[i].as_str()
        } else {
            ""
        };
        proof {
            reveal_strlit("");
            assert(ta@ == page_text_or_empty(texts(a@), i as int));
            assert(tb@ == page_text_or_empty(texts(b@), i as int));
        }
        let changes = word_changes(ta, tb);
        let d = page_diff(i as u16, &changes);
        let ghost before = pages@;
        proof {
            lemma_wrap_sum(total_inserted(before) as int, d.inserted as int);
            lemma_wrap_sum(total_deleted(before) as int, d.deleted as int);
        }
        ins = wrap_add(ins, d.inserted);
        del = wrap_add(del, d.deleted);
        pages.push(d);
        assert(pages@.drop_last() =~= before);
        i = i + 1;
    }
    CompareResult { pages, inserted: ins, deleted: del }
}

/// The words inserted over all pages.
pub open spec fn total_inserted(pages: Seq<PageDiff>) -> nat
    decreases pages.len(),
{
    if pages.len() == 0 {
        0
    } else {
        total_inserted(pages.drop_last()) + pages.last().inserted as nat
    }
}

/// The words deleted over all pages.
pub open spec fn total_deleted(pages: Seq<PageDiff>) -> nat
    decreases pages.len(),
{
    if pages.len() == 0 {
        0
    } else {
        total_deleted(pages.drop_last()) + pages.last().deleted as nat
    }
}

proof fn lemma_wrap_sum(t: int, x: int)
    requires
        t >= 0,
        x >= 0,
    ensures
        wrap(wrap(t) + x) == wrap(t + x),
{
    vstd::arithmetic::div_mod::lemma_fundamental_div_mod(t, 0x1_0000_0000);
    vstd::arithmetic::div_mod::lemma_mod_multiples_vanish(
        t / 0x1_0000_0000,
        t % 0x1_0000_0000 + x,
        0x1_0000_0000,
    );
}

// ---------- accessibility ----------
#[derive(Debug, Clone)]
pub struct AccessibilityCheck {
    pub name: String,
    pub ok: bool,
    pub detail: String,
}

#[derive(Debug, Clone)]
pub struct AccessibilityReport {
    pub checks: Vec<AccessibilityCheck>,
    /// The details of the checks that failed, in order.
    pub issues: Vec<String>,
}

/// What the engine found on one page: whether it has a text object, and
/// how many image objects.
#[derive(Debug, Clone, Copy)]
pub struct PageContent {
    pub has_text: bool,
    pub images: u32,
}

/// What the engine found in a document.
#[derive(Debug, Clone)]
pub struct DocumentFacts {
    pub title: Option<String>,
    /// The catalog has a structure tree and `/MarkInfo /Marked true`.
    pub tagged: bool,
    /// The catalog's `/Lang`, when set and not empty.
    pub lang: Option<String>,
    /// The pages in order.
    pub pages: Vec<PageContent>,
    pub has_outline: bool,
}

/// The pages (numbered from 1) reported as scans, and the images counted:
/// a page without text is reported once any image has been seen, on it or
/// on an earlier page.
pub open spec fn scans(pages: Seq<PageContent>) -> (Seq<u16>, nat)
    decreases pages.len(),
{
    if pages.len() == 0 {
        (Seq::empty(), 0)
    } else {
        let (s, n) = scans(pages.drop_last());
        let m = n + pages.last().images as nat;
        (
            if !pages.last().has_text && m > 0 {
                s.push(pages.len() as u16)
            } else {
                s
            },
            m,
        )
    }
}

pub open spec fn total_images(pages: Seq<PageContent>) -> nat {
    scans(pages).1
}

/// `{:?}` of a list of page numbers: `[1, 2, 3]`.
pub open spec fn list_text(v: Seq<u16>) -> Seq<char>
    decreases v.len(),
{
    "["@ + list_items(v) + "]"@
}

pub open spec fn list_items(v: Seq<u16>) -> Seq<char>
    decreases v.len(),
{
    if v.len() == 0 {
        Seq::empty()
    } else if v.len() == 1 {
        decimal(v[0] as nat)
    } else {
        list_items(v.drop_last()) + ", "@ + decimal(v.last() as nat)
    }
}

/// One check as (name, passed, detail).
pub open spec fn checks_of(f: DocumentFacts) -> Seq<(Seq<char>, bool, Seq<char>)> {
    let (scanned, images) = scans(f.pages@);
    let title_ok = match f.title {
        Some(t) => trim(t@).len() > 0,
        None => false,
    };
    seq![
        (
            "Document title"@,
            title_ok,
            if f.title is Some {
                "Title is set."@
            } else {
                "No document title (File > Properties)."@
            },
        ),
        (
            "Tagged PDF"@,
            f.tagged,
            if f.tagged {
                "Document has a structure tree (/MarkInfo /Marked true)."@
            } else {
                "Not tagged: screen readers get no reading order or headings. Sheaf cannot add tags yet; export from the source application with tagging on."@
            },
        ),
        (
            "Language"@,
            f.lang is Some,
            match f.lang {
                Some(l) => "Language is "@ + l@ + "."@,
                None => "No /Lang set on the document."@,
            },
        ),
        (
            "Text on every page"@,
            scanned.len() == 0,
            if scanned.len() == 0 {
                "Every page has selectable text."@
            } else {
                "Pages without text (likely scans): "@ + list_text(scanned)
                    + ". Run OCR to add a text layer."@
            },
        ),
        (
            "Image alternative text"@,
            images == 0 || f.tagged,
            if images == 0 {
                "No images."@
            } else if f.tagged {
                decimal(images) + " image(s); check alt text in the structure tree."@
            } else {
                decimal(images) + " image(s) with no alternative text (document is untagged)."@
            },
        ),
        (
            "Bookmarks"@,
            f.has_outline || f.pages@.len() < 10,
            if f.has_outline {
                "Document has bookmarks."@
            } else if f.pages@.len() < 10 {
                "Short document; bookmarks optional."@
            } else {
                "Long document without bookmarks."@
            },
        ),
    ]
}

/// The details of the failed checks, in order.
pub open spec fn issues_of(c: Seq<(Seq<char>, bool, Seq<char>)>) -> Seq<Seq<char>>
    decreases c.len(),
{
    if c.len() == 0 {
        Seq::empty()
    } else if c.last().1 {
        issues_of(c.drop_last())
    } else {
        issues_of(c.drop_last()).push(c.last().2)
    }
}

pub open spec fn checks_view(v: Seq<AccessibilityCheck>) -> Seq<(Seq<char>, bool, Seq<char>)> {
    v.map_values(|c: AccessibilityCheck| (c.name@, c.ok, c.detail@))
}

fn scanned_pages(pages: &Vec<PageContent>) -> (r: (Vec<u16>, u32))
    requires
        pages@.len() <= u16::MAX,
        total_images(pages@) <= u32::MAX,
    ensures
        (r.0@, r.1 as nat) == scans(pages@),
{
    let mut s: Vec<u16> = Vec::new();
    let mut n: u32 = 0;
    let mut i: usize = 0;
    assert(pages@.take(0) =~= Seq::<PageContent>::empty());
    while i < pages.len()
        invariant
            i <= pages@.len() <= u16::MAX,
            total_images(pages@) <= u32::MAX,
            (s@, n as nat) == scans(pages@.take(i as int)),
        decreases pages.len() - i,
    {
        assert(pages@.take(i + 1).drop_last() =~= pages@.take(i as int));
        proof {
            lemma_images_grow(pages@, i as int + 1);
        }
        n = n + pages[i].images;
        if !pages[i].has_text && n > 0 {
            s.push((i + 1) as u16);
        }
        i = i + 1;
    }
    assert(pages@.take(pages@.len() as int) =~= pages@);
    (s, n)
}

proof fn lemma_images_grow(pages: Seq<PageContent>, k: int)
    requires
        0 <= k <= pages.len(),
    ensures
        total_images(pages.take(k)) <= total_images(pages),
    decreases pages.len() - k,
{
    if k < pages.len() {
        lemma_images_grow(pages, k + 1);
        assert(pages.take(k + 1).drop_last() =~= pages.take(k));
    } else {
        assert(pages.take(k) =~= pages);
    }
}

fn list_chars(v: &Vec<u16>) -> (r: Vec<char>)
    ensures
        r@ == list_text(v@),
{
    let mut out: Vec<char> = Vec::new();
    let mut k: usize = 0;
    assert(v@.take(0) =~= Seq::<u16>::empty());
    while k < v.len()
        invariant
            k <= v@.len(),
            out@ == list_items(v@.take(k as int)),
        decreases v.len() - k,
    {
        assert(v@.take(k + 1).drop_last() =~= v@.take(k as int));
        if k > 0 {
            push_str(&mut out, ", ");
        }
        push_all(&mut out, decimal_chars(v[k] as u64).as_slice());
        assert(out@ =~= list_items(v@.take(k + 1)));
        k = k + 1;
    }
    assert(v@.take(v@.len() as int) =~= v@);
    let mut r = chars_of("[");
    push_all(&mut r, out.as_slice());
    push_str(&mut r, "]");
    r
}

fn check(name: &str, ok: bool, detail: Vec<char>) -> (r: AccessibilityCheck)
    ensures
        r.name@ == name@,
        r.ok == ok,
        r.detail@ == detail@,
{
    AccessibilityCheck { name: name.to_owned(), ok, detail: string_of(detail.as_slice()) }
}

/// The accessibility report of a document: title, tagging, language, text
/// on every page, image alternative text and bookmarks, with the failed
/// checks' details as issues.
pub fn accessibility_report(f: &DocumentFacts) -> (r: AccessibilityReport)
    requires
        f.pages@.len() <= u16::MAX,
        total_images(f.pages@) <= u32::MAX,
    ensures
        checks_view(r.checks@) == checks_of(*f),
        texts(r.issues@) == issues_of(checks_of(*f)),
{
    let (scanned, images) = scanned_pages(&f.pages);
    let title_ok = match &f.title {
        Some(t) => trim_vec(chars_of(t.as_str()).as_slice()).len() > 0,
        None => false,
    };
    let mut checks: Vec<AccessibilityCheck> = Vec::new();
    checks.push(
        check(
            "Document title",
            title_ok,
            if f.title.is_some() {
                chars_of("Title is set.")
            } else {
                chars_of("No document title (File > Properties).")
            },
        ),
    );
    checks.push(
        check(
            "Tagged PDF",
            f.tagged,
            if f.tagged {
                chars_of("Document has a structure tree (/MarkInfo /Marked true).")
            } else {
                chars_of(
                    "Not tagged: screen readers get no reading order or headings. Sheaf cannot add tags yet; export from the source application with tagging on.",
                )
            },
        ),
    );
    let lang_detail = match &f.lang {
        Some(l) => {
            let mut d = chars_of("Language is ");
            push_str(&mut d, l.as_str());
            push_str(&mut d, ".");
            d
        },
        None => chars_of("No /Lang set on the document."),
    };
    checks.push(check("Language", f.lang.is_some(), lang_detail));
    let text_detail = if scanned.len() == 0 {
        chars_of("Every page has selectable text.")
    } else {
        let mut d = chars_of("Pages without text (likely scans): ");
        push_all(&mut d, list_chars(&scanned).as_slice());
        push_str(&mut d, ". Run OCR to add a text layer.");
        d
    };
    checks.push(check("Text on every page", scanned.len() == 0, text_detail));
    let image_detail = if images == 0 {
        chars_of("No images.")
    } else if f.tagged {
        let mut d = decimal_chars(images as u64);
        push_str(&mut d, " image(s); check alt text in the structure tree.");
        d
    } else {
        let mut d = decimal_chars(images as u64);
        push_str(&mut d, " image(s) with no alternative text (document is untagged).");
        d
    };
    checks.push(check("Image alternative text", images == 0 || f.tagged, image_detail));
    let bookmark_detail = if f.has_outline {
        chars_of("Document has bookmarks.")
    } else if f.pages.len() < 10 {
        chars_of("Short document; bookmarks optional.")
    } else {
        chars_of("Long document without bookmarks.")
    };
    checks.push(check("Bookmarks", f.has_outline || f.pages.len() < 10, bookmark_detail));
    assert(checks_view(checks@) =~= checks_of(*f));
    let ghost cv = checks_view(checks@);
    let mut issues: Vec<String> = Vec::new();
    let mut k: usize = 0;
    assert(cv.take(0) =~= Seq::<(Seq<char>, bool, Seq<char>)>::empty());
    assert(texts(issues@) =~= Seq::<Seq<char>>::empty());
    while k < checks.len()
        invariant
            k <= checks@.len(),
            cv == checks_view(checks@),
            texts(issues@) == issues_of(cv.take(k as int)),
        decreases checks.len() - k,
    {
        assert(cv.take(k + 1).drop_last() =~= cv.take(k as int));
        if !checks[k].ok {
            let ghost before = texts(issues@);
            issues.push(checks[k].detail.clone());
            assert(texts(issues@) =~= before.push(cv[k as int].2));
        }
        k = k + 1;
    }
    assert(cv.take(checks@.len() as int) =~= cv);
    AccessibilityReport { checks, issues }
}

// ---------- visual compare ----------
/// A decoded image: `width` × `height` pixels of four bytes (red, green,
/// blue, alpha), row after row.
#[derive(Debug, Clone)]
pub struct Raster {
    pub width: u32,
    pub height: u32,
    pub rgba: Vec<u8>,
}

impl View for Raster {
    type V = (u32, u32, Seq<u8>);

    open spec fn view(&self) -> (u32, u32, Seq<u8>) {
        (self.width, self.height, self.rgba@)
    }
}

/// Every pixel of the image is in its buffer.
pub open spec fn holds_pixels(img: (u32, u32, Seq<u8>)) -> bool {
    4 * img.0 * img.1 <= img.2.len()
}

/// The grey level of a pixel, the mean of its three colour channels;
/// white outside the image.
pub open spec fn grey_at(img: (u32, u32, Seq<u8>), x: int, y: int) -> int {
    if 0 <= x < img.0 && 0 <= y < img.1 {
        let i = (y * img.0 + x) * 4;
        (img.2[i] + img.2[i + 1] + img.2[i + 2]) / 3
    } else {
        255
    }
}

/// One pixel of the comparison: red where the first page is darker by
/// more than 40 grey levels, green where the second is, and elsewhere the
/// first page faded to a light grey.
pub open spec fn diff_pixel(ga: int, gb: int) -> Seq<u8> {
    if ga - gb > 40 || gb - ga > 40 {
        if ga < gb {
            seq![220u8, 30u8, 30u8, 255u8]
        } else {
            seq![30u8, 160u8, 60u8, 255u8]
        }
    } else {
        let f = (180 + ga * 75 / 255) as u8;
        seq![f, f, f, 255u8]
    }
}

/// The comparison image of `a` and `b`, `w` × `h` pixels.
pub open spec fn diff_image(a: (u32, u32, Seq<u8>), b: (u32, u32, Seq<u8>), w: nat, h: nat) -> Seq<
    u8,
> {
    Seq::new(
        4 * w * h,
        |i: int|
            diff_pixel(
                grey_at(a, (i / 4) % (w as int), (i / 4) / (w as int)),
                grey_at(b, (i / 4) % (w as int), (i / 4) / (w as int)),
            )[i % 4],
    )
}

fn grey(img: &Raster, x: usize, y: usize) -> (g: u8)
    requires
        holds_pixels(img@),
    ensures
        g == grey_at(img@, x as int, y as int),
{
    let w = img.width as usize;
    let len = img.rgba.len();
    if x < w && y < img.height as usize {
        proof {
            let ww = img.width as int;
            let hh = img.height as int;
            assert(y * ww + x < ww * hh) by (nonlinear_arith)
                requires
                    0 <= x < ww,
                    0 <= y < hh,
            ;
            assert(y * ww <= ww * hh) by (nonlinear_arith)
                requires
                    0 <= y < hh,
                    0 <= ww,
            ;
            assert((y * ww + x) * 4 + 3 < 4 * ww * hh) by (nonlinear_arith)
                requires
                    y * ww + x < ww * hh,
            ;
            assert(img.rgba@.len() == len);
        }
        let i = (y * w + x) * 4;
        let sum = img.rgba[i] as u32 + img.rgba[i + 1] as u32 + img.rgba[i + 2] as u32;
        (sum / 3) as u8
    } else {
        255
    }
}

fn push_diff_pixel(out: &mut Vec<u8>, ga: u8, gb: u8)
    ensures
        final(out)@ == old(out)@ + diff_pixel(ga as int, gb as int),
{
    let apart = if ga > gb {
        ga - gb > 40
    } else {
        gb - ga > 40
    };
    let px: [u8; 4] = if apart {
        if ga < gb {
            [220u8, 30u8, 30u8, 255u8]
        } else {
            [30u8, 160u8, 60u8, 255u8]
        }
    } else {
        let f: u8 = 180 + (ga as u32 * 75 / 255) as u8;
        [f, f, f, 255u8]
    };
    out.push(px[0]);
    out.push(px[1]);
    out.push(px[2]);
    out.push(px[3]);
    assert(final(out)@ =~= old(out)@ + diff_pixel(ga as int, gb as int)) by {
        assert(seq![px[0], px[1], px[2], px[3]] =~= diff_pixel(ga as int, gb as int));
    }
}

pub open spec fn max_u32(a: u32, b: u32) -> u32 {
    if a >= b {
        a
    } else {
        b
    }
}

/// The comparison image of two pages, as large as the larger of the two
/// in each direction.
pub fn diff_rasters(a: &Raster, b: &Raster) -> (r: Raster)
    requires
        holds_pixels(a@),
        holds_pixels(b@),
        4 * max_u32(a.width, b.width) * max_u32(a.height, b.height) <= usize::MAX,
    ensures
        r.width == max_u32(a.width, b.width),
        r.height == max_u32(a.height, b.height),
        r.rgba@ == diff_image(a@, b@, r.width as nat, r.height as nat),
{
    let w: u32 = if a.width >= b.width {
        a.width
    } else {
        b.width
    };
    let h: u32 = if a.height >= b.height {
        a.height
    } else {
        b.height
    };
    let ghost want = diff_image(a@, b@, w as nat, h as nat);
    proof {
        assert(w * h <= 4 * w * h) by (nonlinear_arith);
    }
    let n = w as usize * h as usize;
    let mut out: Vec<u8> = Vec::new();
    let mut p: usize = 0;
    while p < n
        invariant
            holds_pixels(a@),
            holds_pixels(b@),
            n == w * h,
            4 * w * h <= usize::MAX,
            want == diff_image(a@, b@, w as nat, h as nat),
            p <= n,
            out@.len() == 4 * p,
            forall|i: int| 0 <= i < 4 * p ==> out@[i] == want[i],
        decreases n - p,
    {
        assert(w > 0) by {
            if w == 0 {
                assert(w * h == 0);
            }
        }
        let x = p % (w as usize);
        let y = p / (w as usize);
        let ga = grey(a, x, y);
        let gb = grey(b, x, y);
        let ghost before = out@;
        push_diff_pixel(&mut out, ga, gb);
        proof {
            assert forall|i: int| 0 <= i < 4 * (p + 1) implies out@[i] == want[i] by {
                if i >= 4 * p {
                    let k = i - 4 * p;
                    assert(i / 4 == p);
                    assert(i % 4 == k);
                    assert(4 * p + 4 <= 4 * n);
                    assert(4 * n == 4 * w * h) by (nonlinear_arith)
                        requires
                            n == w * h,
                    ;
                    assert(out@[i] == diff_pixel(ga as int, gb as int)[k]);
                }
            }
        }
        p = p + 1;
    }
    proof {
        assert(4 * n == 4 * w * h) by (nonlinear_arith)
            requires
                n == w * h,
        ;
    }
    assert(out@ =~= want);
    Raster { width: w, height: h, rgba: out }
}

pub open spec fn raster_view(r: Option<Raster>) -> Option<(u32, u32, Seq<u8>)> {
    match r {
        Some(img) => Some(img@),
        None => None,
    }
}

/// What `image::load_from_memory` decodes from `bytes`, converted to RGBA
/// with eight bits a channel: width, height and pixel bytes.
pub uninterp spec fn decoded_rgba(bytes: Seq<u8>) -> Option<(u32, u32, Seq<u8>)>;

/// `image::load_from_memory(bytes)` followed by `into_rgba8`. The image
/// crate keeps every pixel of an image buffer inside its data.
#[verifier::external_body]
fn load_rgba(bytes: &[u8]) -> (r: Option<Raster>)
    ensures
        raster_view(r) == decoded_rgba(bytes@),
        r matches Some(img) ==> holds_pixels(img@),
{
    match image::load_from_memory(bytes) {
        Ok(img) => {
            let rgba = img.into_rgba8();
            Some(Raster { width: rgba.width(), height: rgba.height(), rgba: rgba.into_raw() })
        },
        Err(_) => None,
    }
}

/// What `image::write_buffer_with_format` writes for a `w` × `h` RGBA
/// image in PNG format, `None` when it reports an error.
pub uninterp spec fn png_encoding(w: u32, h: u32, rgba: Seq<u8>) -> Option<Seq<u8>>;

/// `image::write_buffer_with_format(.., rgba, w, h, Rgba8, Png)`, which
/// panics unless the buffer holds exactly `w` × `h` pixels. The text of
/// its error is not described here.
#[verifier::external_body]
fn encode_png(w: u32, h: u32, rgba: &[u8]) -> (r: Result<Vec<u8>, String>)
    requires
        rgba@.len() == 4 * w * h,
    ensures
        match r {
            Ok(png) => png_encoding(w, h, rgba@) == Some(png@),
            Err(_) => png_encoding(w, h, rgba@) is None,
        },
{
    let mut png = Vec::new();
    let mut cursor = std::io::Cursor::new(&mut png);
    match image::write_buffer_with_format(
        &mut cursor,
        rgba,
        w,
        h,
        image::ColorType::Rgba8,
        image::ImageFormat::Png,
    ) {
        Ok(()) => Ok(png),
        Err(e) => Err(e.to_string()),
    }
}

/// The image a base64 text holds, if it is the encoding of an image.
pub open spec fn image_of(text: Seq<char>) -> Option<(u32, u32, Seq<u8>)> {
    match crate::security::base64_bytes(text) {
        Some(bytes) => decoded_rgba(bytes),
        None => None,
    }
}

fn image_from_base64(text: &str) -> (r: Option<Raster>)
    ensures
        raster_view(r) == image_of(text@),
        r matches Some(img) ==> holds_pixels(img@),
{
    match crate::security::decode_base64(text) {
        Some(bytes) => load_rgba(bytes.as_slice()),
        None => None,
    }
}

/// The visual comparison of two rendered pages, each given as base64 PNG:
/// the width, height and base64 PNG of the comparison image. It fails with
/// `decode` when either page is not an image, and when the comparison
/// image would not fit in memory.
pub fn visual_diff(png_a: &str, png_b: &str) -> (r: Result<(u32, u32, String), SheafError>)
    ensures
        match (image_of(png_a@), image_of(png_b@)) {
            (Some(ia), Some(ib)) => {
                let w = max_u32(ia.0, ib.0);
                let h = max_u32(ia.1, ib.1);
                if 4 * w * h > usize::MAX {
                    r matches Err(SheafError::Pdf(m)) && m@ == "image too large"@
                } else {
                    match png_encoding(w, h, diff_image(ia, ib, w as nat, h as nat)) {
                        Some(png) => r matches Ok((rw, rh, text)) && rw == w && rh == h && text@
                            == crate::security::base64_of(png),
                        None => r matches Err(SheafError::Pdf(m)) && crate::text::is_prefix(
                            "png: "@,
                            m@,
                        ),
                    }
                }
            },
            _ => r matches Err(SheafError::Pdf(m)) && m@ == "decode"@,
        },
{
    let ia = image_from_base64(png_a);
    let ib = image_from_base64(png_b);
    let (ia, ib) = match (ia, ib) {
        (Some(ia), Some(ib)) => (ia, ib),
        _ => return Err(pdf_error("decode")),
    };
    let w: u32 = if ia.width >= ib.width {
        ia.width
    } else {
        ib.width
    };
    let h: u32 = if ia.height >= ib.height {
        ia.height
    } else {
        ib.height
    };
    proof {
        assert(w as u128 * h as u128 <= 0xffff_ffff_ffff_ffff_ffff_ffff_ffff_ffffu128 / 4) by (nonlinear_arith)
            requires
                w <= 0xffff_ffffu32,
                h <= 0xffff_ffffu32,
        ;
        assert(4 * (w as u128 * h as u128) == 4 * w * h) by (nonlinear_arith);
    }
    if 4 * (w as u128 * h as u128) > usize::MAX as u128 {
        return Err(pdf_error("image too large"));
    }
    let out = diff_rasters(&ia, &ib);
    match encode_png(out.width, out.height, out.rgba.as_slice()) {
        Ok(png) => Ok((w, h, crate::security::base64_standard(png.as_slice()))),
        Err(e) => {
            proof {
                reveal_strlit("png: ");
            }
            let mut m = chars_of("png: ");
            push_str(&mut m, e.as_str());
            assert(m@.subrange(0, 5) =~= "png: "@);
            Err(SheafError::Pdf(string_of(m.as_slice())))
        },
    }
}


// ---------- laws of the reports ----------
/// Every check that fails is reported as an issue, and every issue is the
/// detail of a check that failed, in the order of the checks.
pub proof fn lemma_issues_are_the_failed_checks(c: Seq<(Seq<char>, bool, Seq<char>)>)
    ensures
        forall|i: int| 0 <= i < c.len() && !c[i].1 ==> issues_of(c).contains(#[trigger] c[i].2),
        forall|j: int|
            0 <= j < issues_of(c).len() ==> exists|i: int|
                #![trigger c[i]]
                0 <= i < c.len() && !c[i].1 && c[i].2 == #[trigger] issues_of(c)[j],
        issues_of(c).len() <= c.len(),
    decreases c.len(),
{
    if c.len() > 0 {
        let d = c.drop_last();
        lemma_issues_are_the_failed_checks(d);
        let before = issues_of(d);
        assert forall|i: int| 0 <= i < c.len() && !c[i].1 implies issues_of(c).contains(
            #[trigger] c[i].2,
        ) by {
            if i < c.len() - 1 {
                assert(d[i] == c[i]);
                assert(before.contains(d[i].2));
                let k = choose|k: int| 0 <= k < before.len() && before[k] == d[i].2;
                assert(issues_of(c)[k] == before[k]);
            } else {
                assert(issues_of(c)[issues_of(c).len() - 1] == c.last().2);
            }
        }
        assert forall|j: int| 0 <= j < issues_of(c).len() implies exists|i: int|
            #![trigger c[i]]
            0 <= i < c.len() && !c[i].1 && c[i].2 == #[trigger] issues_of(c)[j] by {
            if j < before.len() {
                assert(issues_of(c)[j] == before[j]);
                let i = choose|i: int| #![trigger d[i]] 0 <= i < d.len() && !d[i].1 && d[i].2 == before[j];
                assert(c[i] == d[i]);
            } else {
                assert(issues_of(c)[j] == c.last().2);
                assert(c[c.len() - 1] == c.last());
            }
        }
    }
}

/// The title check comes first. A document without a title, or with a
/// blank one, fails it, and the failure is among the issues; a title with
/// text passes it.
pub proof fn lemma_title_check(f: DocumentFacts)
    ensures
        checks_of(f)[0].0 == "Document title"@,
        f.title is None ==> !checks_of(f)[0].1 && issues_of(checks_of(f)).contains(
            checks_of(f)[0].2,
        ),
        f.title matches Some(t) && trim(t@).len() == 0 ==> !checks_of(f)[0].1 && issues_of(
            checks_of(f),
        ).contains(checks_of(f)[0].2),
        f.title matches Some(t) && trim(t@).len() > 0 ==> checks_of(f)[0].1,
{
    lemma_issues_are_the_failed_checks(checks_of(f));
}

/// The sum of the three colour channels of a pixel inside an image.
pub open spec fn channel_sum(img: (u32, u32, Seq<u8>), x: int, y: int) -> int {
    let i = (y * img.0 + x) * 4;
    img.2[i] + img.2[i + 1] + img.2[i + 2]
}

/// The comparison sees a pixel only through the sum of its colour
/// channels: pages whose pixels have the same channel sums everywhere
/// compare alike, whatever their hues.
pub proof fn lemma_diff_sees_channel_sums(
    a: (u32, u32, Seq<u8>),
    a2: (u32, u32, Seq<u8>),
    b: (u32, u32, Seq<u8>),
    w: nat,
    h: nat,
)
    requires
        a.0 == a2.0,
        a.1 == a2.1,
        forall|x: int, y: int|
            0 <= x < a.0 && 0 <= y < a.1 ==> #[trigger] channel_sum(a, x, y) == channel_sum(a2, x, y),
    ensures
        diff_image(a, b, w, h) == diff_image(a2, b, w, h),
{
    assert forall|x: int, y: int| #[trigger] grey_at(a, x, y) == grey_at(a2, x, y) by {
        if 0 <= x < a.0 && 0 <= y < a.1 {
            assert(channel_sum(a, x, y) == channel_sum(a2, x, y));
        }
    }
    assert(diff_image(a, b, w, h) =~= diff_image(a2, b, w, h));
}

/// A pixel inside both pages is painted red when the mean of its colour
/// channels is more than 40 levels darker on the first page than on the
/// second, green when it is more than 40 darker on the second, and
/// otherwise a light grey (equal channels, at least 180).
pub proof fn lemma_marked_pixels(
    a: (u32, u32, Seq<u8>),
    b: (u32, u32, Seq<u8>),
    w: nat,
    h: nat,
    x: int,
    y: int,
)
    requires
        0 <= x < w,
        0 <= y < h,
        x < a.0 && y < a.1,
        x < b.0 && y < b.1,
    ensures
        ({
            let k = 4 * (y * w + x);
            let px = diff_image(a, b, w, h).subrange(k, k + 4);
            let ma = channel_sum(a, x, y) / 3;
            let mb = channel_sum(b, x, y) / 3;
            &&& ma + 40 < mb ==> px == seq![220u8, 30u8, 30u8, 255u8]
            &&& mb + 40 < ma ==> px == seq![30u8, 160u8, 60u8, 255u8]
            &&& (ma - mb <= 40 && mb - ma <= 40) ==> px[0] == px[1] && px[1] == px[2] && px[0] >= 180
                && px[3] == 255
        }),
{
    let p = y * w + x;
    let k = 4 * p;
    assert(0 <= p < w * h) by (nonlinear_arith)
        requires
            0 <= x < w,
            0 <= y < h,
            p == y * w + x,
    ;
    assert(k + 4 <= 4 * w * h) by (nonlinear_arith)
        requires
            k == 4 * p,
            p < w * h,
    ;
    vstd::arithmetic::div_mod::lemma_fundamental_div_mod_converse(p, w as int, y, x);
    let img = diff_image(a, b, w, h);
    let ga = grey_at(a, x, y);
    let gb = grey_at(b, x, y);
    assert forall|j: int| 0 <= j < 4 implies #[trigger] img.subrange(k, k + 4)[j] == diff_pixel(
        ga,
        gb,
    )[j] by {
        vstd::arithmetic::div_mod::lemma_fundamental_div_mod_converse(k + j, 4, p, j);
        assert(img[k + j] == diff_pixel(
            grey_at(a, ((k + j) / 4) % (w as int), ((k + j) / 4) / (w as int)),
            grey_at(b, ((k + j) / 4) % (w as int), ((k + j) / 4) / (w as int)),
        )[(k + j) % 4]);
    }
    assert(img.subrange(k, k + 4) =~= diff_pixel(ga, gb));
    assert(ga == channel_sum(a, x, y) / 3);
    assert(gb == channel_sum(b, x, y) / 3);
    let f = 180 + ga * 75 / 255;
    assert(0 <= ga <= 255);
    assert(0 <= ga * 75 / 255 <= 75) by (nonlinear_arith)
        requires
            0 <= ga <= 255,
    ;
}

} // verus!
