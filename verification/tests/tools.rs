use base64::Engine as _;
use sheaf::error::SheafError;
use sheaf::tools::{
    accessibility_report, compare_text, diff_rasters, page_diff, visual_diff, DocumentFacts,
    PageContent, Raster,
};

fn png_b64(w: u32, h: u32, rgba: Vec<u8>) -> String {
    let img = image::RgbaImage::from_raw(w, h, rgba).unwrap();
    let mut png = Vec::new();
    img.write_to(&mut std::io::Cursor::new(&mut png), image::ImageFormat::Png).unwrap();
    base64::engine::general_purpose::STANDARD.encode(png)
}

const BLACK: [u8; 4] = [0, 0, 0, 255];
const WHITE: [u8; 4] = [255, 255, 255, 255];

#[test]
fn visual_diff_marks_pixels_only_one_page_has() {
    let a = png_b64(2, 1, [BLACK, WHITE].concat());
    let b = png_b64(2, 1, [WHITE, BLACK].concat());
    let (w, h, out) = visual_diff(&a, &b).unwrap();
    assert_eq!((w, h), (2, 1));
    let bytes = base64::engine::general_purpose::STANDARD.decode(out).unwrap();
    let img = image::load_from_memory(&bytes).unwrap().into_rgba8();
    assert_eq!(img.into_raw(), vec![220, 30, 30, 255, 30, 160, 60, 255]);
}

#[test]
fn diff_covers_the_larger_page_and_fades_agreement() {
    let a = Raster { width: 1, height: 1, rgba: vec![90, 90, 90, 255] };
    let b = Raster { width: 2, height: 1, rgba: [[100, 100, 100, 255], WHITE].concat() };
    let r = diff_rasters(&a, &b);
    assert_eq!((r.width, r.height), (2, 1));
    // 180 + 90 * 75 / 255 = 206; outside the first page both read as white.
    assert_eq!(r.rgba, vec![206, 206, 206, 255, 255, 255, 255, 255]);
}

#[test]
fn visual_diff_rejects_what_is_not_an_image() {
    let a = png_b64(1, 1, WHITE.to_vec());
    match visual_diff(&a, "not base64") {
        Err(SheafError::Pdf(m)) => assert_eq!(m, "decode"),
        other => panic!("unexpected {other:?}"),
    }
    match visual_diff("aGk=", &a) {
        Err(SheafError::Pdf(m)) => assert_eq!(m, "decode"),
        other => panic!("unexpected {other:?}"),
    }
}


#[test]
fn word_diff_merges_runs_of_one_kind() {
    let r = compare_text(
        &vec!["the quick brown fox".to_owned(), "same".to_owned()],
        &vec!["the slow brown fox".to_owned()],
    );
    assert_eq!(r.pages.len(), 2);
    let p0 = &r.pages[0];
    assert_eq!(p0.page, 0);
    assert_eq!(p0.inserted, 1);
    assert_eq!(p0.deleted, 1);
    let kinds: Vec<&str> = p0.segments.iter().map(|s| s.kind.as_str()).collect();
    assert_eq!(kinds, vec!["equal", "delete", "insert", "equal"]);
    let old: String = p0
        .segments
        .iter()
        .filter(|s| s.kind != "insert")
        .map(|s| s.text.as_str())
        .collect();
    assert_eq!(old, "the quick brown fox");
    let p1 = &r.pages[1];
    assert_eq!(p1.deleted, 1);
    assert_eq!(p1.inserted, 0);
    assert_eq!(r.inserted, 1);
    assert_eq!(r.deleted, 2);
}

#[test]
fn identical_pages_have_one_equal_segment() {
    let d = page_diff(3, &vec![(0, "a ".to_owned()), (0, "b".to_owned())]);
    assert_eq!(d.page, 3);
    assert_eq!(d.segments.len(), 1);
    assert_eq!(d.segments[0].text, "a b");
    assert_eq!((d.inserted, d.deleted), (0, 0));
}

fn facts(pages: Vec<PageContent>) -> DocumentFacts {
    DocumentFacts {
        title: Some("Report".to_owned()),
        tagged: false,
        lang: None,
        pages,
        has_outline: false,
    }
}

#[test]
fn accessibility_flags_scans_and_untagged_images() {
    let f = facts(vec![
        PageContent { has_text: true, images: 0 },
        PageContent { has_text: false, images: 2 },
        PageContent { has_text: false, images: 0 },
    ]);
    let r = accessibility_report(&f);
    let names: Vec<&str> = r.checks.iter().map(|c| c.name.as_str()).collect();
    assert_eq!(
        names,
        vec![
            "Document title",
            "Tagged PDF",
            "Language",
            "Text on every page",
            "Image alternative text",
            "Bookmarks"
        ]
    );
    assert!(r.checks[0].ok);
    assert_eq!(r.checks[0].detail, "Title is set.");
    assert_eq!(r.checks[2].detail, "No /Lang set on the document.");
    assert_eq!(
        r.checks[3].detail,
        "Pages without text (likely scans): [2, 3]. Run OCR to add a text layer."
    );
    assert_eq!(
        r.checks[4].detail,
        "2 image(s) with no alternative text (document is untagged)."
    );
    assert!(r.checks[5].ok);
    assert_eq!(r.checks[5].detail, "Short document; bookmarks optional.");
    let failed: Vec<String> = r.checks.iter().filter(|c| !c.ok).map(|c| c.detail.clone()).collect();
    assert_eq!(r.issues, failed);
    assert_eq!(r.issues.len(), 4);
}

#[test]
fn a_clean_document_has_no_issues() {
    let mut f = facts(vec![PageContent { has_text: true, images: 1 }; 12]);
    f.tagged = true;
    f.lang = Some("en-GB".to_owned());
    f.has_outline = true;
    let r = accessibility_report(&f);
    assert!(r.issues.is_empty(), "{:?}", r.issues);
    assert_eq!(r.checks[2].detail, "Language is en-GB.");
    assert_eq!(r.checks[4].detail, "12 image(s); check alt text in the structure tree.");
    assert_eq!(r.checks[5].detail, "Document has bookmarks.");
    let blank_title = DocumentFacts { title: Some("  ".to_owned()), ..f };
    let r = accessibility_report(&blank_title);
    assert!(!r.checks[0].ok);
    assert_eq!(r.checks[0].detail, "Title is set.");
}
