use sheaf::edit::export_text;
use sheaf::engine::{
    search_context, search_flags, version_text,
    fmt_color, has_signatures, import_value, pages_to_delete, parse_color, parse_stamp_position,
    parse_xfdf_fields, rotated, rotation_steps, stamp_targets, stamp_text, xfdf_document,
    xfdf_values, xml_escape, xml_unescape, AnnotKind, Color, History, StampPosition, XfdfField,
    MAX_UNDO,
};
use sheaf::error::SheafError;

fn snap(b: u8) -> Vec<u8> {
    vec![b]
}

#[test]
fn undo_then_redo_restores_both_stacks() {
    let mut h = History::new();
    assert!(!h.can_undo() && !h.can_redo() && !h.modified);
    h.checkpoint(snap(1));
    h.checkpoint(snap(2));
    assert_eq!(h.undo, vec![snap(1), snap(2)]);
    assert!(h.modified);
    let back = h.step(true, snap(3)).unwrap();
    assert_eq!(back, snap(2));
    assert_eq!(h.undo, vec![snap(1)]);
    assert_eq!(h.redo, vec![snap(3)]);
    let forward = h.step(false, back).unwrap();
    assert_eq!(forward, snap(3));
    assert_eq!(h.undo, vec![snap(1), snap(2)]);
    assert!(h.redo.is_empty());
}

#[test]
fn nothing_to_undo_changes_nothing() {
    let mut h = History::new();
    assert_eq!(h.step(true, snap(9)), None);
    assert_eq!(h.step(false, snap(9)), None);
    assert!(h.undo.is_empty() && h.redo.is_empty() && !h.modified);
}

#[test]
fn an_edit_forgets_the_redo_steps() {
    let mut h = History::new();
    h.checkpoint(snap(1));
    h.step(true, snap(2));
    assert!(h.can_redo());
    h.checkpoint(snap(3));
    assert!(!h.can_redo());
    assert_eq!(h.undo, vec![snap(3)]);
}

#[test]
fn only_the_last_forty_edits_can_be_undone() {
    let mut h = History::new();
    for i in 0..(MAX_UNDO as u8 + 5) {
        h.checkpoint(snap(i));
    }
    assert_eq!(h.undo.len(), MAX_UNDO);
    assert_eq!(h.undo[0], snap(5));
    assert_eq!(h.undo[MAX_UNDO - 1], snap(MAX_UNDO as u8 + 4));
}

#[test]
fn failed_edits_and_batches_leave_one_step() {
    let mut h = History::new();
    h.checkpoint(snap(1));
    h.checkpoint(snap(2));
    h.discard_checkpoint();
    assert_eq!(h.undo, vec![snap(1)]);
    h.checkpoint(snap(3));
    h.checkpoint(snap(4));
    h.keep_undo(2);
    assert_eq!(h.undo, vec![snap(1), snap(3)]);
    h.keep_undo(5);
    assert_eq!(h.undo.len(), 2);
}

#[test]
fn signatures_are_detected_by_their_byte_range() {
    assert!(has_signatures(b"<< /ByteRange [0 1 2 3] >>"));
    assert!(!has_signatures(b"<< /Byte Range >>"));
}

#[test]
fn xml_escaping_round_trips() {
    assert_eq!(xml_escape("a<b>&\"c'"), "a&lt;b&gt;&amp;&quot;c'");
    assert_eq!(xml_unescape("a&lt;b&gt;&amp;&quot;c&apos;"), "a<b>&\"c'");
    assert_eq!(xml_unescape("&amp;lt;"), "&lt;");
    for s in ["", "plain", "&lt;", "<&>", "&apos;&amp;\"", "a&b;c"] {
        assert_eq!(xml_unescape(&xml_escape(s)), s);
    }
}

#[test]
fn xfdf_reader_follows_nested_fields() {
    let xml = "<?xml version=\"1.0\"?>\n<xfdf><fields>\
        <field name=\"a\"><value> one </value></field>\
        <field name=\"p\"><field name=\"q\"><value>x&amp;y</value><value>z</value></field></field>\
        <field name=\"self\"/>\
        <field name=\"b\"><value/></field>\
        <field name=\"a\"><value>two</value></field>\
        </fields></xfdf>";
    let v = parse_xfdf_fields(xml);
    assert_eq!(
        v,
        vec![
            ("a".to_owned(), vec!["one".to_owned(), "two".to_owned()]),
            ("p.q".to_owned(), vec!["x&y".to_owned(), "z".to_owned()]),
        ]
    );
    match xfdf_values("<xfdf></xfdf>") {
        Err(SheafError::Pdf(m)) => assert_eq!(m, "no <field> entries found in XFDF"),
        other => panic!("unexpected {other:?}"),
    }
}

fn field(name: &str, kind: &str, value: &str, checked: bool, export: &str) -> XfdfField {
    XfdfField {
        name: name.to_owned(),
        kind: kind.to_owned(),
        value: value.to_owned(),
        checked,
        export_value: export.to_owned(),
        selected: Vec::new(),
    }
}

#[test]
fn xfdf_export_groups_by_name() {
    let mut list = field("sizes", "listbox", "", false, "");
    list.selected = vec!["S".to_owned(), "L".to_owned()];
    let fields = vec![
        field("name", "text", "Brian <B>", false, ""),
        field("color", "radio", "", false, "red"),
        field("color", "radio", "", true, "green"),
        field("agree", "checkbox", "", false, ""),
        field("sig", "signature", "", false, ""),
        list,
        field("comments", "text", "a\nb", false, ""),
    ];
    let xml = xfdf_document("/tmp/f&o.pdf", &fields);
    assert_eq!(
        xml,
        "<?xml version=\"1.0\" encoding=\"UTF-8\"?>\n<xfdf xmlns=\"http://ns.adobe.com/xfdf/\" xml:space=\"preserve\">\n  <fields>\n\
         \x20   <field name=\"name\"><value>Brian &lt;B&gt;</value></field>\n\
         \x20   <field name=\"color\"><value>green</value></field>\n\
         \x20   <field name=\"agree\"><value>Off</value></field>\n\
         \x20   <field name=\"sizes\"><value>S</value><value>L</value></field>\n\
         \x20   <field name=\"comments\"><value>a\nb</value></field>\n\
         \x20 </fields>\n  <f href=\"/tmp/f&amp;o.pdf\"/>\n</xfdf>\n"
    );
    let back = parse_xfdf_fields(&xml);
    assert_eq!(back[0], ("name".to_owned(), vec!["Brian <B>".to_owned()]));
    assert_eq!(back[1], ("color".to_owned(), vec!["green".to_owned()]));
    assert_eq!(back[3], ("sizes".to_owned(), vec!["S".to_owned(), "L".to_owned()]));
}

#[test]
fn xfdf_round_trip_trims_values_and_splits_lines() {
    let fields = vec![
        field("title", "text", "  padded  ", false, ""),
        field("notes", "text", " one \ntwo", false, ""),
        field("a&b", "text", "\"q\"", false, ""),
    ];
    let back = parse_xfdf_fields(&xfdf_document("x.pdf", &fields));
    assert_eq!(back.len(), 3);
    assert_eq!(back[0], ("title".to_owned(), vec!["padded".to_owned()]));
    assert_eq!(back[1], ("notes".to_owned(), vec!["one".to_owned(), "two".to_owned()]));
    assert_eq!(back[2], ("a&b".to_owned(), vec!["\"q\"".to_owned()]));
}

#[test]
fn importing_an_export_restores_each_field() {
    let fields = vec![
        field("name", "text", " Brian ", false, ""),
        field("agree", "checkbox", "", true, "Yes"),
        field("color", "radio", "", false, "red"),
        field("color", "radio", "", true, "green"),
        field("sig", "signature", "", false, ""),
    ];
    let values = xfdf_values(&xfdf_document("f.pdf", &fields)).unwrap();
    let got: Vec<Option<String>> = fields.iter().map(|f| import_value(&values, f)).collect();
    assert_eq!(
        got,
        vec![Some("Brian".to_owned()), Some("on".to_owned()), None, Some("on".to_owned()), None]
    );
}

#[test]
fn xfdf_reader_ignores_everything_outside_fields() {
    assert!(parse_xfdf_fields(r#"<field name="z"><value>q</value></field>"#).is_empty());
    let xml = r#"<xfdf><field name="a"><value>1</value></field><fields><field name="b"><value>2</value></field></fields><field name="c"><value>3</value></field></xfdf>"#;
    assert_eq!(parse_xfdf_fields(xml), vec![("b".to_owned(), vec!["2".to_owned()])]);
}

#[test]
fn xfdf_name_ending_in_the_attribute_is_cut() {
    let fields = vec![field("xname=", "text", "v", false, "")];
    let back = parse_xfdf_fields(&xfdf_document("x.pdf", &fields));
    assert_eq!(back, vec![("x".to_owned(), vec!["v".to_owned()])]);
}

#[test]
fn xfdf_import_decides_per_widget_kind() {
    let entries = vec![
        ("agree".to_owned(), vec!["OFF".to_owned()]),
        ("color".to_owned(), vec!["green".to_owned()]),
        ("name".to_owned(), vec!["Ada".to_owned(), "ignored".to_owned()]),
        ("sizes".to_owned(), vec!["S".to_owned(), "L".to_owned()]),
        ("ok".to_owned(), vec![]),
    ];
    assert_eq!(import_value(&entries, &field("agree", "checkbox", "", false, "")), Some("off".to_owned()));
    assert_eq!(import_value(&entries, &field("ok", "checkbox", "", false, "")), Some("off".to_owned()));
    assert_eq!(import_value(&entries, &field("color", "radio", "", false, "green")), Some("on".to_owned()));
    assert_eq!(import_value(&entries, &field("color", "radio", "", false, "red")), None);
    assert_eq!(import_value(&entries, &field("name", "text", "", false, "")), Some("Ada".to_owned()));
    assert_eq!(import_value(&entries, &field("ok", "combo", "", false, "")), Some(String::new()));
    assert_eq!(import_value(&entries, &field("sizes", "listbox", "", false, "")), Some("S\nL".to_owned()));
    assert_eq!(import_value(&entries, &field("name", "button", "", false, "")), None);
    assert_eq!(import_value(&entries, &field("missing", "text", "", false, "")), None);
}

#[test]
fn annotation_kinds_round_trip_through_subtypes() {
    for k in [
        AnnotKind::Text,
        AnnotKind::FreeText,
        AnnotKind::Square,
        AnnotKind::Circle,
        AnnotKind::Highlight,
        AnnotKind::Underline,
        AnnotKind::Squiggly,
        AnnotKind::StrikeOut,
        AnnotKind::Ink,
        AnnotKind::Stamp,
    ] {
        assert_eq!(AnnotKind::from_subtype(k.subtype().unwrap()), k);
    }
    assert_eq!(AnnotKind::Link.subtype(), None);
    assert_eq!(AnnotKind::from_subtype(2), AnnotKind::Link);
    assert_eq!(AnnotKind::from_subtype(28), AnnotKind::Redact);
    assert_eq!(AnnotKind::from_subtype(14), AnnotKind::Other);
}

#[test]
fn search_context_shows_thirty_characters_each_side() {
    let text: Vec<char> = "0123456789".repeat(8).chars().collect();
    let c = search_context(&text, 40, 5);
    assert_eq!(c.chars().count(), 65);
    assert_eq!(c, text[10..75].iter().collect::<String>());
    let short: Vec<char> = "a\tb\nc".chars().collect();
    assert_eq!(search_context(&short, 2, 1), "a b c");
    assert_eq!(search_flags(true, false), 1);
    assert_eq!(search_flags(false, true), 2);
    assert_eq!(search_flags(true, true), 3);
}

#[test]
fn pdf_versions_read_as_major_and_minor() {
    assert_eq!(version_text(17), "1.7");
    assert_eq!(version_text(20), "2.0");
    assert_eq!(version_text(0), "0.0");
    assert_eq!(version_text(-15), format!("{}.{}", -15 / 10, -15 % 10));
}

#[test]
fn only_markup_annotations_are_editable() {
    assert!(AnnotKind::Highlight.editable());
    assert!(AnnotKind::Redact.editable());
    assert!(!AnnotKind::Widget.editable());
    assert!(!AnnotKind::Link.editable());
    assert!(!AnnotKind::Popup.editable());
    assert!(!AnnotKind::Other.editable());
}

#[test]
fn colours_are_kept_as_decimal_triples() {
    let c = Color { r: 255, g: 0, b: 17 };
    assert_eq!(fmt_color(c), "255,0,17");
    assert_eq!(parse_color("255,0,17"), Some(c));
    assert_eq!(parse_color(" 1 , +2 ,003,extra"), Some(Color { r: 1, g: 2, b: 3 }));
    assert_eq!(parse_color("256,0,0"), None);
    assert_eq!(parse_color("1,2"), None);
    assert_eq!(parse_color("1,,2"), None);
    assert_eq!(parse_color("-1,2,3"), None);
}

#[test]
fn rotating_back_restores_the_page() {
    for c in 0..4 {
        for k in [-7, -1, 1, 2, 5] {
            assert_eq!(rotated(rotated(c, 90 * k), -90 * k), c);
            assert_eq!(rotated(rotated(c, 90 * k), 270), rotated(c, 90 * (k + 3)));
        }
    }
}

#[test]
fn rotation_counts_whole_quarter_turns() {
    assert_eq!(rotation_steps(90), 1);
    assert_eq!(rotation_steps(180), 2);
    assert_eq!(rotation_steps(-90), 3);
    assert_eq!(rotation_steps(45), 0);
    assert_eq!(rotation_steps(-45), 3);
    assert_eq!(rotation_steps(450), 1);
    assert_eq!(rotated(3, 90), 0);
    assert_eq!(rotated(1, -90), 0);
    assert_eq!(rotated(-1, 0), 3);
    assert_eq!(rotation_steps(i32::MIN), rotation_steps(i32::MIN));
}

#[test]
fn deleting_pages_goes_from_the_back_once_each() {
    assert_eq!(pages_to_delete(10, &[3, 1, 3, 7]).unwrap(), vec![7, 3, 1]);
    match pages_to_delete(2, &[0, 1]) {
        Err(SheafError::Pdf(m)) => assert_eq!(m, "cannot delete every page"),
        other => panic!("unexpected {other:?}"),
    }
    assert_eq!(pages_to_delete(1, &[]).unwrap(), Vec::<u16>::new());
}

#[test]
fn stamp_text_numbers_pages() {
    assert_eq!(stamp_text("Page {n} of {total}", 1, 4, 9, 0), "Page 5 of 9");
    assert_eq!(stamp_text("DOC-{bates}", 40, 2, 9, 6), "DOC-000042");
    assert_eq!(stamp_text("{bates}{n}", 7, 0, 1, 0), "77");
    assert_eq!(stamp_targets(&[], 3), vec![0, 1, 2]);
    assert_eq!(stamp_targets(&[2, 0], 3), vec![2, 0]);
    assert_eq!(parse_stamp_position("watermark").unwrap(), StampPosition::Watermark);
    assert_eq!(parse_stamp_position("footer-center").unwrap(), StampPosition::FooterCenter);
    match parse_stamp_position("middle") {
        Err(SheafError::Pdf(m)) => assert_eq!(m, "unknown stamp position middle"),
        other => panic!("unexpected {other:?}"),
    }
}

#[test]
fn exported_text_separates_pages_with_form_feeds() {
    assert_eq!(export_text(&vec![]), "");
    assert_eq!(export_text(&vec!["a".to_owned()]), "a\n");
    assert_eq!(export_text(&vec!["a".to_owned(), "b".to_owned()]), "a\n\u{c}\nb\n");
}
