use sheaf::edit::{link_target, object_kind, PAGEOBJ_FORM, PAGEOBJ_IMAGE, PAGEOBJ_PATH, PAGEOBJ_SHADING, PAGEOBJ_TEXT};

#[test]
fn page_objects_have_their_names() {
    assert_eq!(object_kind(PAGEOBJ_TEXT), "text");
    assert_eq!(object_kind(PAGEOBJ_PATH), "path");
    assert_eq!(object_kind(PAGEOBJ_IMAGE), "image");
    assert_eq!(object_kind(PAGEOBJ_SHADING), "shading");
    assert_eq!(object_kind(PAGEOBJ_FORM), "form");
    assert_eq!(object_kind(0), "unknown");
}

#[test]
fn links_prefer_a_url_then_a_page() {
    assert_eq!(link_target(&Some("  https://x.org ".into()), Some(3)), Some("https://x.org".into()));
    assert_eq!(link_target(&Some("   ".into()), Some(3)), Some("#page=4".into()));
    assert_eq!(link_target(&None, Some(0)), Some("#page=1".into()));
    assert_eq!(link_target(&Some(String::new()), None), None);
    assert_eq!(link_target(&None, None), None);
}
