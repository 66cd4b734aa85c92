use sheaf::forms::{
    field_edit, field_flags, field_kind, FieldEdit, FIELD_CHECKBOX, FIELD_COMBOBOX,
    FIELD_LISTBOX, FIELD_PUSHBUTTON, FIELD_RADIOBUTTON, FIELD_SIGNATURE, FIELD_TEXTFIELD,
};

fn labels(v: &[&str]) -> Vec<String> {
    v.iter().map(|s| s.to_string()).collect()
}

#[test]
fn field_types_have_their_names() {
    assert_eq!(field_kind(FIELD_PUSHBUTTON), "button");
    assert_eq!(field_kind(FIELD_CHECKBOX), "checkbox");
    assert_eq!(field_kind(FIELD_RADIOBUTTON), "radio");
    assert_eq!(field_kind(FIELD_COMBOBOX), "combo");
    assert_eq!(field_kind(FIELD_LISTBOX), "listbox");
    assert_eq!(field_kind(FIELD_TEXTFIELD), "text");
    assert_eq!(field_kind(FIELD_SIGNATURE), "signature");
    assert_eq!(field_kind(0), "unknown");
    assert_eq!(field_kind(-1), "unknown");
}

#[test]
fn field_flags_are_read_from_their_bits() {
    let f = field_flags(1 | (1 << 12) | (1 << 21));
    assert!(f.readonly && f.multiline && f.multiselect);
    assert!(!f.required && !f.password);
    let g = field_flags((1 << 1) | (1 << 13));
    assert!(g.required && g.password && !g.readonly);
}

#[test]
fn read_only_fields_are_refused_first() {
    assert_eq!(field_edit(FIELD_TEXTFIELD, 1, "x", &Vec::new(), false), FieldEdit::ReadOnly);
    assert_eq!(field_edit(FIELD_PUSHBUTTON, 0, "x", &Vec::new(), false), FieldEdit::Unsupported);
    assert_eq!(field_edit(FIELD_TEXTFIELD, 2, "x", &Vec::new(), false), FieldEdit::ReplaceText);
}

#[test]
fn combo_boxes_select_a_matching_label_or_type_the_value() {
    let opts = labels(&["Red", "Green", "green"]);
    assert_eq!(field_edit(FIELD_COMBOBOX, 0, "GREEN", &opts, false), FieldEdit::SelectOption(1));
    assert_eq!(field_edit(FIELD_COMBOBOX, 0, "Blue", &opts, false), FieldEdit::ReplaceText);
}

#[test]
fn checkboxes_are_clicked_only_to_change_state() {
    assert_eq!(field_edit(FIELD_CHECKBOX, 0, "Yes", &Vec::new(), false), FieldEdit::Toggle);
    assert_eq!(field_edit(FIELD_CHECKBOX, 0, "Yes", &Vec::new(), true), FieldEdit::Keep);
    assert_eq!(field_edit(FIELD_RADIOBUTTON, 0, "off", &Vec::new(), true), FieldEdit::Toggle);
    assert_eq!(field_edit(FIELD_RADIOBUTTON, 0, "Off", &Vec::new(), true), FieldEdit::Keep);
}

#[test]
fn list_boxes_select_the_lines_of_the_value() {
    let opts = labels(&["S", "M", "L", ""]);
    assert_eq!(
        field_edit(FIELD_LISTBOX, 0, "L\n\nS", &opts, false),
        FieldEdit::Select(vec![true, false, true, false])
    );
}
