//! Form widgets: what PDFium's field type and flag numbers mean, and how a
//! new value is applied to a widget of each kind.
use vstd::prelude::*;

use crate::paths::{split_chars, split_on, views};
use crate::text::{chars_eq, chars_of, eq_ignore_ascii_case, eq_ignore_ascii_case_chars};

verus! {

// Form field types of `fpdf_formfill.h`.
pub const FIELD_PUSHBUTTON: i32 = 1;
pub const FIELD_CHECKBOX: i32 = 2;
pub const FIELD_RADIOBUTTON: i32 = 3;
pub const FIELD_COMBOBOX: i32 = 4;
pub const FIELD_LISTBOX: i32 = 5;
pub const FIELD_TEXTFIELD: i32 = 6;
pub const FIELD_SIGNATURE: i32 = 7;

/// The name of a field type as the frontend and XFDF know it.
pub open spec fn field_kind_of(ty: i32) -> Seq<char> {
    if ty == FIELD_PUSHBUTTON {
        "button"@
    } else if ty == FIELD_CHECKBOX {
        "checkbox"@
    } else if ty == FIELD_RADIOBUTTON {
        "radio"@
    } else if ty == FIELD_COMBOBOX {
        "combo"@
    } else if ty == FIELD_LISTBOX {
        "listbox"@
    } else if ty == FIELD_TEXTFIELD {
        "text"@
    } else if ty == FIELD_SIGNATURE {
        "signature"@
    } else {
        "unknown"@
    }
}

pub fn field_kind(ty: i32) -> (r: String)
    ensures
        r@ == field_kind_of(ty),
{
    let k = if ty == FIELD_PUSHBUTTON {
        "button"
    } else if ty == FIELD_CHECKBOX {
        "checkbox"
    } else if ty == FIELD_RADIOBUTTON {
        "radio"
    } else if ty == FIELD_COMBOBOX {
        "combo"
    } else if ty == FIELD_LISTBOX {
        "listbox"
    } else if ty == FIELD_TEXTFIELD {
        "text"
    } else if ty == FIELD_SIGNATURE {
        "signature"
    } else {
        "unknown"
    };
    k.to_owned()
}

// Field flags (PDF 1.7, tables 221, 226 and 230).
pub const FLAG_READONLY: u32 = 1;
pub const FLAG_REQUIRED: u32 = 2;
pub const FLAG_MULTILINE: u32 = 4096;
pub const FLAG_PASSWORD: u32 = 8192;
pub const FLAG_MULTISELECT: u32 = 2097152;

/// The field flags the editor shows.
#[derive(Debug, Clone, Copy, PartialEq, Eq, Structural)]
pub struct FieldFlags {
    pub readonly: bool,
    pub required: bool,
    pub multiline: bool,
    pub password: bool,
    pub multiselect: bool,
}

pub fn field_flags(flags: u32) -> (r: FieldFlags)
    ensures
        r.readonly == (flags & FLAG_READONLY != 0),
        r.required == (flags & FLAG_REQUIRED != 0),
        r.multiline == (flags & FLAG_MULTILINE != 0),
        r.password == (flags & FLAG_PASSWORD != 0),
        r.multiselect == (flags & FLAG_MULTISELECT != 0),
{
    FieldFlags {
        readonly: flags & FLAG_READONLY != 0,
        required: flags & FLAG_REQUIRED != 0,
        multiline: flags & FLAG_MULTILINE != 0,
        password: flags & FLAG_PASSWORD != 0,
        multiselect: flags & FLAG_MULTISELECT != 0,
    }
}

/// What setting a widget's value does through the form-fill environment.
#[derive(Debug, Clone, PartialEq, Eq)]
pub enum FieldEdit {
    /// Refused: the field is read-only.
    ReadOnly,
    /// Refused: a field of this type cannot be set.
    Unsupported,
    /// Select all of the widget's text and type the value over it.
    ReplaceText,
    /// Select the option at this index.
    SelectOption(u32),
    /// Click the widget once to flip its state.
    Toggle,
    /// The widget is already as wanted.
    Keep,
    /// Select exactly the options marked `true`, one flag per option.
    Select(Vec<bool>),
}

/// The first option whose label equals `value`, ignoring ASCII case.
pub open spec fn option_index_from(labels: Seq<Seq<char>>, value: Seq<char>, i: nat) -> Option<nat>
    decreases labels.len() - i,
{
    if i >= labels.len() {
        None
    } else if eq_ignore_ascii_case(labels[i as int], value) {
        Some(i)
    } else {
        option_index_from(labels, value, i + 1)
    }
}

/// Whether a list box option is one of the non-empty lines of `value`.
pub open spec fn line_selected(value: Seq<char>, label: Seq<char>) -> bool {
    label.len() > 0 && split_on(value, '\n').contains(label)
}

/// A checkbox or radio button is wanted on unless the value is `off`.
pub open spec fn wants_on(value: Seq<char>) -> bool {
    value != "off"@
}

fn option_index(labels: &Vec<String>, value: &str) -> (r: Option<u32>)
    requires
        labels@.len() <= i32::MAX,
    ensures
        match option_index_from(crate::security::texts(labels@), value@, 0) {
            Some(i) => r == Some(i as u32),
            None => r is None,
        },
{
    let ghost ls = crate::security::texts(labels@);
    let v = chars_of(value);
    let mut i: usize = 0;
    while i < labels.len()
        invariant
            labels@.len() <= i32::MAX,
            ls == crate::security::texts(labels@),
            v@ == value@,
            i <= labels@.len(),
            option_index_from(ls, value@, 0) == option_index_from(ls, value@, i as nat),
        decreases labels.len() - i,
    {
        if eq_ignore_ascii_case_chars(chars_of(labels[i].as_str()).as_slice(), v.as_slice()) {
            return Some(i as u32);
        }
        i = i + 1;
    }
    None
}

fn contains_line(lines: &Vec<Vec<char>>, label: &[char]) -> (r: bool)
    ensures
        r == views(lines@).contains(label@),
{
    let mut i: usize = 0;
    while i < lines.len()
        invariant
            i <= lines@.len(),
            forall|k: int| 0 <= k < i ==> views(lines@)[k] != label@,
        decreases lines.len() - i,
    {
        if chars_eq(lines[i].as_slice(), label) {
            assert(views(lines@)[i as int] == label@);
            return true;
        }
        i = i + 1;
    }
    assert(!views(lines@).contains(label@)) by {
        if views(lines@).contains(label@) {
            let k = choose|k: int| 0 <= k < views(lines@).len() && views(lines@)[k] == label@;
            assert(views(lines@)[k] != label@);
        }
    }
    false
}

/// How a new value is applied to a widget of type `ty` with field flags
/// `flags`: read-only fields are refused; a text field is typed over; a
/// combo box selects the first option whose label matches (ignoring ASCII
/// case), else is typed over; a checkbox or radio button is clicked when
/// its state differs from the one wanted (on unless the value is `off`); a
/// list box selects the options among the value's non-empty lines; other
/// types are refused.
pub fn field_edit(ty: i32, flags: u32, value: &str, labels: &Vec<String>, checked: bool) -> (r:
    FieldEdit)
    requires
        labels@.len() <= i32::MAX,
    ensures
        flags & FLAG_READONLY != 0 ==> r is ReadOnly,
        flags & FLAG_READONLY == 0 ==> {
            let ls = crate::security::texts(labels@);
            if ty == FIELD_TEXTFIELD {
                r is ReplaceText
            } else if ty == FIELD_COMBOBOX {
                match option_index_from(ls, value@, 0) {
                    Some(i) => r == FieldEdit::SelectOption(i as u32),
                    None => r is ReplaceText,
                }
            } else if ty == FIELD_CHECKBOX || ty == FIELD_RADIOBUTTON {
                if checked != wants_on(value@) {
                    r is Toggle
                } else {
                    r is Keep
                }
            } else if ty == FIELD_LISTBOX {
                r matches FieldEdit::Select(v) && v@.len() == ls.len() && forall|i: int|
                    0 <= i < ls.len() ==> v@[i] == line_selected(value@, #[trigger] ls[i])
            } else {
                r is Unsupported
            }
        },
{
    if flags & FLAG_READONLY != 0 {
        return FieldEdit::ReadOnly;
    }
    if ty == FIELD_TEXTFIELD {
        FieldEdit::ReplaceText
    } else if ty == FIELD_COMBOBOX {
        match option_index(labels, value) {
            Some(i) => FieldEdit::SelectOption(i),
            None => FieldEdit::ReplaceText,
        }
    } else if ty == FIELD_CHECKBOX || ty == FIELD_RADIOBUTTON {
        proof {
            reveal_strlit("off");
        }
        let off = chars_of("off");
        let want = !chars_eq(chars_of(value).as_slice(), off.as_slice());
        if checked != want {
            FieldEdit::Toggle
        } else {
            FieldEdit::Keep
        }
    } else if ty == FIELD_LISTBOX {
        let lines = split_chars(chars_of(value).as_slice(), '\n');
        let ghost ls = crate::security::texts(labels@);
        let mut v: Vec<bool> = Vec::new();
        let mut i: usize = 0;
        while i < labels.len()
            invariant
                ls == crate::security::texts(labels@),
                views(lines@) == split_on(value@, '\n'),
                i <= labels@.len(),
                v@.len() == i,
                forall|k: int| 0 <= k < i ==> v@[k] == line_selected(value@, #[trigger] ls[k]),
            decreases labels.len() - i,
        {
            let label = chars_of(labels[i].as_str());
            let sel = label.len() > 0 && contains_line(&lines, label.as_slice());
            v.push(sel);
            i = i + 1;
        }
        FieldEdit::Select(v)
    } else {
        FieldEdit::Unsupported
    }
}

} // verus!
