//! The decisions of the PDF engine that do not need PDFium: the undo history
//! of an open document, XFDF form data, annotation kinds and colours, page
//! rotation and deletion, and stamped text.
//!
//! The engine thread in the application owns the PDFium handles; it asks
//! this module what to keep, what to write and in which order.
use vstd::prelude::*;

use crate::error::{pdf_error, SheafError};
use crate::paths::join_with;
use crate::security::{copy_bytes, find, first_from};
use crate::text::{
    chars_eq, chars_of, decimal, decimal_chars, push_all, push_str, string_of, trim, zero_pad,
    zero_pad_chars,
};

verus! {

// ---------- undo history ----------
/// How many edits can be undone; older snapshots are dropped.
pub const MAX_UNDO: usize = 40;

/// The serialized states of a document before each edit (`undo`) and after
/// each undone edit (`redo`), most recent last.
#[derive(Debug, Clone)]
pub struct History {
    pub undo: Vec<Vec<u8>>,
    pub redo: Vec<Vec<u8>>,
    /// Whether the document changed since it was opened or saved.
    pub modified: bool,
}

pub open spec fn snapshots(v: Seq<Vec<u8>>) -> Seq<Seq<u8>> {
    v.map_values(|x: Vec<u8>| x@)
}

impl History {
    pub open spec fn undo_view(&self) -> Seq<Seq<u8>> {
        snapshots(self.undo@)
    }

    pub open spec fn redo_view(&self) -> Seq<Seq<u8>> {
        snapshots(self.redo@)
    }

    /// Never more than `MAX_UNDO` snapshots in both stacks together: an edit
    /// bounds the undo stack and clears the redo stack, and undo and redo
    /// only move one snapshot between them.
    pub open spec fn wf(&self) -> bool {
        self.undo@.len() + self.redo@.len() <= MAX_UNDO
    }

    /// A fresh history: nothing to undo or redo, nothing modified.
    pub fn new() -> (r: History)
        ensures
            r.wf(),
            r.undo_view() == Seq::<Seq<u8>>::empty(),
            r.redo_view() == Seq::<Seq<u8>>::empty(),
            !r.modified,
    {
        let r = History { undo: Vec::new(), redo: Vec::new(), modified: false };
        assert(r.undo_view() =~= Seq::<Seq<u8>>::empty());
        assert(r.redo_view() =~= Seq::<Seq<u8>>::empty());
        r
    }

    pub fn can_undo(&self) -> (b: bool)
        ensures
            b == (self.undo_view().len() > 0),
    {
        self.undo.len() > 0
    }

    pub fn can_redo(&self) -> (b: bool)
        ensures
            b == (self.redo_view().len() > 0),
    {
        self.redo.len() > 0
    }

    /// Record `snapshot`, the state before an edit: it becomes the most
    /// recent undo step (the oldest is dropped past `MAX_UNDO`), the redo
    /// steps are forgotten, and the document is modified.
    pub fn checkpoint(&mut self, snapshot: Vec<u8>)
        requires
            old(self).wf(),
        ensures
            final(self).wf(),
            final(self).undo_view() == bounded_push(old(self).undo_view(), snapshot@),
            final(self).redo_view() == Seq::<Seq<u8>>::empty(),
            final(self).modified,
    {
        let ghost before = self.undo_view();
        let ghost snap = snapshot@;
        self.undo.push(snapshot);
        assert(self.undo_view() =~= before.push(snap));
        if self.undo.len() > MAX_UNDO {
            self.undo.remove(0);
            assert(self.undo_view() =~= before.push(snap).skip(1));
        }
        self.redo.clear();
        assert(self.redo_view() =~= Seq::<Seq<u8>>::empty());
        self.modified = true;
    }

    /// Undo (`undo`) or redo one step from the state `current`: the most
    /// recent snapshot of the one stack is returned, to be reloaded, and
    /// `current` goes onto the other stack. With nothing to undo (or redo)
    /// nothing changes and `None` is returned.
    pub fn step(&mut self, undo: bool, current: Vec<u8>) -> (r: Option<Vec<u8>>)
        requires
            old(self).wf(),
        ensures
            final(self).wf(),
            ({
                let (u, rd, t) = step_spec(
                    old(self).undo_view(),
                    old(self).redo_view(),
                    undo,
                    current@,
                );
                &&& final(self).undo_view() == u
                &&& final(self).redo_view() == rd
                &&& opt_bytes(r) == t
                &&& final(self).modified == (old(self).modified || t is Some)
            }),
    {
        let ghost u0 = self.undo_view();
        let ghost r0 = self.redo_view();
        let ghost cur = current@;
        if undo {
            match self.undo.pop() {
                None => None,
                Some(t) => {
                    assert(self.undo_view() =~= u0.drop_last());
                    self.redo.push(current);
                    assert(self.redo_view() =~= r0.push(cur));
                    self.modified = true;
                    Some(t)
                },
            }
        } else {
            match self.redo.pop() {
                None => None,
                Some(t) => {
                    assert(self.redo_view() =~= r0.drop_last());
                    self.undo.push(current);
                    assert(self.undo_view() =~= u0.push(cur));
                    self.modified = true;
                    Some(t)
                },
            }
        }
    }

    /// The document was saved: it is no longer modified, and when the save
    /// rewrote it (flattening) nothing can be undone or redone across it.
    pub fn saved(&mut self, forget: bool)
        requires
            old(self).wf(),
        ensures
            final(self).wf(),
            !final(self).modified,
            forget ==> final(self).undo_view() == Seq::<Seq<u8>>::empty()
                && final(self).redo_view() == Seq::<Seq<u8>>::empty(),
            !forget ==> final(self).undo_view() == old(self).undo_view()
                && final(self).redo_view() == old(self).redo_view(),
    {
        self.modified = false;
        if forget {
            self.undo.clear();
            self.redo.clear();
            assert(self.undo_view() =~= Seq::<Seq<u8>>::empty());
            assert(self.redo_view() =~= Seq::<Seq<u8>>::empty());
        }
    }

    /// Forget the most recent undo step: an edit that failed after its
    /// checkpoint is no undo step.
    pub fn discard_checkpoint(&mut self)
        requires
            old(self).wf(),
        ensures
            final(self).wf(),
            final(self).undo_view() == if old(self).undo_view().len() > 0 {
                old(self).undo_view().drop_last()
            } else {
                old(self).undo_view()
            },
            final(self).redo_view() == old(self).redo_view(),
            final(self).modified == old(self).modified,
    {
        let ghost u0 = self.undo_view();
        let _ = self.undo.pop();
        assert(self.undo_view() =~= if u0.len() > 0 {
            u0.drop_last()
        } else {
            u0
        });
    }

    /// Drop the undo steps past the first `len`, so that a batch of edits
    /// that each checkpoint counts as the one step recorded before it.
    pub fn keep_undo(&mut self, len: usize)
        requires
            old(self).wf(),
        ensures
            final(self).wf(),
            final(self).undo_view() == if len < old(self).undo_view().len() {
                old(self).undo_view().take(len as int)
            } else {
                old(self).undo_view()
            },
            final(self).redo_view() == old(self).redo_view(),
            final(self).modified == old(self).modified,
    {
        let ghost u0 = self.undo@;
        self.undo.truncate(len);
        assert(self.undo_view() =~= if len < u0.len() {
            snapshots(u0).take(len as int)
        } else {
            snapshots(u0)
        });
    }
}

/// `s` with `x` pushed, its oldest entry dropped past `MAX_UNDO` entries.
pub open spec fn bounded_push(s: Seq<Seq<u8>>, x: Seq<u8>) -> Seq<Seq<u8>> {
    if s.len() + 1 > MAX_UNDO {
        s.push(x).skip(1)
    } else {
        s.push(x)
    }
}

pub open spec fn opt_bytes(o: Option<Vec<u8>>) -> Option<Seq<u8>> {
    match o {
        Some(v) => Some(v@),
        None => None,
    }
}

/// One undo (or redo) step on the stacks `u` and `r` from the state
/// `current`: the new stacks and the state to reload, if any.
pub open spec fn step_spec(u: Seq<Seq<u8>>, r: Seq<Seq<u8>>, undo: bool, current: Seq<u8>) -> (
    Seq<Seq<u8>>,
    Seq<Seq<u8>>,
    Option<Seq<u8>>,
) {
    if undo {
        if u.len() == 0 {
            (u, r, None)
        } else {
            (u.drop_last(), r.push(current), Some(u.last()))
        }
    } else {
        if r.len() == 0 {
            (u, r, None)
        } else {
            (u.push(current), r.drop_last(), Some(r.last()))
        }
    }
}

/// Redo undoes an undo: undoing from `current` and then redoing from the
/// state that the undo reloaded gives back `current` and both stacks as
/// they were. Symmetrically for redo then undo.
pub proof fn lemma_undo_redo_round_trip(u: Seq<Seq<u8>>, r: Seq<Seq<u8>>, undo: bool, current: Seq<u8>)
    requires
        (if undo {
            u.len()
        } else {
            r.len()
        }) > 0,
    ensures
        ({
            let (u1, r1, t) = step_spec(u, r, undo, current);
            let (u2, r2, back) = step_spec(u1, r1, !undo, t->0);
            u2 == u && r2 == r && back == Some(current)
        }),
{
    if undo {
        assert(u.drop_last().push(u.last()) =~= u);
        assert(r.push(current).drop_last() =~= r);
    } else {
        assert(r.drop_last().push(r.last()) =~= r);
        assert(u.push(current).drop_last() =~= u);
    }
}

/// An undo with nothing to undo (or a redo with nothing to redo) changes
/// nothing and reloads nothing.
pub proof fn lemma_empty_step_is_noop(u: Seq<Seq<u8>>, r: Seq<Seq<u8>>, undo: bool, current: Seq<u8>)
    requires
        (if undo {
            u.len()
        } else {
            r.len()
        }) == 0,
    ensures
        step_spec(u, r, undo, current) == (u, r, None::<Seq<u8>>),
{
}

/// Undo right after an edit reloads the state from before the edit, and
/// only that edit can then be redone.
pub proof fn lemma_undo_after_edit(u: Seq<Seq<u8>>, before: Seq<u8>, current: Seq<u8>)
    requires
        u.len() <= MAX_UNDO,
    ensures
        ({
            let (u1, r1, t) = step_spec(bounded_push(u, before), Seq::empty(), true, current);
            &&& t == Some(before)
            &&& r1 == seq![current]
            &&& u1 == if u.len() + 1 > MAX_UNDO {
                u.skip(1)
            } else {
                u
            }
        }),
{
    let p = bounded_push(u, before);
    if u.len() + 1 > MAX_UNDO {
        assert(p.drop_last() =~= u.skip(1));
    } else {
        assert(p.drop_last() =~= u);
    }
    assert(Seq::<Seq<u8>>::empty().push(current) =~= seq![current]);
}

/// An edit that fails after its checkpoint leaves the undo steps as they
/// were once the checkpoint is discarded, and a batch of edits that each
/// checkpoint is trimmed back to the steps before it; both while fewer than
/// `MAX_UNDO` steps were recorded (at the bound the oldest was dropped).
pub proof fn lemma_discarded_checkpoint_restores_undo(u: Seq<Seq<u8>>, snapshot: Seq<u8>)
    requires
        u.len() < MAX_UNDO,
    ensures
        bounded_push(u, snapshot).drop_last() == u,
        bounded_push(u, snapshot).take(u.len() as int) == u,
{
    assert(bounded_push(u, snapshot).drop_last() =~= u);
    assert(bounded_push(u, snapshot).take(u.len() as int) =~= u);
}

/// Every history a document can have keeps at most `MAX_UNDO` snapshots.
pub proof fn lemma_history_bounded(h: History)
    requires
        h.wf(),
    ensures
        h.undo_view().len() <= MAX_UNDO,
        h.redo_view().len() <= MAX_UNDO,
{
}

// ---------- text helpers ----------
/// Whether the file holds a `/ByteRange`, that is, a signature.
pub open spec fn has_signatures_of(bytes: Seq<u8>) -> bool {
    first_from(
        bytes,
        seq![47u8, 66u8, 121u8, 116u8, 101u8, 82u8, 97u8, 110u8, 103u8, 101u8],
        0,
    ) is Some
}

pub fn has_signatures(bytes: &[u8]) -> (b: bool)
    ensures
        b == has_signatures_of(bytes@),
{
    let key: Vec<u8> = vec![47u8, 66u8, 121u8, 116u8, 101u8, 82u8, 97u8, 110u8, 103u8, 101u8];
    assert(key@ =~= seq![47u8, 66u8, 121u8, 116u8, 101u8, 82u8, 97u8, 110u8, 103u8, 101u8]);
    find(bytes, key.as_slice()).is_some()
}

/// Whether `p` is a prefix of `s`.
pub open spec fn begins_with(s: Seq<char>, p: Seq<char>) -> bool {
    p.len() <= s.len() && s.take(p.len() as int) == p
}

/// `str::replace`: every occurrence of `from`, scanning left to right and
/// without overlaps, replaced by `to`.
pub open spec fn replace_all(s: Seq<char>, from: Seq<char>, to: Seq<char>) -> Seq<char>
    decreases s.len(),
{
    if s.len() == 0 {
        s
    } else if from.len() > 0 && begins_with(s, from) {
        to + replace_all(s.skip(from.len() as int), from, to)
    } else {
        seq![s[0]] + replace_all(s.skip(1), from, to)
    }
}

/// Whether `p` occurs in `s` at `i`.
fn occurs_at_chars(s: &[char], i: usize, p: &[char]) -> (b: bool)
    requires
        i <= s@.len(),
    ensures
        b == begins_with(s@.skip(i as int), p@),
{
    if p.len() > s.len() - i {
        return false;
    }
    let mut k: usize = 0;
    while k < p.len()
        invariant
            i + p@.len() <= s@.len(),
            s@.len() == s.len(),
            p@.len() == p.len(),
            k <= p@.len(),
            forall|t: int| 0 <= t < k ==> s@[i + t] == p@[t],
        decreases p.len() - k,
    {
        if s[i + k] != p[k] {
            assert(s@.skip(i as int).take(p@.len() as int)[k as int] != p@[k as int]);
            return false;
        }
        k = k + 1;
    }
    assert(s@.skip(i as int).take(p@.len() as int) =~= p@);
    true
}

pub fn replace_all_chars(s: &[char], from: &[char], to: &[char]) -> (r: Vec<char>)
    ensures
        r@ == replace_all(s@, from@, to@),
{
    let mut out: Vec<char> = Vec::new();
    let mut i: usize = 0;
    assert(s@.skip(0) =~= s@);
    while i < s.len()
        invariant
            i <= s@.len(),
            out@ + replace_all(s@.skip(i as int), from@, to@) == replace_all(s@, from@, to@),
        decreases s.len() - i,
    {
        let ghost rest = s@.skip(i as int);
        let ghost before = out@;
        if from.len() > 0 && occurs_at_chars(s, i, from) {
            push_all(&mut out, to);
            assert(rest.skip(from@.len() as int) =~= s@.skip(i + from@.len()));
            i = i + from.len();
        } else {
            out.push(s[i]);
            assert(rest.skip(1) =~= s@.skip(i + 1));
            assert(seq![rest[0]] + replace_all(rest.skip(1), from@, to@) == replace_all(
                rest,
                from@,
                to@,
            ));
            assert(out@ + replace_all(s@.skip(i + 1), from@, to@) =~= before + replace_all(
                rest,
                from@,
                to@,
            ));
            i = i + 1;
        }
    }
    assert(s@.skip(i as int) =~= Seq::<char>::empty());
    assert(out@ =~= replace_all(s@, from@, to@));
    out
}

/// How one character is written in XML text or an attribute value.
pub open spec fn xml_escape_char(c: char) -> Seq<char> {
    if c == '&' {
        "&amp;"@
    } else if c == '<' {
        "&lt;"@
    } else if c == '>' {
        "&gt;"@
    } else if c == '"' {
        "&quot;"@
    } else {
        seq![c]
    }
}

pub open spec fn xml_escape_of(s: Seq<char>) -> Seq<char>
    decreases s.len(),
{
    if s.len() == 0 {
        Seq::empty()
    } else {
        xml_escape_of(s.drop_last()) + xml_escape_char(s.last())
    }
}

pub fn xml_escape(s: &str) -> (r: String)
    ensures
        r@ == xml_escape_of(s@),
{
    let cs = chars_of(s);
    let mut out: Vec<char> = Vec::new();
    let mut i: usize = 0;
    assert(cs@.take(0) =~= Seq::<char>::empty());
    while i < cs.len()
        invariant
            i <= cs@.len(),
            out@ == xml_escape_of(cs@.take(i as int)),
        decreases cs.len() - i,
    {
        let c = cs[i];
        assert(cs@.take(i + 1).drop_last() =~= cs@.take(i as int));
        let ghost before = out@;
        if c == '&' {
            push_str(&mut out, "&amp;");
        } else if c == '<' {
            push_str(&mut out, "&lt;");
        } else if c == '>' {
            push_str(&mut out, "&gt;");
        } else if c == '"' {
            push_str(&mut out, "&quot;");
        } else {
            out.push(c);
            assert(out@ =~= before + seq![c]);
        }
        i = i + 1;
    }
    assert(cs@.take(cs@.len() as int) =~= cs@);
    string_of(out.as_slice())
}

/// The five predefined XML entities replaced by their characters, one
/// after the other, `&amp;` last.
pub open spec fn xml_unescape_of(s: Seq<char>) -> Seq<char> {
    let a = replace_all(s, "&lt;"@, "<"@);
    let b = replace_all(a, "&gt;"@, ">"@);
    let c = replace_all(b, "&quot;"@, "\""@);
    let d = replace_all(c, "&apos;"@, "'"@);
    replace_all(d, "&amp;"@, "&"@)
}

pub fn xml_unescape_chars(s: &[char]) -> (r: Vec<char>)
    ensures
        r@ == xml_unescape_of(s@),
{
    let a = replace_all_chars(s, chars_of("&lt;").as_slice(), chars_of("<").as_slice());
    let b = replace_all_chars(a.as_slice(), chars_of("&gt;").as_slice(), chars_of(">").as_slice());
    let c = replace_all_chars(
        b.as_slice(),
        chars_of("&quot;").as_slice(),
        chars_of("\"").as_slice(),
    );
    let d = replace_all_chars(c.as_slice(), chars_of("&apos;").as_slice(), chars_of("'").as_slice());
    replace_all_chars(d.as_slice(), chars_of("&amp;").as_slice(), chars_of("&").as_slice())
}

pub fn xml_unescape(s: &str) -> (r: String)
    ensures
        r@ == xml_unescape_of(s@),
{
    string_of(xml_unescape_chars(chars_of(s).as_slice()).as_slice())
}

// ---------- annotation kinds and colours ----------
/// The kinds of annotation the application knows.
#[derive(Debug, Clone, Copy, PartialEq, Eq, Structural)]
pub enum AnnotKind {
    Text,
    FreeText,
    Line,
    Square,
    Circle,
    Polygon,
    PolyLine,
    Highlight,
    Underline,
    Squiggly,
    StrikeOut,
    Stamp,
    Ink,
    Link,
    Widget,
    Popup,
    FileAttachment,
    Redact,
    Other,
}

/// The kind of a PDF annotation subtype code (PDFium's `FPDF_ANNOT_*`).
pub open spec fn kind_of_subtype(code: u32) -> AnnotKind {
    if code == 1 {
        AnnotKind::Text
    } else if code == 2 {
        AnnotKind::Link
    } else if code == 3 {
        AnnotKind::FreeText
    } else if code == 4 {
        AnnotKind::Line
    } else if code == 5 {
        AnnotKind::Square
    } else if code == 6 {
        AnnotKind::Circle
    } else if code == 7 {
        AnnotKind::Polygon
    } else if code == 8 {
        AnnotKind::PolyLine
    } else if code == 9 {
        AnnotKind::Highlight
    } else if code == 10 {
        AnnotKind::Underline
    } else if code == 11 {
        AnnotKind::Squiggly
    } else if code == 12 {
        AnnotKind::StrikeOut
    } else if code == 13 {
        AnnotKind::Stamp
    } else if code == 15 {
        AnnotKind::Ink
    } else if code == 16 {
        AnnotKind::Popup
    } else if code == 17 {
        AnnotKind::FileAttachment
    } else if code == 20 {
        AnnotKind::Widget
    } else if code == 28 {
        AnnotKind::Redact
    } else {
        AnnotKind::Other
    }
}

/// The subtype code under which an annotation of a kind can be created;
/// only the kinds the editor creates have one.
pub open spec fn subtype_of_kind(k: AnnotKind) -> Option<u32> {
    match k {
        AnnotKind::Text => Some(1),
        AnnotKind::FreeText => Some(3),
        AnnotKind::Square => Some(5),
        AnnotKind::Circle => Some(6),
        AnnotKind::Highlight => Some(9),
        AnnotKind::Underline => Some(10),
        AnnotKind::Squiggly => Some(11),
        AnnotKind::StrikeOut => Some(12),
        AnnotKind::Ink => Some(15),
        AnnotKind::Stamp => Some(13),
        _ => None,
    }
}

impl AnnotKind {
    pub fn from_subtype(code: u32) -> (k: AnnotKind)
        ensures
            k == kind_of_subtype(code),
    {
        match code {
            1 => AnnotKind::Text,
            2 => AnnotKind::Link,
            3 => AnnotKind::FreeText,
            4 => AnnotKind::Line,
            5 => AnnotKind::Square,
            6 => AnnotKind::Circle,
            7 => AnnotKind::Polygon,
            8 => AnnotKind::PolyLine,
            9 => AnnotKind::Highlight,
            10 => AnnotKind::Underline,
            11 => AnnotKind::Squiggly,
            12 => AnnotKind::StrikeOut,
            13 => AnnotKind::Stamp,
            15 => AnnotKind::Ink,
            16 => AnnotKind::Popup,
            17 => AnnotKind::FileAttachment,
            20 => AnnotKind::Widget,
            28 => AnnotKind::Redact,
            _ => AnnotKind::Other,
        }
    }

    pub fn subtype(self) -> (r: Option<u32>)
        ensures
            r == subtype_of_kind(self),
    {
        match self {
            AnnotKind::Text => Some(1),
            AnnotKind::FreeText => Some(3),
            AnnotKind::Square => Some(5),
            AnnotKind::Circle => Some(6),
            AnnotKind::Highlight => Some(9),
            AnnotKind::Underline => Some(10),
            AnnotKind::Squiggly => Some(11),
            AnnotKind::StrikeOut => Some(12),
            AnnotKind::Ink => Some(15),
            AnnotKind::Stamp => Some(13),
            _ => None,
        }
    }

    /// Whether the annotation editor may change an annotation of this
    /// kind: form widgets, links, pop-ups and unknown kinds are left alone.
    pub fn editable(self) -> (b: bool)
        ensures
            b == !(self is Widget || self is Link || self is Popup || self is Other),
    {
        !matches!(self, AnnotKind::Widget | AnnotKind::Link | AnnotKind::Popup | AnnotKind::Other)
    }
}

/// Every kind the editor creates is read back as the same kind.
pub proof fn lemma_subtype_round_trip(k: AnnotKind)
    requires
        subtype_of_kind(k) is Some,
    ensures
        kind_of_subtype(subtype_of_kind(k)->0) == k,
{
}

/// An RGB colour.
#[derive(Debug, Clone, Copy, PartialEq, Eq, Structural)]
pub struct Color {
    pub r: u8,
    pub g: u8,
    pub b: u8,
}

/// `r,g,b` in decimal, as the colour is kept in annotation metadata.
pub open spec fn color_text(c: Color) -> Seq<char> {
    decimal(c.r as nat) + ","@ + decimal(c.g as nat) + ","@ + decimal(c.b as nat)
}

pub fn fmt_color(c: Color) -> (r: String)
    ensures
        r@ == color_text(c),
{
    let mut v = decimal_chars(c.r as u64);
    v.push(',');
    push_all(&mut v, decimal_chars(c.g as u64).as_slice());
    v.push(',');
    push_all(&mut v, decimal_chars(c.b as u64).as_slice());
    proof {
        reveal_strlit(",");
    }
    assert(v@ =~= color_text(c));
    string_of(v.as_slice())
}

pub open spec fn is_digit(c: char) -> bool {
    '0' <= c <= '9'
}

/// The value of a string of decimal digits.
pub open spec fn digits_value(s: Seq<char>) -> nat
    decreases s.len(),
{
    if s.len() == 0 {
        0
    } else {
        digits_value(s.drop_last()) * 10 + ((s.last() as u32) - 48) as nat
    }
}

/// `s` without a leading `+`.
pub open spec fn unsigned_part(s: Seq<char>) -> Seq<char> {
    if s.len() > 0 && s[0] == '+' {
        s.skip(1)
    } else {
        s
    }
}

pub open spec fn all_digits(d: Seq<char>) -> bool {
    forall|i: int| 0 <= i < d.len() ==> is_digit(#[trigger] d[i])
}

/// `u8::from_str`: an optional `+`, then one or more decimal digits whose
/// value is at most 255.
pub open spec fn parse_u8_of(s: Seq<char>) -> Option<u8> {
    let d = unsigned_part(s);
    if d.len() > 0 && all_digits(d) && digits_value(d) <= 255 {
        Some(digits_value(d) as u8)
    } else {
        None
    }
}

pub fn parse_u8(s: &[char]) -> (r: Option<u8>)
    ensures
        r == parse_u8_of(s@),
{
    let start: usize = if s.len() > 0 && s[0] == '+' {
        1
    } else {
        0
    };
    let ghost d = unsigned_part(s@);
    assert(d =~= s@.skip(start as int));
    if start >= s.len() {
        return None;
    }
    let mut v: u64 = 0;
    let mut i = start;
    assert(d.take(0) =~= Seq::<char>::empty());
    while i < s.len()
        invariant
            start <= i <= s@.len(),
            d == s@.skip(start as int),
            d == unsigned_part(s@),
            forall|k: int| 0 <= k < i - start ==> is_digit(#[trigger] d[k]),
            v == if digits_value(d.take(i - start)) < 256 {
                digits_value(d.take(i - start))
            } else {
                256
            },
        decreases s.len() - i,
    {
        let c = s[i];
        if !('0' <= c && c <= '9') {
            assert(d[i - start] == c);
            assert(!is_digit(d[i - start]));
            assert(!all_digits(d));
            return None;
        }
        assert(d.take(i + 1 - start).drop_last() =~= d.take(i - start));
        let digit = (c as u32 - 48) as u64;
        v = v * 10 + digit;
        if v > 256 {
            v = 256;
        }
        i = i + 1;
    }
    assert(d.take(i - start) =~= d);
    if v > 255 {
        None
    } else {
        Some(v as u8)
    }
}

/// `r,g,b` with each part, trimmed, a number from 0 to 255; anything after
/// a third comma is ignored.
pub open spec fn parse_color_of(s: Seq<char>) -> Option<Color> {
    let parts = crate::paths::split_on(s, ',');
    if parts.len() >= 3 {
        match (parse_u8_of(trim(parts[0])), parse_u8_of(trim(parts[1])), parse_u8_of(
            trim(parts[2]),
        )) {
            (Some(r), Some(g), Some(b)) => Some(Color { r, g, b }),
            _ => None,
        }
    } else {
        None
    }
}

pub fn parse_color(s: &str) -> (r: Option<Color>)
    ensures
        r == parse_color_of(s@),
{
    let parts = crate::paths::split_chars(chars_of(s).as_slice(), ',');
    if parts.len() < 3 {
        return None;
    }
    let r = parse_u8(crate::text::trim_vec(parts[0].as_slice()).as_slice());
    let g = parse_u8(crate::text::trim_vec(parts[1].as_slice()).as_slice());
    let b = parse_u8(crate::text::trim_vec(parts[2].as_slice()).as_slice());
    match (r, g, b) {
        (Some(r), Some(g), Some(b)) => Some(Color { r, g, b }),
        _ => None,
    }
}

// ---------- pages ----------
/// The quarter turns that rotating by `delta` degrees adds: whole turns of
/// 90 degrees, rounded down, modulo four.
pub open spec fn rotation_steps_of(delta: int) -> int {
    (delta / 90) % 4
}

pub fn rotation_steps(delta: i32) -> (r: i32)
    ensures
        r == rotation_steps_of(delta as int),
        0 <= r < 4,
{
    let shifted: u64 = (delta as i64 + 2_147_483_880i64) as u64;
    let q = shifted / 90;
    proof {
        vstd::arithmetic::div_mod::lemma_fundamental_div_mod(delta as int, 90);
        vstd::arithmetic::div_mod::lemma_fundamental_div_mod_converse(
            shifted as int,
            90,
            delta as int / 90 + 23860932,
            delta as int % 90,
        );
        vstd::arithmetic::div_mod::lemma_mod_multiples_vanish(5965233, delta as int / 90, 4);
    }
    (q % 4) as i32
}

/// The rotation, in quarter turns, of a page at `current` quarter turns
/// after rotating it by `delta` degrees.
pub open spec fn rotated_of(current: int, delta: int) -> int {
    (current + rotation_steps_of(delta)) % 4
}

pub fn rotated(current: i32, delta: i32) -> (r: i32)
    ensures
        r == rotated_of(current as int, delta as int),
        0 <= r < 4,
{
    let steps = rotation_steps(delta);
    let shifted: u64 = (current as i64 + steps as i64 + 8_589_934_592i64) as u64;
    proof {
        vstd::arithmetic::div_mod::lemma_mod_multiples_vanish(
            2147483648,
            current as int + steps as int,
            4,
        );
    }
    (shifted % 4) as i32
}

/// Rotating by a multiple of 90 degrees and then back by the same angle
/// leaves a page as it was; rotations by multiples of 90 degrees add up.
pub proof fn lemma_rotation_undo(current: int, k: int, j: int)
    requires
        0 <= current < 4,
    ensures
        rotated_of(rotated_of(current, 90 * k), -90 * k) == current,
        rotated_of(rotated_of(current, 90 * k), 90 * j) == rotated_of(current, 90 * (k + j)),
{
    assert((90 * k) / 90 == k);
    assert((-90 * k) / 90 == -k);
    assert((90 * j) / 90 == j);
    assert((90 * (k + j)) / 90 == k + j);
    let a = k % 4;
    let b = (-k) % 4;
    let c = j % 4;
    assert((a + b) % 4 == 0) by {
        vstd::arithmetic::div_mod::lemma_add_mod_noop(k, -k, 4);
    }
    assert(((current + a) % 4 + b) % 4 == current) by {
        vstd::arithmetic::div_mod::lemma_add_mod_noop(current + a, b, 4);
        vstd::arithmetic::div_mod::lemma_add_mod_noop(current, a + b, 4);
        vstd::arithmetic::div_mod::lemma_mod_twice(current + a, 4);
        vstd::arithmetic::div_mod::lemma_small_mod(current as nat, 4);
    }
    assert(((current + a) % 4 + c) % 4 == (current + (k + j) % 4) % 4) by {
        vstd::arithmetic::div_mod::lemma_add_mod_noop(current + a, c, 4);
        vstd::arithmetic::div_mod::lemma_mod_twice(current + a, 4);
        vstd::arithmetic::div_mod::lemma_add_mod_noop(k, j, 4);
        vstd::arithmetic::div_mod::lemma_add_mod_noop(current, a + c, 4);
        vstd::arithmetic::div_mod::lemma_add_mod_noop(current, k + j, 4);
        vstd::arithmetic::div_mod::lemma_mod_twice(a + c, 4);
    }
}

/// The pages to delete, from the last to the first so that earlier
/// indices stay valid, each once; deleting every page is refused.
pub fn pages_to_delete(count: usize, pages: &[u16]) -> (r: Result<Vec<u16>, SheafError>)
    ensures
        pages@.len() >= count ==> (r matches Err(SheafError::Pdf(m)) && m@
            == "cannot delete every page"@),
        pages@.len() < count ==> (r matches Ok(v) && (forall|i: int, j: int|
            0 <= i < j < v@.len() ==> v@[i] > v@[j]) && (forall|x: u16|
            v@.contains(x) <==> pages@.contains(x))),
{
    if pages.len() >= count {
        return Err(pdf_error("cannot delete every page"));
    }
    let mut out: Vec<u16> = Vec::new();
    let mut bound: u32 = 65536;
    loop
        invariant
            pages@.len() < count,
            bound <= 65536,
            forall|i: int, j: int| 0 <= i < j < out@.len() ==> out@[i] > out@[j],
            forall|i: int| 0 <= i < out@.len() ==> out@[i] >= bound,
            out@.len() > 0 ==> out@.last() == bound,
            forall|x: u16| out@.contains(x) <==> (pages@.contains(x) && x >= bound),
        decreases bound,
    {
        let mut best: Option<u16> = None;
        let mut k: usize = 0;
        while k < pages.len()
            invariant
                k <= pages@.len(),
                match best {
                    Some(b) => (b as u32) < bound && pages@.contains(b) && forall|t: int|
                        0 <= t < k && (pages@[t] as u32) < bound ==> pages@[t] <= b,
                    None => forall|t: int| 0 <= t < k ==> (pages@[t] as u32) >= bound,
                },
            decreases pages.len() - k,
        {
            let p = pages[k];
            if (p as u32) < bound {
                match best {
                    Some(b) => {
                        if p > b {
                            best = Some(p);
                        }
                    },
                    None => {
                        best = Some(p);
                    },
                }
            }
            k = k + 1;
        }
        match best {
            None => {
                assert forall|x: u16| out@.contains(x) <==> pages@.contains(x) by {
                    if pages@.contains(x) && (x as u32) < bound {
                        let t = choose|t: int| 0 <= t < pages@.len() && pages@[t] == x;
                        assert((pages@[t] as u32) >= bound);
                    }
                }
                return Ok(out);
            },
            Some(b) => {
                let ghost before = out@;
                out.push(b);
                assert(out@ == before.push(b));
                assert(out@[before.len() as int] == b);
                assert forall|x: u16| out@.contains(x) <==> (pages@.contains(x) && x >= b) by {
                    if out@.contains(x) {
                        let t = choose|t: int| 0 <= t < out@.len() && out@[t] == x;
                        if t < before.len() {
                            assert(before[t] == x);
                            assert(before.contains(x));
                        }
                    }
                    if pages@.contains(x) && x >= b {
                        if (x as u32) >= bound {
                            assert(before.contains(x));
                            let t = choose|t: int| 0 <= t < before.len() && before[t] == x;
                            assert(out@[t] == x);
                        } else {
                            let t = choose|t: int| 0 <= t < pages@.len() && pages@[t] == x;
                            assert(pages@[t] <= b);
                            assert(x == b);
                        }
                    }
                }
                bound = b as u32;
            },
        }
    }
}

// ---------- stamps ----------
/// Stamp text with `{n}` replaced by the page number, `{total}` by the page
/// count and `{bates}` by the page number zero-padded to `bates_digits`
/// (at least one) digits, in that order.
pub open spec fn stamp_text_of(template: Seq<char>, n: nat, total: nat, bates_digits: nat) -> Seq<
    char,
> {
    let width: nat = if bates_digits < 1 {
        1
    } else {
        bates_digits
    };
    replace_all(
        replace_all(replace_all(template, "{n}"@, decimal(n)), "{total}"@, decimal(total)),
        "{bates}"@,
        zero_pad(decimal(n), width),
    )
}

/// No character of `s` opens a placeholder.
pub open spec fn no_brace(s: Seq<char>) -> bool {
    forall|i: int| 0 <= i < s.len() ==> s[i] != '{'
}

proof fn lemma_replace_all_keeps(s: Seq<char>, from: Seq<char>, to: Seq<char>)
    requires
        no_brace(s),
        from.len() > 0,
        from[0] == '{',
    ensures
        replace_all(s, from, to) == s,
    decreases s.len(),
{
    if s.len() > 0 {
        if begins_with(s, from) {
            assert(s.take(from.len() as int)[0] == s[0]);
        }
        lemma_replace_all_keeps(s.skip(1), from, to);
        assert(seq![s[0]] + s.skip(1) =~= s);
    }
}

proof fn lemma_replace_all_prefix(a: Seq<char>, t: Seq<char>, from: Seq<char>, to: Seq<char>)
    requires
        no_brace(a),
        from.len() > 0,
        from[0] == '{',
    ensures
        replace_all(a + t, from, to) == a + replace_all(t, from, to),
    decreases a.len(),
{
    if a.len() > 0 {
        let s = a + t;
        if begins_with(s, from) {
            assert(s.take(from.len() as int)[0] == s[0]);
            assert(s[0] == a[0]);
        }
        assert(s.skip(1) =~= a.skip(1) + t);
        lemma_replace_all_prefix(a.skip(1), t, from, to);
        assert(seq![s[0]] + (a.skip(1) + replace_all(t, from, to)) =~= a + replace_all(t, from, to));
    } else {
        assert(a + t =~= t);
        assert(a + replace_all(t, from, to) =~= replace_all(t, from, to));
    }
}

proof fn lemma_replace_all_head(from: Seq<char>, t: Seq<char>, to: Seq<char>)
    requires
        from.len() > 0,
    ensures
        replace_all(from + t, from, to) == to + replace_all(t, from, to),
{
    let s = from + t;
    assert(s.take(from.len() as int) =~= from);
    assert(s.skip(from.len() as int) =~= t);
}

proof fn lemma_decimal_no_brace(n: nat)
    ensures
        no_brace(decimal(n)),
    decreases n,
{
    if n >= 10 {
        lemma_decimal_no_brace(n / 10);
        let d = (n % 10) as nat;
        assert(crate::text::digit_char(d) as u32 == 48 + d);
        assert(crate::text::digit_char(d) != '{');
        let s = decimal(n);
        assert forall|i: int| 0 <= i < s.len() implies s[i] != '{' by {
            if i < s.len() - 1 {
                assert(s[i] == decimal(n / 10)[i]);
            }
        }
    } else {
        assert(crate::text::digit_char(n) as u32 == 48 + n);
    }
}

proof fn lemma_padded_no_brace(n: nat, width: nat)
    ensures
        no_brace(zero_pad(decimal(n), width)),
{
    lemma_decimal_no_brace(n);
    let d = decimal(n);
    if d.len() < width {
        let z = zero_pad(d, width);
        let k = (width - d.len()) as int;
        assert forall|i: int| 0 <= i < z.len() implies z[i] != '{' by {
            if i >= k {
                assert(z[i] == d[i - k]);
            }
        }
    }
}

proof fn lemma_no_brace_concat(a: Seq<char>, b: Seq<char>)
    requires
        no_brace(a),
        no_brace(b),
    ensures
        no_brace(a + b),
{
    assert forall|i: int| 0 <= i < (a + b).len() implies (a + b)[i] != '{' by {
        if i >= a.len() {
            assert((a + b)[i] == b[i - a.len()]);
        }
    }
}

/// Replacing a placeholder that occurs once, between two pieces of plain
/// text, and then replacing two other placeholders: the text between is
/// the replacement, and the rest is untouched.
proof fn lemma_one_placeholder(
    pre: Seq<char>,
    post: Seq<char>,
    first: Seq<char>,
    value: Seq<char>,
    second: Seq<char>,
    v2: Seq<char>,
    third: Seq<char>,
    v3: Seq<char>,
)
    requires
        no_brace(pre),
        no_brace(post),
        no_brace(value),
        first.len() > 0 && first[0] == '{',
        second.len() > 0 && second[0] == '{',
        third.len() > 0 && third[0] == '{',
    ensures
        replace_all(replace_all(replace_all(pre + first + post, first, value), second, v2), third, v3)
            == pre + value + post,
{
    assert(pre + first + post =~= pre + (first + post));
    lemma_replace_all_prefix(pre, first + post, first, value);
    lemma_replace_all_head(first, post, value);
    lemma_replace_all_keeps(post, first, value);
    let out = pre + value + post;
    assert(pre + (value + post) =~= out);
    lemma_no_brace_concat(pre, value);
    lemma_no_brace_concat(pre + value, post);
    lemma_replace_all_keeps(out, second, v2);
    lemma_replace_all_keeps(out, third, v3);
}

/// `{n}` is the plain page number: in a stamp whose only placeholder is
/// `{n}`, it is replaced by the page number in decimal, without leading
/// zeros, whatever the Bates width.
pub proof fn lemma_page_number_is_plain(
    pre: Seq<char>,
    post: Seq<char>,
    n: nat,
    total: nat,
    bates_digits: nat,
)
    requires
        no_brace(pre),
        no_brace(post),
    ensures
        stamp_text_of(pre + "{n}"@ + post, n, total, bates_digits) == pre + decimal(n) + post,
{
    reveal_strlit("{n}");
    reveal_strlit("{total}");
    reveal_strlit("{bates}");
    lemma_decimal_no_brace(n);
    let width: nat = if bates_digits < 1 {
        1
    } else {
        bates_digits
    };
    lemma_one_placeholder(
        pre,
        post,
        "{n}"@,
        decimal(n),
        "{total}"@,
        decimal(total),
        "{bates}"@,
        zero_pad(decimal(n), width),
    );
}

/// `{total}` is the page count in decimal, whatever the page number and
/// the Bates width.
pub proof fn lemma_total_is_page_count(
    pre: Seq<char>,
    post: Seq<char>,
    n: nat,
    total: nat,
    bates_digits: nat,
)
    requires
        no_brace(pre),
        no_brace(post),
    ensures
        stamp_text_of(pre + "{total}"@ + post, n, total, bates_digits) == pre + decimal(total) + post,
{
    reveal_strlit("{n}");
    reveal_strlit("{total}");
    reveal_strlit("{bates}");
    let t = pre + "{total}"@ + post;
    let width: nat = if bates_digits < 1 {
        1
    } else {
        bates_digits
    };
    // `{n}` does not occur: replacing it first leaves the text as it is.
    assert(t =~= pre + ("{total}"@ + post));
    lemma_replace_all_prefix(pre, "{total}"@ + post, "{n}"@, decimal(n));
    assert(begins_with("{total}"@ + post, "{n}"@) == false) by {
        assert(("{total}"@ + post)[1] == 't');
        if begins_with("{total}"@ + post, "{n}"@) {
            assert(("{total}"@ + post).take(3)[1] == 'n');
        }
    }
    reveal_strlit("total}");
    assert(("{total}"@ + post).skip(1) =~= "total}"@ + post);
    assert(no_brace("total}"@ + post)) by {
        lemma_no_brace_concat("total}"@, post);
    }
    lemma_replace_all_keeps("total}"@ + post, "{n}"@, decimal(n));
    assert(seq!['{'] + ("total}"@ + post) =~= "{total}"@ + post);
    assert(replace_all(t, "{n}"@, decimal(n)) == t);
    lemma_decimal_no_brace(total);
    assert(replace_all(replace_all(t, "{total}"@, decimal(total)), "{bates}"@, zero_pad(decimal(n), width))
        == pre + decimal(total) + post) by {
        assert(t =~= pre + "{total}"@ + post);
        lemma_replace_all_prefix(pre, "{total}"@ + post, "{total}"@, decimal(total));
        lemma_replace_all_head("{total}"@, post, decimal(total));
        lemma_replace_all_keeps(post, "{total}"@, decimal(total));
        assert(pre + (decimal(total) + post) =~= pre + decimal(total) + post);
        lemma_no_brace_concat(pre, decimal(total));
        lemma_no_brace_concat(pre + decimal(total), post);
        lemma_replace_all_keeps(pre + decimal(total) + post, "{bates}"@, zero_pad(decimal(n), width));
    }
}

/// `{bates}` is the page number zero-padded to `bates_digits` digits (at
/// least one); a longer number is not cut.
pub proof fn lemma_bates_is_padded(
    pre: Seq<char>,
    post: Seq<char>,
    n: nat,
    total: nat,
    bates_digits: nat,
)
    requires
        no_brace(pre),
        no_brace(post),
    ensures
        ({
            let r = stamp_text_of(pre + "{bates}"@ + post, n, total, bates_digits);
            let digits = r.subrange(pre.len() as int, r.len() - post.len());
            &&& r.take(pre.len() as int) == pre
            &&& r.skip(r.len() - post.len()) == post
            &&& digits.len() == (if decimal(n).len() >= bates_digits { decimal(n).len() } else { bates_digits })
            &&& digits.skip(digits.len() - decimal(n).len()) == decimal(n)
            &&& forall|i: int| 0 <= i < digits.len() - decimal(n).len() ==> digits[i] == '0'
        }),
{
    reveal_strlit("{n}");
    reveal_strlit("{total}");
    reveal_strlit("{bates}");
    let t = pre + "{bates}"@ + post;
    let width: nat = if bates_digits < 1 {
        1
    } else {
        bates_digits
    };
    let tail = "{bates}"@ + post;
    assert(t =~= pre + tail);
    reveal_strlit("bates}");
    assert(tail.skip(1) =~= "bates}"@ + post);
    lemma_no_brace_concat("bates}"@, post);
    assert(seq!['{'] + ("bates}"@ + post) =~= tail);
    // Neither `{n}` nor `{total}` occurs.
    lemma_replace_all_prefix(pre, tail, "{n}"@, decimal(n));
    if begins_with(tail, "{n}"@) {
        assert(tail.take(3)[1] == tail[1]);
    }
    lemma_replace_all_keeps("bates}"@ + post, "{n}"@, decimal(n));
    assert(replace_all(t, "{n}"@, decimal(n)) == t);
    lemma_replace_all_prefix(pre, tail, "{total}"@, decimal(total));
    if begins_with(tail, "{total}"@) {
        assert(tail.take(7)[1] == tail[1]);
    }
    lemma_replace_all_keeps("bates}"@ + post, "{total}"@, decimal(total));
    assert(replace_all(t, "{total}"@, decimal(total)) == t);
    let v = zero_pad(decimal(n), width);
    lemma_replace_all_prefix(pre, tail, "{bates}"@, v);
    lemma_replace_all_head("{bates}"@, post, v);
    lemma_replace_all_keeps(post, "{bates}"@, v);
    let r = pre + v + post;
    assert(pre + (v + post) =~= r);
    assert(r.take(pre.len() as int) =~= pre);
    assert(r.skip(r.len() - post.len()) =~= post);
    assert(r.subrange(pre.len() as int, r.len() - post.len()) =~= v);
    assert(decimal(n).len() >= 1) by {
        if n >= 10 {
        }
    }
    if decimal(n).len() < width {
        assert(v.skip(v.len() - decimal(n).len()) =~= decimal(n));
    } else {
        assert(v.skip(0) =~= v);
    }
}

/// The text stamped on the `index`-th target page, numbered from
/// `start_at`.
pub fn stamp_text(template: &str, start_at: u32, index: u32, total: u16, bates_digits: u8) -> (r:
    String)
    requires
        start_at + index <= u32::MAX,
    ensures
        r@ == stamp_text_of(template@, (start_at + index) as nat, total as nat, bates_digits as nat),
{
    let n = (start_at + index) as u64;
    let number = decimal_chars(n);
    let a = replace_all_chars(chars_of(template).as_slice(), chars_of("{n}").as_slice(), number.as_slice());
    let b = replace_all_chars(
        a.as_slice(),
        chars_of("{total}").as_slice(),
        decimal_chars(total as u64).as_slice(),
    );
    let width: usize = if bates_digits < 1 {
        1
    } else {
        bates_digits as usize
    };
    let bates = zero_pad_chars(number.as_slice(), width);
    let c = replace_all_chars(b.as_slice(), chars_of("{bates}").as_slice(), bates.as_slice());
    string_of(c.as_slice())
}

/// The pages a stamp goes on: the pages asked for, or every page when none
/// is.
pub fn stamp_targets(pages: &[u16], total: u16) -> (r: Vec<u16>)
    ensures
        pages@.len() > 0 ==> r@ == pages@,
        pages@.len() == 0 ==> r@ == Seq::new(total as nat, |i: int| i as u16),
{
    let mut r: Vec<u16> = Vec::new();
    if pages.len() > 0 {
        let mut k: usize = 0;
        while k < pages.len()
            invariant
                k <= pages@.len(),
                r@ == pages@.take(k as int),
            decreases pages.len() - k,
        {
            r.push(pages[k]);
            assert(r@ =~= pages@.take(k + 1));
            k = k + 1;
        }
        assert(r@ =~= pages@);
    } else {
        let mut i: u16 = 0;
        while i < total
            invariant
                i <= total,
                r@ == Seq::new(i as nat, |j: int| j as u16),
            decreases total - i,
        {
            r.push(i);
            assert(r@ =~= Seq::new((i + 1) as nat, |j: int| j as u16));
            i = i + 1;
        }
    }
    r
}

/// Where stamped text goes on a page.
#[derive(Debug, Clone, Copy, PartialEq, Eq, Structural)]
pub enum StampPosition {
    HeaderLeft,
    HeaderCenter,
    HeaderRight,
    FooterLeft,
    FooterCenter,
    FooterRight,
    Watermark,
}

pub open spec fn stamp_position_of(s: Seq<char>) -> Option<StampPosition> {
    if s == "header-left"@ {
        Some(StampPosition::HeaderLeft)
    } else if s == "header-center"@ {
        Some(StampPosition::HeaderCenter)
    } else if s == "header-right"@ {
        Some(StampPosition::HeaderRight)
    } else if s == "footer-left"@ {
        Some(StampPosition::FooterLeft)
    } else if s == "footer-center"@ {
        Some(StampPosition::FooterCenter)
    } else if s == "footer-right"@ {
        Some(StampPosition::FooterRight)
    } else if s == "watermark"@ {
        Some(StampPosition::Watermark)
    } else {
        None
    }
}

fn text_is(s: &str, t: &str) -> (b: bool)
    ensures
        b == (s@ == t@),
{
    chars_eq(chars_of(s).as_slice(), chars_of(t).as_slice())
}

pub fn parse_stamp_position(s: &str) -> (r: Result<StampPosition, SheafError>)
    ensures
        match stamp_position_of(s@) {
            Some(p) => r == Ok::<StampPosition, SheafError>(p),
            None => r matches Err(SheafError::Pdf(m)) && m@ == "unknown stamp position "@ + s@,
        },
{
    if text_is(s, "header-left") {
        Ok(StampPosition::HeaderLeft)
    } else if text_is(s, "header-center") {
        Ok(StampPosition::HeaderCenter)
    } else if text_is(s, "header-right") {
        Ok(StampPosition::HeaderRight)
    } else if text_is(s, "footer-left") {
        Ok(StampPosition::FooterLeft)
    } else if text_is(s, "footer-center") {
        Ok(StampPosition::FooterCenter)
    } else if text_is(s, "footer-right") {
        Ok(StampPosition::FooterRight)
    } else if text_is(s, "watermark") {
        Ok(StampPosition::Watermark)
    } else {
        let mut m = chars_of("unknown stamp position ");
        push_str(&mut m, s);
        Err(SheafError::Pdf(string_of(m.as_slice())))
    }
}

// ---------- document facts ----------
/// `n` in decimal, with a minus sign when negative.
pub open spec fn signed_decimal(n: int) -> Seq<char> {
    if n < 0 {
        seq!['-'] + decimal((-n) as nat)
    } else {
        decimal(n as nat)
    }
}

/// Rust's `/` and `%` by ten on a signed number: the quotient rounded
/// toward zero, and the remainder with the sign of `v`.
pub open spec fn tenths(v: int) -> (int, int) {
    let q = if v >= 0 {
        v / 10
    } else {
        -((-v) / 10)
    };
    (q, v - 10 * q)
}

/// The PDF version PDFium reports (`17` for 1.7) as text.
pub open spec fn version_text_of(v: int) -> Seq<char> {
    signed_decimal(tenths(v).0) + seq!['.'] + signed_decimal(tenths(v).1)
}

fn signed_decimal_chars(n: i32) -> (r: Vec<char>)
    ensures
        r@ == signed_decimal(n as int),
{
    if n < 0 {
        let mut out = vec!['-'];
        let m: u64 = (0i64 - n as i64) as u64;
        push_all(&mut out, decimal_chars(m).as_slice());
        out
    } else {
        decimal_chars(n as u64)
    }
}

pub fn version_text(v: i32) -> (r: String)
    ensures
        r@ == version_text_of(v as int),
{
    let q: i32 = if v >= 0 {
        v / 10
    } else {
        0 - ((0 - (v as i64)) / 10) as i32
    };
    let rem: i32 = v - 10 * q;
    let mut out = signed_decimal_chars(q);
    out.push('.');
    push_all(&mut out, signed_decimal_chars(rem).as_slice());
    string_of(out.as_slice())
}

// ---------- search ----------
/// `char::is_control`: the C0 and C1 control characters.
pub open spec fn is_control(c: char) -> bool {
    (c as u32) <= 0x1f || (0x7f <= (c as u32) && (c as u32) <= 0x9f)
}

pub open spec fn shown_char(c: char) -> char {
    if is_control(c) {
        ' '
    } else {
        c
    }
}

/// The text around a hit of `len` characters at `start`: up to 30
/// characters on each side, control characters shown as spaces.
pub open spec fn search_context_of(text: Seq<char>, start: int, len: int) -> Seq<char> {
    let s = if start >= 30 {
        start - 30
    } else {
        0
    };
    let e = if start + len + 30 <= text.len() {
        start + len + 30
    } else {
        text.len() as int
    };
    text.subrange(s, e).map_values(|c: char| shown_char(c))
}

pub fn search_context(text: &[char], start: usize, len: usize) -> (r: String)
    requires
        start + len + 30 <= usize::MAX,
        (if start >= 30 {
            start - 30
        } else {
            0
        }) <= (if start + len + 30 <= text@.len() {
            start + len + 30
        } else {
            text@.len() as int
        }),
    ensures
        r@ == search_context_of(text@, start as int, len as int),
{
    let s = if start >= 30 {
        start - 30
    } else {
        0
    };
    let e = if start + len + 30 <= text.len() {
        start + len + 30
    } else {
        text.len()
    };
    let mut out: Vec<char> = Vec::new();
    let mut i = s;
    while i < e
        invariant
            s <= i <= e,
            e <= text@.len(),
            out@ == text@.subrange(s as int, i as int).map_values(|c: char| shown_char(c)),
        decreases e - i,
    {
        let c = text[i];
        let u = c as u32;
        out.push(if u <= 0x1f || (0x7f <= u && u <= 0x9f) {
            ' '
        } else {
            c
        });
        assert(text@.subrange(s as int, i + 1) =~= text@.subrange(s as int, i as int).push(c));
        i = i + 1;
    }
    assert(out@ =~= search_context_of(text@, start as int, len as int));
    string_of(out.as_slice())
}

/// PDFium's search flags: match case, and match whole words.
pub fn search_flags(case: bool, whole: bool) -> (r: u32)
    ensures
        r == (if case {
            1u32
        } else {
            0u32
        }) + (if whole {
            2u32
        } else {
            0u32
        }),
{
    (if case {
        1u32
    } else {
        0u32
    }) + (if whole {
        2u32
    } else {
        0u32
    })
}

// ---------- XFDF ----------
/// The first position at or after `from` where `p` occurs in `s`.
pub open spec fn find_text_from(s: Seq<char>, p: Seq<char>, from: nat) -> Option<nat>
    decreases s.len() + 1 - from,
{
    if from + p.len() > s.len() {
        None
    } else if begins_with(s.skip(from as int), p) {
        Some(from)
    } else {
        find_text_from(s, p, from + 1)
    }
}

/// `str::find`: the first position where `p` occurs in `s`.
pub open spec fn find_text(s: Seq<char>, p: Seq<char>) -> Option<nat> {
    find_text_from(s, p, 0)
}

pub proof fn lemma_find_text_found(s: Seq<char>, p: Seq<char>, from: nat)
    requires
        find_text_from(s, p, from) is Some,
    ensures
        from <= find_text_from(s, p, from)->0,
        find_text_from(s, p, from)->0 + p.len() <= s.len(),
        begins_with(s.skip(find_text_from(s, p, from)->0 as int), p),
    decreases s.len() + 1 - from,
{
    if from + p.len() <= s.len() && !begins_with(s.skip(from as int), p) {
        lemma_find_text_found(s, p, from + 1);
    }
}

pub open spec fn opt_index(o: Option<usize>) -> Option<nat> {
    match o {
        Some(i) => Some(i as nat),
        None => None,
    }
}

/// The first position of `p` in `cs[from..]`, counted from `from`.
pub fn find_text_at(cs: &[char], from: usize, p: &[char]) -> (r: Option<usize>)
    requires
        from <= cs@.len(),
    ensures
        opt_index(r) == find_text(cs@.skip(from as int), p@),
{
    let ghost sub = cs@.skip(from as int);
    if p.len() == 0 {
        assert(sub.skip(0) =~= sub);
        assert(sub.take(0) =~= p@);
        assert(begins_with(sub.skip(0), p@));
        return Some(0);
    }
    let n = cs.len() - from;
    let mut k: usize = 0;
    while k <= n
        invariant
            from <= cs@.len(),
            cs@.len() == cs.len(),
            p@.len() == p.len(),
            p@.len() > 0,
            n == cs@.len() - from,
            sub == cs@.skip(from as int),
            k <= n + 1,
            find_text_from(sub, p@, 0) == find_text_from(sub, p@, k as nat),
        decreases n + 1 - k,
    {
        if p.len() > n - k {
            return None;
        }
        assert(sub.skip(k as int) =~= cs@.skip(from + k));
        if occurs_at_chars(cs, from + k, p) {
            return Some(k);
        }
        k = k + 1;
    }
    None
}

/// Field values by fully qualified name, in the order the names first
/// appear.
pub open spec fn entries_of(v: Seq<(String, Vec<String>)>) -> Seq<(Seq<char>, Seq<Seq<char>>)> {
    v.map_values(|e: (String, Vec<String>)| (e.0@, crate::security::texts(e.1@)))
}

/// The first entry at or after `i` named `key`.
pub open spec fn key_index_from(out: Seq<(Seq<char>, Seq<Seq<char>>)>, key: Seq<char>, i: nat) -> Option<
    nat,
>
    decreases out.len() - i,
{
    if i >= out.len() {
        None
    } else if out[i as int].0 == key {
        Some(i)
    } else {
        key_index_from(out, key, i + 1)
    }
}

/// `out` with `v` appended to the values of `key`.
pub open spec fn add_value(out: Seq<(Seq<char>, Seq<Seq<char>>)>, key: Seq<char>, v: Seq<char>) -> Seq<
    (Seq<char>, Seq<Seq<char>>),
> {
    match key_index_from(out, key, 0) {
        Some(i) => out.update(i as int, (key, out[i as int].1.push(v))),
        None => out.push((key, seq![v])),
    }
}

proof fn lemma_key_index_found(out: Seq<(Seq<char>, Seq<Seq<char>>)>, key: Seq<char>, i: nat)
    requires
        key_index_from(out, key, i) is Some,
    ensures
        i <= key_index_from(out, key, i)->0 < out.len(),
        out[key_index_from(out, key, i)->0 as int].0 == key,
    decreases out.len() - i,
{
    if i < out.len() && out[i as int].0 != key {
        lemma_key_index_found(out, key, i + 1);
    }
}

fn copy_strings(v: &Vec<String>) -> (r: Vec<String>)
    ensures
        r@ == v@,
{
    let mut r: Vec<String> = Vec::new();
    let mut k: usize = 0;
    while k < v.len()
        invariant
            k <= v@.len(),
            r@ == v@.take(k as int),
        decreases v.len() - k,
    {
        r.push(v[k].clone());
        assert(r@ =~= v@.take(k + 1));
        k = k + 1;
    }
    assert(r@ =~= v@);
    r
}

fn add_field_value(out: &mut Vec<(String, Vec<String>)>, key: String, v: String)
    ensures
        entries_of(final(out)@) == add_value(entries_of(old(out)@), key@, v@),
{
    let ghost e0 = entries_of(out@);
    assert(e0 == entries_of(old(out)@));
    let ghost kk = key@;
    let ghost vv = v@;
    let kc = chars_of(key.as_str());
    let mut i: usize = 0;
    while i < out.len()
        invariant
            i <= out@.len(),
            e0 == entries_of(out@),
            e0 == entries_of(old(out)@),
            kc@ == kk,
            key@ == kk,
            v@ == vv,
            key_index_from(e0, kk, 0) == key_index_from(e0, kk, i as nat),
        decreases out.len() - i,
    {
        assert(e0[i as int].0 == out@[i as int].0@);
        if chars_eq(chars_of(out[i].0.as_str()).as_slice(), kc.as_slice()) {
            assert(key_index_from(e0, kk, i as nat) == Some(i as nat));
            let mut vals = copy_strings(&out[i].1);
            let ghost old_vals = crate::security::texts(out@[i as int].1@);
            assert(old_vals == e0[i as int].1);
            vals.push(v);
            assert(crate::security::texts(vals@) =~= old_vals.push(vv));
            out.set(i, (key, vals));
            assert(entries_of(out@) =~= e0.update(i as int, (kk, e0[i as int].1.push(vv))));
            assert(add_value(e0, kk, vv) == e0.update(i as int, (kk, e0[i as int].1.push(vv))));
            return;
        }
        i = i + 1;
    }
    assert(key_index_from(e0, kk, i as nat) == None::<nat>);
    let vals = vec![v];
    assert(crate::security::texts(vals@) =~= seq![vv]);
    out.push((key, vals));
    assert(entries_of(out@) =~= e0.push((kk, seq![vv])));
}

/// The value of the `name` attribute in the text after `<field`: what
/// follows the first `name="` up to the next `"` (or the next `name="`),
/// unescaped; empty without one.
pub open spec fn field_name_of(field_tag: Seq<char>) -> Seq<char> {
    match find_text(field_tag, "name=\""@) {
        None => Seq::empty(),
        Some(i) => {
            let r = field_tag.skip(i + 6int);
            let piece = match find_text(r, "name=\""@) {
                Some(j) => r.take(j as int),
                None => r,
            };
            let raw = match find_text(piece, "\""@) {
                Some(k) => piece.take(k as int),
                None => piece,
            };
            xml_unescape_of(raw)
        },
    }
}

fn field_name(ft: &[char]) -> (r: Vec<char>)
    ensures
        r@ == field_name_of(ft@),
{
    proof {
        reveal_strlit("name=\"");
    }
    let pat = chars_of("name=\"");
    let quote = chars_of("\"");
    match find_text_at(ft, 0, pat.as_slice()) {
        None => {
            assert(ft@.skip(0) =~= ft@);
            Vec::new()
        },
        Some(i) => {
            assert(ft@.skip(0) =~= ft@);
            proof {
                lemma_find_text_found(ft@, pat@, 0);
            }
            assert(pat@.len() == 6);
            assert(ft@.len() == ft.len());
            let r = crate::text::slice_range(ft, i + 6, ft.len());
            assert(r@ =~= ft@.skip(i + 6));
            assert(r@.skip(0) =~= r@);
            let piece = match find_text_at(r.as_slice(), 0, pat.as_slice()) {
                Some(j) => {
                    proof {
                        lemma_find_text_found(r@, pat@, 0);
                    }
                    crate::text::slice_range(r.as_slice(), 0, j)
                },
                None => r,
            };
            assert(piece@.skip(0) =~= piece@);
            let raw = match find_text_at(piece.as_slice(), 0, quote.as_slice()) {
                Some(k) => {
                    proof {
                        lemma_find_text_found(piece@, quote@, 0);
                    }
                    crate::text::slice_range(piece.as_slice(), 0, k)
                },
                None => piece,
            };
            xml_unescape_chars(raw.as_slice())
        },
    }
}

/// XFDF form data as the importer reads it: `<field name="...">` elements
/// (nested ones give dotted names), each `<value>` inside one adding a
/// value to the field's name; everything outside `<fields>` is ignored, as
/// is everything else. `rest` is the text still to read, `path` the names
/// of the open fields, `inside` whether a `<fields>` element is open.
pub open spec fn parse_xfdf_from(
    rest: Seq<char>,
    path: Seq<Seq<char>>,
    out: Seq<(Seq<char>, Seq<Seq<char>>)>,
    inside: bool,
) -> Seq<(Seq<char>, Seq<Seq<char>>)>
    decreases rest.len(),
{
    match find_text(rest, "<"@) {
        None => out,
        Some(lt) => {
            proof {
                lemma_find_text_found(rest, "<"@, 0);
                reveal_strlit("<");
            }
            let r1 = rest.skip(lt + 1int);
            match find_text(r1, ">"@) {
                None => out,
                Some(gt) => {
                    proof {
                        lemma_find_text_found(r1, ">"@, 0);
                        reveal_strlit(">");
                    }
                    let tag = r1.take(gt as int);
                    let r2 = r1.skip(gt + 1int);
                    let t = trim(tag);
                    if begins_with(t, "field"@) {
                        let ft = t.skip(5);
                        let stripped = crate::text::strip_trailing(
                            ft,
                            crate::text::Strip::Whitespace,
                        );
                        let self_closing = stripped.len() > 0 && stripped.last() == '/';
                        if begins_with(ft, "s"@) {
                            parse_xfdf_from(r2, path, out, inside || !self_closing)
                        } else {
                            parse_xfdf_from(
                                r2,
                                if self_closing {
                                    path
                                } else {
                                    path.push(field_name_of(ft))
                                },
                                out,
                                inside,
                            )
                        }
                    } else if t == "/field"@ {
                        parse_xfdf_from(
                            r2,
                            if path.len() > 0 {
                                path.drop_last()
                            } else {
                                path
                            },
                            out,
                            inside,
                        )
                    } else if t == "/fields"@ {
                        parse_xfdf_from(r2, path, out, false)
                    } else if begins_with(t, "value"@) && !(t.len() > 0 && t.last() == '/') {
                        match find_text(r2, "</value>"@) {
                            Some(end) => {
                                proof {
                                    lemma_find_text_found(r2, "</value>"@, 0);
                                    reveal_strlit("</value>");
                                }
                                let value = xml_unescape_of(trim(r2.take(end as int)));
                                parse_xfdf_from(
                                    r2.skip(end + 8int),
                                    path,
                                    if inside && path.len() > 0 {
                                        add_value(out, join_with(path, '.'), value)
                                    } else {
                                        out
                                    },
                                    inside,
                                )
                            },
                            None => parse_xfdf_from(r2, path, out, inside),
                        }
                    } else {
                        parse_xfdf_from(r2, path, out, inside)
                    }
                },
            }
        },
    }
}

/// The fully qualified field names and their values in an XFDF document.
pub open spec fn xfdf_fields_of(xml: Seq<char>) -> Seq<(Seq<char>, Seq<Seq<char>>)> {
    parse_xfdf_from(xml, Seq::empty(), Seq::empty(), false)
}

fn join_dotted(path: &Vec<String>) -> (r: String)
    ensures
        r@ == join_with(crate::security::texts(path@), '.'),
{
    let ghost ps = crate::security::texts(path@);
    let mut out: Vec<char> = Vec::new();
    let mut k: usize = 0;
    assert(ps.take(0) =~= Seq::<Seq<char>>::empty());
    while k < path.len()
        invariant
            k <= path@.len(),
            ps == crate::security::texts(path@),
            out@ == join_with(ps.take(k as int), '.'),
        decreases path.len() - k,
    {
        assert(ps.take(k + 1).drop_last() =~= ps.take(k as int));
        if k > 0 {
            out.push('.');
        }
        push_str(&mut out, path[k].as_str());
        assert(out@ =~= join_with(ps.take(k + 1), '.'));
        k = k + 1;
    }
    assert(ps.take(path@.len() as int) =~= ps);
    string_of(out.as_slice())
}

/// Minimal XFDF reader: the `<field name="...">(<value>...</value>)+` pairs,
/// including Adobe's nested-field form, by the name path of the open
/// fields; names in the order they first appear. Tolerates attributes and
/// whitespace; ignores everything outside `<fields>`.
pub fn parse_xfdf_fields(xml: &str) -> (r: Vec<(String, Vec<String>)>)
    ensures
        entries_of(r@) == xfdf_fields_of(xml@),
{
    proof {
        reveal_strlit("<");
        reveal_strlit(">");
        reveal_strlit("field");
        reveal_strlit("s");
        reveal_strlit("/field");
        reveal_strlit("/fields");
        reveal_strlit("value");
        reveal_strlit("</value>");
    }
    let cs = chars_of(xml);
    let fields_close_pat = chars_of("/fields");
    let lt_pat = chars_of("<");
    let gt_pat = chars_of(">");
    let field_pat = chars_of("field");
    let s_pat = chars_of("s");
    let close_pat = chars_of("/field");
    let value_pat = chars_of("value");
    let end_pat = chars_of("</value>");
    let mut pos: usize = 0;
    let mut inside = false;
    let mut path: Vec<String> = Vec::new();
    let mut out: Vec<(String, Vec<String>)> = Vec::new();
    assert(cs@.skip(0) =~= cs@);
    assert(crate::security::texts(path@) =~= Seq::<Seq<char>>::empty());
    assert(entries_of(out@) =~= Seq::<(Seq<char>, Seq<Seq<char>>)>::empty());
    loop
        invariant
            pos <= cs@.len(),
            cs@.len() == cs.len(),
            cs@ == xml@,
            lt_pat@ == "<"@,
            gt_pat@ == ">"@,
            field_pat@ == "field"@,
            s_pat@ == "s"@,
            close_pat@ == "/field"@,
            fields_close_pat@ == "/fields"@,
            value_pat@ == "value"@,
            end_pat@ == "</value>"@,
            "</value>"@.len() == 8,
            "field"@.len() == 5,
            "<"@.len() == 1,
            ">"@.len() == 1,
            parse_xfdf_from(
                cs@.skip(pos as int),
                crate::security::texts(path@),
                entries_of(out@),
                inside,
            ) == xfdf_fields_of(xml@),
        decreases cs@.len() - pos,
    {
        let ghost rest = cs@.skip(pos as int);
        let ghost ps = crate::security::texts(path@);
        let ghost es = entries_of(out@);
        let lt = match find_text_at(cs.as_slice(), pos, lt_pat.as_slice()) {
            None => {
                return out;
            },
            Some(i) => i,
        };
        proof {
            lemma_find_text_found(rest, "<"@, 0);
        }
        let p1 = pos + lt + 1;
        assert(rest.skip(lt + 1) =~= cs@.skip(p1 as int));
        let gt = match find_text_at(cs.as_slice(), p1, gt_pat.as_slice()) {
            None => {
                return out;
            },
            Some(j) => j,
        };
        proof {
            lemma_find_text_found(cs@.skip(p1 as int), ">"@, 0);
        }
        let tag = crate::text::slice_range(cs.as_slice(), p1, p1 + gt);
        let p2 = p1 + gt + 1;
        assert(tag@ =~= cs@.skip(p1 as int).take(gt as int));
        assert(cs@.skip(p1 as int).skip(gt + 1) =~= cs@.skip(p2 as int));
        let t = crate::text::trim_vec(tag.as_slice());
        if crate::text::starts_with_chars(t.as_slice(), field_pat.as_slice()) {
            assert(t@.take(5) =~= t@.subrange(0, 5));
            let ft = crate::text::slice_range(t.as_slice(), 5, t.len());
            assert(ft@ =~= t@.skip(5));
            let is_s = crate::text::starts_with_chars(ft.as_slice(), s_pat.as_slice());
            assert(is_s == begins_with(ft@, "s"@)) by {
                if ft@.len() >= 1 {
                    assert(ft@.take(1) =~= ft@.subrange(0, 1));
                }
            }
            let j = crate::text::skip_trailing(ft.as_slice(), 0, ft.len(), crate::text::Strip::Whitespace);
            assert(ft@.subrange(0, ft@.len() as int) =~= ft@);
            let self_closing = j > 0 && ft[j - 1] == '/';
            if is_s {
                inside = inside || !self_closing;
                pos = p2;
                continue;
            }
            if !self_closing {
                let name = field_name(ft.as_slice());
                path.push(string_of(name.as_slice()));
                assert(crate::security::texts(path@) =~= ps.push(field_name_of(ft@)));
            }
            pos = p2;
        } else if chars_eq(t.as_slice(), close_pat.as_slice()) {
            let _ = path.pop();
            assert(crate::security::texts(path@) =~= if ps.len() > 0 {
                ps.drop_last()
            } else {
                ps
            });
            pos = p2;
        } else if chars_eq(t.as_slice(), fields_close_pat.as_slice()) {
            inside = false;
            pos = p2;
        } else if crate::text::starts_with_chars(t.as_slice(), value_pat.as_slice()) && !(t.len()
            > 0 && t[t.len() - 1] == '/') {
            assert(t@.take(5) =~= t@.subrange(0, 5));
            match find_text_at(cs.as_slice(), p2, end_pat.as_slice()) {
                Some(end) => {
                    proof {
                        lemma_find_text_found(cs@.skip(p2 as int), "</value>"@, 0);
                    }
                    let raw = crate::text::slice_range(cs.as_slice(), p2, p2 + end);
                    assert(raw@ =~= cs@.skip(p2 as int).take(end as int));
                    let value = xml_unescape_chars(crate::text::trim_vec(raw.as_slice()).as_slice());
                    assert(cs@.skip(p2 as int).skip(end + 8) =~= cs@.skip(p2 + end + 8));
                    if inside && path.len() > 0 {
                        let key = join_dotted(&path);
                        add_field_value(&mut out, key, string_of(value.as_slice()));
                    }
                    pos = p2 + end + 8;
                },
                None => {
                    pos = p2;
                },
            }
        } else {
            if crate::text::starts_with_chars(t.as_slice(), value_pat.as_slice()) {
                assert(t@.take(5) =~= t@.subrange(0, 5));
            }
            if t.len() >= 5 {
                assert(t@.take(5) =~= t@.subrange(0, 5));
            }
            pos = p2;
        }
    }
}

/// What the XFDF exporter and importer know of one form widget.
#[derive(Debug, Clone)]
pub struct XfdfField {
    /// Fully qualified field name.
    pub name: String,
    /// `text`, `checkbox`, `radio`, `combo`, `listbox`, `button`,
    /// `signature` or `unknown`.
    pub kind: String,
    pub value: String,
    pub checked: bool,
    /// Export value of a checkbox or radio button when it is on.
    pub export_value: String,
    /// Labels of the selected options of a list box.
    pub selected: Vec<String>,
}

/// The value a widget exports, if it exports one: signatures and buttons
/// do not, nor does a radio button that is off (its checked sibling
/// speaks for the group).
pub open spec fn export_value_of(f: XfdfField) -> Option<Seq<char>> {
    let k = f.kind@;
    if k == "signature"@ || k == "button"@ {
        None
    } else if k == "checkbox"@ || k == "radio"@ {
        if f.checked {
            Some(
                if f.export_value@.len() == 0 {
                    "On"@
                } else {
                    f.export_value@
                },
            )
        } else if k == "radio"@ {
            None
        } else {
            Some("Off"@)
        }
    } else if k == "listbox"@ {
        Some(join_with(crate::security::texts(f.selected@), '\n'))
    } else {
        Some(f.value@)
    }
}

fn join_lines(parts: &Vec<String>) -> (r: Vec<char>)
    ensures
        r@ == join_with(crate::security::texts(parts@), '\n'),
{
    let ghost ps = crate::security::texts(parts@);
    let mut out: Vec<char> = Vec::new();
    let mut k: usize = 0;
    assert(ps.take(0) =~= Seq::<Seq<char>>::empty());
    while k < parts.len()
        invariant
            k <= parts@.len(),
            ps == crate::security::texts(parts@),
            out@ == join_with(ps.take(k as int), '\n'),
        decreases parts.len() - k,
    {
        assert(ps.take(k + 1).drop_last() =~= ps.take(k as int));
        if k > 0 {
            out.push('\n');
        }
        push_str(&mut out, parts[k].as_str());
        assert(out@ =~= join_with(ps.take(k + 1), '\n'));
        k = k + 1;
    }
    assert(ps.take(parts@.len() as int) =~= ps);
    out
}

pub fn export_value(f: &XfdfField) -> (r: Option<String>)
    ensures
        match r {
            Some(v) => export_value_of(*f) == Some(v@),
            None => export_value_of(*f) is None,
        },
{
    let k = f.kind.as_str();
    if text_is(k, "signature") || text_is(k, "button") {
        None
    } else if text_is(k, "checkbox") || text_is(k, "radio") {
        if f.checked {
            if chars_of(f.export_value.as_str()).len() == 0 {
                Some("On".to_owned())
            } else {
                Some(f.export_value.clone())
            }
        } else if text_is(k, "radio") {
            None
        } else {
            Some("Off".to_owned())
        }
    } else if text_is(k, "listbox") {
        Some(string_of(join_lines(&f.selected).as_slice()))
    } else {
        Some(f.value.clone())
    }
}

/// The first pair at or after `i` named `name`.
pub open spec fn pair_index_from(e: Seq<(Seq<char>, Seq<char>)>, name: Seq<char>, i: nat) -> Option<
    nat,
>
    decreases e.len() - i,
{
    if i >= e.len() {
        None
    } else if e[i as int].0 == name {
        Some(i)
    } else {
        pair_index_from(e, name, i + 1)
    }
}

/// `e` with the value of `name` set to `value`: in its place when it is
/// already there, else at the end.
pub open spec fn set_value(e: Seq<(Seq<char>, Seq<char>)>, name: Seq<char>, value: Seq<char>) -> Seq<
    (Seq<char>, Seq<char>),
> {
    match pair_index_from(e, name, 0) {
        Some(i) => e.update(i as int, (name, value)),
        None => e.push((name, value)),
    }
}

/// The exported values by field name, in the order the names first appear;
/// a later widget of the same name wins.
pub open spec fn grouped(fields: Seq<XfdfField>) -> Seq<(Seq<char>, Seq<char>)>
    decreases fields.len(),
{
    if fields.len() == 0 {
        Seq::empty()
    } else {
        let prev = grouped(fields.drop_last());
        match export_value_of(fields.last()) {
            None => prev,
            Some(v) => set_value(prev, fields.last().name@, v),
        }
    }
}

pub open spec fn pairs_of(v: Seq<(String, String)>) -> Seq<(Seq<char>, Seq<char>)> {
    v.map_values(|e: (String, String)| (e.0@, e.1@))
}

fn set_pair(e: &mut Vec<(String, String)>, name: String, value: String)
    ensures
        pairs_of(final(e)@) == set_value(pairs_of(old(e)@), name@, value@),
{
    let ghost p0 = pairs_of(e@);
    let ghost nn = name@;
    let ghost vv = value@;
    let nc = chars_of(name.as_str());
    let mut i: usize = 0;
    while i < e.len()
        invariant
            i <= e@.len(),
            p0 == pairs_of(e@),
            p0 == pairs_of(old(e)@),
            nc@ == nn,
            name@ == nn,
            value@ == vv,
            pair_index_from(p0, nn, 0) == pair_index_from(p0, nn, i as nat),
        decreases e.len() - i,
    {
        assert(p0[i as int].0 == e@[i as int].0@);
        if chars_eq(chars_of(e[i].0.as_str()).as_slice(), nc.as_slice()) {
            assert(pair_index_from(p0, nn, i as nat) == Some(i as nat));
            e.set(i, (name, value));
            assert(pairs_of(e@) =~= p0.update(i as int, (nn, vv)));
            return;
        }
        i = i + 1;
    }
    e.push((name, value));
    assert(pairs_of(e@) =~= p0.push((nn, vv)));
}

fn group_fields(fields: &[XfdfField]) -> (r: Vec<(String, String)>)
    ensures
        pairs_of(r@) == grouped(fields@),
{
    let mut e: Vec<(String, String)> = Vec::new();
    let mut k: usize = 0;
    assert(fields@.take(0) =~= Seq::<XfdfField>::empty());
    assert(pairs_of(e@) =~= Seq::<(Seq<char>, Seq<char>)>::empty());
    while k < fields.len()
        invariant
            k <= fields@.len(),
            pairs_of(e@) == grouped(fields@.take(k as int)),
        decreases fields.len() - k,
    {
        assert(fields@.take(k + 1).drop_last() =~= fields@.take(k as int));
        assert(fields@.take(k + 1).last() == fields@[k as int]);
        match export_value(&fields[k]) {
            Some(v) => set_pair(&mut e, fields[k].name.clone(), v),
            None => {},
        }
        k = k + 1;
    }
    assert(fields@.take(fields@.len() as int) =~= fields@);
    e
}

/// `<value>` elements, one per line of a multi-line value.
pub open spec fn values_xml(lines: Seq<Seq<char>>) -> Seq<char>
    decreases lines.len(),
{
    if lines.len() == 0 {
        Seq::empty()
    } else {
        values_xml(lines.drop_last()) + "<value>"@ + xml_escape_of(lines.last()) + "</value>"@
    }
}

/// One `<field>` element. A value with line breaks becomes one `<value>`
/// per line, except for the field named `comments`.
pub open spec fn field_xml(name: Seq<char>, value: Seq<char>) -> Seq<char> {
    let values = if value.contains('\n') && name != "comments"@ {
        values_xml(crate::paths::split_on(value, '\n'))
    } else {
        "<value>"@ + xml_escape_of(value) + "</value>"@
    };
    "    <field name=\""@ + xml_escape_of(name) + "\">"@ + values + "</field>\n"@
}

pub open spec fn fields_xml(e: Seq<(Seq<char>, Seq<char>)>) -> Seq<char>
    decreases e.len(),
{
    if e.len() == 0 {
        Seq::empty()
    } else {
        fields_xml(e.drop_last()) + field_xml(e.last().0, e.last().1)
    }
}

pub open spec fn xfdf_header() -> Seq<char> {
    "<?xml version=\"1.0\" encoding=\"UTF-8\"?>\n<xfdf xmlns=\"http://ns.adobe.com/xfdf/\" xml:space=\"preserve\">\n  <fields>\n"@
}

/// The XFDF document of a form: its fields' values, and the file it
/// belongs to.
pub open spec fn xfdf_document_of(href: Seq<char>, fields: Seq<XfdfField>) -> Seq<char> {
    xfdf_header() + fields_xml(grouped(fields)) + "  </fields>\n  <f href=\""@ + xml_escape_of(href)
        + "\"/>\n</xfdf>\n"@
}

fn field_xml_chars(name: &str, value: &str) -> (r: Vec<char>)
    ensures
        r@ == field_xml(name@, value@),
{
    proof {
        reveal_strlit("comments");
    }
    let vc = chars_of(value);
    let multi = crate::text::contains_char(vc.as_slice(), '\n') && !text_is(name, "comments");
    let mut out = chars_of("    <field name=\"");
    push_str(&mut out, xml_escape(name).as_str());
    push_str(&mut out, "\">");
    if multi {
        let lines = crate::paths::split_chars(vc.as_slice(), '\n');
        let ghost ls = crate::paths::views(lines@);
        let ghost head = out@;
        let mut k: usize = 0;
        assert(ls.take(0) =~= Seq::<Seq<char>>::empty());
        while k < lines.len()
            invariant
                k <= lines@.len(),
                ls == crate::paths::views(lines@),
                out@ == head + values_xml(ls.take(k as int)),
            decreases lines.len() - k,
        {
            assert(ls.take(k + 1).drop_last() =~= ls.take(k as int));
            push_str(&mut out, "<value>");
            push_str(&mut out, xml_escape(string_of(lines[k].as_slice()).as_str()).as_str());
            push_str(&mut out, "</value>");
            assert(out@ =~= head + values_xml(ls.take(k + 1)));
            k = k + 1;
        }
        assert(ls.take(lines@.len() as int) =~= ls);
    } else {
        push_str(&mut out, "<value>");
        push_str(&mut out, xml_escape(value).as_str());
        push_str(&mut out, "</value>");
    }
    push_str(&mut out, "</field>\n");
    out
}

/// Export the form `fields` as XFDF; `href` is the document's path.
pub fn xfdf_document(href: &str, fields: &[XfdfField]) -> (r: String)
    ensures
        r@ == xfdf_document_of(href@, fields@),
{
    let e = group_fields(fields);
    let mut out = chars_of(
        "<?xml version=\"1.0\" encoding=\"UTF-8\"?>\n<xfdf xmlns=\"http://ns.adobe.com/xfdf/\" xml:space=\"preserve\">\n  <fields>\n",
    );
    let ghost head = out@;
    let ghost es = pairs_of(e@);
    let mut k: usize = 0;
    assert(es.take(0) =~= Seq::<(Seq<char>, Seq<char>)>::empty());
    while k < e.len()
        invariant
            k <= e@.len(),
            es == pairs_of(e@),
            out@ == head + fields_xml(es.take(k as int)),
        decreases e.len() - k,
    {
        assert(es.take(k + 1).drop_last() =~= es.take(k as int));
        assert(es.take(k + 1).last() == (e@[k as int].0@, e@[k as int].1@));
        push_all(&mut out, field_xml_chars(e[k].0.as_str(), e[k].1.as_str()).as_slice());
        assert(out@ =~= head + fields_xml(es.take(k + 1)));
        k = k + 1;
    }
    assert(es.take(e@.len() as int) =~= es);
    push_str(&mut out, "  </fields>\n  <f href=\"");
    push_str(&mut out, xml_escape(href).as_str());
    push_str(&mut out, "\"/>\n</xfdf>\n");
    string_of(out.as_slice())
}

/// The values an XFDF document holds for `name`, if any.
pub open spec fn wanted_of(entries: Seq<(Seq<char>, Seq<Seq<char>>)>, name: Seq<char>) -> Option<
    Seq<Seq<char>>,
> {
    match key_index_from(entries, name, 0) {
        Some(i) => Some(entries[i as int].1),
        None => None,
    }
}

/// The value to give a widget of kind `kind` (export value `export_value`)
/// from the XFDF values wanted for its name, or `None` to leave it alone.
/// A checkbox is on unless the value is `off` in any case; a radio button
/// is turned on only when the value is its own export value.
pub open spec fn import_value_of(kind: Seq<char>, export_value: Seq<char>, wanted: Option<
    Seq<Seq<char>>,
>) -> Option<Seq<char>> {
    match wanted {
        None => None,
        Some(w) => if kind == "checkbox"@ {
            if w.len() > 0 && !crate::text::eq_ignore_ascii_case(w[0], "off"@) {
                Some("on"@)
            } else {
                Some("off"@)
            }
        } else if kind == "radio"@ {
            let export = if export_value.len() == 0 {
                "On"@
            } else {
                export_value
            };
            if w.len() > 0 && w[0] == export {
                Some("on"@)
            } else {
                None
            }
        } else if kind == "listbox"@ {
            Some(join_with(w, '\n'))
        } else if kind == "text"@ || kind == "combo"@ {
            Some(
                if w.len() > 0 {
                    w[0]
                } else {
                    Seq::empty()
                },
            )
        } else {
            None
        },
    }
}

/// The position of the entry named `name`.
pub fn lookup_entry(entries: &Vec<(String, Vec<String>)>, name: &str) -> (r: Option<usize>)
    ensures
        opt_index(r) == key_index_from(entries_of(entries@), name@, 0),
{
    let ghost es = entries_of(entries@);
    let nc = chars_of(name);
    let mut i: usize = 0;
    while i < entries.len()
        invariant
            i <= entries@.len(),
            es == entries_of(entries@),
            nc@ == name@,
            key_index_from(es, name@, 0) == key_index_from(es, name@, i as nat),
        decreases entries.len() - i,
    {
        assert(es[i as int].0 == entries@[i as int].0@);
        if chars_eq(chars_of(entries[i].0.as_str()).as_slice(), nc.as_slice()) {
            return Some(i);
        }
        i = i + 1;
    }
    None
}

pub fn import_value(entries: &Vec<(String, Vec<String>)>, field: &XfdfField) -> (r: Option<String>)
    ensures
        match r {
            Some(v) => import_value_of(
                field.kind@,
                field.export_value@,
                wanted_of(entries_of(entries@), field.name@),
            ) == Some(v@),
            None => import_value_of(
                field.kind@,
                field.export_value@,
                wanted_of(entries_of(entries@), field.name@),
            ) is None,
        },
{
    let w = match lookup_entry(entries, field.name.as_str()) {
        None => {
            return None;
        },
        Some(i) => {
            proof {
                lemma_key_index_found(entries_of(entries@), field.name@, 0);
            }
            &entries[i].1
        },
    };
    let ghost ws = crate::security::texts(w@);
    let k = field.kind.as_str();
    if text_is(k, "checkbox") {
        let on = w.len() > 0 && !crate::text::eq_ignore_ascii_case_chars(
            chars_of(w[0].as_str()).as_slice(),
            chars_of("off").as_slice(),
        );
        if on {
            Some("on".to_owned())
        } else {
            Some("off".to_owned())
        }
    } else if text_is(k, "radio") {
        let export = if chars_of(field.export_value.as_str()).len() == 0 {
            "On".to_owned()
        } else {
            field.export_value.clone()
        };
        if w.len() > 0 && text_is(w[0].as_str(), export.as_str()) {
            Some("on".to_owned())
        } else {
            None
        }
    } else if text_is(k, "listbox") {
        Some(string_of(join_lines(w).as_slice()))
    } else if text_is(k, "text") || text_is(k, "combo") {
        if w.len() > 0 {
            Some(w[0].clone())
        } else {
            Some(String::new())
        }
    } else {
        None
    }
}

/// The values of an XFDF document by field name; a document without any
/// is refused.
pub fn xfdf_values(xml: &str) -> (r: Result<Vec<(String, Vec<String>)>, SheafError>)
    ensures
        xfdf_fields_of(xml@).len() == 0 ==> (r matches Err(SheafError::Pdf(m)) && m@
            == "no <field> entries found in XFDF"@),
        xfdf_fields_of(xml@).len() > 0 ==> (r matches Ok(v) && entries_of(v@) == xfdf_fields_of(
            xml@,
        )),
{
    let v = parse_xfdf_fields(xml);
    if v.len() == 0 {
        return Err(pdf_error("no <field> entries found in XFDF"));
    }
    Ok(v)
}

// ---------- escaping round trip ----------
/// The blocks of `bs` one after the other.
pub open spec fn flat(bs: Seq<Seq<char>>) -> Seq<char>
    decreases bs.len(),
{
    if bs.len() == 0 {
        Seq::empty()
    } else {
        bs[0] + flat(bs.skip(1))
    }
}

pub open spec fn is_entity(b: Seq<char>) -> bool {
    b == "&amp;"@ || b == "&lt;"@ || b == "&gt;"@ || b == "&quot;"@ || b == "&apos;"@
}

/// A block of escaped text: one character other than `&`, or an entity.
pub open spec fn good_block(b: Seq<char>) -> bool {
    (b.len() == 1 && b[0] != '&') || is_entity(b)
}

pub open spec fn no_amp(t: Seq<char>) -> bool {
    forall|i: int| 0 <= i < t.len() ==> t[i] != '&'
}

pub(crate) proof fn lemma_reveal_entities()
    ensures
        "&amp;"@ == seq!['&', 'a', 'm', 'p', ';'],
        "&lt;"@ == seq!['&', 'l', 't', ';'],
        "&gt;"@ == seq!['&', 'g', 't', ';'],
        "&quot;"@ == seq!['&', 'q', 'u', 'o', 't', ';'],
        "&apos;"@ == seq!['&', 'a', 'p', 'o', 's', ';'],
        "<"@ == seq!['<'],
        ">"@ == seq!['>'],
        "\""@ == seq!['"'],
        "'"@ == seq!['\''],
        "&"@ == seq!['&'],
{
    reveal_strlit("&amp;");
    reveal_strlit("&lt;");
    reveal_strlit("&gt;");
    reveal_strlit("&quot;");
    reveal_strlit("&apos;");
    reveal_strlit("<");
    reveal_strlit(">");
    reveal_strlit("\"");
    reveal_strlit("'");
    reveal_strlit("&");
    assert("&amp;"@ =~= seq!['&', 'a', 'm', 'p', ';']);
    assert("&lt;"@ =~= seq!['&', 'l', 't', ';']);
    assert("&gt;"@ =~= seq!['&', 'g', 't', ';']);
    assert("&quot;"@ =~= seq!['&', 'q', 'u', 'o', 't', ';']);
    assert("&apos;"@ =~= seq!['&', 'a', 'p', 'o', 's', ';']);
    assert("<"@ =~= seq!['<']);
    assert(">"@ =~= seq!['>']);
    assert("\""@ =~= seq!['"']);
    assert("'"@ =~= seq!['\'']);
    assert("&"@ =~= seq!['&']);
}

/// Text without `&` passes a replacement of an entity unchanged.
proof fn lemma_pass_plain(t: Seq<char>, rest: Seq<char>, p: Seq<char>, q: Seq<char>)
    requires
        no_amp(t),
        p.len() > 0,
        p[0] == '&',
    ensures
        replace_all(t + rest, p, q) == t + replace_all(rest, p, q),
    decreases t.len(),
{
    if t.len() > 0 {
        let s = t + rest;
        assert(s[0] == t[0]);
        assert(!begins_with(s, p)) by {
            if begins_with(s, p) {
                assert(s.take(p.len() as int)[0] == p[0]);
            }
        }
        assert(s.skip(1) =~= t.skip(1) + rest);
        lemma_pass_plain(t.skip(1), rest, p, q);
        assert(seq![s[0]] + t.skip(1) =~= t);
    } else {
        assert(t + rest =~= rest);
    }
}

/// A block of escaped text passes the replacement of entity `p` by `q`
/// as `q` when it is `p`, else unchanged.
proof fn lemma_pass_block(b: Seq<char>, rest: Seq<char>, p: Seq<char>, q: Seq<char>)
    requires
        good_block(b),
        is_entity(p),
    ensures
        replace_all(b + rest, p, q) == (if b == p {
            q
        } else {
            b
        }) + replace_all(rest, p, q),
{
    lemma_reveal_entities();
    let s = b + rest;
    if b == p {
        assert(s.take(p.len() as int) =~= p);
        assert(s.skip(p.len() as int) =~= rest);
    } else if b.len() == 1 && b[0] != '&' {
        lemma_pass_plain(b, rest, p, q);
    } else {
        let k: int = if (b[1] == 'a' && p[1] == 'a') {
            2
        } else {
            1
        };
        assert(b[k] != p[k]);
        assert(!begins_with(s, p)) by {
            if begins_with(s, p) {
                assert(s.take(p.len() as int)[k] == p[k]);
                assert(s[k] == b[k]);
            }
        }
        assert(s.skip(1) =~= b.skip(1) + rest);
        lemma_pass_plain(b.skip(1), rest, p, q);
        assert(seq![s[0]] + b.skip(1) + replace_all(rest, p, q) =~= b + replace_all(rest, p, q));
    }
}

pub open spec fn pass_block(b: Seq<char>, p: Seq<char>, q: Seq<char>) -> Seq<char> {
    if b == p {
        q
    } else {
        b
    }
}

/// Replacing an entity in escaped text replaces it block by block.
proof fn lemma_pass(bs: Seq<Seq<char>>, p: Seq<char>, q: Seq<char>)
    requires
        forall|i: int| 0 <= i < bs.len() ==> good_block(#[trigger] bs[i]),
        is_entity(p),
    ensures
        replace_all(flat(bs), p, q) == flat(bs.map_values(|b: Seq<char>| pass_block(b, p, q))),
    decreases bs.len(),
{
    let f = |b: Seq<char>| pass_block(b, p, q);
    if bs.len() == 0 {
        assert(bs.map_values(f) =~= Seq::<Seq<char>>::empty());
    } else {
        assert(good_block(bs[0]));
        lemma_pass(bs.skip(1), p, q);
        lemma_pass_block(bs[0], flat(bs.skip(1)), p, q);
        assert(bs.map_values(f).skip(1) =~= bs.skip(1).map_values(f));
    }
}

pub open spec fn escape_blocks(s: Seq<char>) -> Seq<Seq<char>> {
    s.map_values(|c: char| xml_escape_char(c))
}

proof fn lemma_flat_push(bs: Seq<Seq<char>>, b: Seq<char>)
    ensures
        flat(bs.push(b)) == flat(bs) + b,
    decreases bs.len(),
{
    let t = bs.push(b);
    assert(flat(t) == t[0] + flat(t.skip(1)));
    if bs.len() == 0 {
        assert(t.skip(1) =~= Seq::<Seq<char>>::empty());
        assert(flat(t.skip(1)) == Seq::<char>::empty());
        assert(t[0] == b);
        assert(flat(bs) == Seq::<char>::empty());
        assert(b + Seq::<char>::empty() =~= b);
        assert(Seq::<char>::empty() + b =~= b);
    } else {
        lemma_flat_push(bs.skip(1), b);
        assert(t[0] == bs[0]);
        assert(t.skip(1) =~= bs.skip(1).push(b));
        assert(flat(bs) == bs[0] + flat(bs.skip(1)));
        assert(bs[0] + (flat(bs.skip(1)) + b) =~= (bs[0] + flat(bs.skip(1))) + b);
    }
}

pub(crate) proof fn lemma_escape_is_flat(s: Seq<char>)
    ensures
        xml_escape_of(s) == flat(escape_blocks(s)),
    decreases s.len(),
{
    if s.len() == 0 {
        assert(escape_blocks(s) =~= Seq::<Seq<char>>::empty());
    } else {
        lemma_escape_is_flat(s.drop_last());
        assert(escape_blocks(s) =~= escape_blocks(s.drop_last()).push(xml_escape_char(s.last())));
        lemma_flat_push(escape_blocks(s.drop_last()), xml_escape_char(s.last()));
    }
}

proof fn lemma_flat_singletons(s: Seq<char>)
    ensures
        flat(s.map_values(|c: char| seq![c])) == s,
    decreases s.len(),
{
    if s.len() > 0 {
        lemma_flat_singletons(s.skip(1));
        assert(s.map_values(|c: char| seq![c]).skip(1) =~= s.skip(1).map_values(|c: char| seq![c]));
        assert(seq![s[0]] + s.skip(1) =~= s);
    } else {
        assert(s.map_values(|c: char| seq![c]) =~= Seq::<Seq<char>>::empty());
    }
}

/// Unescaping gives back what was escaped: a name or value written into
/// XFDF is read back unchanged.
pub proof fn lemma_xml_escape_round_trip(s: Seq<char>)
    ensures
        xml_unescape_of(xml_escape_of(s)) == s,
{
    lemma_reveal_entities();
    lemma_escape_is_flat(s);
    let b0 = escape_blocks(s);
    let lt = "&lt;"@;
    let gt = "&gt;"@;
    let quot = "&quot;"@;
    let apos = "&apos;"@;
    let amp = "&amp;"@;
    let b1 = b0.map_values(|b: Seq<char>| pass_block(b, lt, "<"@));
    let b2 = b1.map_values(|b: Seq<char>| pass_block(b, gt, ">"@));
    let b3 = b2.map_values(|b: Seq<char>| pass_block(b, quot, "\""@));
    let b4 = b3.map_values(|b: Seq<char>| pass_block(b, apos, "'"@));
    let b5 = b4.map_values(|b: Seq<char>| pass_block(b, amp, "&"@));
    assert forall|i: int| 0 <= i < b0.len() implies good_block(#[trigger] b0[i]) by {
        let c = s[i];
        assert(b0[i] == xml_escape_char(c));
    }
    lemma_pass(b0, lt, "<"@);
    assert forall|i: int| 0 <= i < b1.len() implies good_block(#[trigger] b1[i]) by {
        assert(good_block(b0[i]));
    }
    lemma_pass(b1, gt, ">"@);
    assert forall|i: int| 0 <= i < b2.len() implies good_block(#[trigger] b2[i]) by {
        assert(good_block(b1[i]));
    }
    lemma_pass(b2, quot, "\""@);
    assert forall|i: int| 0 <= i < b3.len() implies good_block(#[trigger] b3[i]) by {
        assert(good_block(b2[i]));
    }
    lemma_pass(b3, apos, "'"@);
    assert forall|i: int| 0 <= i < b4.len() implies good_block(#[trigger] b4[i]) by {
        assert(good_block(b3[i]));
    }
    lemma_pass(b4, amp, "&"@);
    assert(b5 =~= s.map_values(|c: char| seq![c])) by {
        assert forall|i: int| 0 <= i < s.len() implies b5[i] == seq![s[i]] by {
            let c = s[i];
            assert(b0[i] == xml_escape_char(c));
        }
    }
    lemma_flat_singletons(s);
}

/// How the document's bytes are produced for saving or signing.
#[derive(Debug, Clone, Copy, PartialEq, Eq, Structural)]
pub enum SaveMode {
    /// The bytes held exactly equal PDFium's state: copy them, which keeps
    /// signatures byte-identical.
    Verbatim,
    /// A signed document: an incremental update, so the existing signatures
    /// keep covering their byte ranges.
    Incremental,
    /// A compact rewrite.
    Rewrite,
}

pub open spec fn save_mode_of(authoritative: bool, bytes: Seq<u8>) -> SaveMode {
    if authoritative {
        SaveMode::Verbatim
    } else if has_signatures_of(bytes) {
        SaveMode::Incremental
    } else {
        SaveMode::Rewrite
    }
}

pub fn save_mode(authoritative: bool, bytes: &[u8]) -> (r: SaveMode)
    ensures
        r == save_mode_of(authoritative, bytes@),
{
    if authoritative {
        SaveMode::Verbatim
    } else if has_signatures(bytes) {
        SaveMode::Incremental
    } else {
        SaveMode::Rewrite
    }
}

} // verus!
