//! What the XFDF importer reads back from a document the exporter wrote:
//! every exported field under its own name, with its value, or the lines
//! of a multi-line value, trimmed.
use vstd::prelude::*;

use crate::engine::{
    add_value, begins_with, export_value_of, field_name_of, field_xml, fields_xml, find_text,
    find_text_from, grouped, key_index_from, wanted_of, lemma_reveal_entities, lemma_xml_escape_round_trip, pair_index_from,
    parse_xfdf_from, set_value, values_xml, xfdf_document_of, xfdf_fields_of, xfdf_header,
    xml_escape_char, xml_escape_of, xml_unescape_of, XfdfField,
};
use crate::paths::{join_with, lemma_split_on_nonempty, split_on};
use crate::text::{is_suffix, is_whitespace, strip_leading, strip_trailing, trim, Strip};

verus! {

// ---------- searching ----------
/// `p` is found at `k` when it occurs there and its first character does
/// not occur before.
proof fn lemma_find_first(s: Seq<char>, p: Seq<char>, k: nat, from: nat)
    requires
        p.len() > 0,
        from <= k,
        k + p.len() <= s.len(),
        begins_with(s.skip(k as int), p),
        forall|j: int| from <= j < k ==> s[j] != p[0],
    ensures
        find_text_from(s, p, from) == Some(k),
    decreases k - from,
{
    assert(s.skip(k as int).take(p.len() as int)[0] == p[0]);
    if from < k {
        assert(s.skip(from as int)[0] == s[from as int]);
        assert(!begins_with(s.skip(from as int), p)) by {
            if begins_with(s.skip(from as int), p) {
                assert(s.skip(from as int).take(p.len() as int)[0] == p[0]);
            }
        }
        lemma_find_first(s, p, k, from + 1);
    }
}

/// `p` is not found when it occurs nowhere at or after `from`.
proof fn lemma_find_none(s: Seq<char>, p: Seq<char>, from: nat)
    requires
        forall|j: int| from <= j && j + p.len() <= s.len() ==> !begins_with(#[trigger] s.skip(j), p),
    ensures
        find_text_from(s, p, from) is None,
    decreases s.len() + 1 - from,
{
    if from + p.len() <= s.len() {
        lemma_find_none(s, p, from + 1);
    }
}

/// `p` found at `k` in `s`, when its first character does not occur before.
proof fn lemma_find_at(s: Seq<char>, p: Seq<char>, k: nat)
    requires
        p.len() > 0,
        k + p.len() <= s.len(),
        s.subrange(k as int, (k + p.len()) as int) == p,
        forall|j: int| 0 <= j < k ==> s[j] != p[0],
    ensures
        find_text(s, p) == Some(k),
{
    assert(s.skip(k as int).take(p.len() as int) =~= s.subrange(k as int, (k + p.len()) as int));
    lemma_find_first(s, p, k, 0);
}

// ---------- what escaping writes ----------
/// A character that escaping writes: never `<`, `>` or `"`.
pub open spec fn plain(c: char) -> bool {
    c != '<' && c != '>' && c != '"'
}

proof fn lemma_escape_front(s: Seq<char>)
    requires
        s.len() > 0,
    ensures
        xml_escape_of(s) == xml_escape_char(s[0]) + xml_escape_of(s.skip(1)),
    decreases s.len(),
{
    if s.len() == 1 {
        assert(s.drop_last() =~= Seq::<char>::empty());
        assert(s.skip(1) =~= Seq::<char>::empty());
        assert(xml_escape_char(s[0]) + Seq::<char>::empty() =~= xml_escape_char(s[0]));
        assert(Seq::<char>::empty() + xml_escape_char(s[0]) =~= xml_escape_char(s[0]));
    } else {
        lemma_escape_front(s.drop_last());
        assert(s.drop_last().skip(1) =~= s.skip(1).drop_last());
        assert(s.skip(1).last() == s.last());
        assert(xml_escape_char(s[0]) + (xml_escape_of(s.skip(1).drop_last()) + xml_escape_char(
            s.last(),
        )) =~= (xml_escape_char(s[0]) + xml_escape_of(s.skip(1).drop_last())) + xml_escape_char(
            s.last(),
        ));
    }
}

proof fn lemma_escape_char_plain(c: char)
    ensures
        forall|i: int| 0 <= i < xml_escape_char(c).len() ==> plain(#[trigger] xml_escape_char(c)[i]),
        xml_escape_char(c).len() > 0,
        xml_escape_char(c)[0] == c || xml_escape_char(c)[0] == '&',
        xml_escape_char(c).last() == c || xml_escape_char(c).last() == ';',
        is_whitespace(c) ==> xml_escape_char(c) == seq![c],
{
    lemma_reveal_entities();
}

/// Escaped text holds no `<`, `>` or `"`.
proof fn lemma_escape_plain(s: Seq<char>)
    ensures
        forall|i: int| 0 <= i < xml_escape_of(s).len() ==> plain(#[trigger] xml_escape_of(s)[i]),
    decreases s.len(),
{
    if s.len() > 0 {
        lemma_escape_plain(s.drop_last());
        lemma_escape_char_plain(s.last());
        let a = xml_escape_of(s.drop_last());
        let b = xml_escape_char(s.last());
        assert forall|i: int| 0 <= i < xml_escape_of(s).len() implies plain(
            #[trigger] xml_escape_of(s)[i],
        ) by {
            if i < a.len() {
                assert(xml_escape_of(s)[i] == a[i]);
            } else {
                assert(xml_escape_of(s)[i] == b[i - a.len()]);
            }
        }
    }
}

proof fn lemma_strip_leading_escape(s: Seq<char>)
    ensures
        strip_leading(xml_escape_of(s), Strip::Whitespace) == xml_escape_of(
            strip_leading(s, Strip::Whitespace),
        ),
    decreases s.len(),
{
    if s.len() > 0 {
        lemma_escape_front(s);
        lemma_escape_char_plain(s[0]);
        let e = xml_escape_of(s);
        if is_whitespace(s[0]) {
            assert(e[0] == s[0]);
            assert(e.drop_first() =~= xml_escape_of(s.skip(1)));
            assert(s.drop_first() =~= s.skip(1));
            lemma_strip_leading_escape(s.skip(1));
        } else {
            assert(e[0] == xml_escape_char(s[0])[0]);
            assert(!is_whitespace(e[0])) by {
                assert(e[0] == s[0] || e[0] == '&');
            }
        }
    }
}

proof fn lemma_strip_trailing_escape(s: Seq<char>)
    ensures
        strip_trailing(xml_escape_of(s), Strip::Whitespace) == xml_escape_of(
            strip_trailing(s, Strip::Whitespace),
        ),
    decreases s.len(),
{
    if s.len() > 0 {
        lemma_escape_char_plain(s.last());
        let e = xml_escape_of(s);
        let b = xml_escape_char(s.last());
        assert(e.last() == b.last());
        if is_whitespace(s.last()) {
            assert(e.drop_last() =~= xml_escape_of(s.drop_last()));
            lemma_strip_trailing_escape(s.drop_last());
        } else {
            assert(!is_whitespace(e.last())) by {
                assert(e.last() == s.last() || e.last() == ';');
            }
        }
    }
}

/// Trimming escaped text trims what was escaped.
proof fn lemma_trim_escape(s: Seq<char>)
    ensures
        trim(xml_escape_of(s)) == xml_escape_of(trim(s)),
{
    lemma_strip_leading_escape(s);
    lemma_strip_trailing_escape(strip_leading(s, Strip::Whitespace));
}

proof fn lemma_suffix_escape(p: Seq<char>, s: Seq<char>)
    requires
        forall|i: int| 0 <= i < p.len() ==> p[i] != ';',
        is_suffix(p, xml_escape_of(s)),
    ensures
        is_suffix(p, s),
    decreases p.len(),
{
    if p.len() > 0 {
        let e = xml_escape_of(s);
        if s.len() == 0 {
            assert(e.len() == 0);
        }
        lemma_escape_char_plain(s.last());
        let b = xml_escape_char(s.last());
        let a = xml_escape_of(s.drop_last());
        assert(e.subrange(e.len() - p.len(), e.len() as int)[p.len() - 1] == p.last());
        assert(e.last() == p.last());
        assert(e.last() == b.last());
        lemma_reveal_entities();
        assert(b == seq![s.last()]);
        let q = p.drop_last();
        assert(a.subrange(a.len() - q.len(), a.len() as int) =~= e.subrange(
            e.len() - p.len(),
            e.len() - 1,
        ));
        assert(e.subrange(e.len() - p.len(), e.len() - 1) =~= q);
        lemma_suffix_escape(q, s.drop_last());
        let t = s.drop_last();
        assert(s.subrange(s.len() - p.len(), s.len() as int) =~= t.subrange(
            t.len() - q.len(),
            t.len() as int,
        ).push(s.last()));
        assert(p =~= q.push(p.last()));
        assert(t.subrange(t.len() - q.len(), t.len() as int) == q);
        assert(s.subrange(s.len() - p.len(), s.len() as int) == p);
    } else {
        assert(s.subrange(s.len() as int, s.len() as int) =~= p);
    }
}

// ---------- reading one element ----------
pub open spec fn lacks(s: Seq<char>, c: char) -> bool {
    forall|i: int| 0 <= i < s.len() ==> s[i] != c
}

proof fn lemma_reveal_tags()
    ensures
        "<"@ == seq!['<'],
        ">"@ == seq!['>'],
        "\""@ == seq!['"'],
        "s"@ == seq!['s'],
        "field"@ == seq!['f', 'i', 'e', 'l', 'd'],
        "/field"@ == seq!['/', 'f', 'i', 'e', 'l', 'd'],
        "/fields"@ == seq!['/', 'f', 'i', 'e', 'l', 'd', 's'],
        "value"@ == seq!['v', 'a', 'l', 'u', 'e'],
        "</value>"@ == seq!['<', '/', 'v', 'a', 'l', 'u', 'e', '>'],
        "name=\""@ == seq!['n', 'a', 'm', 'e', '=', '"'],
        "name="@ == seq!['n', 'a', 'm', 'e', '='],
{
    reveal_strlit("<");
    reveal_strlit(">");
    reveal_strlit("\"");
    reveal_strlit("s");
    reveal_strlit("field");
    reveal_strlit("/field");
    reveal_strlit("/fields");
    reveal_strlit("value");
    reveal_strlit("</value>");
    reveal_strlit("name=\"");
    reveal_strlit("name=");
    assert("<"@ =~= seq!['<']);
    assert(">"@ =~= seq!['>']);
    assert("\""@ =~= seq!['"']);
    assert("s"@ =~= seq!['s']);
    assert("field"@ =~= seq!['f', 'i', 'e', 'l', 'd']);
    assert("/field"@ =~= seq!['/', 'f', 'i', 'e', 'l', 'd']);
    assert("/fields"@ =~= seq!['/', 'f', 'i', 'e', 'l', 'd', 's']);
    assert("value"@ =~= seq!['v', 'a', 'l', 'u', 'e']);
    assert("</value>"@ =~= seq!['<', '/', 'v', 'a', 'l', 'u', 'e', '>']);
    assert("name=\""@ =~= seq!['n', 'a', 'm', 'e', '=', '"']);
    assert("name="@ =~= seq!['n', 'a', 'm', 'e', '=']);
}

/// The importer finds the element `<tag>` after text without `<`.
proof fn lemma_element(pre: Seq<char>, tag: Seq<char>, rest: Seq<char>)
    requires
        lacks(pre, '<'),
        lacks(tag, '>'),
    ensures
        ({
            let s = pre + seq!['<'] + tag + seq!['>'] + rest;
            let r1 = s.skip(pre.len() + 1int);
            &&& find_text(s, "<"@) == Some(pre.len())
            &&& r1 == tag + seq!['>'] + rest
            &&& find_text(r1, ">"@) == Some(tag.len())
            &&& r1.take(tag.len() as int) == tag
            &&& r1.skip(tag.len() + 1int) == rest
        }),
{
    lemma_reveal_tags();
    let s = pre + seq!['<'] + tag + seq!['>'] + rest;
    assert(s.subrange(pre.len() as int, pre.len() + 1int) =~= seq!['<']);
    assert forall|j: int| 0 <= j < pre.len() implies s[j] != seq!['<'][0] by {
        assert(s[j] == pre[j]);
    }
    lemma_find_at(s, "<"@, pre.len());
    let r1 = s.skip(pre.len() + 1int);
    assert(r1 =~= tag + seq!['>'] + rest);
    assert(r1.subrange(tag.len() as int, tag.len() + 1int) =~= seq!['>']);
    assert forall|j: int| 0 <= j < tag.len() implies r1[j] != seq!['>'][0] by {
        assert(r1[j] == tag[j]);
    }
    lemma_find_at(r1, ">"@, tag.len());
    assert(r1.take(tag.len() as int) =~= tag);
    assert(r1.skip(tag.len() + 1int) =~= rest);
}

/// A tag the importer passes over.
pub open spec fn skipped(tag: Seq<char>) -> bool {
    let t = trim(tag);
    !begins_with(t, "field"@) && t != "/field"@ && t != "/fields"@ && !(begins_with(t, "value"@)
        && !(t.len() > 0 && t.last() == '/'))
}

proof fn lemma_skip(
    pre: Seq<char>,
    tag: Seq<char>,
    rest: Seq<char>,
    path: Seq<Seq<char>>,
    out: Seq<(Seq<char>, Seq<Seq<char>>)>,
    inside: bool,
)
    requires
        lacks(pre, '<'),
        lacks(tag, '>'),
        skipped(tag),
    ensures
        parse_xfdf_from(pre + seq!['<'] + tag + seq!['>'] + rest, path, out, inside)
            == parse_xfdf_from(rest, path, out, inside),
{
    lemma_element(pre, tag, rest);
}

/// `<fields>` opens the form data, `</fields>` closes it.
proof fn lemma_fields_tags(
    pre: Seq<char>,
    rest: Seq<char>,
    path: Seq<Seq<char>>,
    out: Seq<(Seq<char>, Seq<Seq<char>>)>,
    inside: bool,
)
    requires
        lacks(pre, '<'),
    ensures
        parse_xfdf_from(
            pre + seq!['<'] + seq!['f', 'i', 'e', 'l', 'd', 's'] + seq!['>'] + rest,
            path,
            out,
            inside,
        ) == parse_xfdf_from(rest, path, out, true),
        parse_xfdf_from(
            pre + seq!['<'] + seq!['/', 'f', 'i', 'e', 'l', 'd', 's'] + seq!['>'] + rest,
            path,
            out,
            inside,
        ) == parse_xfdf_from(rest, path, out, false),
{
    lemma_reveal_tags();
    let t = seq!['f', 'i', 'e', 'l', 'd', 's'];
    lemma_element(pre, t, rest);
    lemma_trim_solid(t);
    assert(t.take(5) =~= "field"@);
    assert(t.skip(5).take(1) =~= "s"@);
    assert(strip_trailing(t.skip(5), Strip::Whitespace) == t.skip(5));
    let c = seq!['/', 'f', 'i', 'e', 'l', 'd', 's'];
    lemma_element(pre, c, rest);
    lemma_trim_solid(c);
    assert(!begins_with(c, "field"@)) by {
        if begins_with(c, "field"@) {
            assert(c.take(5)[0] == 'f');
        }
    }
    assert(c != "/field"@) by {
        assert(c.len() != "/field"@.len());
    }
    assert(c =~= "/fields"@);
}

/// A tag whose ends are not white space is its own trimming.
proof fn lemma_trim_solid(t: Seq<char>)
    requires
        t.len() > 0,
        !is_whitespace(t[0]),
        !is_whitespace(t.last()),
    ensures
        trim(t) == t,
{
}

/// The tag that opens the exported element of the field `name`.
pub open spec fn open_tag(name: Seq<char>) -> Seq<char> {
    seq!['f', 'i', 'e', 'l', 'd', ' ', 'n', 'a', 'm', 'e', '=', '"'] + xml_escape_of(name) + seq!['"']
}

pub open spec fn value_tag() -> Seq<char> {
    seq!['v', 'a', 'l', 'u', 'e']
}

pub open spec fn value_end() -> Seq<char> {
    seq!['<', '/', 'v', 'a', 'l', 'u', 'e', '>']
}

pub open spec fn close_tag() -> Seq<char> {
    seq!['/', 'f', 'i', 'e', 'l', 'd']
}

/// The name written in an opening tag is read back, unless it ends with
/// `name=`: the importer then takes that for the attribute.
proof fn lemma_field_name(name: Seq<char>)
    requires
        !is_suffix("name="@, name),
    ensures
        field_name_of(open_tag(name).skip(5)) == name,
{
    lemma_reveal_tags();
    let e = xml_escape_of(name);
    lemma_escape_plain(name);
    let ft = open_tag(name).skip(5);
    let p = "name=\""@;
    assert(ft =~= seq![' ', 'n', 'a', 'm', 'e', '=', '"'] + e + seq!['"']);
    assert(ft.subrange(1, 7) =~= p);
    lemma_find_at(ft, p, 1);
    let r = ft.skip(7);
    assert(r =~= e + seq!['"']);
    assert forall|j: int| 0 <= j && j + p.len() <= r.len() implies !begins_with(
        #[trigger] r.skip(j),
        p,
    ) by {
        if begins_with(r.skip(j), p) {
            assert(r.skip(j).take(6)[5] == p[5]);
            assert(r[j + 5] == '"');
            if j + 5 < e.len() {
                assert(r[j + 5] == e[j + 5]);
                assert(plain(e[j + 5]));
            }
            assert(j + 5 == e.len());
            assert(e.subrange(e.len() - 5, e.len() as int) =~= "name="@) by {
                assert forall|i: int| 0 <= i < 5 implies e.subrange(e.len() - 5, e.len() as int)[i]
                    == "name="@[i] by {
                    assert(r.skip(j).take(6)[i] == p[i]);
                    assert(r[j + i] == e[j + i]);
                }
            }
            lemma_suffix_escape("name="@, name);
        }
    }
    lemma_find_none(r, p, 0);
    assert(r.subrange(e.len() as int, e.len() + 1int) =~= "\""@);
    assert forall|j: int| 0 <= j < e.len() implies r[j] != "\""@[0] by {
        assert(r[j] == e[j]);
        assert(plain(e[j]));
    }
    lemma_find_at(r, "\""@, e.len());
    assert(r.take(e.len() as int) =~= e);
    lemma_xml_escape_round_trip(name);
}

proof fn lemma_open_field(
    pre: Seq<char>,
    name: Seq<char>,
    rest: Seq<char>,
    path: Seq<Seq<char>>,
    out: Seq<(Seq<char>, Seq<Seq<char>>)>,
    inside: bool,
)
    requires
        lacks(pre, '<'),
        !is_suffix("name="@, name),
    ensures
        parse_xfdf_from(pre + seq!['<'] + open_tag(name) + seq!['>'] + rest, path, out, inside)
            == parse_xfdf_from(rest, path.push(name), out, inside),
{
    lemma_reveal_tags();
    let tag = open_tag(name);
    let e = xml_escape_of(name);
    lemma_escape_plain(name);
    assert forall|i: int| 0 <= i < tag.len() implies tag[i] != '>' by {
        if 12 <= i < 12 + e.len() {
            assert(tag[i] == e[i - 12]);
            assert(plain(e[i - 12]));
        }
    }
    lemma_element(pre, tag, rest);
    lemma_trim_solid(tag);
    assert(tag.take(5) =~= "field"@);
    let ft = tag.skip(5);
    assert(ft[0] == ' ');
    assert(!begins_with(ft, "s"@)) by {
        if begins_with(ft, "s"@) {
            assert(ft.take(1)[0] == 's');
        }
    }
    assert(ft.last() == '"');
    assert(strip_trailing(ft, Strip::Whitespace) == ft);
    lemma_field_name(name);
}

proof fn lemma_close_field(
    pre: Seq<char>,
    rest: Seq<char>,
    path: Seq<Seq<char>>,
    out: Seq<(Seq<char>, Seq<Seq<char>>)>,
    inside: bool,
)
    requires
        lacks(pre, '<'),
    ensures
        parse_xfdf_from(pre + seq!['<'] + close_tag() + seq!['>'] + rest, path, out, inside)
            == parse_xfdf_from(
            rest,
            if path.len() > 0 {
                path.drop_last()
            } else {
                path
            },
            out,
            inside,
        ),
{
    lemma_reveal_tags();
    let tag = close_tag();
    lemma_element(pre, tag, rest);
    lemma_trim_solid(tag);
    assert(!begins_with(tag, "field"@)) by {
        if begins_with(tag, "field"@) {
            assert(tag.take(5)[0] == 'f');
        }
    }
    assert(tag =~= "/field"@);
}

proof fn lemma_value(
    pre: Seq<char>,
    v: Seq<char>,
    rest: Seq<char>,
    path: Seq<Seq<char>>,
    out: Seq<(Seq<char>, Seq<Seq<char>>)>,
)
    requires
        lacks(pre, '<'),
        path.len() > 0,
    ensures
        parse_xfdf_from(
            pre + seq!['<'] + value_tag() + seq!['>'] + (xml_escape_of(v) + value_end() + rest),
            path,
            out,
            true,
        ) == parse_xfdf_from(rest, path, add_value(out, join_with(path, '.'), trim(v)), true),
{
    lemma_reveal_tags();
    let tag = value_tag();
    let e = xml_escape_of(v);
    let r2 = e + value_end() + rest;
    lemma_escape_plain(v);
    lemma_element(pre, tag, r2);
    lemma_trim_solid(tag);
    assert(!begins_with(tag, "field"@)) by {
        if begins_with(tag, "field"@) {
            assert(tag.take(5)[0] == 'f');
        }
    }
    assert(tag != "/field"@) by {
        assert(tag.len() != "/field"@.len());
    }
    assert(tag.take(5) =~= "value"@);
    assert(r2.subrange(e.len() as int, e.len() + 8int) =~= "</value>"@);
    assert forall|j: int| 0 <= j < e.len() implies r2[j] != "</value>"@[0] by {
        assert(r2[j] == e[j]);
        assert(plain(e[j]));
    }
    lemma_find_at(r2, "</value>"@, e.len());
    assert(r2.take(e.len() as int) =~= e);
    assert(r2.skip(e.len() + 8int) =~= rest);
    lemma_trim_escape(v);
    lemma_xml_escape_round_trip(trim(v));
}

// ---------- reading the values of one field ----------
/// The lines the exporter writes a value as: one per line, except for the
/// field named `comments`, which keeps its line breaks in one value.
pub open spec fn value_lines(name: Seq<char>, value: Seq<char>) -> Seq<Seq<char>> {
    if value.contains('\n') && name != "comments"@ {
        split_on(value, '\n')
    } else {
        seq![value]
    }
}

pub open spec fn trimmed(lines: Seq<Seq<char>>) -> Seq<Seq<char>> {
    lines.map_values(|l: Seq<char>| trim(l))
}

/// What the importer reads back of exported `(name, value)` pairs.
pub open spec fn read_back(e: Seq<(Seq<char>, Seq<char>)>) -> Seq<(Seq<char>, Seq<Seq<char>>)> {
    e.map_values(|p: (Seq<char>, Seq<char>)| (p.0, trimmed(value_lines(p.0, p.1))))
}

/// `out` after adding each line, trimmed, under `key`.
pub open spec fn add_all(out: Seq<(Seq<char>, Seq<Seq<char>>)>, key: Seq<char>, lines: Seq<Seq<char>>) -> Seq<
    (Seq<char>, Seq<Seq<char>>),
>
    decreases lines.len(),
{
    if lines.len() == 0 {
        out
    } else {
        add_all(add_value(out, key, trim(lines[0])), key, lines.skip(1))
    }
}

proof fn lemma_reveal_field_text()
    ensures
        "    <field name=\""@ == seq![' ', ' ', ' ', ' ', '<'] + open_tag(Seq::empty()).take(12),
        "\">"@ == seq!['"', '>'],
        "<value>"@ == seq!['<'] + value_tag() + seq!['>'],
        "</value>"@ == value_end(),
        "</field>\n"@ == seq!['<'] + close_tag() + seq!['>', '\n'],
        "comments"@ == seq!['c', 'o', 'm', 'm', 'e', 'n', 't', 's'],
{
    reveal_strlit("    <field name=\"");
    reveal_strlit("\">");
    reveal_strlit("<value>");
    reveal_strlit("</value>");
    reveal_strlit("</field>\n");
    reveal_strlit("comments");
    assert("    <field name=\""@ =~= seq![' ', ' ', ' ', ' ', '<'] + open_tag(Seq::empty()).take(12));
    assert("\">"@ =~= seq!['"', '>']);
    assert("<value>"@ =~= seq!['<'] + value_tag() + seq!['>']);
    assert("</value>"@ =~= value_end());
    assert("</field>\n"@ =~= seq!['<'] + close_tag() + seq!['>', '\n']);
    assert("comments"@ =~= seq!['c', 'o', 'm', 'm', 'e', 'n', 't', 's']);
}

proof fn lemma_values_front(lines: Seq<Seq<char>>)
    requires
        lines.len() > 0,
    ensures
        values_xml(lines) == "<value>"@ + xml_escape_of(lines[0]) + "</value>"@ + values_xml(
            lines.skip(1),
        ),
    decreases lines.len(),
{
    let x = |l: Seq<char>| "<value>"@ + xml_escape_of(l) + "</value>"@;
    if lines.len() == 1 {
        assert(lines.drop_last() =~= Seq::<Seq<char>>::empty());
        assert(lines.skip(1) =~= Seq::<Seq<char>>::empty());
        assert(values_xml(lines) =~= x(lines[0]));
        assert(x(lines[0]) + Seq::<char>::empty() =~= x(lines[0]));
    } else {
        lemma_values_front(lines.drop_last());
        assert(lines.drop_last().skip(1) =~= lines.skip(1).drop_last());
        assert(lines.skip(1).last() == lines.last());
        assert(values_xml(lines) =~= x(lines[0]) + values_xml(lines.skip(1)));
    }
}

proof fn lemma_parse_values(
    lines: Seq<Seq<char>>,
    rest: Seq<char>,
    path: Seq<Seq<char>>,
    out: Seq<(Seq<char>, Seq<Seq<char>>)>,
)
    requires
        path.len() > 0,
    ensures
        parse_xfdf_from(values_xml(lines) + rest, path, out, true) == parse_xfdf_from(
            rest,
            path,
            add_all(out, join_with(path, '.'), lines),
            true,
        ),
    decreases lines.len(),
{
    if lines.len() == 0 {
        assert(values_xml(lines) + rest =~= rest);
    } else {
        lemma_reveal_field_text();
        lemma_values_front(lines);
        let tail = values_xml(lines.skip(1)) + rest;
        assert(values_xml(lines) + rest =~= Seq::<char>::empty() + seq!['<'] + value_tag()
            + seq!['>'] + (xml_escape_of(lines[0]) + value_end() + tail));
        lemma_value(Seq::<char>::empty(), lines[0], tail, path, out);
        lemma_parse_values(
            lines.skip(1),
            rest,
            path,
            add_value(out, join_with(path, '.'), trim(lines[0])),
        );
    }
}

pub open spec fn absent(out: Seq<(Seq<char>, Seq<Seq<char>>)>, key: Seq<char>) -> bool {
    forall|i: int| 0 <= i < out.len() ==> out[i].0 != key
}

proof fn lemma_key_absent(out: Seq<(Seq<char>, Seq<Seq<char>>)>, key: Seq<char>, from: nat)
    requires
        forall|i: int| from <= i < out.len() ==> out[i].0 != key,
    ensures
        key_index_from(out, key, from) is None,
    decreases out.len() - from,
{
    if from < out.len() {
        lemma_key_absent(out, key, from + 1);
    }
}

proof fn lemma_key_last(out: Seq<(Seq<char>, Seq<Seq<char>>)>, key: Seq<char>, x: Seq<Seq<char>>, from: nat)
    requires
        from <= out.len(),
        forall|i: int| from <= i < out.len() ==> out[i].0 != key,
    ensures
        key_index_from(out.push((key, x)), key, from) == Some(out.len()),
    decreases out.len() - from,
{
    if from < out.len() {
        lemma_key_last(out, key, x, from + 1);
    }
}

/// Lines added under a new key make one new entry.
proof fn lemma_add_all_new(
    out: Seq<(Seq<char>, Seq<Seq<char>>)>,
    key: Seq<char>,
    acc: Seq<Seq<char>>,
    lines: Seq<Seq<char>>,
)
    requires
        absent(out, key),
    ensures
        add_all(out.push((key, acc)), key, lines) == out.push((key, acc + trimmed(lines))),
    decreases lines.len(),
{
    if lines.len() == 0 {
        assert(acc + trimmed(lines) =~= acc);
    } else {
        lemma_key_last(out, key, acc, 0);
        let acc2 = acc.push(trim(lines[0]));
        assert(add_value(out.push((key, acc)), key, trim(lines[0])) =~= out.push((key, acc2)));
        lemma_add_all_new(out, key, acc2, lines.skip(1));
        assert(acc2 + trimmed(lines.skip(1)) =~= acc + trimmed(lines));
    }
}

proof fn lemma_add_all_absent(out: Seq<(Seq<char>, Seq<Seq<char>>)>, key: Seq<char>, lines: Seq<Seq<char>>)
    requires
        absent(out, key),
        lines.len() > 0,
    ensures
        add_all(out, key, lines) == out.push((key, trimmed(lines))),
{
    lemma_key_absent(out, key, 0);
    assert(add_value(out, key, trim(lines[0])) == out.push((key, seq![trim(lines[0])])));
    lemma_add_all_new(out, key, seq![trim(lines[0])], lines.skip(1));
    assert(seq![trim(lines[0])] + trimmed(lines.skip(1)) =~= trimmed(lines));
}

// ---------- reading the fields ----------
proof fn lemma_parse_field(
    name: Seq<char>,
    value: Seq<char>,
    rest: Seq<char>,
    out: Seq<(Seq<char>, Seq<Seq<char>>)>,
)
    requires
        absent(out, name),
        !is_suffix("name="@, name),
    ensures
        parse_xfdf_from(seq!['\n'] + field_xml(name, value) + rest, Seq::empty(), out, true)
            == parse_xfdf_from(
            seq!['\n'] + rest,
            Seq::empty(),
            out.push((name, trimmed(value_lines(name, value)))),
            true,
        ),
{
    lemma_reveal_field_text();
    let ls = value_lines(name, value);
    if value.contains('\n') && name != "comments"@ {
        lemma_split_on_nonempty(value, '\n');
    } else {
        lemma_values_front(ls);
        assert(values_xml(ls.skip(1)) =~= Seq::<char>::empty()) by {
            assert(ls.skip(1) =~= Seq::<Seq<char>>::empty());
        }
    }
    assert(xml_escape_of(Seq::<char>::empty()) =~= Seq::<char>::empty());
    let r2 = seq!['<'] + close_tag() + seq!['>'] + (seq!['\n'] + rest);
    let r1 = values_xml(ls) + r2;
    let pre = seq!['\n', ' ', ' ', ' ', ' '];
    assert(seq!['\n'] + field_xml(name, value) + rest =~= pre + seq!['<'] + open_tag(name) + seq![
        '>',
    ] + r1);
    lemma_open_field(pre, name, r1, Seq::empty(), out, true);
    let path = Seq::<Seq<char>>::empty().push(name);
    assert(join_with(path, '.') == name);
    lemma_parse_values(ls, r2, path, out);
    lemma_add_all_absent(out, name, ls);
    assert(r2 =~= Seq::<char>::empty() + seq!['<'] + close_tag() + seq!['>'] + (seq!['\n'] + rest));
    lemma_close_field(
        Seq::empty(),
        seq!['\n'] + rest,
        path,
        out.push((name, trimmed(ls))),
        true,
    );
    assert(path.drop_last() =~= Seq::<Seq<char>>::empty());
}

proof fn lemma_fields_front(e: Seq<(Seq<char>, Seq<char>)>)
    requires
        e.len() > 0,
    ensures
        fields_xml(e) == field_xml(e[0].0, e[0].1) + fields_xml(e.skip(1)),
    decreases e.len(),
{
    if e.len() == 1 {
        assert(e.drop_last() =~= Seq::<(Seq<char>, Seq<char>)>::empty());
        assert(e.skip(1) =~= Seq::<(Seq<char>, Seq<char>)>::empty());
        assert(fields_xml(e.drop_last()) =~= Seq::<char>::empty());
        assert(e.last() == e[0]);
        assert(fields_xml(e) =~= field_xml(e[0].0, e[0].1));
        assert(field_xml(e[0].0, e[0].1) + Seq::<char>::empty() =~= field_xml(e[0].0, e[0].1));
    } else {
        lemma_fields_front(e.drop_last());
        assert(e.drop_last().skip(1) =~= e.skip(1).drop_last());
        assert(e.skip(1).last() == e.last());
        assert(fields_xml(e) =~= field_xml(e[0].0, e[0].1) + fields_xml(e.skip(1)));
    }
}

pub open spec fn distinct_names(e: Seq<(Seq<char>, Seq<char>)>) -> bool {
    forall|i: int, j: int| 0 <= i < j < e.len() ==> e[i].0 != e[j].0
}

proof fn lemma_parse_fields(
    e: Seq<(Seq<char>, Seq<char>)>,
    rest: Seq<char>,
    out: Seq<(Seq<char>, Seq<Seq<char>>)>,
)
    requires
        distinct_names(e),
        forall|i: int| 0 <= i < e.len() ==> absent(out, #[trigger] e[i].0),
        forall|i: int| 0 <= i < e.len() ==> !is_suffix("name="@, #[trigger] e[i].0),
    ensures
        parse_xfdf_from(seq!['\n'] + fields_xml(e) + rest, Seq::empty(), out, true)
            == parse_xfdf_from(seq!['\n'] + rest, Seq::empty(), out + read_back(e), true),
    decreases e.len(),
{
    if e.len() == 0 {
        assert(seq!['\n'] + fields_xml(e) + rest =~= seq!['\n'] + rest);
        assert(out + read_back(e) =~= out);
    } else {
        lemma_fields_front(e);
        let x = fields_xml(e.skip(1)) + rest;
        assert(seq!['\n'] + fields_xml(e) + rest =~= seq!['\n'] + field_xml(e[0].0, e[0].1) + x);
        assert(absent(out, e[0].0));
        assert(!is_suffix("name="@, e[0].0));
        lemma_parse_field(e[0].0, e[0].1, x, out);
        let out2 = out.push((e[0].0, trimmed(value_lines(e[0].0, e[0].1))));
        assert(seq!['\n'] + x =~= seq!['\n'] + fields_xml(e.skip(1)) + rest);
        let t = e.skip(1);
        assert forall|i: int| 0 <= i < t.len() implies absent(out2, #[trigger] t[i].0) by {
            assert(t[i] == e[i + 1]);
            assert(absent(out, e[i + 1].0));
            assert(e[0].0 != e[i + 1].0);
        }
        assert forall|i: int| 0 <= i < t.len() implies !is_suffix("name="@, #[trigger] t[i].0) by {
            assert(t[i] == e[i + 1]);
        }
        assert forall|i: int, j: int| 0 <= i < j < t.len() implies t[i].0 != t[j].0 by {
            assert(t[i] == e[i + 1]);
            assert(t[j] == e[j + 1]);
        }
        lemma_parse_fields(t, rest, out2);
        assert(out2 + read_back(t) =~= out + read_back(e));
    }
}

// ---------- the document around the fields ----------
proof fn lemma_skip_solid(t: Seq<char>)
    requires
        t.len() >= 2,
        !is_whitespace(t[0]),
        !is_whitespace(t.last()),
        t[0] != 'v',
        t[0] == 'f' ==> t[1] != 'i',
        t[0] == '/' ==> t.len() != 6 && t.len() != 7,
    ensures
        skipped(t),
{
    lemma_reveal_tags();
    lemma_trim_solid(t);
    assert(!begins_with(t, "field"@)) by {
        if begins_with(t, "field"@) {
            assert(t.take(5)[0] == 'f');
            assert(t.take(5)[1] == 'i');
        }
    }
    assert(t != "/field"@) by {
        if t == "/field"@ {
            assert(t[0] == '/');
        }
    }
    assert(!begins_with(t, "value"@)) by {
        if begins_with(t, "value"@) {
            assert(t.take(5)[0] == 'v');
        }
    }
}

proof fn lemma_header(rest: Seq<char>, path: Seq<Seq<char>>, out: Seq<(Seq<char>, Seq<Seq<char>>)>)
    ensures
        parse_xfdf_from(xfdf_header() + rest, path, out, false) == parse_xfdf_from(
            seq!['\n'] + rest,
            path,
            out,
            true,
        ),
{
    let t1 = "?xml version=\"1.0\" encoding=\"UTF-8\"?"@;
    let t2 = "xfdf xmlns=\"http://ns.adobe.com/xfdf/\" xml:space=\"preserve\""@;
    let t3 = seq!['f', 'i', 'e', 'l', 'd', 's'];
    reveal_strlit("?xml version=\"1.0\" encoding=\"UTF-8\"?");
    reveal_strlit("xfdf xmlns=\"http://ns.adobe.com/xfdf/\" xml:space=\"preserve\"");
    reveal_strlit(
        "<?xml version=\"1.0\" encoding=\"UTF-8\"?>\n<xfdf xmlns=\"http://ns.adobe.com/xfdf/\" xml:space=\"preserve\">\n  <fields>\n",
    );
    let r3 = seq!['\n'] + rest;
    let r2 = seq!['\n', ' ', ' '] + seq!['<'] + t3 + seq!['>'] + r3;
    let r1 = seq!['\n'] + seq!['<'] + t2 + seq!['>'] + r2;
    assert(xfdf_header() + rest =~= Seq::<char>::empty() + seq!['<'] + t1 + seq!['>'] + r1);
    assert(lacks(t1, '>'));
    assert(lacks(t2, '>'));
    lemma_skip_solid(t1);
    lemma_skip_solid(t2);
    lemma_skip(Seq::empty(), t1, r1, path, out, false);
    lemma_skip(seq!['\n'], t2, r2, path, out, false);
    lemma_fields_tags(seq!['\n', ' ', ' '], r3, path, out, false);
}

/// What the exporter writes after the fields.
pub open spec fn xfdf_tail(href: Seq<char>) -> Seq<char> {
    "  </fields>\n  <f href=\""@ + xml_escape_of(href) + "\"/>\n</xfdf>\n"@
}

proof fn lemma_tail(href: Seq<char>, path: Seq<Seq<char>>, out: Seq<(Seq<char>, Seq<Seq<char>>)>)
    ensures
        parse_xfdf_from(seq!['\n'] + xfdf_tail(href), path, out, true) == out,
{
    reveal_strlit("  </fields>\n  <f href=\"");
    reveal_strlit("\"/>\n</xfdf>\n");
    lemma_reveal_tags();
    let e = xml_escape_of(href);
    lemma_escape_plain(href);
    let t4 = seq!['/', 'f', 'i', 'e', 'l', 'd', 's'];
    let t5 = seq!['f', ' ', 'h', 'r', 'e', 'f', '=', '"'] + e + seq!['"', '/'];
    let t6 = seq!['/', 'x', 'f', 'd', 'f'];
    let r6 = seq!['\n'];
    let r5 = seq!['\n'] + seq!['<'] + t6 + seq!['>'] + r6;
    let r4 = seq!['\n', ' ', ' '] + seq!['<'] + t5 + seq!['>'] + r5;
    assert(seq!['\n'] + xfdf_tail(href) =~= seq!['\n', ' ', ' '] + seq!['<'] + t4 + seq!['>'] + r4);
    assert forall|i: int| 0 <= i < t5.len() implies t5[i] != '>' by {
        if 8 <= i < 8 + e.len() {
            assert(t5[i] == e[i - 8]);
            assert(plain(e[i - 8]));
        }
    }
    lemma_skip_solid(t5);
    lemma_skip_solid(t6);
    lemma_fields_tags(seq!['\n', ' ', ' '], r4, path, out, true);
    lemma_skip(seq!['\n', ' ', ' '], t5, r5, path, out, false);
    lemma_skip(seq!['\n'], t6, r6, path, out, false);
    assert forall|j: int| 0 <= j && j + "<"@.len() <= r6.len() implies !begins_with(
        #[trigger] r6.skip(j),
        "<"@,
    ) by {
        assert(r6.skip(j).take(1)[0] == '\n');
    }
    lemma_find_none(r6, "<"@, 0);
}

// ---------- grouping ----------
proof fn lemma_pair_index(e: Seq<(Seq<char>, Seq<char>)>, name: Seq<char>, from: nat)
    ensures
        match pair_index_from(e, name, from) {
            Some(i) => from <= i < e.len() && e[i as int].0 == name && forall|j: int|
                from <= j < i ==> e[j].0 != name,
            None => forall|j: int| from <= j < e.len() ==> e[j].0 != name,
        },
    decreases e.len() - from,
{
    if from < e.len() && e[from as int].0 != name {
        lemma_pair_index(e, name, from + 1);
    }
}

/// Each name is exported once.
proof fn lemma_grouped_distinct(fields: Seq<XfdfField>)
    ensures
        distinct_names(grouped(fields)),
    decreases fields.len(),
{
    if fields.len() > 0 {
        lemma_grouped_distinct(fields.drop_last());
        let prev = grouped(fields.drop_last());
        let n = fields.last().name@;
        lemma_pair_index(prev, n, 0);
    }
}

// ---------- the round trip ----------
/// Importing an exported form gives back every exported field once, under
/// its own name, in the order of first appearance: its value trimmed, or
/// each line of a multi-line value trimmed (the `comments` field keeps its
/// line breaks in one value). It holds for every form whose exported names
/// do not end with `name=`, which the importer reads as the start of the
/// attribute.
pub proof fn lemma_xfdf_round_trip(href: Seq<char>, fields: Seq<XfdfField>)
    requires
        forall|i: int|
            0 <= i < grouped(fields).len() ==> !is_suffix("name="@, #[trigger] grouped(fields)[i].0),
    ensures
        xfdf_fields_of(xfdf_document_of(href, fields)) == read_back(grouped(fields)),
{
    let g = grouped(fields);
    let empty = Seq::<(Seq<char>, Seq<Seq<char>>)>::empty();
    let path = Seq::<Seq<char>>::empty();
    let tail = xfdf_tail(href);
    assert(xfdf_document_of(href, fields) =~= xfdf_header() + (fields_xml(g) + tail));
    lemma_header(fields_xml(g) + tail, path, empty);
    lemma_grouped_distinct(fields);
    assert(seq!['\n'] + (fields_xml(g) + tail) =~= seq!['\n'] + fields_xml(g) + tail);
    lemma_parse_fields(g, tail, empty);
    lemma_tail(href, path, empty + read_back(g));
    assert(empty + read_back(g) =~= read_back(g));
}

// ---------- what each field gets back ----------
/// The value that the last widget named `name` to export one exported.
pub open spec fn last_export(fields: Seq<XfdfField>, name: Seq<char>) -> Option<Seq<char>>
    decreases fields.len(),
{
    if fields.len() == 0 {
        None
    } else if fields.last().name@ == name && export_value_of(fields.last()) is Some {
        export_value_of(fields.last())
    } else {
        last_export(fields.drop_last(), name)
    }
}

proof fn lemma_pair_index_update(
    e: Seq<(Seq<char>, Seq<char>)>,
    j: int,
    m: Seq<char>,
    v: Seq<char>,
    n: Seq<char>,
    from: nat,
)
    requires
        0 <= j < e.len(),
        e[j].0 == m,
        m != n,
    ensures
        pair_index_from(e.update(j, (m, v)), n, from) == pair_index_from(e, n, from),
    decreases e.len() - from,
{
    if from < e.len() {
        lemma_pair_index_update(e, j, m, v, n, from + 1);
    }
}

proof fn lemma_pair_index_push(e: Seq<(Seq<char>, Seq<char>)>, m: Seq<char>, v: Seq<char>, n: Seq<char>, from: nat)
    ensures
        pair_index_from(e.push((m, v)), n, from) == (match pair_index_from(e, n, from) {
            Some(i) => Some(i),
            None => if m == n && from <= e.len() {
                Some(e.len())
            } else {
                None
            },
        }),
    decreases e.len() + 1 - from,
{
    if from < e.len() {
        assert(e.push((m, v))[from as int] == e[from as int]);
        lemma_pair_index_push(e, m, v, n, from + 1);
    } else if from == e.len() {
        assert(e.push((m, v))[from as int] == (m, v));
        assert(pair_index_from(e.push((m, v)), n, from + 1) is None);
    }
}

/// The exported pairs give each name the value of its last exporter.
proof fn lemma_grouped_lookup(fields: Seq<XfdfField>, n: Seq<char>)
    ensures
        match pair_index_from(grouped(fields), n, 0) {
            Some(k) => k < grouped(fields).len() && grouped(fields)[k as int] == (
                n,
                last_export(fields, n)->0,
            ) && last_export(fields, n) is Some,
            None => last_export(fields, n) is None,
        },
    decreases fields.len(),
{
    if fields.len() > 0 {
        let prev = grouped(fields.drop_last());
        lemma_grouped_lookup(fields.drop_last(), n);
        lemma_pair_index(prev, n, 0);
        let f = fields.last();
        let m = f.name@;
        match export_value_of(f) {
            None => {},
            Some(v) => {
                lemma_pair_index(prev, m, 0);
                match pair_index_from(prev, m, 0) {
                    Some(j) => {
                        if m != n {
                            lemma_pair_index_update(prev, j as int, m, v, n, 0);
                        } else {
                            assert(j == pair_index_from(prev, n, 0)->0);
                            let u = prev.update(j as int, (m, v));
                            assert forall|i: int| 0 <= i < j implies u[i].0 != n by {
                                assert(u[i] == prev[i]);
                            }
                            lemma_pair_index_found_first(u, n, j);
                        }
                    },
                    None => {
                        lemma_pair_index_push(prev, m, v, n, 0);
                    },
                }
            },
        }
    }
}

proof fn lemma_pair_index_found_first(e: Seq<(Seq<char>, Seq<char>)>, n: Seq<char>, k: nat)
    requires
        k < e.len(),
        e[k as int].0 == n,
        forall|i: int| 0 <= i < k ==> e[i].0 != n,
    ensures
        pair_index_from(e, n, 0) == Some(k),
{
    lemma_pair_index_found_from(e, n, k, 0);
}

proof fn lemma_pair_index_found_from(e: Seq<(Seq<char>, Seq<char>)>, n: Seq<char>, k: nat, from: nat)
    requires
        from <= k < e.len(),
        e[k as int].0 == n,
        forall|i: int| from <= i < k ==> e[i].0 != n,
    ensures
        pair_index_from(e, n, from) == Some(k),
    decreases k - from,
{
    if from < k {
        lemma_pair_index_found_from(e, n, k, from + 1);
    }
}

proof fn lemma_read_back_key(g: Seq<(Seq<char>, Seq<char>)>, n: Seq<char>, from: nat)
    ensures
        key_index_from(read_back(g), n, from) == pair_index_from(g, n, from),
    decreases g.len() - from,
{
    if from < g.len() {
        lemma_read_back_key(g, n, from + 1);
    }
}

/// Importing an exported form gives each field name the value that the
/// last widget of that name to export one exported, trimmed (or its
/// lines, trimmed, as `read_back` says); a name that no widget exported is
/// given nothing, so its widgets are left as they are. It holds for every
/// form whose exported names do not end with `name=`.
pub proof fn lemma_xfdf_import_after_export(href: Seq<char>, fields: Seq<XfdfField>, name: Seq<char>)
    requires
        forall|i: int|
            0 <= i < grouped(fields).len() ==> !is_suffix("name="@, #[trigger] grouped(fields)[i].0),
    ensures
        wanted_of(xfdf_fields_of(xfdf_document_of(href, fields)), name) == match last_export(
            fields,
            name,
        ) {
            Some(v) => Some(trimmed(value_lines(name, v))),
            None => None,
        },
{
    lemma_xfdf_round_trip(href, fields);
    let g = grouped(fields);
    lemma_read_back_key(g, name, 0);
    lemma_grouped_lookup(fields, name);
}

} // verus!
