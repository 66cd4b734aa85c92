//! A model of `std::path::Path` on Unix and on Windows hosts.
//!
//! A path is read as its sequence of components, as `Path::components`
//! documents them: the path is split at its separators (`/` on Unix, `/` and
//! `\` on Windows), repeated separators and `.` components are dropped, a
//! leading separator becomes the root component and a leading `.` the
//! current-directory component. On Windows a drive prefix such as `C:`
//! comes first, as a component of its own. Components are kept as
//! character sequences: the root is written `/`, the current directory `.`,
//! the parent directory `..`, a drive prefix as written; every other
//! component is a normal name. Verbatim (`\\?\`) and UNC prefixes are not
//! recognised as prefixes: such a path reads as a rooted one.
use vstd::prelude::*;

use crate::text::{all_ascii, ascii_lower, chars_eq, chars_of, fold_ascii, slice_range};

verus! {

/// `s` split at every `c`; always at least one (possibly empty) piece.
pub open spec fn split_on(s: Seq<char>, c: char) -> Seq<Seq<char>>
    decreases s.len(),
{
    if s.len() == 0 {
        seq![Seq::<char>::empty()]
    } else {
        let p = split_on(s.drop_last(), c);
        if s.last() == c {
            p.push(Seq::<char>::empty())
        } else {
            p.update(p.len() - 1, p.last().push(s.last()))
        }
    }
}

pub proof fn lemma_split_on_nonempty(s: Seq<char>, c: char)
    ensures
        split_on(s, c).len() >= 1,
    decreases s.len(),
{
    if s.len() > 0 {
        lemma_split_on_nonempty(s.drop_last(), c);
    }
}

pub open spec fn root_component() -> Seq<char> {
    seq!['/']
}

pub open spec fn cur_component() -> Seq<char> {
    seq!['.']
}

pub open spec fn parent_component() -> Seq<char> {
    seq!['.', '.']
}

/// A piece of the split text that survives as a component.
pub open spec fn kept_piece(x: Seq<char>) -> bool {
    x.len() > 0 && x != cur_component()
}

/// The components of a Unix path.
pub open spec fn path_components(s: Seq<char>) -> Seq<Seq<char>> {
    let pieces = split_on(s, '/');
    let head = if s.len() > 0 && s[0] == '/' {
        seq![root_component()]
    } else if pieces[0] == cur_component() {
        seq![cur_component()]
    } else {
        Seq::<Seq<char>>::empty()
    };
    head + pieces.filter(|x: Seq<char>| kept_piece(x))
}

/// A normal component: a file or directory name.
pub open spec fn is_normal(x: Seq<char>) -> bool {
    x != root_component() && x != cur_component() && x != parent_component()
}

/// `Path::has_root`.
pub open spec fn has_root(p: Seq<Seq<char>>) -> bool {
    p.len() > 0 && p[0] == root_component()
}

/// `Path::file_name`: the final component when it is a normal name.
pub open spec fn file_name(p: Seq<Seq<char>>) -> Option<Seq<char>> {
    if p.len() > 0 && is_normal(p.last()) {
        Some(p.last())
    } else {
        None
    }
}

/// `Path::parent`: the path without its final component; none for the empty
/// path and for the root.
pub open spec fn parent(p: Seq<Seq<char>>) -> Option<Seq<Seq<char>>> {
    if p.len() == 0 || p.last() == root_component() {
        None
    } else {
        Some(p.drop_last())
    }
}

/// `Path::starts_with`: `base` is a prefix of `p`, component by component.
pub open spec fn path_starts_with(p: Seq<Seq<char>>, base: Seq<Seq<char>>) -> bool {
    base.len() <= p.len() && p.subrange(0, base.len() as int) == base
}

/// The last position of `c` in `s`, or -1.
pub open spec fn last_index_of(s: Seq<char>, c: char) -> int
    decreases s.len(),
{
    if s.len() == 0 {
        -1
    } else if s.last() == c {
        s.len() - 1
    } else {
        last_index_of(s.drop_last(), c)
    }
}

/// `Path::extension` of a file name: the text after its last `.`, unless the
/// name has no `.` or its only `.` starts it.
pub open spec fn extension_of(name: Seq<char>) -> Option<Seq<char>> {
    let i = last_index_of(name, '.');
    if i <= 0 {
        None
    } else {
        Some(name.skip(i + 1))
    }
}

/// Components joined with `sep` between them.
pub open spec fn join_with(parts: Seq<Seq<char>>, sep: char) -> Seq<char>
    decreases parts.len(),
{
    if parts.len() == 0 {
        Seq::empty()
    } else if parts.len() == 1 {
        parts[0]
    } else {
        join_with(parts.drop_last(), sep).push(sep) + parts.last()
    }
}

/// The text of a path given by its components.
pub open spec fn render(p: Seq<Seq<char>>) -> Seq<char> {
    if has_root(p) {
        seq!['/'] + join_with(p.skip(1), '/')
    } else {
        join_with(p, '/')
    }
}

/// A path held as its components.
pub struct PathParts {
    pub parts: Vec<Vec<char>>,
}

pub open spec fn views(v: Seq<Vec<char>>) -> Seq<Seq<char>> {
    v.map_values(|x: Vec<char>| x@)
}

impl View for PathParts {
    type V = Seq<Seq<char>>;

    open spec fn view(&self) -> Seq<Seq<char>> {
        views(self.parts@)
    }
}

/// `s` split at every `c`.
pub fn split_chars(s: &[char], c: char) -> (r: Vec<Vec<char>>)
    ensures
        views(r@) == split_on(s@, c),
{
    let mut done: Vec<Vec<char>> = Vec::new();
    let mut cur: Vec<char> = Vec::new();
    let mut i: usize = 0;
    assert(s@.take(0) =~= Seq::<char>::empty());
    assert(views(done@).push(cur@) =~= split_on(s@.take(0), c));
    while i < s.len()
        invariant
            i <= s@.len(),
            views(done@).push(cur@) == split_on(s@.take(i as int), c),
        decreases s.len() - i,
    {
        let ghost before = views(done@).push(cur@);
        assert(s@.take(i + 1).drop_last() =~= s@.take(i as int));
        assert(s@.take(i + 1).last() == s@[i as int]);
        if s[i] == c {
            done.push(cur);
            cur = Vec::new();
            assert(views(done@).push(cur@) =~= before.push(Seq::<char>::empty()));
        } else {
            cur.push(s[i]);
            assert(views(done@).push(cur@) =~= before.update(
                before.len() - 1,
                before.last().push(s@[i as int]),
            ));
        }
        i = i + 1;
    }
    done.push(cur);
    assert(s@.take(s@.len() as int) =~= s@);
    assert(views(done@) =~= split_on(s@, c));
    done
}

/// The pieces of `pieces` that survive as components, in order.
fn kept_pieces(pieces: &Vec<Vec<char>>) -> (r: Vec<Vec<char>>)
    ensures
        views(r@) == views(pieces@).filter(|x: Seq<char>| kept_piece(x)),
{
    let mut r: Vec<Vec<char>> = Vec::new();
    let mut i: usize = 0;
    let ghost all = views(pieces@);
    let dot = vec!['.'];
    assert(dot@ =~= cur_component());
    reveal(Seq::filter);
    assert(all.take(0) =~= Seq::<Seq<char>>::empty());
    while i < pieces.len()
        invariant
            i <= pieces@.len(),
            all == views(pieces@),
            dot@ == cur_component(),
            views(r@) == all.take(i as int).filter(|x: Seq<char>| kept_piece(x)),
        decreases pieces.len() - i,
    {
        reveal(Seq::filter);
        assert(all.take(i + 1).drop_last() =~= all.take(i as int));
        assert(all.take(i + 1).last() == pieces@[i as int]@);
        let p = &pieces[i];
        if p.len() > 0 && !chars_eq(p, &dot) {
            r.push(p.clone());
            assert(views(r@) =~= all.take(i as int).filter(|x: Seq<char>| kept_piece(x)).push(
                pieces@[i as int]@,
            ));
        }
        i = i + 1;
    }
    assert(all.take(pieces@.len() as int) =~= all);
    r
}

/// A copy of `v`.
pub fn copy_chars(v: &Vec<char>) -> (r: Vec<char>)
    ensures
        r@ == v@,
{
    let r = slice_range(v.as_slice(), 0, v.len());
    assert(v@.subrange(0, v@.len() as int) =~= v@);
    r
}

impl PathParts {
    /// The components of the path written `s`.
    pub fn parse(s: &str) -> (r: PathParts)
        ensures
            r@ == path_components(s@),
    {
        let cs = chars_of(s);
        Self::parse_chars(cs.as_slice())
    }

    /// The components of the path whose text is `cs`.
    pub fn parse_chars(cs: &[char]) -> (r: PathParts)
        ensures
            r@ == path_components(cs@),
    {
        let ghost s = cs;
        let pieces = split_chars(cs, '/');
        proof {
            lemma_split_on_nonempty(cs@, '/');
        }
        let mut parts: Vec<Vec<char>> = Vec::new();
        let dot = vec!['.'];
        assert(dot@ =~= cur_component());
        let ghost spec_pieces = split_on(s@, '/');
        let ghost spec_head = if s@.len() > 0 && s@[0] == '/' {
            seq![root_component()]
        } else if spec_pieces[0] == cur_component() {
            seq![cur_component()]
        } else {
            Seq::<Seq<char>>::empty()
        };
        assert(views(pieces@)[0] == pieces@[0]@);
        if cs.len() > 0 && cs[0] == '/' {
            let root = vec!['/'];
            assert(root@ =~= root_component());
            parts.push(root);
            assert(views(parts@) =~= spec_head);
        } else if chars_eq(&pieces[0], &dot) {
            let cur = vec!['.'];
            parts.push(cur);
            assert(views(parts@) =~= spec_head);
        } else {
            assert(views(parts@) =~= spec_head);
        }
        let rest = kept_pieces(&pieces);
        let ghost head = views(parts@);
        let mut i: usize = 0;
        while i < rest.len()
            invariant
                i <= rest@.len(),
                views(parts@) == head + views(rest@).take(i as int),
            decreases rest.len() - i,
        {
            let piece = copy_chars(&rest[i]);
            let ghost before = parts@;
            parts.push(piece);
            assert(parts@ == before.push(piece));
            assert(views(parts@) =~= views(before).push(rest@[i as int]@));
            assert(views(rest@).take(i + 1) =~= views(rest@).take(i as int).push(rest@[i as int]@));
            assert(views(parts@) =~= head + views(rest@).take(i + 1));
            i = i + 1;
        }
        assert(views(rest@).take(rest@.len() as int) =~= views(rest@));
        proof {
            let v = seq!['/'];
            assert(v =~= root_component());
        }
        assert(views(parts@) =~= path_components(s@));
        PathParts { parts }
    }

    pub fn copy(&self) -> (r: PathParts)
        ensures
            r@ == self@,
    {
        let mut parts: Vec<Vec<char>> = Vec::new();
        let mut i: usize = 0;
        while i < self.parts.len()
            invariant
                i <= self.parts@.len(),
                views(parts@) == self@.take(i as int),
            decreases self.parts.len() - i,
        {
            let ghost before = parts@;
            parts.push(copy_chars(&self.parts[i]));
            assert(views(parts@) =~= views(before).push(self.parts@[i as int]@));
            assert(self@.take(i + 1) =~= self@.take(i as int).push(self.parts@[i as int]@));
            i = i + 1;
        }
        assert(self@.take(self@.len() as int) =~= self@);
        PathParts { parts }
    }

    /// The text of this path.
    pub fn render(&self) -> (r: Vec<char>)
        ensures
            r@ == render(self@),
    {
        let rooted = self.has_root();
        let mut out: Vec<char> = Vec::new();
        let start: usize = if rooted {
            1
        } else {
            0
        };
        if rooted {
            out.push('/');
        }
        let ghost prefix = out@;
        let ghost rest = self@.skip(start as int);
        let mut i: usize = start;
        assert(rest.take(0) =~= Seq::<Seq<char>>::empty());
        while i < self.parts.len()
            invariant
                start <= i <= self.parts@.len(),
                rest == self@.skip(start as int),
                out@ == prefix + join_with(rest.take(i - start), '/'),
            decreases self.parts.len() - i,
        {
            let ghost before = out@;
            let ghost k = i - start;
            assert(rest.take(k + 1).drop_last() =~= rest.take(k));
            assert(rest.take(k + 1).last() == self.parts@[i as int]@);
            if i > start {
                out.push('/');
            }
            let piece = &self.parts[i];
            let mut j: usize = 0;
            let ghost mid = out@;
            while j < piece.len()
                invariant
                    j <= piece@.len(),
                    out@ == mid + piece@.take(j as int),
                decreases piece.len() - j,
            {
                out.push(piece[j]);
                assert(out@ =~= mid + piece@.take(j + 1));
                j = j + 1;
            }
            assert(piece@.take(piece@.len() as int) =~= piece@);
            if i == start {
                assert(rest.take(1) =~= seq![piece@]);
                assert(out@ =~= prefix + join_with(rest.take(k + 1), '/'));
            } else {
                assert(out@ =~= prefix + join_with(rest.take(k + 1), '/'));
            }
            i = i + 1;
        }
        assert(rest.take(self@.len() - start) =~= rest);
        assert(out@ =~= render(self@)) by {
            if rooted {
                assert(prefix =~= seq!['/']);
            } else {
                assert(rest =~= self@);
            }
        }
        out
    }

    /// `Path::parent`.
    pub fn parent(&self) -> (r: Option<PathParts>)
        ensures
            match r {
                Some(q) => parent(self@) == Some(q@),
                None => parent(self@) is None,
            },
    {
        let n = self.parts.len();
        if n == 0 {
            return None;
        }
        let root = vec!['/'];
        assert(root@ =~= root_component());
        if chars_eq(&self.parts[n - 1], &root) {
            return None;
        }
        let mut parts: Vec<Vec<char>> = Vec::new();
        let mut i: usize = 0;
        while i < n - 1
            invariant
                n == self.parts@.len(),
                n >= 1,
                i <= n - 1,
                views(parts@) == self@.take(i as int),
            decreases n - 1 - i,
        {
            let ghost before = parts@;
            parts.push(copy_chars(&self.parts[i]));
            assert(views(parts@) =~= views(before).push(self.parts@[i as int]@));
            assert(self@.take(i + 1) =~= self@.take(i as int).push(self.parts@[i as int]@));
            i = i + 1;
        }
        assert(self@.take(n - 1) =~= self@.drop_last());
        Some(PathParts { parts })
    }

    /// `Path::file_name`.
    pub fn file_name(&self) -> (r: Option<Vec<char>>)
        ensures
            match r {
                Some(v) => file_name(self@) == Some(v@),
                None => file_name(self@) is None,
            },
    {
        let n = self.parts.len();
        if n == 0 {
            return None;
        }
        let last = &self.parts[n - 1];
        assert(self@.last() == last@);
        let root = vec!['/'];
        let dot = vec!['.'];
        let dotdot = vec!['.', '.'];
        assert(root@ =~= root_component());
        assert(dot@ =~= cur_component());
        assert(dotdot@ =~= parent_component());
        if chars_eq(last, &root) || chars_eq(last, &dot) || chars_eq(last, &dotdot) {
            None
        } else {
            Some(copy_chars(last))
        }
    }

    /// `Path::starts_with`.
    pub fn starts_with(&self, base: &PathParts) -> (b: bool)
        ensures
            b == path_starts_with(self@, base@),
    {
        let n = base.parts.len();
        if n > self.parts.len() {
            return false;
        }
        let mut i: usize = 0;
        while i < n
            invariant
                n == base@.len(),
                n <= self@.len(),
                i <= n,
                forall|k: int| 0 <= k < i ==> self@[k] == base@[k],
            decreases n - i,
        {
            if !chars_eq(&self.parts[i], &base.parts[i]) {
                assert(self@.subrange(0, n as int)[i as int] != base@[i as int]);
                return false;
            }
            i = i + 1;
        }
        assert(self@.subrange(0, n as int) =~= base@);
        true
    }

    pub fn len(&self) -> (n: usize)
        ensures
            n == self@.len(),
    {
        self.parts.len()
    }

    pub fn has_root(&self) -> (b: bool)
        ensures
            b == has_root(self@),
    {
        let root = vec!['/'];
        assert(root@ =~= root_component());
        self.parts.len() > 0 && chars_eq(&self.parts[0], &root)
    }
}

// ---------- host styles ----------
/// Which host's path rules apply.
#[derive(Debug, Clone, Copy, PartialEq, Eq, Structural)]
pub enum PathStyle {
    Unix,
    Windows,
}

pub open spec fn is_ascii_letter(c: char) -> bool {
    ('a' <= c && c <= 'z') || ('A' <= c && c <= 'Z')
}

/// A Windows drive prefix component, such as `C:`.
pub open spec fn is_drive(x: Seq<char>) -> bool {
    x.len() == 2 && is_ascii_letter(x[0]) && x[1] == ':'
}

/// The length of the drive prefix that starts `s`, if any.
pub open spec fn drive_len(s: Seq<char>) -> int {
    if s.len() >= 2 && is_drive(s.take(2)) {
        2
    } else {
        0
    }
}

/// `s` with every `\` read as `/`.
pub open spec fn slashes(s: Seq<char>) -> Seq<char> {
    s.map_values(|c: char| if c == '\\' { '/' } else { c })
}

/// The components of a path on a host of the given style.
pub open spec fn path_components_in(style: PathStyle, s: Seq<char>) -> Seq<Seq<char>> {
    match style {
        PathStyle::Unix => path_components(s),
        PathStyle::Windows => {
            let d = drive_len(s);
            (if d == 2 {
                seq![s.take(2)]
            } else {
                Seq::<Seq<char>>::empty()
            }) + path_components(slashes(s.skip(d)))
        },
    }
}

/// Component `i` of `p` is a normal name: not the root, `.`, `..`, nor, on
/// Windows, the drive prefix that starts the path.
pub open spec fn is_normal_at(style: PathStyle, p: Seq<Seq<char>>, i: int) -> bool {
    is_normal(p[i]) && !(style == PathStyle::Windows && i == 0 && is_drive(p[0]))
}

/// `Path::is_absolute`: a root on Unix; a drive prefix followed by the root
/// on Windows.
pub open spec fn is_absolute_in(style: PathStyle, p: Seq<Seq<char>>) -> bool {
    match style {
        PathStyle::Unix => has_root(p),
        PathStyle::Windows => p.len() >= 2 && is_drive(p[0]) && p[1] == root_component(),
    }
}

/// `Path::file_name` on a host of the given style.
pub open spec fn file_name_in(style: PathStyle, p: Seq<Seq<char>>) -> Option<Seq<char>> {
    if p.len() > 0 && is_normal_at(style, p, p.len() - 1) {
        Some(p.last())
    } else {
        None
    }
}

/// `Path::parent` on a host of the given style: none for the empty path,
/// the root, and a bare drive prefix.
pub open spec fn parent_in(style: PathStyle, p: Seq<Seq<char>>) -> Option<Seq<Seq<char>>> {
    if p.len() == 0 || p.last() == root_component() || (style == PathStyle::Windows && p.len()
        == 1 && is_drive(p[0])) {
        None
    } else {
        Some(p.drop_last())
    }
}

fn is_ascii_letter_char(c: char) -> (b: bool)
    ensures
        b == is_ascii_letter(c),
{
    ('a' <= c && c <= 'z') || ('A' <= c && c <= 'Z')
}

pub(crate) fn is_drive_chars(x: &[char]) -> (b: bool)
    ensures
        b == is_drive(x@),
{
    x.len() == 2 && is_ascii_letter_char(x[0]) && x[1] == ':'
}

impl PathParts {
    /// The components of the path written `s` on a host of style `style`.
    pub fn parse_in(style: PathStyle, s: &str) -> (r: PathParts)
        ensures
            r@ == path_components_in(style, s@),
    {
        let cs = chars_of(s);
        Self::parse_chars_in(style, cs.as_slice())
    }

    /// The components of the path whose characters are `cs` on a host of
    /// style `style`.
    pub fn parse_chars_in(style: PathStyle, cs: &[char]) -> (r: PathParts)
        ensures
            r@ == path_components_in(style, cs@),
    {
        match style {
            PathStyle::Unix => Self::parse_chars(cs),
            PathStyle::Windows => {
                let d: usize = if cs.len() >= 2 && is_drive_chars(slice_range(cs, 0, 2).as_slice()) {
                    2
                } else {
                    0
                };
                assert(cs@.subrange(0, 2) =~= cs@.take(2)) by {
                    if cs@.len() < 2 {
                    }
                };
                let mut body: Vec<char> = Vec::new();
                let mut i = d;
                while i < cs.len()
                    invariant
                        d <= i <= cs@.len(),
                        body@ == slashes(cs@.subrange(d as int, i as int)),
                    decreases cs.len() - i,
                {
                    let c = cs[i];
                    body.push(if c == '\\' { '/' } else { c });
                    assert(cs@.subrange(d as int, i + 1) =~= cs@.subrange(d as int, i as int).push(c));
                    assert(body@ =~= slashes(cs@.subrange(d as int, i + 1)));
                    i = i + 1;
                }
                assert(cs@.subrange(d as int, cs@.len() as int) =~= cs@.skip(d as int));
                let tail = Self::parse_chars(body.as_slice());
                if d == 2 {
                    let mut parts: Vec<Vec<char>> = Vec::new();
                    parts.push(slice_range(cs, 0, 2));
                    let mut k: usize = 0;
                    while k < tail.parts.len()
                        invariant
                            k <= tail@.len(),
                            views(parts@) == seq![cs@.take(2)] + tail@.take(k as int),
                        decreases tail.parts.len() - k,
                    {
                        let ghost before = parts@;
                        parts.push(copy_chars(&tail.parts[k]));
                        assert(views(parts@) =~= views(before).push(tail.parts@[k as int]@));
                        assert(tail@.take(k + 1) =~= tail@.take(k as int).push(tail.parts@[k as int]@));
                        k = k + 1;
                    }
                    assert(tail@.take(tail@.len() as int) =~= tail@);
                    PathParts { parts }
                } else {
                    assert(Seq::<Seq<char>>::empty() + tail@ =~= tail@);
                    tail
                }
            },
        }
    }

    /// `Path::parent` on a host of style `style`.
    pub fn parent_in(&self, style: PathStyle) -> (r: Option<PathParts>)
        ensures
            match r {
                Some(q) => parent_in(style, self@) == Some(q@),
                None => parent_in(style, self@) is None,
            },
    {
        if style == PathStyle::Windows && self.parts.len() == 1 && is_drive_chars(
            self.parts[0].as_slice(),
        ) {
            return None;
        }
        self.parent()
    }

    /// `Path::file_name` on a host of style `style`.
    pub fn file_name_in(&self, style: PathStyle) -> (r: Option<Vec<char>>)
        ensures
            match r {
                Some(v) => file_name_in(style, self@) == Some(v@),
                None => file_name_in(style, self@) is None,
            },
    {
        if style == PathStyle::Windows && self.parts.len() == 1 && is_drive_chars(
            self.parts[0].as_slice(),
        ) {
            return None;
        }
        self.file_name()
    }

    /// `Path::is_absolute` on a host of style `style`.
    pub fn is_absolute_in(&self, style: PathStyle) -> (b: bool)
        ensures
            b == is_absolute_in(style, self@),
    {
        match style {
            PathStyle::Unix => self.has_root(),
            PathStyle::Windows => {
                let root = vec!['/'];
                assert(root@ =~= root_component());
                self.parts.len() >= 2 && is_drive_chars(self.parts[0].as_slice()) && chars_eq(
                    &self.parts[1],
                    &root,
                )
            },
        }
    }
}


// ---------- ASCII case ----------
/// Every component of `p` is ASCII.
pub open spec fn all_ascii_parts(p: Seq<Seq<char>>) -> bool {
    forall|i: int| 0 <= i < p.len() ==> all_ascii(#[trigger] p[i])
}

/// The components of `p`, each with its ASCII capitals folded.
pub open spec fn fold_parts(p: Seq<Seq<char>>) -> Seq<Seq<char>> {
    p.map_values(|x: Seq<char>| fold_ascii(x))
}

proof fn lemma_lower_keeps(c: char, d: char)
    requires
        !is_ascii_letter(d),
    ensures
        (ascii_lower(c) == d) == (c == d),
{
    if 'A' <= c && c <= 'Z' {
        let v = (c as u32) + 32;
        assert(97 <= v <= 122);
        assert((v as char) as u32 == v);
        assert(ascii_lower(c) as u32 == v);
        assert(ascii_lower(c) != d);
    }
}

proof fn lemma_lower_letter(c: char)
    ensures
        is_ascii_letter(ascii_lower(c)) == is_ascii_letter(c),
{
    if 'A' <= c && c <= 'Z' {
        assert(97 <= (c as u32) + 32 <= 122);
    }
}

proof fn lemma_split_on_ascii(s: Seq<char>, c: char)
    requires
        all_ascii(s),
    ensures
        all_ascii_parts(split_on(s, c)),
    decreases s.len(),
{
    if s.len() > 0 {
        let t = s.drop_last();
        lemma_split_on_ascii(t, c);
        lemma_split_on_nonempty(t, c);
        let p = split_on(t, c);
        assert(s.last() as u32 == s[s.len() - 1] as u32);
        if s.last() == c {
            assert(all_ascii(Seq::<char>::empty()));
        } else {
            let q = p.last().push(s.last());
            assert(all_ascii(p[p.len() - 1]));
            assert forall|i: int| 0 <= i < q.len() implies (#[trigger] q[i] as u32) < 128 by {
                if i < q.len() - 1 {
                    assert(q[i] == p[p.len() - 1][i]);
                }
            }
            assert(all_ascii(q));
        }
    }
}

proof fn lemma_filter_ascii(p: Seq<Seq<char>>, k: spec_fn(Seq<char>) -> bool)
    requires
        all_ascii_parts(p),
    ensures
        all_ascii_parts(p.filter(k)),
    decreases p.len(),
{
    reveal(Seq::filter);
    if p.len() > 0 {
        lemma_filter_ascii(p.drop_last(), k);
        assert(all_ascii(p[p.len() - 1]));
    }
}

proof fn lemma_components_ascii(s: Seq<char>)
    requires
        all_ascii(s),
    ensures
        all_ascii_parts(path_components(s)),
{
    let pieces = split_on(s, '/');
    lemma_split_on_ascii(s, '/');
    lemma_filter_ascii(pieces, |x: Seq<char>| kept_piece(x));
    let head = if s.len() > 0 && s[0] == '/' {
        seq![root_component()]
    } else if pieces[0] == cur_component() {
        seq![cur_component()]
    } else {
        Seq::<Seq<char>>::empty()
    };
    assert(all_ascii(root_component()));
    assert(all_ascii(cur_component()));
    assert(all_ascii_parts(head));
    let f = pieces.filter(|x: Seq<char>| kept_piece(x));
    assert forall|i: int| 0 <= i < (head + f).len() implies all_ascii(#[trigger] (head + f)[i]) by {
        if i < head.len() {
            assert((head + f)[i] == head[i]);
        } else {
            assert((head + f)[i] == f[i - head.len()]);
        }
    }
}

/// The components of an ASCII path are ASCII, on either host style.
pub proof fn lemma_components_in_ascii(style: PathStyle, s: Seq<char>)
    requires
        all_ascii(s),
    ensures
        all_ascii_parts(path_components_in(style, s)),
{
    match style {
        PathStyle::Unix => lemma_components_ascii(s),
        PathStyle::Windows => {
            let d = drive_len(s);
            let rest = slashes(s.skip(d));
            assert forall|i: int| 0 <= i < rest.len() implies (#[trigger] rest[i] as u32) < 128 by {
                assert(s.skip(d)[i] == s[i + d]);
            }
            lemma_components_ascii(rest);
            let head = if d == 2 {
                seq![s.take(2)]
            } else {
                Seq::<Seq<char>>::empty()
            };
            if d == 2 {
                assert(all_ascii(s.take(2)));
            }
            assert(all_ascii_parts(head));
            let t = path_components(rest);
            assert forall|i: int| 0 <= i < (head + t).len() implies all_ascii(#[trigger] (head + t)[i]) by {
                if i < head.len() {
                    assert((head + t)[i] == head[i]);
                } else {
                    assert((head + t)[i] == t[i - head.len()]);
                }
            }
        },
    }
}

proof fn lemma_split_on_fold(s: Seq<char>)
    ensures
        split_on(fold_ascii(s), '/') == fold_parts(split_on(s, '/')),
    decreases s.len(),
{
    if s.len() > 0 {
        let t = s.drop_last();
        lemma_split_on_fold(t);
        lemma_split_on_nonempty(t, '/');
        assert(fold_ascii(s).drop_last() =~= fold_ascii(t));
        assert(fold_ascii(s).last() == ascii_lower(s.last()));
        lemma_lower_keeps(s.last(), '/');
        let p = split_on(t, '/');
        if s.last() == '/' {
            assert(fold_ascii(Seq::<char>::empty()) =~= Seq::<char>::empty());
            assert(fold_parts(p.push(Seq::empty())) =~= fold_parts(p).push(Seq::empty()));
        } else {
            let q = p.last().push(s.last());
            assert(fold_ascii(q) =~= fold_ascii(p.last()).push(ascii_lower(s.last())));
            assert(fold_parts(p.update(p.len() - 1, q)) =~= fold_parts(p).update(
                p.len() - 1,
                fold_ascii(q),
            ));
        }
    } else {
        let e = Seq::<char>::empty();
        assert(fold_ascii(s) =~= e);
        assert(fold_ascii(e) =~= e);
        assert(fold_parts(seq![e])[0] == fold_ascii(e));
        assert(fold_parts(seq![e]) =~= seq![e]);
    }
}

pub(crate) proof fn lemma_fold_is(x: Seq<char>, y: Seq<char>)
    requires
        forall|i: int| 0 <= i < y.len() ==> !is_ascii_letter(#[trigger] y[i]),
    ensures
        (fold_ascii(x) == y) == (x == y),
{
    if fold_ascii(x) == y {
        assert forall|i: int| 0 <= i < x.len() implies x[i] == y[i] by {
            assert(fold_ascii(x)[i] == ascii_lower(x[i]));
            lemma_lower_keeps(x[i], y[i]);
        }
        assert(x =~= y);
    }
    if x == y {
        assert forall|i: int| 0 <= i < x.len() implies fold_ascii(x)[i] == y[i] by {
            lemma_lower_keeps(x[i], y[i]);
        }
        assert(fold_ascii(x) =~= y);
    }
}

proof fn lemma_filter_fold(p: Seq<Seq<char>>)
    ensures
        fold_parts(p.filter(|x: Seq<char>| kept_piece(x))) == fold_parts(p).filter(
            |x: Seq<char>| kept_piece(x),
        ),
    decreases p.len(),
{
    reveal(Seq::filter);
    if p.len() > 0 {
        lemma_filter_fold(p.drop_last());
        assert(fold_parts(p).drop_last() =~= fold_parts(p.drop_last()));
        lemma_fold_is(p.last(), cur_component());
        assert(kept_piece(fold_ascii(p.last())) == kept_piece(p.last()));
        let k = |x: Seq<char>| kept_piece(x);
        let sub = p.drop_last().filter(k);
        assert(fold_parts(sub.push(p.last())) =~= fold_parts(sub).push(fold_ascii(p.last())));
    }
}

/// Folding ASCII case commutes with reading a Unix path's components.
proof fn lemma_components_fold(s: Seq<char>)
    ensures
        path_components(fold_ascii(s)) == fold_parts(path_components(s)),
{
    let pieces = split_on(s, '/');
    lemma_split_on_fold(s);
    lemma_split_on_nonempty(s, '/');
    lemma_filter_fold(pieces);
    if s.len() > 0 {
        lemma_lower_keeps(s[0], '/');
        assert(fold_ascii(s)[0] == ascii_lower(s[0]));
    }
    assert(fold_parts(pieces)[0] == fold_ascii(pieces[0]));
    lemma_fold_is(pieces[0], cur_component());
    lemma_fold_is(root_component(), root_component());
    lemma_fold_is(cur_component(), cur_component());
    let k = |x: Seq<char>| kept_piece(x);
    let head = if s.len() > 0 && s[0] == '/' {
        seq![root_component()]
    } else if pieces[0] == cur_component() {
        seq![cur_component()]
    } else {
        Seq::<Seq<char>>::empty()
    };
    assert(fold_parts(head) =~= head);
    assert(fold_parts(head + pieces.filter(k)) =~= fold_parts(head) + fold_parts(pieces.filter(k)));
}

/// Folding ASCII case commutes with reading a path's components on either
/// host style: two spellings of a path that differ only in the case of
/// ASCII letters have the same folded components.
pub proof fn lemma_components_in_fold(style: PathStyle, s: Seq<char>)
    ensures
        path_components_in(style, fold_ascii(s)) == fold_parts(path_components_in(style, s)),
{
    match style {
        PathStyle::Unix => lemma_components_fold(s),
        PathStyle::Windows => {
            let fs = fold_ascii(s);
            if s.len() >= 2 {
                assert(fs.take(2) =~= fold_ascii(s.take(2)));
                lemma_lower_letter(s[0]);
                lemma_lower_keeps(s[1], ':');
                assert(fs[0] == ascii_lower(s[0]) && fs[1] == ascii_lower(s[1]));
                assert(is_drive(fs.take(2)) == is_drive(s.take(2)));
            }
            let d = drive_len(s);
            assert(drive_len(fs) == d);
            assert(slashes(fs.skip(d)) =~= fold_ascii(slashes(s.skip(d)))) by {
                assert forall|i: int| 0 <= i < s.len() - d implies slashes(fs.skip(d))[i]
                    == fold_ascii(slashes(s.skip(d)))[i] by {
                    lemma_lower_keeps(s[i + d], '\\');
                    if 'A' <= s[i + d] && s[i + d] <= 'Z' {
                        assert(97 <= (s[i + d] as u32) + 32 <= 122);
                    }
                }
            }
            lemma_components_fold(slashes(s.skip(d)));
            let head = if d == 2 {
                seq![s.take(2)]
            } else {
                Seq::<Seq<char>>::empty()
            };
            let fhead = if d == 2 {
                seq![fs.take(2)]
            } else {
                Seq::<Seq<char>>::empty()
            };
            assert(fhead =~= fold_parts(head));
            let t = path_components(slashes(s.skip(d)));
            assert(fold_parts(head + t) =~= fold_parts(head) + fold_parts(t));
        },
    }
}

} // verus!
