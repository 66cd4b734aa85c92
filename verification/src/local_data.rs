//! Removal of Sheaf's own per-user app-data directory.
//!
//! This is the only place Sheaf deletes a directory tree it did not create in
//! the current session. It is deliberately narrow: the target must be an
//! absolute, real (non-linked) directory whose final component is the app
//! identifier, so a misconfigured path resolver can never point it at the
//! user's documents, home directory, or a filesystem root.
use vstd::prelude::*;

use crate::error::SheafError;
use crate::paths::{
    cur_component, file_name_in, is_absolute_in, is_normal_at, parent_component, parent_in,
    path_components_in, PathParts, PathStyle,
};
use crate::text::{chars_eq, chars_of, contains_char, push_all, push_str, string_of};

verus! {

/// Outcome of a local data removal. `removed` is false when there was nothing
/// on disk to remove, which the UI treats as success.
#[derive(Debug, Clone, PartialEq, Eq)]
pub struct LocalDataRemoval {
    pub path: String,
    pub removed: bool,
}

/// The text of a refusal to delete `dir` for `reason`.
pub open spec fn refusal(reason: Seq<char>, dir: Seq<char>) -> Seq<char> {
    "refusing to delete local data: "@ + reason + " ("@ + dir + ")"@
}

fn refuse(reason: &str, dir: &str) -> (e: SheafError)
    ensures
        e matches SheafError::Engine(m) && m@ == refusal(reason@, dir@),
{
    let mut out: Vec<char> = Vec::new();
    push_str(&mut out, "refusing to delete local data: ");
    push_str(&mut out, reason);
    push_str(&mut out, " (");
    push_str(&mut out, dir);
    push_str(&mut out, ")");
    SheafError::Engine(string_of(out.as_slice()))
}

/// The path has a component that is `.` or `..`.
pub open spec fn has_relative_component(c: Seq<Seq<char>>) -> bool {
    exists|i: int|
        0 <= i < c.len() && (#[trigger] c[i] == cur_component() || c[i] == parent_component())
}

/// The grandparent of the path exists and names at least one directory:
/// a normal component, not only a drive prefix or the root.
pub open spec fn deep_enough(style: PathStyle, c: Seq<Seq<char>>) -> bool {
    match parent_in(style, c) {
        Some(p) => match parent_in(style, p) {
            Some(g) => exists|i: int| 0 <= i < g.len() && #[trigger] is_normal_at(style, g, i),
            None => false,
        },
        None => false,
    }
}

/// The first reason to refuse `dir`, read by the path rules of `style`, as
/// the app-data directory of `identifier`, if any.
pub open spec fn app_data_refusal(dir: Seq<char>, identifier: Seq<char>, style: PathStyle) -> Option<
    Seq<char>,
> {
    let c = path_components_in(style, dir);
    if identifier.len() == 0 || identifier.contains('/') || identifier.contains('\\') {
        Some("invalid app identifier"@)
    } else if !is_absolute_in(style, c) {
        Some("path is not absolute"@)
    } else if has_relative_component(c) {
        Some("path contains relative components"@)
    } else if file_name_in(style, c) != Some(identifier) {
        Some("path is not the Sheaf app-data directory"@)
    } else if !deep_enough(style, c) {
        Some("path is too close to a filesystem root"@)
    } else {
        None
    }
}

fn any_relative(p: &PathParts) -> (b: bool)
    ensures
        b == has_relative_component(p@),
{
    let dot = vec!['.'];
    let dotdot = vec!['.', '.'];
    assert(dot@ =~= cur_component());
    assert(dotdot@ =~= parent_component());
    let mut i: usize = 0;
    while i < p.parts.len()
        invariant
            i <= p@.len(),
            dot@ == cur_component(),
            dotdot@ == parent_component(),
            forall|k: int|
                0 <= k < i ==> !(#[trigger] p@[k] == cur_component() || p@[k]
                    == parent_component()),
        decreases p.parts.len() - i,
    {
        if chars_eq(&p.parts[i], &dot) || chars_eq(&p.parts[i], &dotdot) {
            assert(p@[i as int] == p.parts@[i as int]@);
            return true;
        }
        i = i + 1;
    }
    false
}

fn any_normal(p: &PathParts, style: PathStyle) -> (b: bool)
    ensures
        b == exists|i: int| 0 <= i < p@.len() && #[trigger] is_normal_at(style, p@, i),
{
    let root = vec!['/'];
    let dot = vec!['.'];
    let dotdot = vec!['.', '.'];
    assert(root@ =~= crate::paths::root_component());
    assert(dot@ =~= cur_component());
    assert(dotdot@ =~= parent_component());
    let mut i: usize = 0;
    while i < p.parts.len()
        invariant
            i <= p@.len(),
            root@ == crate::paths::root_component(),
            dot@ == cur_component(),
            dotdot@ == parent_component(),
            forall|k: int| 0 <= k < i ==> !#[trigger] is_normal_at(style, p@, k),
        decreases p.parts.len() - i,
    {
        let x = &p.parts[i];
        let drive = style == PathStyle::Windows && i == 0 && crate::paths::is_drive_chars(
            x.as_slice(),
        );
        if !chars_eq(x, &root) && !chars_eq(x, &dot) && !chars_eq(x, &dotdot) && !drive {
            assert(is_normal_at(style, p@, i as int));
            return true;
        }
        assert(!is_normal_at(style, p@, i as int));
        i = i + 1;
    }
    false
}

fn is_deep_enough(p: &PathParts, style: PathStyle) -> (b: bool)
    ensures
        b == deep_enough(style, p@),
{
    match p.parent_in(style) {
        Some(q) => match q.parent_in(style) {
            Some(g) => any_normal(&g, style),
            None => false,
        },
        None => false,
    }
}

/// Check that `dir` is a plausible Tauri app-data directory for `identifier`,
/// reading `dir` by the path rules of the host style `style`.
pub fn validate_app_data_dir(dir: &str, identifier: &str, style: PathStyle) -> (r: Result<
    (),
    SheafError,
>)
    ensures
        match app_data_refusal(dir@, identifier@, style) {
            None => r is Ok,
            Some(reason) => r matches Err(SheafError::Engine(m)) && m@ == refusal(reason, dir@),
        },
{
    let id = chars_of(identifier);
    if id.len() == 0 || contains_char(id.as_slice(), '/') || contains_char(id.as_slice(), '\\') {
        return Err(refuse("invalid app identifier", dir));
    }
    let p = PathParts::parse_in(style, dir);
    if !p.is_absolute_in(style) {
        return Err(refuse("path is not absolute", dir));
    }
    if any_relative(&p) {
        return Err(refuse("path contains relative components", dir));
    }
    let named = match p.file_name_in(style) {
        Some(n) => chars_eq(n.as_slice(), id.as_slice()),
        None => false,
    };
    if !named {
        return Err(refuse("path is not the Sheaf app-data directory", dir));
    }
    if !is_deep_enough(&p, style) {
        return Err(refuse("path is too close to a filesystem root", dir));
    }
    Ok(())
}

/// What is on disk at a path, as `symlink_metadata` reports it.
#[derive(Debug, Clone, PartialEq, Eq)]
pub enum DiskEntry {
    /// Nothing is there.
    Missing,
    /// The metadata could not be read; the operating system's error text.
    Unreadable(String),
    /// A symbolic link or junction.
    Link,
    /// A file or other non-directory.
    NotDirectory,
    /// A real directory.
    Directory,
}

/// Decide what deleting the app-data directory `dir` of `identifier` does,
/// given what is on disk there. `Ok` with `removed` set means the directory
/// tree is to be removed; `removed` clear means there is nothing to remove.
/// Symbolic links and junctions are refused rather than followed or
/// unlinked, because a linked app-data directory means the user set
/// something up by hand.
pub fn delete_app_data(dir: &str, identifier: &str, style: PathStyle, found: &DiskEntry) -> (r:
    Result<LocalDataRemoval, SheafError>)
    ensures
        match app_data_refusal(dir@, identifier@, style) {
            Some(reason) => r matches Err(SheafError::Engine(m)) && m@ == refusal(reason, dir@),
            None => match found {
                DiskEntry::Missing => r matches Ok(v) && v.path@ == dir@ && !v.removed,
                DiskEntry::Unreadable(msg) => r matches Err(SheafError::Io(m)) && m@ == msg@,
                DiskEntry::Link => r matches Err(SheafError::Engine(m)) && m@ == refusal(
                    "path is a symbolic link or junction"@,
                    dir@,
                ),
                DiskEntry::NotDirectory => r matches Err(SheafError::Engine(m)) && m@ == refusal(
                    "path is not a directory"@,
                    dir@,
                ),
                DiskEntry::Directory => r matches Ok(v) && v.path@ == dir@ && v.removed,
            },
        },
{
    match validate_app_data_dir(dir, identifier, style) {
        Err(e) => return Err(e),
        Ok(()) => {},
    }
    let path = dir.to_owned();
    match found {
        DiskEntry::Missing => Ok(LocalDataRemoval { path, removed: false }),
        DiskEntry::Unreadable(msg) => Err(SheafError::Io(msg.clone())),
        DiskEntry::Link => Err(refuse("path is a symbolic link or junction", dir)),
        DiskEntry::NotDirectory => Err(refuse("path is not a directory", dir)),
        DiskEntry::Directory => Ok(LocalDataRemoval { path, removed: true }),
    }
}

/// Only the app identifier's own directory is ever accepted for deletion:
/// an absolute path without `.` or `..`, named after the identifier, with
/// at least one named directory above its parent, on either host style.
pub proof fn lemma_accepted_dir_is_the_app_data_dir(
    dir: Seq<char>,
    identifier: Seq<char>,
    style: PathStyle,
)
    ensures
        app_data_refusal(dir, identifier, style) is None ==> {
            let c = path_components_in(style, dir);
            &&& is_absolute_in(style, c)
            &&& !has_relative_component(c)
            &&& file_name_in(style, c) == Some(identifier)
            &&& deep_enough(style, c)
        },
{
}

} // verus!
