//! Windows installation awareness.
//!
//! The NSIS and MSI installers register a standard uninstaller with Windows,
//! so Sheaf never deletes its own executable or install directory. Instead it
//! reports whether the running copy is the registered install. The
//! classification below is a function of the running executable's path, the
//! registry's uninstall entries and the standard program roots, so it can be
//! checked without a registry.
//!
//! Paths here are read by Windows rules: `\` and `/` both separate
//! components, a drive prefix such as `C:` comes first, and a `\\?\` verbatim
//! prefix is set aside before a path is read.
use vstd::prelude::*;
use vstd::string::StrSliceExecFns;

use crate::paths::{
    all_ascii_parts, fold_parts, lemma_components_in_ascii, lemma_components_in_fold,
    lemma_fold_is, parent_in, path_components_in, path_starts_with, render, views, PathParts,
    PathStyle,
};
use crate::text::{
    all_ascii, chars_of, copy_opt_string, fold_ascii, eq_ignore_ascii_case, opt_view, eq_ignore_ascii_case_chars, lowercase, lowercase_chars,
    skip_leading, skip_trailing, starts_with_chars, string_of, trim, trim_bounds, trim_char,
    Strip,
};

verus! {

pub open spec fn product_name() -> Seq<char> {
    seq!['S', 'h', 'e', 'a', 'f']
}

fn product_name_chars() -> (r: Vec<char>)
    ensures
        r@ == product_name(),
{
    let r = vec!['S', 'h', 'e', 'a', 'f'];
    assert(r@ =~= product_name());
    r
}

/// How the running executable relates to a Windows installation.
#[derive(Debug, Clone, Copy, PartialEq, Eq, Structural)]
pub enum InstallContext {
    /// Running from a directory registered with a Windows uninstaller.
    Installed,
    /// Release build running from an unregistered location (unpacked or
    /// copied by hand). Removal is deleting the folder; there is nothing to
    /// uninstall.
    Portable,
    /// `tauri dev` or a debug build. Installation controls are unavailable.
    Dev,
}

#[derive(Debug, Clone)]
pub struct WindowsInstallStatus {
    /// False on every platform except Windows.
    pub supported: bool,
    pub context: InstallContext,
    /// Registered install directory, if Windows knows of one. Reported even
    /// when this copy is portable so the UI can point at the other install.
    pub install_location: Option<String>,
    pub installed_version: Option<String>,
    pub app_data_dir: Option<String>,
    pub app_data_present: bool,
}

/// One entry under `HKxx\Software\Microsoft\Windows\CurrentVersion\Uninstall`.
#[derive(Debug, Clone, PartialEq, Eq)]
pub struct UninstallEntry {
    /// NSIS installs use the product name as the key; MSI uses a product GUID.
    pub key_name: String,
    pub display_name: Option<String>,
    pub install_location: Option<String>,
    pub display_version: Option<String>,
}

impl Default for UninstallEntry {
    fn default() -> (r: UninstallEntry)
        ensures
            r.key_name@ == Seq::<char>::empty(),
            r.display_name is None,
            r.install_location is None,
            r.display_version is None,
    {
        UninstallEntry {
            key_name: String::new(),
            display_name: None,
            install_location: None,
            display_version: None,
        }
    }
}

/// `strip_quotes` on character sequences: trimmed, then every surrounding
/// double quote removed, then trimmed again.
pub open spec fn strip_quotes_spec(s: Seq<char>) -> Seq<char> {
    trim(trim_char(trim(s), '"'))
}

/// NSIS writes `InstallLocation` wrapped in double quotes.
pub fn strip_quotes(value: &str) -> (r: &str)
    ensures
        r@ == strip_quotes_spec(value@),
{
    let cs = chars_of(value);
    let (a, b) = trim_bounds(cs.as_slice(), 0, cs.len());
    let c = skip_leading(cs.as_slice(), a, b, Strip::Char('"'));
    let d = skip_trailing(cs.as_slice(), c, b, Strip::Char('"'));
    let (e, f) = trim_bounds(cs.as_slice(), c, d);
    assert(cs@.subrange(0, cs@.len() as int) =~= cs@);
    value.substring_char(e, f)
}

/// Whether an uninstall entry belongs to Sheaf: its key, or its trimmed
/// display name, is the product name up to ASCII case.
pub open spec fn is_sheaf_entry(e: UninstallEntry) -> bool {
    ||| eq_ignore_ascii_case(e.key_name@, product_name())
    ||| (e.display_name is Some && eq_ignore_ascii_case(
        trim(e.display_name->0@),
        product_name(),
    ))
}

/// The install location of an entry, unquoted, when it is not empty.
pub open spec fn entry_location(e: UninstallEntry) -> Option<Seq<char>> {
    match e.install_location {
        Some(l) => if strip_quotes_spec(l@).len() > 0 {
            Some(strip_quotes_spec(l@))
        } else {
            None
        },
        None => None,
    }
}

impl UninstallEntry {
    /// A field-for-field copy.
    pub fn copy(&self) -> (r: UninstallEntry)
        ensures
            r == *self,
    {
        UninstallEntry {
            key_name: self.key_name.clone(),
            display_name: copy_opt_string(&self.display_name),
            install_location: copy_opt_string(&self.install_location),
            display_version: copy_opt_string(&self.display_version),
        }
    }

    pub fn is_sheaf(&self) -> (b: bool)
        ensures
            b == is_sheaf_entry(*self),
    {
        let name = product_name_chars();
        let key = chars_of(self.key_name.as_str());
        if eq_ignore_ascii_case_chars(key.as_slice(), name.as_slice()) {
            return true;
        }
        match &self.display_name {
            Some(n) => {
                let cs = chars_of(n.as_str());
                let (a, b) = trim_bounds(cs.as_slice(), 0, cs.len());
                assert(cs@.subrange(0, cs@.len() as int) =~= cs@);
                let t = crate::text::slice_range(cs.as_slice(), a, b);
                eq_ignore_ascii_case_chars(t.as_slice(), name.as_slice())
            },
            None => false,
        }
    }

    /// The registered install directory with installer quoting removed.
    pub fn location(&self) -> (r: Option<String>)
        ensures
            match r {
                Some(s) => entry_location(*self) == Some(s@),
                None => entry_location(*self) is None,
            },
    {
        match &self.install_location {
            Some(l) => {
                let t = strip_quotes(l.as_str());
                if t.is_empty() {
                    None
                } else {
                    Some(t.to_owned())
                }
            },
            None => None,
        }
    }
}

/// The `\\?\` prefix of Windows verbatim paths.
pub open spec fn verbatim_prefix() -> Seq<char> {
    seq!['\\', '\\', '?', '\\']
}

pub open spec fn strip_verbatim(s: Seq<char>) -> Seq<char> {
    if verbatim_prefix().len() <= s.len() && s.subrange(0, 4) == verbatim_prefix() {
        s.skip(4)
    } else {
        s
    }
}

/// The components of a Windows path, read after its `\\?\` verbatim prefix.
pub open spec fn windows_components(s: Seq<char>) -> Seq<Seq<char>> {
    path_components_in(PathStyle::Windows, strip_verbatim(s))
}

/// Case-folded Windows path components, with the `\\?\` verbatim prefix
/// removed, so two spellings of the same Windows directory compare equal.
pub open spec fn normalized(s: Seq<char>) -> Seq<Seq<char>> {
    windows_components(s).map_values(|c: Seq<char>| lowercase(c))
}

/// `dir` lies at or below `ancestor`, compared by normalized components.
pub open spec fn is_within_spec(dir: Seq<char>, ancestor: Seq<char>) -> bool {
    normalized(ancestor).len() > 0 && path_starts_with(normalized(dir), normalized(ancestor))
}

fn windows_parts(path: &[char]) -> (r: PathParts)
    ensures
        r@ == windows_components(path@),
{
    let pre = vec!['\\', '\\', '?', '\\'];
    assert(pre@ =~= verbatim_prefix());
    if starts_with_chars(path, pre.as_slice()) {
        let rest = crate::text::slice_range(path, 4, path.len());
        assert(rest@ =~= path@.skip(4));
        PathParts::parse_chars_in(PathStyle::Windows, rest.as_slice())
    } else {
        PathParts::parse_chars_in(PathStyle::Windows, path)
    }
}

/// The Windows components of `s` with their ASCII capitals folded.
pub open spec fn folded_components(s: Seq<char>) -> Seq<Seq<char>> {
    fold_parts(windows_components(s))
}

/// `dir` lies at or below `ancestor`, compared by components with their
/// ASCII capitals folded.
pub open spec fn ascii_within(dir: Seq<char>, ancestor: Seq<char>) -> bool {
    folded_components(ancestor).len() > 0 && path_starts_with(
        folded_components(dir),
        folded_components(ancestor),
    )
}

proof fn lemma_windows_components_ascii(s: Seq<char>)
    requires
        all_ascii(s),
    ensures
        all_ascii_parts(windows_components(s)),
{
    let t = strip_verbatim(s);
    assert forall|i: int| 0 <= i < t.len() implies (#[trigger] t[i] as u32) < 128 by {
        if t != s {
            assert(t[i] == s[i + 4]);
        }
    }
    lemma_components_in_ascii(PathStyle::Windows, t);
}

pub fn normalized_components(path: &[char]) -> (r: PathParts)
    ensures
        r@ == normalized(path@),
        all_ascii(path@) ==> r@ == folded_components(path@),
{
    let parts = windows_parts(path);
    proof {
        if all_ascii(path@) {
            lemma_windows_components_ascii(path@);
        }
    }
    let ghost comps = parts@;
    let mut out: Vec<Vec<char>> = Vec::new();
    let mut i: usize = 0;
    while i < parts.parts.len()
        invariant
            i <= parts.parts@.len(),
            comps == parts@,
            views(out@) == comps.take(i as int).map_values(|c: Seq<char>| lowercase(c)),
            all_ascii(path@) ==> all_ascii_parts(comps),
            all_ascii(path@) ==> views(out@) == fold_parts(comps.take(i as int)),
        decreases parts.parts.len() - i,
    {
        let ghost before = out@;
        out.push(lowercase_chars(parts.parts[i].as_slice()));
        assert(views(out@) =~= views(before).push(lowercase(comps[i as int])));
        assert(comps.take(i + 1).map_values(|c: Seq<char>| lowercase(c)) =~= comps.take(
            i as int,
        ).map_values(|c: Seq<char>| lowercase(c)).push(lowercase(comps[i as int])));
        proof {
            if all_ascii(path@) {
                assert(all_ascii(comps[i as int]));
                assert(fold_parts(comps.take(i + 1)) =~= fold_parts(comps.take(i as int)).push(
                    fold_ascii(comps[i as int]),
                ));
            }
        }
        i = i + 1;
    }
    assert(comps.take(comps.len() as int) =~= comps);
    PathParts { parts: out }
}

/// Whether the directory written `dir` lies at or below `ancestor`, both
/// read as Windows paths, ignoring case.
pub fn is_within(dir: &str, ancestor: &str) -> (b: bool)
    ensures
        b == is_within_spec(dir@, ancestor@),
        all_ascii(dir@) && all_ascii(ancestor@) ==> b == ascii_within(dir@, ancestor@),
{
    let a = normalized_components(chars_of(ancestor).as_slice());
    let d = normalized_components(chars_of(dir).as_slice());
    a.len() > 0 && d.starts_with(&a)
}

fn is_within_chars(dir: &[char], ancestor: &[char]) -> (b: bool)
    ensures
        b == is_within_spec(dir@, ancestor@),
{
    let a = normalized_components(ancestor);
    let d = normalized_components(dir);
    a.len() > 0 && d.starts_with(&a)
}

#[derive(Debug, Clone, PartialEq, Eq)]
pub struct Classification {
    pub context: InstallContext,
    pub entry: Option<UninstallEntry>,
}

/// The first element of `s` that satisfies `p`.
pub open spec fn first_match<T>(s: Seq<T>, p: spec_fn(T) -> bool) -> Option<T>
    decreases s.len(),
{
    if s.len() == 0 {
        None
    } else if p(s[0]) {
        Some(s[0])
    } else {
        first_match(s.drop_first(), p)
    }
}

pub proof fn lemma_first_match_at<T>(s: Seq<T>, p: spec_fn(T) -> bool, i: int)
    requires
        0 <= i < s.len(),
        p(s[i]),
        forall|k: int| 0 <= k < i ==> !p(s[k]),
    ensures
        first_match(s, p) == Some(s[i]),
    decreases i,
{
    if i > 0 {
        assert forall|k: int| 0 <= k < i - 1 implies !p(s.drop_first()[k]) by {
            assert(s.drop_first()[k] == s[k + 1]);
        }
        lemma_first_match_at(s.drop_first(), p, i - 1);
    }
}

pub proof fn lemma_first_match_none<T>(s: Seq<T>, p: spec_fn(T) -> bool)
    requires
        forall|k: int| 0 <= k < s.len() ==> !p(s[k]),
    ensures
        first_match(s, p) is None,
    decreases s.len(),
{
    if s.len() > 0 {
        assert forall|k: int| 0 <= k < s.len() - 1 implies !p(s.drop_first()[k]) by {
            assert(s.drop_first()[k] == s[k + 1]);
        }
        lemma_first_match_none(s.drop_first(), p);
    }
}

/// The entry searches that classification makes.
#[derive(Clone, Copy)]
pub enum EntryTest {
    /// A Sheaf entry.
    Sheaf,
    /// A Sheaf entry that records an install location.
    WithLocation,
    /// A Sheaf entry without an install location (as MSI writes them).
    WithoutLocation,
    /// A Sheaf entry whose install location contains the given directory.
    Contains,
}

pub open spec fn entry_test(t: EntryTest, dir: Seq<char>, e: UninstallEntry) -> bool {
    is_sheaf_entry(e) && match t {
        EntryTest::Sheaf => true,
        EntryTest::WithLocation => entry_location(e) is Some,
        EntryTest::WithoutLocation => entry_location(e) is None,
        EntryTest::Contains => entry_location(e) is Some && is_within_spec(
            dir,
            entry_location(e)->0,
        ),
    }
}

pub open spec fn matcher(t: EntryTest, dir: Seq<char>) -> spec_fn(UninstallEntry) -> bool {
    |e: UninstallEntry| entry_test(t, dir, e)
}

fn passes(t: EntryTest, dir: &[char], e: &UninstallEntry) -> (b: bool)
    ensures
        b == entry_test(t, dir@, *e),
{
    if !e.is_sheaf() {
        return false;
    }
    match t {
        EntryTest::Sheaf => true,
        EntryTest::WithLocation => e.location().is_some(),
        EntryTest::WithoutLocation => e.location().is_none(),
        EntryTest::Contains => match e.location() {
            Some(l) => is_within_chars(dir, chars_of(l.as_str()).as_slice()),
            None => false,
        },
    }
}

/// The first entry that passes test `t`, as a copy.
fn find_entry(entries: &[UninstallEntry], t: EntryTest, dir: &[char]) -> (r: Option<
    UninstallEntry,
>)
    ensures
        r == first_match(entries@, matcher(t, dir@)),
{
    let mut i: usize = 0;
    while i < entries.len()
        invariant
            i <= entries@.len(),
            forall|k: int| 0 <= k < i ==> !(#[trigger] matcher(t, dir@)(entries@[k])),
        decreases entries.len() - i,
    {
        if passes(t, dir, &entries[i]) {
            proof {
                lemma_first_match_at(entries@, matcher(t, dir@), i as int);
            }
            return Some(entries[i].copy());
        }
        i = i + 1;
    }
    proof {
        lemma_first_match_none(entries@, matcher(t, dir@));
    }
    None
}

/// The directory of the running executable, read as a Windows path, when it
/// has a non-empty one.
pub open spec fn exe_dir(exe: Seq<char>) -> Option<Seq<Seq<char>>> {
    match parent_in(PathStyle::Windows, windows_components(exe)) {
        Some(d) => if d.len() > 0 {
            Some(d)
        } else {
            None
        },
        None => None,
    }
}

/// The install context and reported entry for an executable at `exe`.
pub open spec fn classify_spec(
    exe: Seq<char>,
    entries: Seq<UninstallEntry>,
    roots: Seq<Seq<char>>,
    is_dev: bool,
) -> (InstallContext, Option<UninstallEntry>) {
    let with_location = first_match(entries, matcher(EntryTest::WithLocation, Seq::empty()));
    if is_dev {
        (
            InstallContext::Dev,
            if with_location is Some {
                with_location
            } else {
                first_match(entries, matcher(EntryTest::Sheaf, Seq::empty()))
            },
        )
    } else {
        match exe_dir(exe) {
            None => (InstallContext::Portable, with_location),
            Some(d) => {
                let dir = render(d);
                let inside = first_match(entries, matcher(EntryTest::Contains, dir));
                let msi = first_match(entries, matcher(EntryTest::WithoutLocation, dir));
                if inside is Some {
                    (InstallContext::Installed, inside)
                } else if msi is Some && exists|i: int|
                    0 <= i < roots.len() && #[trigger] is_within_spec(dir, roots[i]) {
                    (InstallContext::Installed, msi)
                } else {
                    (InstallContext::Portable, with_location)
                }
            },
        }
    }
}

pub open spec fn string_views(v: Seq<String>) -> Seq<Seq<char>> {
    v.map_values(|s: String| s@)
}

/// Decide the install context for `exe` from the registry `entries` and the
/// standard per-machine/per-user program roots (`Program Files`,
/// `%LOCALAPPDATA%\Programs`).
pub fn classify(exe: &str, entries: &[UninstallEntry], program_roots: &[String], is_dev: bool) -> (r:
    Classification)
    ensures
        (r.context, r.entry) == classify_spec(exe@, entries@, string_views(program_roots@), is_dev),
{
    let none: Vec<char> = Vec::new();
    assert(none@ =~= Seq::<char>::empty());
    let with_location = find_entry(entries, EntryTest::WithLocation, none.as_slice());
    if is_dev {
        let entry = match with_location {
            Some(e) => Some(e),
            None => find_entry(entries, EntryTest::Sheaf, none.as_slice()),
        };
        return Classification { context: InstallContext::Dev, entry };
    }
    let exe_chars = chars_of(exe);
    let exe_path = windows_parts(exe_chars.as_slice());
    let dir = match exe_path.parent_in(PathStyle::Windows) {
        Some(d) => d,
        None => {
            return Classification { context: InstallContext::Portable, entry: with_location };
        },
    };
    if dir.len() == 0 {
        return Classification { context: InstallContext::Portable, entry: with_location };
    }
    let dir_text = dir.render();
    let inside = find_entry(entries, EntryTest::Contains, dir_text.as_slice());
    if inside.is_some() {
        return Classification { context: InstallContext::Installed, entry: inside };
    }
    let msi = find_entry(entries, EntryTest::WithoutLocation, dir_text.as_slice());
    if msi.is_some() {
        let ghost roots = string_views(program_roots@);
        let mut i: usize = 0;
        #[verifier::loop_isolation(false)]
        while i < program_roots.len()
            invariant
                i <= program_roots@.len(),
                roots == string_views(program_roots@),
                forall|k: int| 0 <= k < i ==> !(#[trigger] is_within_spec(dir_text@, roots[k])),
            decreases program_roots.len() - i,
        {
            let root = chars_of(program_roots[i].as_str());
            if is_within_chars(dir_text.as_slice(), root.as_slice()) {
                assert(is_within_spec(dir_text@, roots[i as int]));
                assert(exists|j: int|
                    0 <= j < roots.len() && #[trigger] is_within_spec(dir_text@, roots[j]));
                return Classification { context: InstallContext::Installed, entry: msi };
            }
            i = i + 1;
        }
    }
    Classification { context: InstallContext::Portable, entry: with_location }
}

/// What Windows reports about the running copy: its executable, the Sheaf
/// entries of the uninstall registry, the standard program roots, and
/// whether this is a development build.
pub struct WindowsHost {
    pub exe: String,
    pub entries: Vec<UninstallEntry>,
    pub program_roots: Vec<String>,
    pub is_dev: bool,
}

/// Installation status for the settings screen. `host` is what Windows
/// reports, absent on every other platform; `app_data_is_dir` says whether
/// `app_data_dir` names an existing directory.
pub fn status(app_data_dir: Option<String>, app_data_is_dir: bool, host: Option<WindowsHost>) -> (r:
    WindowsInstallStatus)
    ensures
        r.app_data_dir == app_data_dir,
        r.app_data_present == (app_data_dir is Some && app_data_is_dir),
        r.supported == host is Some,
        host is None ==> r.context == InstallContext::Portable && r.install_location is None
            && r.installed_version is None,
        host is Some ==> {
            let h = host->0;
            let c = classify_spec(h.exe@, h.entries@, string_views(h.program_roots@), h.is_dev);
            &&& r.context == c.0
            &&& opt_view(r.install_location) == match c.1 {
                Some(e) => entry_location(e),
                None => None,
            }
            &&& r.installed_version == match c.1 {
                Some(e) => e.display_version,
                None => None,
            }
        },
{
    let app_data_present = app_data_dir.is_some() && app_data_is_dir;
    match host {
        None => WindowsInstallStatus {
            supported: false,
            context: InstallContext::Portable,
            install_location: None,
            installed_version: None,
            app_data_dir,
            app_data_present,
        },
        Some(h) => {
            let classified = classify(
                h.exe.as_str(),
                h.entries.as_slice(),
                h.program_roots.as_slice(),
                h.is_dev,
            );
            let (install_location, installed_version) = match &classified.entry {
                Some(e) => (e.location(), copy_opt_string(&e.display_version)),
                None => (None, None),
            };
            WindowsInstallStatus {
                supported: true,
                context: classified.context,
                install_location,
                installed_version,
                app_data_dir,
                app_data_present,
            }
        },
    }
}

proof fn lemma_first_match_satisfies(s: Seq<UninstallEntry>, t: EntryTest, dir: Seq<char>)
    requires
        first_match(s, matcher(t, dir)) is Some,
    ensures
        entry_test(t, dir, first_match(s, matcher(t, dir))->0),
    decreases s.len(),
{
    if s.len() > 0 && !matcher(t, dir)(s[0]) {
        lemma_first_match_satisfies(s.drop_first(), t, dir);
    }
}

/// A development build is never reported as installed, even when it runs
/// from the registered install directory.
pub proof fn lemma_dev_builds_never_installed(
    exe: Seq<char>,
    entries: Seq<UninstallEntry>,
    roots: Seq<Seq<char>>,
)
    ensures
        classify_spec(exe, entries, roots, true).0 == InstallContext::Dev,
{
}

/// Only Sheaf's own uninstall entries are ever reported: similarly named
/// products never match.
pub proof fn lemma_only_sheaf_entries_reported(
    exe: Seq<char>,
    entries: Seq<UninstallEntry>,
    roots: Seq<Seq<char>>,
    is_dev: bool,
)
    ensures
        classify_spec(exe, entries, roots, is_dev).1 is Some ==> is_sheaf_entry(
            classify_spec(exe, entries, roots, is_dev).1->0,
        ),
{
    let e = Seq::<char>::empty();
    if first_match(entries, matcher(EntryTest::WithLocation, e)) is Some {
        lemma_first_match_satisfies(entries, EntryTest::WithLocation, e);
    }
    if first_match(entries, matcher(EntryTest::Sheaf, e)) is Some {
        lemma_first_match_satisfies(entries, EntryTest::Sheaf, e);
    }
    match exe_dir(exe) {
        None => {},
        Some(d) => {
            let dir = render(d);
            if first_match(entries, matcher(EntryTest::Contains, dir)) is Some {
                lemma_first_match_satisfies(entries, EntryTest::Contains, dir);
            }
            if first_match(entries, matcher(EntryTest::WithoutLocation, dir)) is Some {
                lemma_first_match_satisfies(entries, EntryTest::WithoutLocation, dir);
            }
        },
    }
}

/// Installed means running from inside a Sheaf install: from the install
/// location of the entry reported, or, for an entry without a location,
/// from under a program-files root.
pub proof fn lemma_installed_runs_from_the_install(
    exe: Seq<char>,
    entries: Seq<UninstallEntry>,
    roots: Seq<Seq<char>>,
    is_dev: bool,
)
    ensures
        classify_spec(exe, entries, roots, is_dev).0 == InstallContext::Installed ==> {
            let e = classify_spec(exe, entries, roots, is_dev).1->0;
            let dir = render(exe_dir(exe)->0);
            &&& classify_spec(exe, entries, roots, is_dev).1 is Some
            &&& is_sheaf_entry(e)
            &&& (match entry_location(e) {
                Some(l) => is_within_spec(dir, l),
                None => exists|i: int| 0 <= i < roots.len() && #[trigger] is_within_spec(dir, roots[i]),
            })
        },
{
    match exe_dir(exe) {
        None => {},
        Some(d) => {
            let dir = render(d);
            if first_match(entries, matcher(EntryTest::Contains, dir)) is Some {
                lemma_first_match_satisfies(entries, EntryTest::Contains, dir);
            }
            if first_match(entries, matcher(EntryTest::WithoutLocation, dir)) is Some {
                lemma_first_match_satisfies(entries, EntryTest::WithoutLocation, dir);
            }
        },
    }
}


proof fn lemma_strip_verbatim_fold(s: Seq<char>)
    ensures
        strip_verbatim(fold_ascii(s)) == fold_ascii(strip_verbatim(s)),
{
    if s.len() >= 4 {
        assert(fold_ascii(s).subrange(0, 4) =~= fold_ascii(s.subrange(0, 4)));
        lemma_fold_is(s.subrange(0, 4), verbatim_prefix());
        assert(fold_ascii(s).skip(4) =~= fold_ascii(s.skip(4)));
    }
}

proof fn lemma_folded_components_by_fold(s: Seq<char>)
    ensures
        folded_components(s) == path_components_in(PathStyle::Windows, strip_verbatim(fold_ascii(s))),
{
    lemma_components_in_fold(PathStyle::Windows, strip_verbatim(s));
    lemma_strip_verbatim_fold(s);
}

/// Path containment ignores ASCII case: spellings of the directory, and of
/// the ancestor, that differ only in the case of ASCII letters give the
/// same answer.
pub proof fn lemma_containment_ignores_ascii_case(
    dir: Seq<char>,
    dir2: Seq<char>,
    ancestor: Seq<char>,
    ancestor2: Seq<char>,
)
    requires
        fold_ascii(dir) == fold_ascii(dir2),
        fold_ascii(ancestor) == fold_ascii(ancestor2),
    ensures
        ascii_within(dir, ancestor) == ascii_within(dir2, ancestor2),
{
    lemma_folded_components_by_fold(dir);
    lemma_folded_components_by_fold(dir2);
    lemma_folded_components_by_fold(ancestor);
    lemma_folded_components_by_fold(ancestor2);
}

} // verus!
