//! Uninstall controls for the DMG-installed macOS `.app` bundle.
//!
//! macOS has no package manager step to reverse: uninstalling means moving
//! `Sheaf.app` to the Trash. Sheaf offers an explicit, confirmed way to do
//! that from inside the app, plus a separate control that removes only
//! Sheaf's own local data (preferences, recents, OCR models, identities).
//!
//! Path detection and deletion planning are functions of paths and of a few
//! facts about the disk that the caller reads, so the destructive steps only
//! ever run against paths that have already been validated.
use vstd::prelude::*;

use crate::error::{engine_error, SheafError};
use crate::paths::{
    extension_of, file_name, has_root, last_index_of, parent, path_components, path_starts_with,
    render, root_component, views, PathParts,
};
use crate::text::{
    chars_eq, chars_of, copy_opt_string, ends_with_chars, is_suffix, opt_view, slice_range, string_of,
};

verus! {

/// Bundle identifier from `tauri.conf.json`; Tauri names the app-data
/// directory after it (`~/Library/Application Support/<identifier>`).
pub const BUNDLE_IDENTIFIER: &'static str = "org.sheafpdf.sheaf";

pub open spec fn bundle_identifier() -> Seq<char> {
    "org.sheafpdf.sheaf"@
}

#[derive(Debug, Clone)]
pub struct MacosInstallStatus {
    /// True only when running on macOS.
    pub supported: bool,
    /// Root of the running `.app` bundle, when the executable lives in one.
    pub app_bundle_path: Option<String>,
    /// True when the bundle sits inside a source checkout (`target/…`), in
    /// which case self-uninstall is refused.
    pub is_dev_checkout: bool,
    /// True when Sheaf was launched straight from the mounted disk image (or
    /// macOS App Translocation) rather than an installed copy.
    pub is_running_from_disk_image: bool,
    /// True when the bundle can be moved to the Trash from inside the app.
    pub can_move_to_trash: bool,
    /// Sheaf's local data directory, when it exists.
    pub app_data_path: Option<String>,
}

/// What an uninstall or data-removal action will touch. Built up front so the
/// destructive steps run against paths that have already been validated.
#[derive(Debug, Clone, PartialEq, Eq)]
pub struct DeletionPlan {
    /// Bundle to move to the Trash, if the bundle is being removed.
    pub trash_bundle: Option<String>,
    /// Local data directory to delete permanently, if requested.
    pub delete_app_data: Option<String>,
}

/// What the disk says about a bundle: for each of its proper ancestors, in
/// the order of [`bundle_ancestors`], whether a `Cargo.toml` file sits in it;
/// and whether `Contents/MacOS` inside it is a directory.
#[derive(Debug, Clone)]
pub struct BundleProbe {
    pub manifest_beside: Vec<bool>,
    pub has_macos_dir: bool,
}

/// The bundle directory of an executable laid out as
/// `<Name>.app/Contents/MacOS/<executable>`.
pub open spec fn bundle_root_of(c: Seq<Seq<char>>) -> Option<Seq<Seq<char>>> {
    match parent(c) {
        Some(m) => match parent(m) {
            Some(k) => match parent(k) {
                Some(b) => if file_name(m) == Some("MacOS"@) && file_name(k) == Some("Contents"@)
                    && file_name(b) is Some && is_suffix(".app"@, file_name(b)->0) && file_name(
                    b,
                )->0 != ".app"@ {
                    Some(b)
                } else {
                    None
                },
                None => None,
            },
            None => None,
        },
        None => None,
    }
}

fn name_is(p: &PathParts, name: &str) -> (b: bool)
    ensures
        b == (file_name(p@) == Some(name@)),
{
    match p.file_name() {
        Some(n) => chars_eq(n.as_slice(), chars_of(name).as_slice()),
        None => false,
    }
}

fn bundle_root_parts(c: &PathParts) -> (r: Option<PathParts>)
    ensures
        match r {
            Some(b) => bundle_root_of(c@) == Some(b@),
            None => bundle_root_of(c@) is None,
        },
{
    let m = match c.parent() {
        Some(m) => m,
        None => return None,
    };
    let k = match m.parent() {
        Some(k) => k,
        None => return None,
    };
    let b = match k.parent() {
        Some(b) => b,
        None => return None,
    };
    if !name_is(&m, "MacOS") || !name_is(&k, "Contents") {
        return None;
    }
    let name = match b.file_name() {
        Some(n) => n,
        None => return None,
    };
    let app = chars_of(".app");
    if !ends_with_chars(name.as_slice(), app.as_slice()) || chars_eq(name.as_slice(), app.as_slice()) {
        return None;
    }
    Some(b)
}

/// Derive the `.app` bundle root from the running executable's path.
///
/// The `<Name>.app` directory is returned only when the exact
/// `<Name>.app/Contents/MacOS/<executable>` structure is present, so a bare
/// binary (for example `cargo tauri dev`) yields `None`.
pub fn app_bundle_root(executable: &str) -> (r: Option<String>)
    ensures
        match bundle_root_of(path_components(executable@)) {
            Some(b) => r matches Some(s) && s@ == render(b),
            None => r is None,
        },
{
    let c = PathParts::parse(executable);
    match bundle_root_parts(&c) {
        Some(b) => Some(string_of(b.render().as_slice())),
        None => None,
    }
}

/// How many proper ancestors `Path::ancestors` yields after the path itself.
pub open spec fn ancestor_count(c: Seq<Seq<char>>) -> int {
    if c.len() == 0 {
        0
    } else if has_root(c) {
        c.len() - 1
    } else {
        c.len() as int
    }
}

/// The `i`-th proper ancestor, nearest first.
pub open spec fn ancestor(c: Seq<Seq<char>>, i: int) -> Seq<Seq<char>> {
    c.take(c.len() - 1 - i)
}

/// A bundle produced by a local build lives under the checkout's `target/`
/// directory or beside a `Cargo.toml`.
pub open spec fn dev_checkout(c: Seq<Seq<char>>, manifest_beside: Seq<bool>) -> bool {
    exists|i: int|
        0 <= i < ancestor_count(c) && (file_name(#[trigger] ancestor(c, i)) == Some("target"@) || (i
            < manifest_beside.len() && manifest_beside[i]))
}

/// The proper ancestors of `bundle`, nearest first, as the directories in
/// which a `Cargo.toml` is looked for.
pub fn bundle_ancestors(bundle: &str) -> (r: Vec<String>)
    ensures
        r@.len() == ancestor_count(path_components(bundle@)),
        forall|i: int|
            0 <= i < r@.len() ==> #[trigger] r@[i]@ == render(
                ancestor(path_components(bundle@), i),
            ),
{
    let c = PathParts::parse(bundle);
    let n = c.parts.len();
    let stop: usize = if n == 0 {
        0
    } else if c.has_root() {
        1
    } else {
        0
    };
    let mut out: Vec<String> = Vec::new();
    let mut k: usize = n;
    while k > stop
        invariant
            n == c@.len(),
            stop <= k <= n,
            n == 0 ==> k == 0,
            stop == (if n == 0 {
                0
            } else if has_root(c@) {
                1int
            } else {
                0
            }),
            out@.len() == n - k,
            forall|i: int| 0 <= i < out@.len() ==> #[trigger] out@[i]@ == render(ancestor(c@, i)),
        decreases k,
    {
        let mut parts: Vec<Vec<char>> = Vec::new();
        let mut j: usize = 0;
        while j < k - 1
            invariant
                j <= k - 1,
                k <= n,
                n == c@.len(),
                views(parts@) == c@.take(j as int),
            decreases k - 1 - j,
        {
            let ghost before = parts@;
            parts.push(crate::paths::copy_chars(&c.parts[j]));
            assert(views(parts@) =~= views(before).push(c.parts@[j as int]@));
            assert(c@.take(j + 1) =~= c@.take(j as int).push(c.parts@[j as int]@));
            j = j + 1;
        }
        let a = PathParts { parts };
        assert(a@ == ancestor(c@, (n - k) as int));
        let text = string_of(a.render().as_slice());
        out.push(text);
        k = k - 1;
    }
    r_helper(out)
}

fn r_helper(v: Vec<String>) -> (r: Vec<String>)
    ensures
        r == v,
{
    v
}

pub fn dev_checkout_parts(c: &PathParts, manifest_beside: &[bool]) -> (b: bool)
    ensures
        b == dev_checkout(c@, manifest_beside@),
{
    let n = c.parts.len();
    let count: usize = if n == 0 {
        0
    } else if c.has_root() {
        n - 1
    } else {
        n
    };
    let target = chars_of("target");
    let mut i: usize = 0;
    while i < count
        invariant
            n == c@.len(),
            count == ancestor_count(c@),
            i <= count,
            target@ == "target"@,
            forall|k: int|
                0 <= k < i ==> !(file_name(#[trigger] ancestor(c@, k)) == Some("target"@) || (k
                    < manifest_beside@.len() && manifest_beside@[k])),
        decreases count - i,
    {
        if i < manifest_beside.len() && manifest_beside[i] {
            assert(ancestor(c@, i as int) == ancestor(c@, i as int));
            return true;
        }
        let ghost a = ancestor(c@, i as int);
        assert(a.len() == n - 1 - i);
        if i + 1 < n {
            let last = &c.parts[n - 2 - i];
            assert(a.last() == last@);
            if chars_eq(last.as_slice(), target.as_slice()) {
                proof {
                    reveal_strlit("target");
                    assert(crate::paths::is_normal(last@));
                }
                assert(file_name(a) == Some("target"@));
                return true;
            }
        }
        i = i + 1;
    }
    false
}

/// A bundle produced by a local build lives under the checkout's `target/`
/// directory (for example `src-tauri/target/release/bundle/macos/Sheaf.app`)
/// or beside a `Cargo.toml`. Never trash those: they are the developer's
/// build output, not an installation. `manifest_beside[i]` says whether the
/// `i`-th entry of [`bundle_ancestors`] holds a `Cargo.toml` file.
pub fn is_development_checkout(bundle: &str, manifest_beside: &[bool]) -> (b: bool)
    ensures
        b == dev_checkout(path_components(bundle@), manifest_beside@),
{
    dev_checkout_parts(&PathParts::parse(bundle), manifest_beside)
}

pub open spec fn volumes_root() -> Seq<Seq<char>> {
    seq![root_component(), "Volumes"@]
}

/// An app opened directly from a mounted DMG runs under `/Volumes/<image>`,
/// and Gatekeeper may additionally run it from an App Translocation mount.
pub open spec fn disk_image(c: Seq<Seq<char>>) -> bool {
    path_starts_with(c, volumes_root()) || c.contains("AppTranslocation"@)
}

fn disk_image_parts(c: &PathParts) -> (b: bool)
    ensures
        b == disk_image(c@),
{
    let root = vec!['/'];
    assert(root@ =~= root_component());
    let vol = chars_of("Volumes");
    let parts = vec![root, vol];
    assert(parts@[0]@ == root_component());
    assert(parts@[1]@ == "Volumes"@);
    let volumes = PathParts { parts };
    assert(volumes@ =~= volumes_root());
    if c.starts_with(&volumes) {
        return true;
    }
    let trans = chars_of("AppTranslocation");
    let mut i: usize = 0;
    while i < c.parts.len()
        invariant
            i <= c@.len(),
            trans@ == "AppTranslocation"@,
            forall|k: int| 0 <= k < i ==> c@[k] != "AppTranslocation"@,
        decreases c.parts.len() - i,
    {
        if chars_eq(c.parts[i].as_slice(), trans.as_slice()) {
            assert(c@[i as int] == "AppTranslocation"@);
            return true;
        }
        i = i + 1;
    }
    false
}

/// An app opened directly from a mounted DMG runs under `/Volumes/<image>`,
/// and Gatekeeper may additionally run it from a read-only App Translocation
/// mount. Neither is an installation to uninstall; the user just ejects the
/// disk image.
pub fn is_running_from_disk_image(bundle: &str) -> (b: bool)
    ensures
        b == disk_image(path_components(bundle@)),
{
    disk_image_parts(&PathParts::parse(bundle))
}

/// `Path::extension` of the file name `name`.
pub fn extension(name: &[char]) -> (r: Option<Vec<char>>)
    ensures
        match r {
            Some(e) => extension_of(name@) == Some(e@),
            None => extension_of(name@) is None,
        },
{
    let mut j: usize = name.len();
    assert(name@.take(name@.len() as int) =~= name@);
    while j > 0 && name[j - 1] != '.'
        invariant
            j <= name@.len(),
            last_index_of(name@, '.') == last_index_of(name@.take(j as int), '.'),
        decreases j,
    {
        assert(name@.take(j as int).drop_last() =~= name@.take(j - 1));
        j = j - 1;
    }
    if j == 0 {
        assert(name@.take(0) =~= Seq::<char>::empty());
        return None;
    }
    assert(name@.take(j as int).last() == name@[j - 1]);
    if j == 1 {
        return None;
    }
    let e = slice_range(name, j, name.len());
    assert(e@ =~= name@.skip(j as int));
    Some(e)
}

/// The path `/<name>`.
fn rooted_parts(name: &str) -> (r: PathParts)
    ensures
        r@ == seq![root_component(), name@],
{
    let root = vec!['/'];
    assert(root@ =~= root_component());
    let n = chars_of(name);
    let parts = vec![root, n];
    assert(parts@[0]@ == root_component());
    assert(parts@[1]@ == name@);
    let r = PathParts { parts };
    assert(r@ =~= seq![root_component(), name@]);
    r
}

pub open spec fn rooted(name: Seq<char>) -> Seq<Seq<char>> {
    seq![root_component(), name]
}

/// The first reason to refuse moving the bundle with components `c` to the
/// Trash, if any.
pub open spec fn bundle_refusal(c: Seq<Seq<char>>, probe: BundleProbe) -> Option<Seq<char>> {
    if !has_root(c) {
        Some("app bundle path is not absolute"@)
    } else if (match file_name(c) {
        Some(n) => extension_of(n) != Some("app"@),
        None => true,
    }) {
        Some("path is not an .app bundle"@)
    } else if path_starts_with(c, rooted("System"@)) || path_starts_with(c, rooted("usr"@))
        || path_starts_with(c, rooted("Library"@)) {
        Some("refusing to remove a system-owned bundle"@)
    } else if dev_checkout(c, probe.manifest_beside@) {
        Some(
            "this Sheaf is running from a development checkout; delete the build output manually"@,
        )
    } else if disk_image(c) {
        Some("this Sheaf is running from the disk image; quit Sheaf and eject the image instead"@)
    } else if !probe.has_macos_dir {
        Some("app bundle is missing Contents/MacOS"@)
    } else {
        None
    }
}

fn bundle_check(c: &PathParts, probe: &BundleProbe) -> (r: Result<(), SheafError>)
    ensures
        match bundle_refusal(c@, *probe) {
            None => r is Ok,
            Some(reason) => r matches Err(SheafError::Engine(m)) && m@ == reason,
        },
{
    if !c.has_root() {
        return Err(engine_error("app bundle path is not absolute"));
    }
    let is_app = match c.file_name() {
        Some(n) => match extension(n.as_slice()) {
            Some(e) => chars_eq(e.as_slice(), chars_of("app").as_slice()),
            None => false,
        },
        None => false,
    };
    if !is_app {
        return Err(engine_error("path is not an .app bundle"));
    }
    if c.starts_with(&rooted_parts("System")) || c.starts_with(&rooted_parts("usr"))
        || c.starts_with(&rooted_parts("Library")) {
        return Err(engine_error("refusing to remove a system-owned bundle"));
    }
    if dev_checkout_parts(c, probe.manifest_beside.as_slice()) {
        return Err(
            engine_error(
                "this Sheaf is running from a development checkout; delete the build output manually",
            ),
        );
    }
    if disk_image_parts(c) {
        return Err(
            engine_error(
                "this Sheaf is running from the disk image; quit Sheaf and eject the image instead",
            ),
        );
    }
    if !probe.has_macos_dir {
        return Err(engine_error("app bundle is missing Contents/MacOS"));
    }
    Ok(())
}

/// Guard rails on the bundle path before it is moved to the Trash.
pub fn validate_bundle(bundle: &str, probe: &BundleProbe) -> (r: Result<(), SheafError>)
    ensures
        match bundle_refusal(path_components(bundle@), *probe) {
            None => r is Ok,
            Some(reason) => r matches Err(SheafError::Engine(m)) && m@ == reason,
        },
{
    bundle_check(&PathParts::parse(bundle), probe)
}

/// The first reason to refuse deleting `dir` as the app-data directory.
pub open spec fn app_data_refusal(dir: Seq<char>) -> Option<Seq<char>> {
    let c = path_components(dir);
    if !has_root(c) {
        Some("app data path is not absolute"@)
    } else if file_name(c) != Some(bundle_identifier()) {
        Some("refusing to delete a directory not named "@ + bundle_identifier())
    } else if c.len() < 3 {
        Some("app data path is too shallow to be safe"@)
    } else {
        None
    }
}

/// Guard rails on the app-data directory before it is deleted. Only a
/// directory named after Sheaf's bundle identifier is ever removed, so a
/// misconfigured path can never resolve to the user's home, Documents, or any
/// folder holding PDFs.
pub fn validate_app_data_dir(dir: &str) -> (r: Result<(), SheafError>)
    ensures
        match app_data_refusal(dir@) {
            None => r is Ok,
            Some(reason) => r matches Err(SheafError::Engine(m)) && m@ == reason,
        },
{
    let c = PathParts::parse(dir);
    if !c.has_root() {
        return Err(engine_error("app data path is not absolute"));
    }
    let named = match c.file_name() {
        Some(n) => chars_eq(n.as_slice(), chars_of(BUNDLE_IDENTIFIER).as_slice()),
        None => false,
    };
    if !named {
        let mut msg = chars_of("refusing to delete a directory not named ");
        crate::text::push_str(&mut msg, BUNDLE_IDENTIFIER);
        return Err(SheafError::Engine(string_of(msg.as_slice())));
    }
    if c.len() < 3 {
        return Err(engine_error("app data path is too shallow to be safe"));
    }
    Ok(())
}

/// What a plan removes, or why it is refused: the bundle to trash and the
/// data directory to delete.
pub open spec fn plan_outcome(
    bundle: Option<Seq<char>>,
    remove_bundle: bool,
    app_data_dir: Option<Seq<char>>,
    delete_data: bool,
    probe: BundleProbe,
    data_is_dir: bool,
) -> Result<(Option<Seq<char>>, Option<Seq<char>>), Seq<char>> {
    let trash: Result<Option<Seq<char>>, Seq<char>> = if !remove_bundle {
        Ok(None)
    } else {
        match bundle {
            None => Err("Sheaf is not running from an .app bundle"@),
            Some(b) => match bundle_refusal(path_components(b), probe) {
                Some(reason) => Err(reason),
                None => Ok(Some(b)),
            },
        }
    };
    let data: Result<Option<Seq<char>>, Seq<char>> = if !delete_data {
        Ok(None)
    } else {
        match app_data_dir {
            None => Err("could not determine the app data directory"@),
            Some(d) => match app_data_refusal(d) {
                Some(reason) => Err(reason),
                // A missing directory means there is nothing to delete.
                None => Ok(
                    if data_is_dir {
                        Some(d)
                    } else {
                        None
                    },
                ),
            },
        }
    };
    match trash {
        Err(e) => Err(e),
        Ok(t) => match data {
            Err(e) => Err(e),
            Ok(d) => Ok((t, d)),
        },
    }
}

pub open spec fn str_opt_view(o: Option<&str>) -> Option<Seq<char>> {
    match o {
        Some(s) => Some(s@),
        None => None,
    }
}

/// Decide exactly what an action will remove. Validation failures are
/// surfaced here, before anything is touched. `probe` describes `bundle` on
/// disk and `data_is_dir` says whether `app_data_dir` is an existing
/// directory.
pub fn plan(
    bundle: Option<&str>,
    remove_bundle: bool,
    app_data_dir: Option<&str>,
    delete_data: bool,
    probe: &BundleProbe,
    data_is_dir: bool,
) -> (r: Result<DeletionPlan, SheafError>)
    ensures
        match plan_outcome(
            str_opt_view(bundle),
            remove_bundle,
            str_opt_view(app_data_dir),
            delete_data,
            *probe,
            data_is_dir,
        ) {
            Ok((t, d)) => r matches Ok(p) && opt_view(p.trash_bundle) == t && opt_view(
                p.delete_app_data,
            ) == d,
            Err(m) => r matches Err(SheafError::Engine(e)) && e@ == m,
        },
{
    let trash_bundle = if remove_bundle {
        let b = match bundle {
            Some(b) => b,
            None => return Err(engine_error("Sheaf is not running from an .app bundle")),
        };
        match validate_bundle(b, probe) {
            Err(e) => return Err(e),
            Ok(()) => {},
        }
        Some(b.to_owned())
    } else {
        None
    };
    let delete_app_data = if delete_data {
        let d = match app_data_dir {
            Some(d) => d,
            None => return Err(engine_error("could not determine the app data directory")),
        };
        match validate_app_data_dir(d) {
            Err(e) => return Err(e),
            Ok(()) => {},
        }
        if data_is_dir {
            Some(d.to_owned())
        } else {
            None
        }
    } else {
        None
    };
    Ok(DeletionPlan { trash_bundle, delete_app_data })
}

/// What macOS reports about the running copy: the executable's path and what
/// the disk says about the bundle that contains it.
#[derive(Debug, Clone)]
pub struct MacosHost {
    pub exe: String,
    pub probe: BundleProbe,
}

/// Installation status for the settings screen. `host` is absent on every
/// other platform.
pub fn status(host: Option<MacosHost>, app_data_dir: Option<String>, app_data_is_dir: bool) -> (r:
    MacosInstallStatus)
    ensures
        r.supported == host is Some,
        host is None ==> r.app_bundle_path is None && !r.is_dev_checkout
            && !r.is_running_from_disk_image && !r.can_move_to_trash && r.app_data_path is None,
        host is Some ==> {
            let h = host->0;
            let b = bundle_root_of(path_components(h.exe@));
            &&& opt_view(r.app_bundle_path) == match b {
                Some(c) => Some(render(c)),
                None => None,
            }
            &&& r.is_dev_checkout == (b is Some && dev_checkout(
                path_components(render(b->0)),
                h.probe.manifest_beside@,
            ))
            &&& r.is_running_from_disk_image == (b is Some && disk_image(
                path_components(render(b->0)),
            ))
            &&& r.can_move_to_trash == (b is Some && bundle_refusal(
                path_components(render(b->0)),
                h.probe,
            ) is None)
            &&& r.app_data_path == if app_data_is_dir {
                app_data_dir
            } else {
                None
            }
        },
{
    match host {
        None => MacosInstallStatus {
            supported: false,
            app_bundle_path: None,
            is_dev_checkout: false,
            is_running_from_disk_image: false,
            can_move_to_trash: false,
            app_data_path: None,
        },
        Some(h) => {
            let bundle = app_bundle_root(h.exe.as_str());
            let (is_dev_checkout, is_running_from_disk_image, can_move_to_trash) = match &bundle {
                Some(b) => (
                    is_development_checkout(b.as_str(), h.probe.manifest_beside.as_slice()),
                    is_running_from_disk_image(b.as_str()),
                    validate_bundle(b.as_str(), &h.probe).is_ok(),
                ),
                None => (false, false, false),
            };
            MacosInstallStatus {
                supported: true,
                app_bundle_path: bundle,
                is_dev_checkout,
                is_running_from_disk_image,
                can_move_to_trash,
                app_data_path: if app_data_is_dir {
                    app_data_dir
                } else {
                    None
                },
            }
        },
    }
}

/// Plan moving the running `Sheaf.app` to the Trash and optionally deleting
/// local data. Off macOS (`host` absent) this is refused.
pub fn uninstall(
    delete_data: bool,
    app_data_dir: Option<String>,
    app_data_is_dir: bool,
    host: Option<MacosHost>,
) -> (r: Result<DeletionPlan, SheafError>)
    ensures
        host is None ==> (r matches Err(SheafError::Engine(m)) && m@
            == "moving Sheaf to the Trash is only available on macOS"@),
        host is Some ==> {
            let h = host->0;
            let b = bundle_root_of(path_components(h.exe@));
            let bundle = match b {
                Some(c) => Some(render(c)),
                None => None,
            };
            match plan_outcome(
                bundle,
                true,
                opt_view(app_data_dir),
                delete_data,
                h.probe,
                app_data_is_dir,
            ) {
                Ok((t, d)) => r matches Ok(p) && opt_view(p.trash_bundle) == t && opt_view(
                    p.delete_app_data,
                ) == d,
                Err(m) => r matches Err(SheafError::Engine(e)) && e@ == m,
            }
        },
{
    match host {
        None => Err(engine_error("moving Sheaf to the Trash is only available on macOS")),
        Some(h) => {
            let bundle = app_bundle_root(h.exe.as_str());
            let b: Option<&str> = match &bundle {
                Some(s) => Some(s.as_str()),
                None => None,
            };
            let d: Option<&str> = match &app_data_dir {
                Some(s) => Some(s.as_str()),
                None => None,
            };
            plan(b, true, d, delete_data, &h.probe, app_data_is_dir)
        },
    }
}

/// Plan deleting only Sheaf's local data. Available on every platform since
/// it never touches the installation itself.
pub fn delete_local_data(app_data_dir: Option<String>, app_data_is_dir: bool) -> (r: Result<
    DeletionPlan,
    SheafError,
>)
    ensures
        match app_data_dir {
            None => r matches Err(SheafError::Engine(m)) && m@
                == "could not determine the app data directory"@,
            Some(d) => match app_data_refusal(d@) {
                Some(reason) => r matches Err(SheafError::Engine(m)) && m@ == reason,
                None => r matches Ok(p) && p.trash_bundle is None && opt_view(p.delete_app_data)
                    == if app_data_is_dir {
                    Some(d@)
                } else {
                    None
                },
            },
        },
{
    let probe = BundleProbe { manifest_beside: Vec::new(), has_macos_dir: false };
    let d: Option<&str> = match &app_data_dir {
        Some(s) => Some(s.as_str()),
        None => None,
    };
    plan(None, false, d, true, &probe, app_data_is_dir)
}

/// Data is kept unless its deletion is asked for.
pub proof fn lemma_plan_keeps_data_by_default(
    bundle: Option<Seq<char>>,
    remove_bundle: bool,
    app_data_dir: Option<Seq<char>>,
    probe: BundleProbe,
    data_is_dir: bool,
)
    ensures
        plan_outcome(bundle, remove_bundle, app_data_dir, false, probe, data_is_dir) is Ok ==> (
        plan_outcome(bundle, remove_bundle, app_data_dir, false, probe, data_is_dir)->Ok_0.1 is None),
{
}

/// A plan only ever holds validated paths: a bundle that may be trashed
/// and a directory named after Sheaf's bundle identifier.
pub proof fn lemma_plan_only_validated_paths(
    bundle: Option<Seq<char>>,
    remove_bundle: bool,
    app_data_dir: Option<Seq<char>>,
    delete_data: bool,
    probe: BundleProbe,
    data_is_dir: bool,
)
    ensures
        plan_outcome(bundle, remove_bundle, app_data_dir, delete_data, probe, data_is_dir) is Ok
            ==> {
            let (t, d) = plan_outcome(
                bundle,
                remove_bundle,
                app_data_dir,
                delete_data,
                probe,
                data_is_dir,
            )->Ok_0;
            &&& (t is Some ==> remove_bundle && bundle_refusal(path_components(t->0), probe) is None)
            &&& (d is Some ==> delete_data && app_data_refusal(d->0) is None && file_name(
                path_components(d->0),
            ) == Some(bundle_identifier()))
        },
{
}

} // verus!
