//! Per-user desktop integration for the portable Linux AppImage.
//!
//! AppImages deliberately do not install themselves. Sheaf offers an explicit,
//! reversible opt-in: copy the currently-running AppImage to a stable path,
//! create a launcher/MIME entry, and provide removal/uninstall controls.
//!
//! The functions here decide what is written, copied, removed and run, as a
//! list of steps over paths under the user's home; the caller carries the
//! steps out in order.
use vstd::prelude::*;

use crate::error::{engine_error, SheafError};
use crate::paths::{has_root, path_components, PathParts};
use crate::text::{chars_eq, chars_of, is_prefix, push_all, push_str, string_of, trim, trim_vec};

verus! {

pub const DESKTOP_FILE: &'static str = "org.sheafpdf.sheaf.desktop";

pub const APPIMAGE_NAME: &'static str = "Sheaf.AppImage";

#[derive(Debug, Clone)]
pub struct DesktopIntegrationStatus {
    pub supported: bool,
    pub is_appimage: bool,
    pub integrated: bool,
    pub appimage_path: Option<String>,
    pub is_default_pdf: bool,
}

/// `PathBuf::join` on path texts: an absolute `b` replaces `a`; otherwise
/// `b` is appended after a separator unless `a` is empty or already ends
/// with one.
pub open spec fn join_text(a: Seq<char>, b: Seq<char>) -> Seq<char> {
    if b.len() > 0 && b[0] == '/' {
        b
    } else if a.len() == 0 || a.last() == '/' {
        a + b
    } else {
        a.push('/') + b
    }
}

pub fn join(a: &str, b: &str) -> (r: String)
    ensures
        r@ == join_text(a@, b@),
{
    let ac = chars_of(a);
    let bc = chars_of(b);
    if bc.len() > 0 && bc[0] == '/' {
        return b.to_owned();
    }
    let mut out = ac;
    if out.len() > 0 && out[out.len() - 1] != '/' {
        out.push('/');
    }
    push_all(&mut out, bc.as_slice());
    string_of(out.as_slice())
}

/// Where desktop integration puts its files for a user whose home is `home`.
#[derive(Debug, Clone, PartialEq, Eq)]
pub struct IntegrationPaths {
    pub appimage: String,
    pub desktop_file: String,
    pub icon: String,
}

pub open spec fn appimage_path(home: Seq<char>) -> Seq<char> {
    join_text(join_text(home, ".local/opt/sheaf"@), "Sheaf.AppImage"@)
}

pub open spec fn desktop_file_path(home: Seq<char>) -> Seq<char> {
    join_text(join_text(home, ".local/share/applications"@), "org.sheafpdf.sheaf.desktop"@)
}

pub open spec fn icon_path(home: Seq<char>) -> Seq<char> {
    join_text(home, ".local/share/icons/hicolor/128x128/apps/sheaf.png"@)
}

impl IntegrationPaths {
    pub fn for_home(home: &str) -> (r: IntegrationPaths)
        ensures
            r.appimage@ == appimage_path(home@),
            r.desktop_file@ == desktop_file_path(home@),
            r.icon@ == icon_path(home@),
    {
        IntegrationPaths {
            appimage: join(join(home, ".local/opt/sheaf").as_str(), APPIMAGE_NAME),
            desktop_file: join(join(home, ".local/share/applications").as_str(), DESKTOP_FILE),
            icon: join(home, ".local/share/icons/hicolor/128x128/apps/sheaf.png"),
        }
    }
}

/// Desktop Entry `Exec` quoting of one character.
pub open spec fn exec_escape_char(c: char) -> Seq<char> {
    if c == '\\' {
        seq!['\\', '\\']
    } else if c == '"' {
        seq!['\\', '"']
    } else {
        seq![c]
    }
}

pub open spec fn exec_escape(s: Seq<char>) -> Seq<char>
    decreases s.len(),
{
    if s.len() == 0 {
        Seq::empty()
    } else {
        exec_escape(s.drop_last()) + exec_escape_char(s.last())
    }
}

/// The program path quoted for a Desktop Entry `Exec` key.
pub open spec fn quote_exec_spec(path: Seq<char>) -> Seq<char> {
    seq!['"'] + exec_escape(path) + seq!['"']
}

/// Desktop Entry Exec quoting: quote the fixed absolute program path, with
/// backslashes and double quotes escaped.
pub fn quote_exec(path: &str) -> (r: String)
    ensures
        r@ == quote_exec_spec(path@),
{
    let cs = chars_of(path);
    let mut out: Vec<char> = vec!['"'];
    let mut i: usize = 0;
    assert(cs@.take(0) =~= Seq::<char>::empty());
    while i < cs.len()
        invariant
            i <= cs@.len(),
            out@ == seq!['"'] + exec_escape(cs@.take(i as int)),
        decreases cs.len() - i,
    {
        let c = cs[i];
        assert(cs@.take(i + 1).drop_last() =~= cs@.take(i as int));
        let ghost before = out@;
        if c == '\\' {
            out.push('\\');
            out.push('\\');
        } else if c == '"' {
            out.push('\\');
            out.push('"');
        } else {
            out.push(c);
        }
        assert(out@ =~= before + exec_escape_char(c));
        i = i + 1;
    }
    assert(cs@.take(cs@.len() as int) =~= cs@);
    out.push('"');
    string_of(out.as_slice())
}

pub open spec fn desktop_entry_head() -> Seq<char> {
    "[Desktop Entry]\nType=Application\nName=Sheaf\nComment=Open-source PDF reader and editor\nExec="@
}

pub open spec fn desktop_entry_tail() -> Seq<char> {
    " %F\nIcon=sheaf\nTerminal=false\nCategories=Office;Viewer;\nMimeType=application/pdf;\nStartupWMClass=sheaf\n"@
}

/// The launcher entry that starts the AppImage at `appimage` for PDFs.
pub open spec fn desktop_entry_spec(appimage: Seq<char>) -> Seq<char> {
    desktop_entry_head() + quote_exec_spec(appimage) + desktop_entry_tail()
}

pub fn desktop_entry(appimage: &str) -> (r: String)
    ensures
        r@ == desktop_entry_spec(appimage@),
{
    let mut out = chars_of(
        "[Desktop Entry]\nType=Application\nName=Sheaf\nComment=Open-source PDF reader and editor\nExec=",
    );
    push_str(&mut out, quote_exec(appimage).as_str());
    push_str(
        &mut out,
        " %F\nIcon=sheaf\nTerminal=false\nCategories=Office;Viewer;\nMimeType=application/pdf;\nStartupWMClass=sheaf\n",
    );
    string_of(out.as_slice())
}

/// The home directory from the `HOME` variable, which must be absolute.
pub open spec fn home_outcome(home_var: Option<Seq<char>>) -> Option<Seq<char>> {
    match home_var {
        Some(h) => if has_root(path_components(h)) {
            Some(h)
        } else {
            None
        },
        None => None,
    }
}

pub open spec fn opt_str_view(o: Option<&str>) -> Option<Seq<char>> {
    match o {
        Some(s) => Some(s@),
        None => None,
    }
}

pub fn home_dir(home_var: Option<&str>) -> (r: Result<String, SheafError>)
    ensures
        match home_outcome(opt_str_view(home_var)) {
            Some(h) => r matches Ok(s) && s@ == h,
            None => r matches Err(SheafError::Engine(m)) && m@
                == "could not determine the home directory"@,
        },
{
    match home_var {
        Some(h) => {
            if PathParts::parse(h).has_root() {
                return Ok(h.to_owned());
            }
        },
        None => {},
    }
    Err(engine_error("could not determine the home directory"))
}

/// Whether the output of `xdg-mime query default application/pdf` names
/// Sheaf's launcher.
pub open spec fn names_sheaf_launcher(xdg_mime_output: Seq<char>) -> bool {
    trim(xdg_mime_output) == "org.sheafpdf.sheaf.desktop"@
}

pub fn pdf_default_is_sheaf(xdg_mime_output: Option<&str>) -> (b: bool)
    ensures
        b == match xdg_mime_output {
            Some(o) => names_sheaf_launcher(o@),
            None => false,
        },
{
    match xdg_mime_output {
        Some(o) => {
            let t = trim_vec(chars_of(o).as_slice());
            chars_eq(t.as_slice(), chars_of(DESKTOP_FILE).as_slice())
        },
        None => false,
    }
}

/// What Linux reports for desktop integration: the `HOME` variable, whether
/// Sheaf runs from an AppImage, whether the installed AppImage and launcher
/// files exist, and what `xdg-mime` names as the default PDF handler.
#[derive(Debug, Clone)]
pub struct LinuxHost {
    pub home: Option<String>,
    pub running_appimage: Option<String>,
    pub appimage_installed: bool,
    pub desktop_file_installed: bool,
    pub default_pdf_handler: Option<String>,
}

pub open spec fn opt_string_view(o: Option<String>) -> Option<Seq<char>> {
    match o {
        Some(s) => Some(s@),
        None => None,
    }
}

fn as_opt_str(o: &Option<String>) -> (r: Option<&str>)
    ensures
        opt_str_view(r) == opt_string_view(*o),
{
    match o {
        Some(s) => Some(s.as_str()),
        None => None,
    }
}

/// The integration status. Off Linux (`host` absent) integration is
/// unsupported.
pub fn status(host: Option<&LinuxHost>) -> (r: Result<DesktopIntegrationStatus, SheafError>)
    ensures
        host is None ==> (r matches Ok(s) && !s.supported && !s.is_appimage && !s.integrated
            && s.appimage_path is None && !s.is_default_pdf),
        host is Some ==> {
            let h = host->0;
            match home_outcome(opt_string_view(h.home)) {
                None => r matches Err(SheafError::Engine(m)) && m@
                    == "could not determine the home directory"@,
                Some(home) => r matches Ok(s) && s.supported && s.is_appimage
                    == h.running_appimage is Some && s.integrated == (h.appimage_installed
                    && h.desktop_file_installed) && opt_string_view(s.appimage_path) == (
                if h.appimage_installed {
                    Some(appimage_path(home))
                } else {
                    None
                }) && s.is_default_pdf == match h.default_pdf_handler {
                    Some(o) => names_sheaf_launcher(o@),
                    None => false,
                },
            }
        },
{
    let h = match host {
        None => {
            return Ok(
                DesktopIntegrationStatus {
                    supported: false,
                    is_appimage: false,
                    integrated: false,
                    appimage_path: None,
                    is_default_pdf: false,
                },
            );
        },
        Some(h) => h,
    };
    let home = match home_dir(as_opt_str(&h.home)) {
        Ok(home) => home,
        Err(e) => return Err(e),
    };
    let paths = IntegrationPaths::for_home(home.as_str());
    Ok(
        DesktopIntegrationStatus {
            supported: true,
            is_appimage: h.running_appimage.is_some(),
            integrated: h.appimage_installed && h.desktop_file_installed,
            appimage_path: if h.appimage_installed {
                Some(paths.appimage)
            } else {
                None
            },
            is_default_pdf: pdf_default_is_sheaf(as_opt_str(&h.default_pdf_handler)),
        },
    )
}

/// One filesystem or process step of an integration change.
#[derive(Debug, Clone, PartialEq, Eq)]
pub enum Step {
    /// Create a directory and its missing parents.
    CreateDirAll(String),
    /// Copy a file.
    Copy { from: String, to: String },
    /// Give a file mode 0755.
    MakeExecutable(String),
    /// Rename a file, replacing the target.
    Rename { from: String, to: String },
    /// Write a text file.
    WriteText { path: String, contents: String },
    /// Write the application icon (the 128x128 PNG shipped with the app).
    WriteIcon(String),
    /// Remove a file; a missing file is not an error.
    RemoveFile(String),
    /// Remove a directory tree; a missing directory is not an error.
    RemoveDirAll(String),
    /// Run a program; its outcome is ignored.
    Run { program: String, args: Vec<String> },
}

/// A step, with every path and text as characters.
pub enum Action {
    CreateDirAll(Seq<char>),
    Copy(Seq<char>, Seq<char>),
    MakeExecutable(Seq<char>),
    Rename(Seq<char>, Seq<char>),
    WriteText(Seq<char>, Seq<char>),
    WriteIcon(Seq<char>),
    RemoveFile(Seq<char>),
    RemoveDirAll(Seq<char>),
    Run(Seq<char>, Seq<Seq<char>>),
}

pub open spec fn action_of(s: Step) -> Action {
    match s {
        Step::CreateDirAll(p) => Action::CreateDirAll(p@),
        Step::Copy { from, to } => Action::Copy(from@, to@),
        Step::MakeExecutable(p) => Action::MakeExecutable(p@),
        Step::Rename { from, to } => Action::Rename(from@, to@),
        Step::WriteText { path, contents } => Action::WriteText(path@, contents@),
        Step::WriteIcon(p) => Action::WriteIcon(p@),
        Step::RemoveFile(p) => Action::RemoveFile(p@),
        Step::RemoveDirAll(p) => Action::RemoveDirAll(p@),
        Step::Run { program, args } => Action::Run(program@, args@.map_values(|a: String| a@)),
    }
}

pub open spec fn actions(steps: Seq<Step>) -> Seq<Action> {
    steps.map_values(|s: Step| action_of(s))
}

/// Refresh the desktop and icon caches so launchers pick up the change.
pub open spec fn refresh_actions(home: Seq<char>) -> Seq<Action> {
    seq![
        Action::Run(
            "update-desktop-database"@,
            seq![join_text(home, ".local/share/applications"@)],
        ),
        Action::Run(
            "gtk-update-icon-cache"@,
            seq!["-f"@, join_text(home, ".local/share/icons/hicolor"@)],
        ),
    ]
}

fn push_step(steps: &mut Vec<Step>, s: Step)
    ensures
        actions(final(steps)@) == actions(old(steps)@).push(action_of(s)),
{
    let ghost before = steps@;
    steps.push(s);
    assert(actions(steps@) =~= actions(before).push(action_of(s)));
}

fn refresh_databases(steps: &mut Vec<Step>, home: &str)
    ensures
        actions(final(steps)@) == actions(old(steps)@) + refresh_actions(home@),
{
    let ghost before = actions(steps@);
    let applications = join(home, ".local/share/applications");
    let icons = join(home, ".local/share/icons/hicolor");
    let a1 = vec![applications];
    let a2 = vec!["-f".to_owned(), icons];
    assert(a1@.map_values(|a: String| a@) =~= seq![join_text(home@, ".local/share/applications"@)]);
    assert(a2@.map_values(|a: String| a@) =~= seq!["-f"@, join_text(home@, ".local/share/icons/hicolor"@)]);
    push_step(steps, Step::Run { program: "update-desktop-database".to_owned(), args: a1 });
    push_step(steps, Step::Run { program: "gtk-update-icon-cache".to_owned(), args: a2 });
    assert(actions(steps@) =~= before + refresh_actions(home@));
}

/// What installing the AppImage at `source` for the user whose home is
/// `home` does, step by step.
pub open spec fn install_actions(source: Seq<char>, home: Seq<char>) -> Seq<Action> {
    let app = appimage_path(home);
    let tmp = app + ".new"@;
    let opt_dir = join_text(home, ".local/opt/sheaf"@);
    let copy = if source == app {
        Seq::<Action>::empty()
    } else {
        seq![
            Action::CreateDirAll(opt_dir),
            Action::Copy(source, tmp),
            Action::MakeExecutable(tmp),
            Action::Rename(tmp, app),
        ]
    };
    copy + seq![
        Action::CreateDirAll(join_text(home, ".local/share/applications"@)),
        Action::CreateDirAll(join_text(home, ".local/share/icons/hicolor/128x128/apps"@)),
        Action::WriteText(desktop_file_path(home), desktop_entry_spec(app)),
        Action::WriteIcon(icon_path(home)),
    ] + refresh_actions(home)
}

/// The steps that install the AppImage at `source` for the user whose home
/// is `home`: the AppImage is copied next to a temporary name and renamed
/// into place (unless it already runs from there), then the launcher and
/// icon are written and the caches refreshed.
pub fn install_steps(source: &str, home: &str) -> (r: Vec<Step>)
    ensures
        actions(r@) == install_actions(source@, home@),
{
    let paths = IntegrationPaths::for_home(home);
    let mut steps: Vec<Step> = Vec::new();
    assert(actions(steps@) =~= Seq::<Action>::empty());
    let same = chars_eq(chars_of(source).as_slice(), chars_of(paths.appimage.as_str()).as_slice());
    if !same {
        let opt_dir = join(home, ".local/opt/sheaf");
        let mut tmp = chars_of(paths.appimage.as_str());
        push_str(&mut tmp, ".new");
        let tmp = string_of(tmp.as_slice());
        push_step(&mut steps, Step::CreateDirAll(opt_dir));
        push_step(&mut steps, Step::Copy { from: source.to_owned(), to: tmp.clone() });
        push_step(&mut steps, Step::MakeExecutable(tmp.clone()));
        push_step(&mut steps, Step::Rename { from: tmp, to: paths.appimage.clone() });
    }
    let ghost copy = actions(steps@);
    push_step(&mut steps, Step::CreateDirAll(join(home, ".local/share/applications")));
    push_step(&mut steps, Step::CreateDirAll(join(home, ".local/share/icons/hicolor/128x128/apps")));
    push_step(
        &mut steps,
        Step::WriteText {
            path: paths.desktop_file.clone(),
            contents: desktop_entry(paths.appimage.as_str()),
        },
    );
    push_step(&mut steps, Step::WriteIcon(paths.icon.clone()));
    refresh_databases(&mut steps, home);
    assert(actions(steps@) =~= install_actions(source@, home@));
    steps
}

pub open spec fn remove_actions(
    home: Seq<char>,
    remove_appimage: bool,
    remove_data: bool,
    app_data_dir: Option<Seq<char>>,
) -> Seq<Action> {
    seq![Action::RemoveFile(desktop_file_path(home)), Action::RemoveFile(icon_path(home))] + (
    if remove_appimage {
        seq![Action::RemoveFile(appimage_path(home))]
    } else {
        Seq::empty()
    }) + (if remove_data && app_data_dir is Some {
        seq![Action::RemoveDirAll(app_data_dir->0)]
    } else {
        Seq::empty()
    }) + refresh_actions(home)
}

/// The steps that remove the launcher and icon, and optionally the installed
/// AppImage and the app-data directory.
pub fn remove_steps(
    home: &str,
    remove_appimage: bool,
    remove_data: bool,
    app_data_dir: Option<&str>,
) -> (r: Vec<Step>)
    ensures
        actions(r@) == remove_actions(home@, remove_appimage, remove_data, opt_str_view(app_data_dir)),
{
    let paths = IntegrationPaths::for_home(home);
    let mut steps: Vec<Step> = Vec::new();
    assert(actions(steps@) =~= Seq::<Action>::empty());
    push_step(&mut steps, Step::RemoveFile(paths.desktop_file.clone()));
    push_step(&mut steps, Step::RemoveFile(paths.icon.clone()));
    if remove_appimage {
        push_step(&mut steps, Step::RemoveFile(paths.appimage.clone()));
    }
    if remove_data {
        match app_data_dir {
            Some(d) => push_step(&mut steps, Step::RemoveDirAll(d.to_owned())),
            None => {},
        }
    }
    refresh_databases(&mut steps, home);
    assert(actions(steps@) =~= remove_actions(
        home@,
        remove_appimage,
        remove_data,
        opt_str_view(app_data_dir),
    ));
    steps
}

/// Plan installing the running AppImage. Off Linux (`host` absent) this is
/// refused, as it is when Sheaf does not run from an AppImage.
pub fn install(host: Option<&LinuxHost>) -> (r: Result<Vec<Step>, SheafError>)
    ensures
        host is None ==> (r matches Err(SheafError::Engine(m)) && m@
            == "desktop integration is only available on Linux"@),
        host is Some ==> {
            let h = host->0;
            match h.running_appimage {
                None => r matches Err(SheafError::Engine(m)) && m@
                    == "desktop integration is available only when running from an AppImage"@,
                Some(src) => match home_outcome(opt_string_view(h.home)) {
                    None => r matches Err(SheafError::Engine(m)) && m@
                        == "could not determine the home directory"@,
                    Some(home) => r matches Ok(steps) && actions(steps@) == install_actions(
                        src@,
                        home,
                    ),
                },
            }
        },
{
    let h = match host {
        None => return Err(engine_error("desktop integration is only available on Linux")),
        Some(h) => h,
    };
    let source = match &h.running_appimage {
        None => {
            return Err(
                engine_error("desktop integration is available only when running from an AppImage"),
            )
        },
        Some(s) => s,
    };
    let home = match home_dir(as_opt_str(&h.home)) {
        Ok(home) => home,
        Err(e) => return Err(e),
    };
    Ok(install_steps(source.as_str(), home.as_str()))
}

/// The status right after a successful install of the AppImage for `home`.
pub fn installed_status(home: &str, is_default_pdf: bool) -> (r: DesktopIntegrationStatus)
    ensures
        r.supported && r.is_appimage && r.integrated,
        opt_string_view(r.appimage_path) == Some(appimage_path(home@)),
        r.is_default_pdf == is_default_pdf,
{
    let paths = IntegrationPaths::for_home(home);
    DesktopIntegrationStatus {
        supported: true,
        is_appimage: true,
        integrated: true,
        appimage_path: Some(paths.appimage),
        is_default_pdf,
    }
}

/// Plan removing only the launcher/icon registration. This intentionally
/// does not change the user's default PDF handler, because guessing a
/// replacement can silently break their desktop association.
pub fn remove_integration(host: Option<&LinuxHost>) -> (r: Result<Vec<Step>, SheafError>)
    ensures
        host is None ==> (r matches Err(SheafError::Engine(m)) && m@
            == "desktop integration is only available on Linux"@),
        host is Some ==> match home_outcome(opt_string_view(host->0.home)) {
            None => r matches Err(SheafError::Engine(m)) && m@
                == "could not determine the home directory"@,
            Some(home) => r matches Ok(steps) && actions(steps@) == remove_actions(
                home,
                false,
                false,
                None,
            ),
        },
{
    let h = match host {
        None => return Err(engine_error("desktop integration is only available on Linux")),
        Some(h) => h,
    };
    let home = match home_dir(as_opt_str(&h.home)) {
        Ok(home) => home,
        Err(e) => return Err(e),
    };
    Ok(remove_steps(home.as_str(), false, false, None))
}

/// Plan removing Sheaf's installed AppImage and desktop registration, and
/// the app-data directory when `delete_data` is set. Unix permits unlinking
/// the currently running file safely.
pub fn uninstall(host: Option<&LinuxHost>, delete_data: bool, app_data_dir: Option<&str>) -> (r:
    Result<Vec<Step>, SheafError>)
    ensures
        host is None ==> (r matches Err(SheafError::Engine(m)) && m@
            == "AppImage uninstall is only available on Linux"@),
        host is Some ==> match home_outcome(opt_string_view(host->0.home)) {
            None => r matches Err(SheafError::Engine(m)) && m@
                == "could not determine the home directory"@,
            Some(home) => r matches Ok(steps) && actions(steps@) == remove_actions(
                home,
                true,
                delete_data,
                opt_str_view(app_data_dir),
            ),
        },
{
    let h = match host {
        None => return Err(engine_error("AppImage uninstall is only available on Linux")),
        Some(h) => h,
    };
    let home = match home_dir(as_opt_str(&h.home)) {
        Ok(home) => home,
        Err(e) => return Err(e),
    };
    Ok(remove_steps(home.as_str(), true, delete_data, app_data_dir))
}

proof fn lemma_join_within(a: Seq<char>, b: Seq<char>)
    requires
        b.len() > 0,
        b[0] != '/',
    ensures
        is_prefix(a, join_text(a, b)),
        join_text(a, b).last() == b.last(),
{
    let j = join_text(a, b);
    if a.len() == 0 || a.last() == '/' {
        assert(j.subrange(0, a.len() as int) =~= a);
    } else {
        assert(j.subrange(0, a.len() as int) =~= a);
    }
}

proof fn lemma_prefix_trans(a: Seq<char>, b: Seq<char>, c: Seq<char>)
    requires
        is_prefix(a, b),
        is_prefix(b, c),
    ensures
        is_prefix(a, c),
{
    assert(c.subrange(0, a.len() as int) =~= b.subrange(0, a.len() as int));
}

proof fn lemma_paths_within_home(home: Seq<char>)
    ensures
        is_prefix(home, appimage_path(home)),
        is_prefix(home, desktop_file_path(home)),
        is_prefix(home, icon_path(home)),
        is_prefix(home, join_text(home, ".local/opt/sheaf"@)),
        is_prefix(home, join_text(home, ".local/share/applications"@)),
        is_prefix(home, join_text(home, ".local/share/icons/hicolor/128x128/apps"@)),
        is_prefix(home, appimage_path(home) + ".new"@),
        appimage_path(home).last() == 'e',
        desktop_file_path(home).last() == 'p',
        icon_path(home).last() == 'g',
{
    reveal_strlit(".local/opt/sheaf");
    reveal_strlit("Sheaf.AppImage");
    reveal_strlit(".local/share/applications");
    reveal_strlit("org.sheafpdf.sheaf.desktop");
    reveal_strlit(".local/share/icons/hicolor/128x128/apps/sheaf.png");
    reveal_strlit(".local/share/icons/hicolor/128x128/apps");
    let opt = join_text(home, ".local/opt/sheaf"@);
    let apps = join_text(home, ".local/share/applications"@);
    lemma_join_within(home, ".local/opt/sheaf"@);
    lemma_join_within(opt, "Sheaf.AppImage"@);
    lemma_prefix_trans(home, opt, appimage_path(home));
    lemma_join_within(home, ".local/share/applications"@);
    lemma_join_within(apps, "org.sheafpdf.sheaf.desktop"@);
    lemma_prefix_trans(home, apps, desktop_file_path(home));
    lemma_join_within(home, ".local/share/icons/hicolor/128x128/apps/sheaf.png"@);
    lemma_join_within(home, ".local/share/icons/hicolor/128x128/apps"@);
    let app = appimage_path(home);
    assert((app + ".new"@).subrange(0, app.len() as int) =~= app);
    lemma_prefix_trans(home, app, app + ".new"@);
}

/// Whether an action stays inside Sheaf's own files under `home`: it
/// writes, renames or removes only paths under `home`, copies only from
/// `source`, removes a directory tree only when it is `app_data`, and runs
/// only the cache refreshers.
pub open spec fn owned_action(a: Action, home: Seq<char>, source: Seq<char>, app_data: Option<
    Seq<char>,
>) -> bool {
    match a {
        Action::CreateDirAll(p) => is_prefix(home, p),
        Action::Copy(from, to) => from == source && is_prefix(home, to),
        Action::MakeExecutable(p) => is_prefix(home, p),
        Action::Rename(from, to) => is_prefix(home, from) && is_prefix(home, to),
        Action::WriteText(p, _) => is_prefix(home, p),
        Action::WriteIcon(p) => is_prefix(home, p),
        Action::RemoveFile(p) => is_prefix(home, p),
        Action::RemoveDirAll(p) => app_data == Some(p),
        Action::Run(program, _) => program == "update-desktop-database"@ || program
            == "gtk-update-icon-cache"@,
    }
}

/// Installing only touches Sheaf-owned paths under the user's home: the
/// AppImage is read from where it runs and written under `~/.local`.
pub proof fn lemma_install_touches_only_owned_paths(source: Seq<char>, home: Seq<char>)
    ensures
        forall|i: int|
            0 <= i < install_actions(source, home).len() ==> owned_action(
                #[trigger] install_actions(source, home)[i],
                home,
                source,
                None,
            ),
{
    lemma_paths_within_home(home);
}

/// Removing only touches Sheaf-owned paths: the launcher, the icon, the
/// installed AppImage under the user's home, and the app-data directory
/// that was named.
pub proof fn lemma_removal_touches_only_owned_paths(
    home: Seq<char>,
    remove_appimage: bool,
    remove_data: bool,
    app_data_dir: Option<Seq<char>>,
)
    ensures
        forall|i: int|
            0 <= i < remove_actions(home, remove_appimage, remove_data, app_data_dir).len()
                ==> owned_action(
                #[trigger] remove_actions(home, remove_appimage, remove_data, app_data_dir)[i],
                home,
                Seq::empty(),
                app_data_dir,
            ),
{
    lemma_paths_within_home(home);
}

/// Removing the integration keeps the installed AppImage and the user's
/// data, and leaves the default PDF handler alone (nothing but the cache
/// refreshers is run).
pub proof fn lemma_remove_integration_keeps_appimage_and_data(home: Seq<char>, app_data_dir: Option<
    Seq<char>,
>)
    ensures
        forall|i: int|
            0 <= i < remove_actions(home, false, false, app_data_dir).len() ==> {
                let a = #[trigger] remove_actions(home, false, false, app_data_dir)[i];
                &&& a != Action::RemoveFile(appimage_path(home))
                &&& !(a is RemoveDirAll)
                &&& owned_action(a, home, Seq::empty(), None)
            },
{
    lemma_paths_within_home(home);
    let acts = remove_actions(home, false, false, app_data_dir);
    assert forall|i: int| 0 <= i < acts.len() implies #[trigger] acts[i] != Action::RemoveFile(
        appimage_path(home),
    ) by {
        if i == 0 {
            assert(desktop_file_path(home) != appimage_path(home));
        } else if i == 1 {
            assert(icon_path(home) != appimage_path(home));
        }
    }
}

} // verus!
