use sheaf::desktop_integration::{
    desktop_entry, home_dir, install, install_steps, installed_status, pdf_default_is_sheaf,
    quote_exec, remove_integration, remove_steps, status, uninstall, IntegrationPaths, LinuxHost,
    Step,
};
use sheaf::error::SheafError;

fn host(home: Option<&str>, appimage: Option<&str>) -> LinuxHost {
    LinuxHost {
        home: home.map(|h| h.to_owned()),
        running_appimage: appimage.map(|a| a.to_owned()),
        appimage_installed: false,
        desktop_file_installed: false,
        default_pdf_handler: None,
    }
}

fn engine_message<T: std::fmt::Debug>(r: Result<T, SheafError>) -> String {
    match r {
        Err(SheafError::Engine(m)) => m,
        other => panic!("expected an engine error, got {other:?}"),
    }
}

fn run(program: &str, args: &[&str]) -> Step {
    Step::Run { program: program.to_owned(), args: args.iter().map(|a| a.to_string()).collect() }
}

#[test]
fn desktop_entry_uses_a_stable_path_and_pdf_mime_type() {
    let appimage = "/home/alice/.local/opt/sheaf/Sheaf.AppImage";
    let entry = desktop_entry(appimage);
    assert!(entry.contains("Exec=\"/home/alice/.local/opt/sheaf/Sheaf.AppImage\" %F"));
    assert!(entry.contains("MimeType=application/pdf;"));
    assert!(entry.contains("StartupWMClass=sheaf"));
}

#[test]
fn integration_paths_are_scoped_to_the_user_home() {
    let paths = IntegrationPaths::for_home("/tmp/sheaf-home");
    assert_eq!(paths.appimage, "/tmp/sheaf-home/.local/opt/sheaf/Sheaf.AppImage");
    assert_eq!(
        paths.desktop_file,
        "/tmp/sheaf-home/.local/share/applications/org.sheafpdf.sheaf.desktop"
    );
    assert_eq!(paths.icon, "/tmp/sheaf-home/.local/share/icons/hicolor/128x128/apps/sheaf.png");
}

#[test]
fn a_home_with_a_trailing_separator_is_joined_once() {
    let paths = IntegrationPaths::for_home("/tmp/sheaf-home/");
    assert_eq!(paths.appimage, "/tmp/sheaf-home/.local/opt/sheaf/Sheaf.AppImage");
}

#[test]
fn exec_quoting_escapes_backslashes_and_quotes() {
    assert_eq!(quote_exec("/opt/a b/S"), "\"/opt/a b/S\"");
    assert_eq!(quote_exec("/x\\y\"z"), "\"/x\\\\y\\\"z\"");
}

#[test]
fn the_whole_desktop_entry() {
    assert_eq!(
        desktop_entry("/h/S.AppImage"),
        "[Desktop Entry]\nType=Application\nName=Sheaf\nComment=Open-source PDF reader and editor\nExec=\"/h/S.AppImage\" %F\nIcon=sheaf\nTerminal=false\nCategories=Office;Viewer;\nMimeType=application/pdf;\nStartupWMClass=sheaf\n"
    );
}

#[test]
fn home_must_be_set_and_absolute() {
    assert_eq!(home_dir(Some("/home/alice")).unwrap(), "/home/alice");
    assert_eq!(engine_message(home_dir(Some("home/alice"))), "could not determine the home directory");
    assert_eq!(engine_message(home_dir(None)), "could not determine the home directory");
}

#[test]
fn default_pdf_handler_is_compared_after_trimming() {
    assert!(pdf_default_is_sheaf(Some("org.sheafpdf.sheaf.desktop\n")));
    assert!(!pdf_default_is_sheaf(Some("org.gnome.Evince.desktop\n")));
    assert!(!pdf_default_is_sheaf(Some("")));
    assert!(!pdf_default_is_sheaf(None));
}

#[test]
fn status_off_linux_is_unsupported() {
    let s = status(None).unwrap();
    assert!(!s.supported && !s.is_appimage && !s.integrated && !s.is_default_pdf);
    assert_eq!(s.appimage_path, None);
}

#[test]
fn status_reports_what_linux_shows() {
    let mut h = host(Some("/home/alice"), Some("/home/alice/Downloads/Sheaf.AppImage"));
    h.appimage_installed = true;
    h.desktop_file_installed = false;
    h.default_pdf_handler = Some("org.sheafpdf.sheaf.desktop\n".to_owned());
    let s = status(Some(&h)).unwrap();
    assert!(s.supported && s.is_appimage && !s.integrated && s.is_default_pdf);
    assert_eq!(s.appimage_path.as_deref(), Some("/home/alice/.local/opt/sheaf/Sheaf.AppImage"));
    h.desktop_file_installed = true;
    assert!(status(Some(&h)).unwrap().integrated);
    let no_home = host(None, None);
    assert_eq!(engine_message(status(Some(&no_home))), "could not determine the home directory");
}

#[test]
fn install_copies_through_a_temporary_name_then_registers() {
    let steps = install_steps("/r/Downloads/Sheaf.AppImage", "/r/home");
    let app = "/r/home/.local/opt/sheaf/Sheaf.AppImage".to_owned();
    let tmp = "/r/home/.local/opt/sheaf/Sheaf.AppImage.new".to_owned();
    assert_eq!(
        steps,
        vec![
            Step::CreateDirAll("/r/home/.local/opt/sheaf".to_owned()),
            Step::Copy { from: "/r/Downloads/Sheaf.AppImage".to_owned(), to: tmp.clone() },
            Step::MakeExecutable(tmp.clone()),
            Step::Rename { from: tmp, to: app.clone() },
            Step::CreateDirAll("/r/home/.local/share/applications".to_owned()),
            Step::CreateDirAll("/r/home/.local/share/icons/hicolor/128x128/apps".to_owned()),
            Step::WriteText {
                path: "/r/home/.local/share/applications/org.sheafpdf.sheaf.desktop".to_owned(),
                contents: desktop_entry(&app),
            },
            Step::WriteIcon("/r/home/.local/share/icons/hicolor/128x128/apps/sheaf.png".to_owned()),
            run("update-desktop-database", &["/r/home/.local/share/applications"]),
            run("gtk-update-icon-cache", &["-f", "/r/home/.local/share/icons/hicolor"]),
        ]
    );
}

#[test]
fn install_from_the_installed_copy_does_not_copy() {
    let steps = install_steps("/r/home/.local/opt/sheaf/Sheaf.AppImage", "/r/home");
    assert_eq!(steps.len(), 6);
    assert!(!steps.iter().any(|s| matches!(s, Step::Copy { .. } | Step::Rename { .. })));
}

#[test]
fn remove_integration_keeps_the_appimage_and_data() {
    let steps = remove_steps("/r/home", false, false, Some("/r/app-data"));
    assert_eq!(
        steps,
        vec![
            Step::RemoveFile("/r/home/.local/share/applications/org.sheafpdf.sheaf.desktop".to_owned()),
            Step::RemoveFile("/r/home/.local/share/icons/hicolor/128x128/apps/sheaf.png".to_owned()),
            run("update-desktop-database", &["/r/home/.local/share/applications"]),
            run("gtk-update-icon-cache", &["-f", "/r/home/.local/share/icons/hicolor"]),
        ]
    );
}

#[test]
fn full_removal_also_removes_the_appimage_and_data() {
    let steps = remove_steps("/r/home", true, true, Some("/r/app-data"));
    assert_eq!(steps[2], Step::RemoveFile("/r/home/.local/opt/sheaf/Sheaf.AppImage".to_owned()));
    assert_eq!(steps[3], Step::RemoveDirAll("/r/app-data".to_owned()));
    assert_eq!(steps.len(), 6);
    assert_eq!(remove_steps("/r/home", true, true, None).len(), 5);
}

#[test]
fn install_is_refused_off_linux_and_outside_an_appimage() {
    assert_eq!(engine_message(install(None)), "desktop integration is only available on Linux");
    assert_eq!(
        engine_message(install(Some(&host(Some("/home/a"), None)))),
        "desktop integration is available only when running from an AppImage"
    );
    let h = host(Some("/home/a"), Some("/tmp/Sheaf.AppImage"));
    assert_eq!(install(Some(&h)).unwrap(), install_steps("/tmp/Sheaf.AppImage", "/home/a"));
}

#[test]
fn removal_plans_follow_the_host() {
    assert_eq!(
        engine_message(remove_integration(None)),
        "desktop integration is only available on Linux"
    );
    assert_eq!(engine_message(uninstall(None, true, None)), "AppImage uninstall is only available on Linux");
    let h = host(Some("/home/a"), None);
    assert_eq!(remove_integration(Some(&h)).unwrap(), remove_steps("/home/a", false, false, None));
    assert_eq!(
        uninstall(Some(&h), true, Some("/d")).unwrap(),
        remove_steps("/home/a", true, true, Some("/d"))
    );
}

#[test]
fn installed_status_names_the_installed_copy() {
    let s = installed_status("/home/a", false);
    assert!(s.supported && s.is_appimage && s.integrated && !s.is_default_pdf);
    assert_eq!(s.appimage_path.as_deref(), Some("/home/a/.local/opt/sheaf/Sheaf.AppImage"));
}
