use sheaf::windows_install::{
    classify, is_within, status, strip_quotes, InstallContext, UninstallEntry, WindowsHost,
};

fn abs(parts: &[&str]) -> String {
    format!("C:\\{}", parts.join("\\"))
}

fn nsis_entry(location: &str) -> UninstallEntry {
    UninstallEntry {
        key_name: "Sheaf".into(),
        display_name: Some("Sheaf".into()),
        // NSIS quotes the value, exactly as observed in the registry.
        install_location: Some(format!("\"{}\"", location)),
        display_version: Some("0.2.3".into()),
    }
}

fn msi_entry() -> UninstallEntry {
    UninstallEntry {
        key_name: "{6C1B2E4A-0000-4B7C-9D3A-5F2A1C0B8E11}".into(),
        display_name: Some("Sheaf".into()),
        install_location: None,
        display_version: Some("0.2.3".into()),
    }
}

fn other_entry() -> UninstallEntry {
    UninstallEntry {
        key_name: "Sheafmaker Pro".into(),
        display_name: Some("Sheafmaker Pro".into()),
        install_location: Some(abs(&["Program Files", "Sheafmaker"])),
        display_version: Some("9.9".into()),
    }
}

#[test]
fn strips_installer_quoting() {
    assert_eq!(
        strip_quotes("\"C:\\Users\\a\\AppData\\Local\\Sheaf\""),
        "C:\\Users\\a\\AppData\\Local\\Sheaf"
    );
    assert_eq!(strip_quotes("  C:\\x  "), "C:\\x");
    assert_eq!(strip_quotes("\"\""), "");
}

#[test]
fn path_containment_ignores_case_and_verbatim_prefix() {
    let install = abs(&["Users", "alice", "AppData", "Local", "Sheaf"]);
    let exe_dir = abs(&["users", "ALICE", "appdata", "local", "sheaf"]);
    assert!(is_within(&exe_dir, &install));
    assert!(is_within(&format!("{}\\resources", install), &install));
    assert!(!is_within(
        &abs(&["Users", "alice", "AppData", "Local", "Sheaf2"]),
        &install
    ));
    assert!(!is_within(&abs(&["Users", "alice"]), &install));
    assert!(!is_within(&install, ""));
    let verbatim = format!("\\\\?\\{}", install);
    assert!(is_within(&verbatim, &install));
}

#[test]
fn running_from_the_registered_nsis_directory_is_installed() {
    let install = abs(&["Users", "alice", "AppData", "Local", "Sheaf"]);
    let exe = format!("{}\\sheaf.exe", install);
    let entries = [other_entry(), nsis_entry(&install)];
    let c = classify(&exe, &entries, &[], false);
    assert_eq!(c.context, InstallContext::Installed);
    let entry = c.entry.unwrap();
    assert_eq!(entry.location().unwrap(), install);
    assert_eq!(entry.display_version.as_deref(), Some("0.2.3"));
}

#[test]
fn a_copy_outside_the_registered_directory_is_portable_but_reports_the_install() {
    let install = abs(&["Users", "alice", "AppData", "Local", "Sheaf"]);
    let exe = abs(&["Users", "alice", "Downloads", "sheaf-unpacked", "sheaf.exe"]);
    let c = classify(&exe, &[nsis_entry(&install)], &[], false);
    assert_eq!(c.context, InstallContext::Portable);
    assert_eq!(c.entry.unwrap().location().unwrap(), install);
}

#[test]
fn no_registry_entry_is_portable() {
    let exe = abs(&["Users", "alice", "Downloads", "sheaf.exe"]);
    let c = classify(&exe, &[other_entry()], &[abs(&["Program Files"])], false);
    assert_eq!(c.context, InstallContext::Portable);
    assert_eq!(c.entry, None);
}

#[test]
fn msi_entry_without_location_matches_program_files_only() {
    let roots = [
        abs(&["Program Files"]),
        abs(&["Users", "alice", "AppData", "Local", "Programs"]),
    ];
    let installed = abs(&["Program Files", "Sheaf", "sheaf.exe"]);
    let c = classify(&installed, &[msi_entry()], &roots, false);
    assert_eq!(c.context, InstallContext::Installed);
    assert_eq!(c.entry.unwrap().key_name, msi_entry().key_name);

    let elsewhere = abs(&["Users", "alice", "Desktop", "sheaf.exe"]);
    let c = classify(&elsewhere, &[msi_entry()], &roots, false);
    assert_eq!(c.context, InstallContext::Portable);
    assert_eq!(c.entry, None, "no install location to report");
}

#[test]
fn similarly_named_products_never_match() {
    let exe = abs(&["Program Files", "Sheafmaker", "sheaf.exe"]);
    let c = classify(&exe, &[other_entry()], &[abs(&["Program Files"])], false);
    assert_eq!(c.context, InstallContext::Portable);
}

#[test]
fn dev_builds_are_never_installed_even_from_the_install_directory() {
    let install = abs(&["Users", "alice", "AppData", "Local", "Sheaf"]);
    let c = classify(
        &format!("{}\\sheaf.exe", install),
        &[nsis_entry(&install)],
        &[],
        true,
    );
    assert_eq!(c.context, InstallContext::Dev);
    assert_eq!(
        c.entry.unwrap().location().unwrap(),
        install,
        "still reports the install"
    );
}

#[test]
fn an_executable_without_a_directory_is_portable() {
    let c = classify("", &[], &[], false);
    assert_eq!(c.context, InstallContext::Portable);
}

#[test]
fn verbatim_prefix_and_repeated_separators_are_normalized() {
    let install = abs(&["Users", "alice", "AppData", "Local", "Sheaf"]);
    assert!(is_within(&format!("\\\\?\\{}", install), &install));
    assert!(is_within("C:\\Users\\\\alice\\.\\AppData/Local/Sheaf\\", &install));
    assert!(!is_within("", &install));
}

#[test]
fn dev_build_without_a_located_entry_reports_the_first_sheaf_entry() {
    let c = classify("/x/sheaf.exe", &[other_entry(), msi_entry()], &[], true);
    assert_eq!(c.context, InstallContext::Dev);
    assert_eq!(c.entry, Some(msi_entry()));
}

#[test]
fn entries_match_by_key_or_trimmed_display_name_ignoring_ascii_case() {
    let by_key = UninstallEntry {
        key_name: "sHeAf".into(),
        ..Default::default()
    };
    assert!(by_key.is_sheaf());
    let by_name = UninstallEntry {
        key_name: "{GUID}".into(),
        display_name: Some("  SHEAF \t".into()),
        ..Default::default()
    };
    assert!(by_name.is_sheaf());
    let neither = UninstallEntry {
        key_name: "Sheaf2".into(),
        display_name: Some("Sheaf Reader".into()),
        ..Default::default()
    };
    assert!(!neither.is_sheaf());
    let empty_location = UninstallEntry {
        install_location: Some("  \"\"  ".into()),
        ..Default::default()
    };
    assert_eq!(empty_location.location(), None);
}

#[test]
fn status_off_windows_reports_only_app_data() {
    let s = status(Some("/home/a/.local/share/org.sheafpdf.sheaf".into()), true, None);
    assert!(!s.supported);
    assert_eq!(s.context, InstallContext::Portable);
    assert!(s.app_data_present);
    assert_eq!(s.install_location, None);
    let s = status(None, true, None);
    assert!(!s.app_data_present);
}

#[test]
fn status_on_windows_reports_the_classified_install() {
    let install = abs(&["Users", "alice", "AppData", "Local", "Sheaf"]);
    let host = WindowsHost {
        exe: format!("{}\\sheaf.exe", install),
        entries: vec![nsis_entry(&install)],
        program_roots: vec![],
        is_dev: false,
    };
    let s = status(None, false, Some(host));
    assert!(s.supported);
    assert_eq!(s.context, InstallContext::Installed);
    assert_eq!(s.install_location.as_deref(), Some(install.as_str()));
    assert_eq!(s.installed_version.as_deref(), Some("0.2.3"));
}

#[test]
fn a_real_windows_install_path_is_classified_installed() {
    let install = "C:\\Program Files\\Sheaf";
    let exe = "C:\\Program Files\\Sheaf\\sheaf.exe";
    let c = classify(exe, &[nsis_entry(install)], &[], false);
    assert_eq!(c.context, InstallContext::Installed);
    let c = classify(exe, &[msi_entry()], &["c:\\program files".to_string()], false);
    assert_eq!(c.context, InstallContext::Installed);
    let c = classify("\\\\?\\C:\\Program Files\\Sheaf\\sheaf.exe", &[nsis_entry(install)], &[], false);
    assert_eq!(c.context, InstallContext::Installed);
}

#[test]
fn windows_paths_compare_by_drive_and_components() {
    assert!(is_within("C:/Program Files/Sheaf", "c:\\PROGRAM FILES"));
    assert!(!is_within("D:\\Program Files\\Sheaf", "C:\\Program Files"));
    assert!(!is_within("\\Program Files\\Sheaf", "C:\\Program Files"));
    assert!(is_within("C:\\", "C:\\"));
}

#[test]
fn an_executable_on_a_bare_drive_has_its_drive_root_as_directory() {
    let c = classify("C:\\sheaf.exe", &[nsis_entry("C:\\")], &[], false);
    assert_eq!(c.context, InstallContext::Installed);
    let c = classify("C:sheaf.exe", &[nsis_entry("C:\\")], &[], false);
    assert_eq!(c.context, InstallContext::Portable);
}

#[test]
fn containment_ignores_ascii_case_in_either_argument() {
    assert!(is_within("C:\\USERS\\Alice\\AppData", "c:\\users\\ALICE"));
    assert!(is_within("c:/users/alice/appdata", "C:\\Users\\Alice"));
    assert!(!is_within("C:\\Users\\Alicia\\AppData", "C:\\Users\\Alice"));
}
