use sheaf::error::SheafError;
use sheaf::local_data::{delete_app_data, validate_app_data_dir, DiskEntry};
use sheaf::paths::PathStyle;

const ID: &str = "org.sheafpdf.sheaf";

fn abs(parts: &[&str]) -> String {
    format!("/{}", parts.join("/"))
}

fn refusal_text(r: Result<(), SheafError>) -> String {
    match r {
        Err(SheafError::Engine(m)) => m,
        other => panic!("expected an engine error, got {other:?}"),
    }
}

#[test]
fn accepts_the_real_app_data_layout() {
    validate_app_data_dir(&abs(&["Users", "alice", "AppData", "Roaming", ID]), ID, PathStyle::Unix).unwrap();
    validate_app_data_dir(&abs(&["home", "alice", ".local", "share", ID]), ID, PathStyle::Unix).unwrap();
}

#[test]
fn rejects_relative_paths() {
    assert!(validate_app_data_dir(ID, ID, PathStyle::Unix).is_err());
    assert!(validate_app_data_dir(&format!("AppData/Roaming/{ID}"), ID, PathStyle::Unix).is_err());
}

#[test]
fn rejects_directories_that_are_not_the_app_identifier() {
    for last in ["Documents", "Roaming", "org.sheafpdf", "org.sheafpdf.sheaf.bak"] {
        let dir = abs(&["Users", "alice", "AppData", "Roaming", last]);
        assert!(validate_app_data_dir(&dir, ID, PathStyle::Unix).is_err(), "should refuse {}", dir);
    }
    assert!(validate_app_data_dir(&abs(&["Users", "alice", "AppData", "Roaming"]), ID, PathStyle::Unix).is_err());
    // The identifier must be the final component, not merely present.
    assert!(validate_app_data_dir(&abs(&["Users", "alice", ID, "Documents"]), ID, PathStyle::Unix).is_err());
}

#[test]
fn rejects_relative_components_and_bad_identifiers() {
    assert!(validate_app_data_dir(&abs(&["Users", "alice", "..", "..", ID]), ID, PathStyle::Unix).is_err());
    assert!(validate_app_data_dir(&abs(&["Users", "alice", "AppData", "..", ID]), ID, PathStyle::Unix).is_err());
    assert!(validate_app_data_dir(&abs(&["Users", "alice", "AppData", ID]), "", PathStyle::Unix).is_err());
    assert!(validate_app_data_dir(&abs(&["Users", "alice", "AppData", ID]), "a/b", PathStyle::Unix).is_err());
}

#[test]
fn rejects_paths_near_a_filesystem_root() {
    assert!(validate_app_data_dir(&abs(&[ID]), ID, PathStyle::Unix).is_err());
    assert!(validate_app_data_dir(&abs(&["Users", ID]), ID, PathStyle::Unix).is_err());
    assert!(validate_app_data_dir(&abs(&["Users", "alice", ID]), ID, PathStyle::Unix).is_ok());
}

#[test]
fn refusals_name_the_reason_and_the_path() {
    let dir = abs(&["Users", "alice", "Documents"]);
    assert_eq!(
        refusal_text(validate_app_data_dir(&dir, ID, PathStyle::Unix)),
        "refusing to delete local data: path is not the Sheaf app-data directory (/Users/alice/Documents)"
    );
    assert_eq!(
        refusal_text(validate_app_data_dir("x", "a\\b", PathStyle::Unix)),
        "refusing to delete local data: invalid app identifier (x)"
    );
    assert_eq!(
        refusal_text(validate_app_data_dir(ID, ID, PathStyle::Unix)),
        "refusing to delete local data: path is not absolute (org.sheafpdf.sheaf)"
    );
    assert_eq!(
        refusal_text(validate_app_data_dir("/a/./b/org.sheafpdf.sheaf/..", ID, PathStyle::Unix)),
        "refusing to delete local data: path contains relative components (/a/./b/org.sheafpdf.sheaf/..)"
    );
    assert_eq!(
        refusal_text(validate_app_data_dir("/x/org.sheafpdf.sheaf", ID, PathStyle::Unix)),
        "refusing to delete local data: path is too close to a filesystem root (/x/org.sheafpdf.sheaf)"
    );
}

#[test]
fn deletes_only_the_app_data_directory() {
    let data = abs(&["home", "alice", "AppData", "Roaming", ID]);
    let result = delete_app_data(&data, ID, PathStyle::Unix, &DiskEntry::Directory).unwrap();
    assert!(result.removed);
    assert_eq!(result.path, data);
}

#[test]
fn missing_directory_is_not_an_error() {
    let data = abs(&["home", "alice", "AppData", "Roaming", ID]);
    let result = delete_app_data(&data, ID, PathStyle::Unix, &DiskEntry::Missing).unwrap();
    assert!(!result.removed);
    assert_eq!(result.path, data);
}

#[test]
fn refuses_a_file_at_the_app_data_path() {
    let data = abs(&["home", "alice", "AppData", "Roaming", ID]);
    match delete_app_data(&data, ID, PathStyle::Unix, &DiskEntry::NotDirectory) {
        Err(SheafError::Engine(m)) => assert!(m.contains("path is not a directory"), "{m}"),
        other => panic!("{other:?}"),
    }
}

#[test]
fn refuses_when_validation_fails_without_touching_disk() {
    let data = abs(&["home", "alice", "AppData", "Roaming", ID]);
    let wrong_id = "org.sheafpdf.other";
    assert!(delete_app_data(&data, wrong_id, PathStyle::Unix, &DiskEntry::Directory).is_err());
}

#[test]
fn refuses_a_symlinked_app_data_directory() {
    let link = abs(&["home", "alice", "AppData", "Roaming", ID]);
    match delete_app_data(&link, ID, PathStyle::Unix, &DiskEntry::Link) {
        Err(SheafError::Engine(m)) => {
            assert!(m.contains("path is a symbolic link or junction"), "{m}")
        }
        other => panic!("{other:?}"),
    }
}

#[test]
fn unreadable_metadata_is_an_io_error() {
    let data = abs(&["home", "alice", "AppData", "Roaming", ID]);
    match delete_app_data(&data, ID, PathStyle::Unix, &DiskEntry::Unreadable("permission denied".into())) {
        Err(e) => {
            assert_eq!(e.kind(), "io");
            assert_eq!(e.message(), "io error: permission denied");
        }
        other => panic!("{other:?}"),
    }
}

fn win(parts: &[&str]) -> String {
    format!("C:\\{}", parts.join("\\"))
}

#[test]
fn accepts_the_real_windows_app_data_layout() {
    validate_app_data_dir(&win(&["Users", "alice", "AppData", "Roaming", ID]), ID, PathStyle::Windows)
        .unwrap();
    validate_app_data_dir(&win(&["Users", "alice", ID]), ID, PathStyle::Windows).unwrap();
    let data = win(&["Users", "alice", "AppData", "Roaming", ID]);
    let r = delete_app_data(&data, ID, PathStyle::Windows, &DiskEntry::Directory).unwrap();
    assert!(r.removed);
    assert_eq!(r.path, data);
}

#[test]
fn windows_paths_near_a_drive_root_or_without_a_drive_are_refused() {
    assert_eq!(
        refusal_text(validate_app_data_dir(&win(&["Users", ID]), ID, PathStyle::Windows)),
        format!(
            "refusing to delete local data: path is too close to a filesystem root ({})",
            win(&["Users", ID])
        )
    );
    assert!(validate_app_data_dir(&win(&[ID]), ID, PathStyle::Windows).is_err());
    let rooted = "\\Users\\alice\\AppData\\Roaming\\org.sheafpdf.sheaf";
    assert_eq!(
        refusal_text(validate_app_data_dir(rooted, ID, PathStyle::Windows)),
        format!("refusing to delete local data: path is not absolute ({})", rooted)
    );
    assert!(validate_app_data_dir("C:Users\\alice\\org.sheafpdf.sheaf", ID, PathStyle::Windows)
        .is_err());
    assert!(validate_app_data_dir(&win(&["Users", "alice", "..", ID]), ID, PathStyle::Windows)
        .is_err());
}

#[test]
fn a_windows_path_is_one_component_on_unix() {
    let data = win(&["Users", "alice", "AppData", "Roaming", ID]);
    assert!(validate_app_data_dir(&data, ID, PathStyle::Unix).is_err());
}
