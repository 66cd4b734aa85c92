use sheaf::error::SheafError;
use sheaf::macos_uninstall::{
    app_bundle_root, bundle_ancestors, delete_local_data, is_development_checkout,
    is_running_from_disk_image, plan, status, uninstall, validate_app_data_dir, validate_bundle,
    BundleProbe, DeletionPlan, MacosHost, BUNDLE_IDENTIFIER,
};

fn installed_probe() -> BundleProbe {
    BundleProbe { manifest_beside: vec![], has_macos_dir: true }
}

fn engine_text<T: std::fmt::Debug>(r: Result<T, SheafError>) -> String {
    match r {
        Err(SheafError::Engine(m)) => m,
        other => panic!("expected an engine error, got {other:?}"),
    }
}

#[test]
fn detects_bundle_root_from_executable_path() {
    let exe = "/Applications/Sheaf.app/Contents/MacOS/sheaf";
    assert_eq!(app_bundle_root(exe), Some("/Applications/Sheaf.app".to_string()));
    let nested = "/Users/alice/Applications/My Sheaf.app/Contents/MacOS/sheaf";
    assert_eq!(
        app_bundle_root(nested),
        Some("/Users/alice/Applications/My Sheaf.app".to_string())
    );
}

#[test]
fn rejects_paths_that_are_not_bundle_layouts() {
    assert_eq!(app_bundle_root("/Users/alice/src/sheaf/src-tauri/target/debug/sheaf"), None);
    assert_eq!(app_bundle_root("/Applications/Sheaf.app/Contents/Resources/sheaf"), None);
    assert_eq!(app_bundle_root("/Applications/Sheaf/Contents/MacOS/sheaf"), None);
    assert_eq!(app_bundle_root("/.app/Contents/MacOS/sheaf"), None);
    assert_eq!(app_bundle_root("sheaf"), None);
}

#[test]
fn development_checkouts_are_recognised_by_target_dir_or_cargo_toml() {
    let built = "/tmp/sheaf-dev/src-tauri/target/release/bundle/macos/Sheaf.app";
    assert!(is_development_checkout(built, &[]));

    let beside = "/tmp/sheaf-cargo/dist/Sheaf.app";
    let ancestors = bundle_ancestors(beside);
    assert_eq!(ancestors, vec!["/tmp/sheaf-cargo/dist", "/tmp/sheaf-cargo", "/tmp", "/"]);
    let manifest: Vec<bool> = ancestors.iter().map(|a| a == "/tmp/sheaf-cargo").collect();
    assert!(is_development_checkout(beside, &manifest));

    let installed = "/tmp/sheaf-installed/Applications/Sheaf.app";
    assert!(!is_development_checkout(installed, &[false, false, false, false]));
}

#[test]
fn disk_image_and_translocated_launches_are_detected() {
    assert!(is_running_from_disk_image("/Volumes/Sheaf 0.2.3/Sheaf.app"));
    assert!(is_running_from_disk_image(
        "/private/var/folders/ab/T/AppTranslocation/9F2C/d/Sheaf.app"
    ));
    assert!(!is_running_from_disk_image("/Applications/Sheaf.app"));
    assert!(!is_running_from_disk_image("/Users/alice/Applications/Sheaf.app"));
}

#[test]
fn validate_bundle_refuses_dev_system_and_malformed_paths() {
    let good = "/tmp/validate/Applications/Sheaf.app";
    assert!(validate_bundle(good, &installed_probe()).is_ok());

    let dev = "/tmp/validate/target/release/bundle/macos/Sheaf.app";
    assert!(validate_bundle(dev, &installed_probe()).is_err());

    let no_contents = "/tmp/validate/Applications/Hollow.app";
    let hollow = BundleProbe { manifest_beside: vec![], has_macos_dir: false };
    assert_eq!(
        engine_text(validate_bundle(no_contents, &hollow)),
        "app bundle is missing Contents/MacOS"
    );

    assert_eq!(
        engine_text(validate_bundle("/System/Applications/Sheaf.app", &installed_probe())),
        "refusing to remove a system-owned bundle"
    );
    assert!(validate_bundle("/Volumes/Sheaf 0.2.3/Sheaf.app", &installed_probe()).is_err());
    assert!(validate_bundle(
        "/private/var/folders/ab/T/AppTranslocation/9F2C/d/Sheaf.app",
        &installed_probe()
    )
    .is_err());
    assert_eq!(
        engine_text(validate_bundle("/Applications/Sheaf", &installed_probe())),
        "path is not an .app bundle"
    );
    assert_eq!(
        engine_text(validate_bundle("relative/Sheaf.app", &installed_probe())),
        "app bundle path is not absolute"
    );
}

#[test]
fn app_data_dir_must_be_named_after_the_bundle_identifier() {
    assert!(
        validate_app_data_dir("/Users/alice/Library/Application Support/org.sheafpdf.sheaf")
            .is_ok()
    );
    assert!(validate_app_data_dir("/Users/alice").is_err());
    assert_eq!(
        engine_text(validate_app_data_dir("/Users/alice/Documents")),
        "refusing to delete a directory not named org.sheafpdf.sheaf"
    );
    assert!(validate_app_data_dir("/Users/alice/Library/Application Support").is_err());
    assert!(validate_app_data_dir("/org.sheafpdf.sheaf").is_err(), "too shallow");
    assert!(validate_app_data_dir("Library/org.sheafpdf.sheaf").is_err(), "relative");
}

#[test]
fn plan_keeps_data_by_default_and_only_includes_validated_paths() {
    let bundle = "/tmp/plan/Applications/Sheaf.app";
    let data = format!("/tmp/plan/Library/Application Support/{BUNDLE_IDENTIFIER}");
    let probe = installed_probe();

    let keep = plan(Some(bundle), true, Some(&data), false, &probe, true).unwrap();
    assert_eq!(
        keep,
        DeletionPlan { trash_bundle: Some(bundle.to_string()), delete_app_data: None }
    );

    let full = plan(Some(bundle), true, Some(&data), true, &probe, true).unwrap();
    assert_eq!(
        full,
        DeletionPlan {
            trash_bundle: Some(bundle.to_string()),
            delete_app_data: Some(data.clone())
        }
    );

    let data_only = plan(None, false, Some(&data), true, &probe, true).unwrap();
    assert_eq!(
        data_only,
        DeletionPlan { trash_bundle: None, delete_app_data: Some(data.clone()) }
    );

    // Missing data directory: nothing to delete, still a valid plan.
    let missing = format!("/tmp/plan/elsewhere/{BUNDLE_IDENTIFIER}");
    let none = plan(None, false, Some(&missing), true, &probe, false).unwrap();
    assert_eq!(none.delete_app_data, None);

    // No bundle when one is required, or an unsafe data dir, is an error.
    assert_eq!(
        engine_text(plan(None, true, Some(&data), false, &probe, true)),
        "Sheaf is not running from an .app bundle"
    );
    assert!(plan(Some(bundle), true, Some("/tmp/plan"), true, &probe, true).is_err());
    assert_eq!(
        engine_text(plan(Some(bundle), true, None, true, &probe, true)),
        "could not determine the app data directory"
    );
}

#[test]
fn status_reports_unsupported_off_macos_and_never_panics() {
    let s = status(None, None, false);
    assert!(!s.supported);
    if !s.supported {
        assert!(s.app_bundle_path.is_none());
        assert!(!s.can_move_to_trash);
    }
}

#[test]
fn status_on_macos_reports_the_running_bundle() {
    let host = MacosHost {
        exe: "/Applications/Sheaf.app/Contents/MacOS/sheaf".into(),
        probe: installed_probe(),
    };
    let data = format!("/Users/a/Library/Application Support/{BUNDLE_IDENTIFIER}");
    let s = status(Some(host), Some(data.clone()), true);
    assert!(s.supported);
    assert_eq!(s.app_bundle_path.as_deref(), Some("/Applications/Sheaf.app"));
    assert!(!s.is_dev_checkout);
    assert!(!s.is_running_from_disk_image);
    assert!(s.can_move_to_trash);
    assert_eq!(s.app_data_path, Some(data));

    let dmg = MacosHost {
        exe: "/Volumes/Sheaf 0.2.3/Sheaf.app/Contents/MacOS/sheaf".into(),
        probe: installed_probe(),
    };
    let s = status(Some(dmg), None, false);
    assert!(s.is_running_from_disk_image);
    assert!(!s.can_move_to_trash);
}

#[test]
fn uninstall_is_refused_off_macos_and_planned_on_macos() {
    assert_eq!(
        engine_text(uninstall(true, None, false, None)),
        "moving Sheaf to the Trash is only available on macOS"
    );
    let host = MacosHost {
        exe: "/Applications/Sheaf.app/Contents/MacOS/sheaf".into(),
        probe: installed_probe(),
    };
    let data = format!("/Users/a/Library/Application Support/{BUNDLE_IDENTIFIER}");
    let p = uninstall(true, Some(data.clone()), true, Some(host)).unwrap();
    assert_eq!(p.trash_bundle.as_deref(), Some("/Applications/Sheaf.app"));
    assert_eq!(p.delete_app_data, Some(data));
}

#[test]
fn delete_local_data_never_touches_the_bundle() {
    let data = format!("/Users/a/Library/Application Support/{BUNDLE_IDENTIFIER}");
    let p = delete_local_data(Some(data.clone()), true).unwrap();
    assert_eq!(p, DeletionPlan { trash_bundle: None, delete_app_data: Some(data) });
    assert!(delete_local_data(None, true).is_err());
    assert!(delete_local_data(Some("/Users/a".into()), true).is_err());
}
