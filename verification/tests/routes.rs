use tracker_backend::error::AppError;
use tracker_backend::routes::{
    asset_content_type, asset_path, check_inside_root, clean_segment, is_within, move_result, plan_rename,
    status_report, MoveOutcome, RenameRequest,
};

#[test]
fn clean_segment_rejects_unsafe() {
    assert_eq!(clean_segment("Acme").as_deref(), Some("Acme"));
    assert_eq!(clean_segment("  spaced  ").as_deref(), Some("spaced"));
    assert_eq!(clean_segment(""), None);
    assert_eq!(clean_segment("."), None);
    assert_eq!(clean_segment(".."), None);
    assert_eq!(clean_segment("a/b"), None);
    assert_eq!(clean_segment("a\\b"), None);
}

#[test]
fn clean_segment_edges() {
    assert_eq!(clean_segment("   "), None);
    assert_eq!(clean_segment(" .. "), None);
    assert_eq!(clean_segment("a\0b"), None);
    assert_eq!(clean_segment("...").as_deref(), Some("..."));
    assert_eq!(clean_segment("\t\n Acme \u{3000}").as_deref(), Some("Acme"));
    assert_eq!(clean_segment("a b").as_deref(), Some("a b"));
    // Cleaning a clean segment changes nothing.
    let once = clean_segment("  x y ").unwrap();
    assert_eq!(clean_segment(&once).as_deref(), Some(once.as_str()));
}

fn req(from: &str, group: &str, artist: Option<&str>, filename: &str) -> RenameRequest {
    RenameRequest {
        from: from.to_string(),
        group: group.to_string(),
        artist: artist.map(|a| a.to_string()),
        filename: filename.to_string(),
    }
}

fn bad(r: Result<tracker_backend::routes::RenamePlan, AppError>) -> String {
    match r {
        Err(AppError::BadRequest(m)) => m,
        other => panic!("expected a 400, got {:?}", other.map(|p| p.to)),
    }
}

#[test]
fn rename_plans_destination_and_fields() {
    let plan = plan_rename(&req(
        "Acme/Coder/song.mod",
        "Acme",
        Some("Coder"),
        "Proper Title.mod",
    ))
    .unwrap();
    assert_eq!(plan.to, "Acme/Coder/Proper Title.mod");
    assert_eq!(plan.from, "Acme/Coder/song.mod");
    assert_eq!(plan.group, "Acme");
    assert_eq!(plan.artist.as_deref(), Some("Coder"));
    assert_eq!(plan.filename, "Proper Title.mod");
    assert_eq!(plan.ext, "mod");

    let plan = plan_rename(&req("x.xm", " NewGroup ", Some("   "), " Tune.XM ")).unwrap();
    assert_eq!(plan.to, "NewGroup/Tune.XM");
    assert_eq!(plan.artist, None);
    assert_eq!(plan.ext, "xm");

    let plan = plan_rename(&req("x.xm", "G", None, "t.it")).unwrap();
    assert_eq!(plan.to, "G/t.it");
}

#[test]
fn rename_refuses_bad_names() {
    assert_eq!(
        bad(plan_rename(&req("Acme/Coder/song.mod", "Acme", Some("Coder"), "song"))),
        "filename must keep a recognised module extension"
    );
    assert_eq!(
        bad(plan_rename(&req("Acme/Coder/song.mod", "../../etc", Some("Coder"), "song.mod"))),
        "invalid group"
    );
    assert_eq!(
        bad(plan_rename(&req("Acme/Coder/song.mod", "Acme", Some(".."), "song.mod"))),
        "invalid artist"
    );
    assert_eq!(
        bad(plan_rename(&req("Acme/Coder/song.mod", "Acme", Some("Coder"), "a/b.mod"))),
        "invalid filename"
    );
    assert_eq!(
        bad(plan_rename(&req("Acme/Coder/song.mod", "Acme", Some("Coder"), "song.mod"))),
        "source and destination are the same"
    );
    // The group is checked before the filename.
    assert_eq!(bad(plan_rename(&req("a", "", None, ""))), "invalid group");
}

#[test]
fn rename_keeps_the_file_indexed() {
    assert_eq!(
        bad(plan_rename(&req("Acme/Coder/song.mod", ".hidden", Some("Coder"), "song.mod"))),
        "group must not be a hidden directory"
    );
    assert_eq!(
        bad(plan_rename(&req("Acme/Coder/song.mod", "Acme", Some(" .cache "), "song.mod"))),
        "artist must not be a hidden directory"
    );
    assert_eq!(
        bad(plan_rename(&req("Acme/Coder/song.mod", "Acme", Some("Coder"), "._song.mod"))),
        "filename would be skipped as junk"
    );
    // A file name starting with a dot is not junk, and is still indexed.
    let plan = plan_rename(&req("Acme/Coder/song.mod", "Acme", None, ".song.mod")).unwrap();
    assert_eq!(plan.to, "Acme/.song.mod");
    assert_eq!(plan.ext, "mod");
}

#[test]
fn asset_content_types() {
    assert_eq!(asset_content_type("/www/index.html"), "text/html");
    assert_eq!(asset_content_type("/www/_app/x.js"), "text/javascript");
    assert_eq!(asset_content_type("/www/LICENSE"), "application/octet-stream");
    assert_eq!(asset_content_type("/www/.hidden"), "application/octet-stream");
}

#[test]
fn within_compares_components() {
    assert!(is_within("/srv/mods/Acme/song.mod", "/srv/mods"));
    assert!(is_within("/srv/mods", "/srv/mods"));
    assert!(is_within("/srv/mods/", "/srv/mods"));
    assert!(!is_within("/srv/modsX/song.mod", "/srv/mods"));
    assert!(!is_within("/srv", "/srv/mods"));
    assert!(!is_within("srv/mods/a", "/srv/mods"));
    assert!(is_within("/srv//mods/./a", "/srv/mods"));
    assert!(is_within("/anything", "/"));
    assert!(is_within("a/b", ""));
    assert!(!is_within("a/b", "./a"));
}

#[test]
fn file_access_confined_to_root() {
    assert!(check_inside_root(Some("/r/a.mod"), Some("/r"), true).is_ok());
    assert_eq!(
        check_inside_root(Some("/etc/passwd"), Some("/r"), true),
        Err(AppError::NotFound)
    );
    assert_eq!(check_inside_root(Some("/r/dir"), Some("/r"), false), Err(AppError::NotFound));
    assert_eq!(check_inside_root(None, Some("/r"), true), Err(AppError::NotFound));
    assert_eq!(check_inside_root(Some("/r/a"), None, true), Err(AppError::NotFound));
}

#[test]
fn failed_moves_map_to_answers() {
    assert_eq!(move_result(MoveOutcome::Moved), Ok(()));
    assert_eq!(
        move_result(MoveOutcome::DestinationExists),
        Err(AppError::Conflict("destination already exists".into()))
    );
    assert_eq!(move_result(MoveOutcome::DestinationExists).unwrap_err().status_code(), 409);
    assert_eq!(move_result(MoveOutcome::SourceMissing), Err(AppError::NotFound));
    assert_eq!(
        move_result(MoveOutcome::Failed("disk full".into())),
        Err(AppError::Internal("disk full".into()))
    );
}

#[test]
fn status_while_scanning_skips_the_count() {
    let r = status_report(true, Some(5), "/r".into(), 10, 3, 1);
    assert!(r.db_healthy);
    assert_eq!(r.track_count, None);
    assert!(r.scanning);
    assert_eq!((r.scan_total, r.scan_processed, r.scan_hashed), (10, 3, 1));

    let r = status_report(false, Some(5), "/r".into(), 0, 0, 0);
    assert!(r.db_healthy);
    assert_eq!(r.track_count, Some(5));

    let r = status_report(false, None, "/r".into(), 0, 0, 0);
    assert!(!r.db_healthy);
    assert_eq!(r.root, "/r");
}

#[test]
fn asset_paths_drop_leading_slashes() {
    assert_eq!(asset_path("/"), "");
    assert_eq!(asset_path("/_app/x.js"), "_app/x.js");
    assert_eq!(asset_path("//a"), "a");
    assert_eq!(asset_path("a/"), "a/");
}

/// The checks that keep a renamed file indexed come after those of names,
/// extension and sameness: a request both of them refuse gets the earlier
/// answer.
#[test]
fn rename_refusals_come_in_order() {
    assert_eq!(
        bad(plan_rename(&req("Acme/song.mod", ".hidden", None, "readme.txt"))),
        "filename must keep a recognised module extension"
    );
    assert_eq!(
        bad(plan_rename(&req("Acme/song.mod", ".hidden", Some("a/b"), "song.mod"))),
        "invalid artist"
    );
    assert_eq!(
        bad(plan_rename(&req(".hidden/._x.mod", ".hidden", None, "._x.mod"))),
        "source and destination are the same"
    );
    assert_eq!(
        bad(plan_rename(&req("Acme/song.mod", ".hidden", Some(".dot"), "._x.mod"))),
        "group must not be a hidden directory"
    );
    assert_eq!(
        bad(plan_rename(&req("Acme/song.mod", "Acme", Some(".dot"), "._x.mod"))),
        "filename would be skipped as junk"
    );
}

/// Trimming removes exactly the Unicode white space characters.
#[test]
fn clean_segment_trims_unicode_white_space() {
    assert_eq!(clean_segment("\u{85}a\u{2028}\u{2029}").as_deref(), Some("a"));
    assert_eq!(clean_segment("\u{a0}\u{1680}a\u{200a}\u{202f}\u{205f}").as_deref(), Some("a"));
    assert_eq!(clean_segment("\u{200b}a").as_deref(), Some("\u{200b}a"));
    assert_eq!(clean_segment("a\u{feff}").as_deref(), Some("a\u{feff}"));
    assert_eq!(clean_segment("\u{b}\u{c}\ra").as_deref(), Some("a"));
}
