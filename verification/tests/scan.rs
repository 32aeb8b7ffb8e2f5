use tracker_backend::scan::{
    derive_fields, group_artist, has_module_ext, is_hidden_dir, is_junk, module_ext,
    module_ext_list, normalize_separators, CachedRow, Reconciler,
};

#[test]
fn group_artist_layouts() {
    assert_eq!(
        group_artist("Acme/Coder/song.mod"),
        ("Acme".into(), Some("Coder".into()))
    );
    assert_eq!(group_artist("Acme/song.mod"), ("Acme".into(), None));
    assert_eq!(
        group_artist("Acme/Coder/sub/song.mod"),
        ("Acme".into(), Some("Coder".into()))
    );
}

#[test]
fn ext_filtering() {
    assert_eq!(module_ext("song.mod").as_deref(), Some("mod"));
    assert_eq!(module_ext("SONG.XM").as_deref(), Some("xm"));
    assert_eq!(module_ext("readme.txt"), None);
    assert_eq!(module_ext("noext"), None);
}

#[test]
fn junk_is_skipped() {
    assert!(is_junk("._song.mod"));
    assert!(is_junk(".DS_Store"));
    assert!(!is_junk("song.mod"));
}

#[test]
fn junk_names_cover_volume_bookkeeping() {
    for name in [
        ".Trashes",
        ".Spotlight-V100",
        ".AppleDouble",
        ".fseventsd",
        ".DocumentRevisions-V100",
        ".TemporaryItems",
    ] {
        assert!(is_junk(name), "{name}");
    }
    assert!(!is_junk(".Trashes2"));
    assert!(!is_junk("_.song.mod"));
    assert!(!is_junk("."));
}

#[test]
fn group_artist_edge_layouts() {
    assert_eq!(group_artist("song.mod"), ("song.mod".into(), None));
    assert_eq!(group_artist(""), ("".into(), None));
    assert_eq!(group_artist("/a/b"), ("".into(), Some("a".into())));
    assert_eq!(group_artist("a//b"), ("a".into(), Some("".into())));
}

#[test]
fn module_ext_follows_path_extension_rules() {
    // A leading dot is not an extension separator.
    assert_eq!(module_ext(".mod"), None);
    // The last dot counts.
    assert_eq!(module_ext("a.b.it"), Some("it".to_string()));
    assert_eq!(module_ext("song.mod.txt"), None);
    // A trailing dot gives an empty extension.
    assert_eq!(module_ext("song."), None);
    // The file name is the last path component.
    assert_eq!(module_ext("dir.xm/song"), None);
    assert_eq!(module_ext("dir/song.S3M"), Some("s3m".to_string()));
    assert_eq!(module_ext("dir/song.mod/"), Some("mod".to_string()));
    assert_eq!(module_ext("dir/song.mod/."), Some("mod".to_string()));
    assert_eq!(module_ext("dir/.."), None);
    assert_eq!(module_ext(""), None);
    assert_eq!(module_ext("x.SymMod"), Some("symmod".to_string()));
    assert_eq!(module_ext("x.669"), Some("669".to_string()));
}

#[test]
fn has_module_ext_agrees_with_module_ext() {
    for name in ["a.mod", "a.txt", "b.MPTM", ".xm", "noext", "x.y.z.ult"] {
        assert_eq!(has_module_ext(name), module_ext(name).is_some(), "{name}");
    }
}

#[test]
fn module_ext_list_is_lowercase_and_complete() {
    let exts = module_ext_list();
    assert_eq!(exts.len(), 51);
    assert!(exts.contains(&"mod"));
    assert!(exts.contains(&"symmod"));
    for e in &exts {
        assert_eq!(e.to_lowercase(), *e);
    }
}

#[test]
fn derive_fields_of_paths() {
    assert_eq!(
        derive_fields("Acme/Coder/Song.MOD"),
        (
            "Acme".to_string(),
            Some("Coder".to_string()),
            "Song.MOD".to_string(),
            "mod".to_string()
        )
    );
    assert_eq!(
        derive_fields("Demo/intro.s3m"),
        ("Demo".to_string(), None, "intro.s3m".to_string(), "s3m".to_string())
    );
    assert_eq!(
        derive_fields("Demo/readme"),
        ("Demo".to_string(), None, "readme".to_string(), String::new())
    );
    assert_eq!(
        derive_fields("Demo/notes.TXT"),
        ("Demo".to_string(), None, "notes.TXT".to_string(), "txt".to_string())
    );
}

#[test]
fn hidden_dirs_below_root_are_skipped() {
    assert!(is_hidden_dir(1, true, ".git"));
    assert!(!is_hidden_dir(0, true, ".collection"));
    assert!(!is_hidden_dir(2, false, ".hidden.mod"));
    assert!(!is_hidden_dir(3, true, "visible"));
    assert!(!is_hidden_dir(1, true, ""));
}

#[test]
fn backslashes_become_slashes() {
    assert_eq!(normalize_separators("Acme\\Coder\\song.mod"), "Acme/Coder/song.mod");
    assert_eq!(normalize_separators("plain/path"), "plain/path");
    assert_eq!(normalize_separators(""), "");
}

fn row(path: &str, size: i64, mtime: i64, hash: &str) -> CachedRow {
    CachedRow {
        rel_path: path.to_string(),
        size,
        mtime,
        hash: hash.to_string(),
    }
}

/// The scanner's reconciliation over three scans of one tree: a first scan
/// hashes, an unchanged rescan reuses the hash, a deletion removes the row.
#[test]
fn reconciler_reuses_hashes_and_drops_stale() {
    // First scan: empty index.
    let mut scan = Reconciler::new(Vec::new());
    assert_eq!(scan.total(), 0);
    let file = scan.classify(true, "song.mod").expect("a module file");
    assert_eq!(file.name(), "song.mod");
    assert_eq!(file.ext(), "mod");
    assert!(scan.classify(true, "._song.mod").is_none());
    assert!(scan.classify(true, "readme.txt").is_none());
    assert!(scan.classify(false, "dir.mod").is_none());
    assert_eq!(scan.processed(), 1);
    assert_eq!(scan.cached_hash("Acme/Coder/song.mod", 7, 100), None);
    let r = scan.record("Acme/Coder/song.mod".into(), file, 7, 100, Some("h1".into()));
    assert_eq!(r.grp, "Acme");
    assert_eq!(r.artist.as_deref(), Some("Coder"));
    assert_eq!(r.filename, "song.mod");
    assert_eq!(r.ext, "mod");
    assert_eq!(r.content_hash, "h1");
    let (stale, res) = scan.finish();
    assert!(stale.is_empty());
    assert_eq!((res.indexed, res.hashed, res.removed), (1, 1, 0));

    // Second scan: unchanged file reuses its hash; denominator is 1.
    let mut scan = Reconciler::new(vec![row("Acme/Coder/song.mod", 7, 100, "h1")]);
    assert_eq!(scan.total(), 1);
    assert_eq!(
        scan.cached_hash("Acme/Coder/song.mod", 7, 100).as_deref(),
        Some("h1")
    );
    // A changed size or mtime needs a fresh hash.
    assert_eq!(scan.cached_hash("Acme/Coder/song.mod", 8, 100), None);
    assert_eq!(scan.cached_hash("Acme/Coder/song.mod", 7, 101), None);
    let file = scan.classify(true, "song.mod").unwrap();
    let r = scan.record("Acme/Coder/song.mod".into(), file, 7, 100, None);
    assert_eq!(r.content_hash, "h1");
    let (stale, res) = scan.finish();
    assert!(stale.is_empty());
    assert_eq!((res.indexed, res.hashed, res.removed), (1, 0, 0));

    // Third scan: the file is gone, its row is stale.
    let scan = Reconciler::new(vec![row("Acme/Coder/song.mod", 7, 100, "h1")]);
    let (stale, res) = scan.finish();
    assert_eq!(stale, vec!["Acme/Coder/song.mod".to_string()]);
    assert_eq!((res.indexed, res.hashed, res.removed), (0, 0, 1));
}

#[test]
fn reconciler_later_rows_replace_earlier_ones() {
    let mut scan = Reconciler::new(vec![
        row("a.mod", 1, 1, "old"),
        row("b.mod", 2, 2, "hb"),
        row("a.mod", 3, 3, "new"),
    ]);
    assert_eq!(scan.total(), 2);
    assert_eq!(scan.cached_hash("a.mod", 1, 1), None);
    assert_eq!(scan.cached_hash("a.mod", 3, 3).as_deref(), Some("new"));
    let file = scan.classify(true, "b.mod").unwrap();
    scan.record("b.mod".into(), file, 2, 2, None);
    let (stale, res) = scan.finish();
    assert_eq!(stale, vec!["a.mod".to_string()]);
    assert_eq!(res.removed, 1);
    assert_eq!(res.indexed, 1);
}

/// A file that is on disk but cannot be read keeps its row.
#[test]
fn unreadable_file_keeps_its_row() {
    let mut scan = Reconciler::new(vec![
        row("G/locked.xm", 5, 5, "hl"),
        row("G/gone.xm", 6, 6, "hg"),
    ]);
    assert!(scan.classify(true, "locked.xm").is_some());
    scan.retain("G/locked.xm");
    let (stale, res) = scan.finish();
    assert_eq!(stale, vec!["G/gone.xm".to_string()]);
    assert_eq!((res.indexed, res.hashed, res.removed), (0, 0, 1));
}

#[test]
fn recorded_row_takes_name_and_extension_from_the_entry() {
    let mut scan = Reconciler::new(Vec::new());
    let file = scan.classify(true, "Tune.IT").unwrap();
    let r = scan.record("Demo/Tune.IT".into(), file, 1, 2, Some("h".into()));
    assert_eq!(
        (r.grp.clone(), r.artist.clone(), r.filename.clone(), r.ext.clone()),
        derive_fields("Demo/Tune.IT")
    );
    assert_eq!((r.size, r.mtime), (1, 2));
}

/// A file whose size or mtime changed is read again: its fresh hash is
/// recorded and counted.
#[test]
fn changed_file_is_rehashed() {
    let mut scan = Reconciler::new(vec![row("G/a.xm", 5, 5, "old")]);
    assert_eq!(scan.cached_hash("G/a.xm", 6, 5), None);
    let file = scan.classify(true, "a.xm").unwrap();
    let r = scan.record("G/a.xm".into(), file, 6, 5, Some("new".into()));
    assert_eq!(r.content_hash, "new");
    assert_eq!((r.size, r.mtime), (6, 5));
    let (stale, res) = scan.finish();
    assert!(stale.is_empty());
    assert_eq!((res.indexed, res.hashed, res.removed), (1, 1, 0));
}

/// Rows under a directory the walk could not read are kept; rows elsewhere
/// that the walk did not meet are stale.
#[test]
fn unreadable_directory_keeps_its_rows() {
    let rows = vec![
        row("G/A/x.mod", 1, 1, "hx"),
        row("G/A/deep/y.mod", 2, 2, "hy"),
        row("G/Ab/z.mod", 3, 3, "hz"),
        row("H/w.mod", 4, 4, "hw"),
    ];
    let mut scan = Reconciler::new(rows.clone());
    scan.retain_under("G/A");
    let (mut stale, res) = scan.finish();
    stale.sort();
    assert_eq!(stale, vec!["G/Ab/z.mod".to_string(), "H/w.mod".to_string()]);
    assert_eq!((res.indexed, res.hashed, res.removed), (0, 0, 2));

    // A directory path that names a file keeps that file.
    let mut scan = Reconciler::new(rows.clone());
    scan.retain_under("H/w.mod");
    let (stale, res) = scan.finish();
    assert!(!stale.contains(&"H/w.mod".to_string()));
    assert_eq!(res.removed, 3);

    // The root itself unreadable: nothing is stale.
    let mut scan = Reconciler::new(rows);
    scan.retain_under("");
    let (stale, res) = scan.finish();
    assert!(stale.is_empty());
    assert_eq!(res.removed, 0);
}
