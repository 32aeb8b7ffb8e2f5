//! What the scanner reads off a path: the collection is laid out as
//! `group/artist/song.ext`, so the first path segment is the group and the
//! second (when a further segment follows) the artist. Also which file names
//! are module files and which are filesystem junk.

use vstd::prelude::*;

use vstd::hash_map::StringHashMap;
use vstd::hash_set::StringHashSet;
use vstd::utf8::is_ascii_chars;

use crate::text::{
    ascii_lower, chars_of, has_prefix, last_index_of, lowercase, piece_bounds, push_char,
    split_on, str_eq, starts_with, substring, to_lowercase,
};

verus! {

/// The module extensions libopenmpt can open, in lower case. Unknown
/// extensions are skipped by the scanner.
pub open spec fn module_exts() -> Seq<Seq<char>> {
    seq![
        "mod"@, "xm"@, "s3m"@, "it"@, "mptm"@, "stm"@, "nst"@, "m15"@, "stk"@, "wow"@, "ult"@,
        "669"@, "mtm"@, "med"@, "far"@, "amf"@, "ams"@, "dbm"@, "digi"@, "dmf"@, "dsm"@, "dtm"@,
        "fmt"@, "imf"@, "j2b"@, "mdl"@, "mo3"@, "mt2"@, "okt"@, "okta"@, "plm"@, "psm"@, "pt36"@,
        "ptm"@, "sfx"@, "sfx2"@, "st26"@, "stp"@, "umx"@, "gdm"@, "gmc"@, "ice"@, "itp"@, "med"@,
        "mms"@, "oct"@, "tcb"@, "ftm"@, "rtm"@, "c67"@, "symmod"@,
    ]
}

/// The module extensions, as strings (see `module_exts`).
pub fn module_ext_list() -> (res: Vec<&'static str>)
    ensures
        res@.map_values(|e: &str| e@) == module_exts(),
{
    let res = vec![
        "mod", "xm", "s3m", "it", "mptm", "stm", "nst", "m15", "stk", "wow", "ult", "669", "mtm",
        "med", "far", "amf", "ams", "dbm", "digi", "dmf", "dsm", "dtm", "fmt", "imf", "j2b", "mdl",
        "mo3", "mt2", "okt", "okta", "plm", "psm", "pt36", "ptm", "sfx", "sfx2", "st26", "stp", "umx",
        "gdm", "gmc", "ice", "itp", "med", "mms", "oct", "tcb", "ftm", "rtm", "c67", "symmod",
    ];
    assert(res@.map_values(|e: &str| e@) =~= module_exts());
    res
}

/// Group and artist of a relative path: the first segment, and the second
/// when at least one more segment follows it.
pub open spec fn spec_group_artist(rel: Seq<char>) -> (Seq<char>, Option<Seq<char>>) {
    let segs = split_on(rel, '/');
    (segs[0], if segs.len() >= 3 { Some(segs[1]) } else { None })
}

/// The last component of a path given as its `/`-separated pieces, as
/// `Path::file_name` finds it: empty and `.` pieces are not components.
pub open spec fn last_component(pieces: Seq<Seq<char>>) -> Option<Seq<char>>
    decreases pieces.len(),
{
    if pieces.len() == 0 {
        None
    } else if pieces.last().len() == 0 || pieces.last() == seq!['.'] {
        last_component(pieces.drop_last())
    } else {
        Some(pieces.last())
    }
}

/// `Path::file_name`: the last component, unless it is `..`.
pub open spec fn path_file_name(p: Seq<char>) -> Option<Seq<char>> {
    match last_component(split_on(p, '/')) {
        Some(c) => if c == seq!['.', '.'] {
            None
        } else {
            Some(c)
        },
        None => None,
    }
}

/// `Path::extension`: what follows the last `.` of the file name, unless that
/// `.` is the name's first character or there is none.
pub open spec fn path_extension(p: Seq<char>) -> Option<Seq<char>> {
    match path_file_name(p) {
        Some(f) => match last_index_of(f, '.') {
            Some(i) => if i == 0 {
                None
            } else {
                Some(f.skip(i + 1))
            },
            None => None,
        },
        None => None,
    }
}

/// The lower-cased extension of `name` when it is a module extension.
pub open spec fn spec_module_ext(name: Seq<char>) -> Option<Seq<char>> {
    match path_extension(name) {
        Some(e) => if module_exts().contains(lowercase(e)) {
            Some(lowercase(e))
        } else {
            None
        },
        None => None,
    }
}

/// The lower case of `p`'s extension is known where the extension is
/// ASCII: each upper-case letter becomes its lower-case letter.
pub open spec fn extension_case_known(p: Seq<char>) -> bool {
    match path_extension(p) {
        Some(e) => is_ascii_chars(e) ==> lowercase(e) == e.map_values(|c: char| ascii_lower(c)),
        None => true,
    }
}

/// Path-derived index fields of a relative path: group, artist, file name
/// (the last `/`-separated segment) and lower-cased extension (empty when
/// there is none).
pub open spec fn spec_derive_fields(rel: Seq<char>) -> (
    Seq<char>,
    Option<Seq<char>>,
    Seq<char>,
    Seq<char>,
) {
    let filename = split_on(rel, '/').last();
    (
        spec_group_artist(rel).0,
        spec_group_artist(rel).1,
        filename,
        match path_extension(filename) {
            Some(e) => lowercase(e),
            None => Seq::<char>::empty(),
        },
    )
}

/// Whether a name starts with `.` (a hidden directory when it names one).
pub open spec fn is_dot_name(name: Seq<char>) -> bool {
    name.len() > 0 && name[0] == '.'
}

/// Names of filesystem junk that the scanner never indexes.
pub open spec fn spec_is_junk(name: Seq<char>) -> bool {
    ||| name == ".DS_Store"@
    ||| has_prefix(name, "._"@)
    ||| name == ".Trashes"@
    ||| name == ".Spotlight-V100"@
    ||| name == ".AppleDouble"@
    ||| name == ".fseventsd"@
    ||| name == ".DocumentRevisions-V100"@
    ||| name == ".TemporaryItems"@
}

/// Law: the junk the scanner skips is exactly the AppleDouble companions
/// (names beginning `._`) and macOS volume bookkeeping: `.DS_Store`,
/// `.Trashes`, `.Spotlight-V100`, `.AppleDouble`, `.fseventsd`,
/// `.DocumentRevisions-V100` and `.TemporaryItems`. Every junk name begins
/// with `.`.
pub proof fn lemma_junk_names(name: Seq<char>)
    ensures
        spec_is_junk(name) <==> (name.len() >= 2 && name[0] == '.' && name[1] == '_') || set![
            ".DS_Store"@,
            ".Trashes"@,
            ".Spotlight-V100"@,
            ".AppleDouble"@,
            ".fseventsd"@,
            ".DocumentRevisions-V100"@,
            ".TemporaryItems"@,
        ].contains(name),
        spec_is_junk(name) ==> is_dot_name(name),
{
    reveal_strlit("._");
    reveal_strlit(".DS_Store");
    reveal_strlit(".Trashes");
    reveal_strlit(".Spotlight-V100");
    reveal_strlit(".AppleDouble");
    reveal_strlit(".fseventsd");
    reveal_strlit(".DocumentRevisions-V100");
    reveal_strlit(".TemporaryItems");
    if has_prefix(name, "._"@) {
        assert(name.take(2)[0] == name[0] && name.take(2)[1] == name[1]);
    }
    if name.len() >= 2 && name[0] == '.' && name[1] == '_' {
        assert(name.take(2) =~= "._"@);
    }
}

/// Split a relative path (forward-slash separated) into (group, artist).
/// `group/artist/song.ext` gives ("group", Some("artist")); `group/song.ext`
/// gives ("group", None). Deeper nesting keeps segment 0 and segment 1.
pub fn group_artist(rel: &str) -> (res: (String, Option<String>))
    ensures
        res.0@ == spec_group_artist(rel@).0,
        res.1.deep_view() == spec_group_artist(rel@).1,
{
    let chars = chars_of(rel);
    let bounds = piece_bounds(&chars, '/');
    let ghost segs = split_on(rel@, '/');
    assert(segs[0] == rel@.subrange(bounds@[0].0 as int, bounds@[0].1 as int));
    let group = substring(rel, bounds[0].0, bounds[0].1);
    if bounds.len() >= 3 {
        assert(segs[1] == rel@.subrange(bounds@[1].0 as int, bounds@[1].1 as int));
        let artist = substring(rel, bounds[1].0, bounds[1].1);
        (group, Some(artist))
    } else {
        (group, None)
    }
}

/// Index of the last `c` in `s[from..to]`, counted from `from`.
fn last_index_in(s: &Vec<char>, from: usize, to: usize, c: char) -> (res: Option<usize>)
    requires
        from <= to <= s@.len(),
    ensures
        match last_index_of(s@.subrange(from as int, to as int), c) {
            Some(i) => res == Some(i as usize) && 0 <= i < to - from,
            None => res is None,
        },
{
    let mut k: usize = to;
    while k > from
        invariant
            from <= k <= to <= s@.len(),
            last_index_of(s@.subrange(from as int, to as int), c) == last_index_of(
                s@.subrange(from as int, k as int),
                c,
            ),
        decreases k,
    {
        let ghost sub = s@.subrange(from as int, k as int);
        assert(sub.drop_last() =~= s@.subrange(from as int, k - 1));
        assert(sub.last() == s@[k - 1]);
        if s[k - 1] == c {
            return Some(k - 1 - from);
        }
        k = k - 1;
    }
    assert(s@.subrange(from as int, k as int).len() == 0);
    None
}

/// Bounds `(a, b)` within `s` of `Path::file_name(s)`, when there is one.
fn file_name_bounds(s: &Vec<char>) -> (res: Option<(usize, usize)>)
    ensures
        match path_file_name(s@) {
            Some(f) => res matches Some((a, b)) && a <= b <= s@.len() && f == s@.subrange(
                a as int,
                b as int,
            ),
            None => res is None,
        },
{
    let bounds = piece_bounds(s, '/');
    let ghost pieces = split_on(s@, '/');
    let mut j: usize = bounds.len();
    assert(pieces.take(j as int) =~= pieces);
    while j > 0
        invariant
            j <= bounds@.len() == pieces.len(),
            pieces == split_on(s@, '/'),
            last_component(pieces) == last_component(pieces.take(j as int)),
            forall|i: int|
                #![trigger bounds@[i]]
                0 <= i < bounds@.len() ==> {
                    &&& bounds@[i].0 <= bounds@[i].1 <= s@.len()
                    &&& pieces[i] == s@.subrange(bounds@[i].0 as int, bounds@[i].1 as int)
                },
        decreases j,
    {
        let (a, b) = bounds[j - 1];
        let ghost piece = pieces[j - 1];
        assert(pieces.take(j as int).drop_last() =~= pieces.take(j - 1));
        assert(pieces.take(j as int).last() == piece);
        let dot = a < b && b - a == 1 && s[a] == '.';
        assert(dot == (piece == seq!['.'])) by {
            if piece == seq!['.'] {
                assert(piece[0] == s@[a as int]);
            }
            if dot {
                assert(piece =~= seq!['.']);
            }
        }
        if a < b && !dot {
            let dots = b - a == 2 && s[a] == '.' && s[a + 1] == '.';
            assert(dots == (piece == seq!['.', '.'])) by {
                if piece == seq!['.', '.'] {
                    assert(piece[0] == s@[a as int]);
                    assert(piece[1] == s@[a + 1]);
                }
                if dots {
                    assert(piece =~= seq!['.', '.']);
                }
            }
            if dots {
                return None;
            }
            return Some((a, b));
        }
        j = j - 1;
    }
    None
}

/// The lower-cased extension of `name` when it is one of the module
/// extensions, as `Path::extension` reads the name.
pub fn module_ext(name: &str) -> (res: Option<String>)
    ensures
        res.deep_view() == spec_module_ext(name@),
        extension_case_known(name@),
{
    let chars = chars_of(name);
    let (a, b) = match file_name_bounds(&chars) {
        Some(bounds) => bounds,
        None => return None,
    };
    let ghost f = name@.subrange(a as int, b as int);
    let dot = match last_index_in(&chars, a, b, '.') {
        Some(i) => i,
        None => return None,
    };
    if dot == 0 {
        return None;
    }
    assert(f.skip(dot + 1) =~= name@.subrange(a + dot + 1, b as int));
    let ext = substring(name, a + dot + 1, b);
    assert(path_file_name(name@) == Some(f));
    assert(last_index_of(f, '.') == Some(dot as int));
    assert(path_extension(name@) == Some(ext@));
    let lower = to_lowercase(ext.as_str());
    assert(extension_case_known(name@));
    assert(spec_module_ext(name@) == if module_exts().contains(lower@) {
        Some(lower@)
    } else {
        None
    });
    let exts = module_ext_list();
    let mut i: usize = 0;
    while i < exts.len()
        invariant
            spec_module_ext(name@) == if module_exts().contains(lower@) {
                Some(lower@)
            } else {
                None
            },
            extension_case_known(name@),
            exts@.map_values(|e: &str| e@) == module_exts(),
            i <= exts@.len(),
            forall|k: int| 0 <= k < i ==> module_exts()[k] != lower@,
        decreases exts@.len() - i,
    {
        assert(module_exts()[i as int] == exts@[i as int]@);
        if str_eq(exts[i], lower.as_str()) {
            assert(module_exts().contains(lower@));
            return Some(lower);
        }
        i = i + 1;
    }
    assert(!module_exts().contains(lower@));
    None
}

/// Law: a name is a module file exactly when its extension, as
/// `Path::extension` reads it, lower-cased, is one that libopenmpt opens:
/// mod, xm, s3m, it, mptm, stm, nst, m15, stk, wow, ult, 669, mtm, med, far,
/// amf, ams, dbm, digi, dmf, dsm, dtm, fmt, imf, j2b, mdl, mo3, mt2, okt,
/// okta, plm, psm, pt36, ptm, sfx, sfx2, st26, stp, umx, gdm, gmc, ice, itp,
/// mms, oct, tcb, ftm, rtm, c67 or symmod; its module extension is then that
/// lower-cased extension.
pub proof fn lemma_module_ext_openmpt(name: Seq<char>)
    ensures
        spec_module_ext(name) == match path_extension(name) {
            Some(e) => if seq![
                "mod"@, "xm"@, "s3m"@, "it"@, "mptm"@, "stm"@, "nst"@, "m15"@, "stk"@, "wow"@,
                "ult"@, "669"@, "mtm"@, "med"@, "far"@, "amf"@, "ams"@, "dbm"@, "digi"@, "dmf"@,
                "dsm"@, "dtm"@, "fmt"@, "imf"@, "j2b"@, "mdl"@, "mo3"@, "mt2"@, "okt"@, "okta"@,
                "plm"@, "psm"@, "pt36"@, "ptm"@, "sfx"@, "sfx2"@, "st26"@, "stp"@, "umx"@, "gdm"@,
                "gmc"@, "ice"@, "itp"@, "mms"@, "oct"@, "tcb"@, "ftm"@, "rtm"@, "c67"@,
                "symmod"@,
            ].contains(lowercase(e)) {
                Some(lowercase(e))
            } else {
                None
            },
            None => None,
        },
{
    let listed = seq![
        "mod"@, "xm"@, "s3m"@, "it"@, "mptm"@, "stm"@, "nst"@, "m15"@, "stk"@, "wow"@, "ult"@,
        "669"@, "mtm"@, "med"@, "far"@, "amf"@, "ams"@, "dbm"@, "digi"@, "dmf"@, "dsm"@, "dtm"@,
        "fmt"@, "imf"@, "j2b"@, "mdl"@, "mo3"@, "mt2"@, "okt"@, "okta"@, "plm"@, "psm"@, "pt36"@,
        "ptm"@, "sfx"@, "sfx2"@, "st26"@, "stp"@, "umx"@, "gdm"@, "gmc"@, "ice"@, "itp"@,
        "mms"@, "oct"@, "tcb"@, "ftm"@, "rtm"@, "c67"@, "symmod"@,
    ];
    if let Some(e) = path_extension(name) {
        let l = lowercase(e);
        if module_exts().contains(l) {
            let i = choose|i: int| 0 <= i < module_exts().len() && module_exts()[i] == l;
            let j = if i < 43 { i } else if i == 43 { 13 } else { i - 1 };
            assert(listed[j] == l);
        }
        if listed.contains(l) {
            let j = choose|j: int| 0 <= j < listed.len() && listed[j] == l;
            let i = if j < 43 { j } else { j + 1 };
            assert(module_exts()[i] == l);
        }
    }
}

/// True if `name` ends in a recognised module extension (a renamed file must
/// stay a module the scanner indexes).
pub fn has_module_ext(name: &str) -> (res: bool)
    ensures
        res == spec_module_ext(name@) is Some,
{
    module_ext(name).is_some()
}

/// Derive (group, artist, filename, ext) from a forward-slash relative path.
pub fn derive_fields(rel: &str) -> (res: (String, Option<String>, String, String))
    ensures
        res.0@ == spec_derive_fields(rel@).0,
        res.1.deep_view() == spec_derive_fields(rel@).1,
        res.2@ == spec_derive_fields(rel@).2,
        res.3@ == spec_derive_fields(rel@).3,
        extension_case_known(spec_derive_fields(rel@).2),
{
    let (grp, artist) = group_artist(rel);
    let chars = chars_of(rel);
    let bounds = piece_bounds(&chars, '/');
    let last: usize = bounds.len() - 1;
    let filename = substring(rel, bounds[last].0, bounds[last].1);
    let fchars = chars_of(filename.as_str());
    let ext = match file_name_bounds(&fchars) {
        None => String::new(),
        Some((a, b)) => {
            let ghost f = filename@.subrange(a as int, b as int);
            match last_index_in(&fchars, a, b, '.') {
                None => String::new(),
                Some(dot) => if dot == 0 {
                    String::new()
                } else {
                    assert(f.skip(dot + 1) =~= filename@.subrange(a + dot + 1, b as int));
                    let e = substring(filename.as_str(), a + dot + 1, b);
                    assert(path_file_name(filename@) == Some(f));
                    assert(path_extension(filename@) == Some(e@));
                    to_lowercase(e.as_str())
                },
            }
        },
    };
    (grp, artist, filename, ext)
}

/// True for the names of filesystem junk: `.DS_Store`, AppleDouble `._*`
/// files and the macOS volume bookkeeping directories.
pub fn is_junk(name: &str) -> (res: bool)
    ensures
        res == spec_is_junk(name@),
{
    str_eq(name, ".DS_Store") || starts_with(name, "._") || str_eq(name, ".Trashes") || str_eq(
        name,
        ".Spotlight-V100",
    ) || str_eq(name, ".AppleDouble") || str_eq(name, ".fseventsd") || str_eq(
        name,
        ".DocumentRevisions-V100",
    ) || str_eq(name, ".TemporaryItems")
}

/// True for a hidden directory below the walk's root, which the scanner does
/// not descend into: `depth` is the entry's depth under the root.
pub fn is_hidden_dir(depth: usize, is_dir: bool, name: &str) -> (res: bool)
    ensures
        res == (depth > 0 && is_dir && is_dot_name(name@)),
{
    if depth == 0 || !is_dir {
        return false;
    }
    let chars = chars_of(name);
    chars.len() > 0 && chars[0] == '.'
}

/// A relative path with `\` separators written as `/`, as stored in the index.
pub fn normalize_separators(rel: &str) -> (res: String)
    ensures
        res@ == rel@.map_values(|c: char| if c == '\\' { '/' } else { c }),
{
    let chars = chars_of(rel);
    let mut out = String::new();
    let mut i: usize = 0;
    while i < chars.len()
        invariant
            chars@ == rel@,
            i <= chars@.len(),
            out@ == rel@.take(i as int).map_values(|c: char| if c == '\\' { '/' } else { c }),
        decreases chars@.len() - i,
    {
        let c = chars[i];
        if c == '\\' {
            push_char(&mut out, '/');
        } else {
            push_char(&mut out, c);
        }
        assert(rel@.take(i + 1) =~= rel@.take(i as int).push(c));
        i = i + 1;
    }
    assert(rel@.take(chars@.len() as int) =~= rel@);
    out
}

/// Counts of one scan.
#[derive(Debug, Default, Clone, Copy, PartialEq, Eq)]
pub struct ScanResult {
    /// Module files present on disk after the scan.
    pub indexed: usize,
    /// Files whose bytes were (re)hashed this scan (new or changed).
    pub hashed: usize,
    /// Stale rows removed (files that disappeared from disk).
    pub removed: usize,
}

/// One row of the existing index, as the scan reads it back: path, size,
/// modification time and content hash.
#[derive(Debug, Clone)]
pub struct CachedRow {
    pub rel_path: String,
    pub size: i64,
    pub mtime: i64,
    pub hash: String,
}

/// What the index remembers of a path: size, modification time and hash.
#[derive(Debug, Clone)]
pub struct CachedFile {
    pub size: i64,
    pub mtime: i64,
    pub hash: String,
}

/// A row to upsert into the `files` table.
#[derive(Debug, Clone)]
pub struct FileRow {
    pub rel_path: String,
    pub grp: String,
    pub artist: Option<String>,
    pub filename: String,
    pub ext: String,
    pub size: i64,
    pub mtime: i64,
    pub content_hash: String,
}

/// The index before a scan, as a map from path to what it remembers: rows
/// read later replace earlier rows with the same path.
pub open spec fn rows_map(rows: Seq<CachedRow>) -> Map<Seq<char>, (i64, i64, Seq<char>)>
    decreases rows.len(),
{
    if rows.len() == 0 {
        Map::empty()
    } else {
        let r = rows.last();
        rows_map(rows.drop_last()).insert(r.rel_path@, (r.size, r.mtime, r.hash@))
    }
}

/// Law: the index before a scan remembers, for each path, the last row read
/// for it; so a file left unchanged since it was last recorded is found with
/// its size, modification time and hash, and is not read again.
pub proof fn lemma_rows_map_last_wins(rows: Seq<CachedRow>, i: int)
    requires
        0 <= i < rows.len(),
        forall|j: int| i < j < rows.len() ==> rows[j].rel_path@ != rows[i].rel_path@,
    ensures
        rows_map(rows).contains_key(rows[i].rel_path@),
        rows_map(rows)[rows[i].rel_path@] == (rows[i].size, rows[i].mtime, rows[i].hash@),
    decreases rows.len(),
{
    if i < rows.len() - 1 {
        let d = rows.drop_last();
        assert forall|j: int| i < j < d.len() implies d[j].rel_path@ != d[i].rel_path@ by {
            assert(d[j] == rows[j]);
        }
        lemma_rows_map_last_wins(d, i);
        assert(d[i] == rows[i]);
        assert(rows.last() == rows[rows.len() - 1]);
    }
}

/// Law: the index before a scan holds exactly the paths of the rows read.
pub proof fn lemma_rows_map_paths(rows: Seq<CachedRow>, k: Seq<char>)
    ensures
        rows_map(rows).contains_key(k) <==> exists|j: int|
            0 <= j < rows.len() && #[trigger] rows[j].rel_path@ == k,
    decreases rows.len(),
{
    if rows.len() > 0 {
        let d = rows.drop_last();
        lemma_rows_map_paths(d, k);
        if exists|j: int| 0 <= j < d.len() && #[trigger] d[j].rel_path@ == k {
            let j = choose|j: int| 0 <= j < d.len() && #[trigger] d[j].rel_path@ == k;
            assert(rows[j] == d[j]);
        }
        if exists|j: int| 0 <= j < rows.len() && #[trigger] rows[j].rel_path@ == k {
            let j = choose|j: int| 0 <= j < rows.len() && #[trigger] rows[j].rel_path@ == k;
            if j < d.len() {
                assert(d[j] == rows[j]);
            } else {
                assert(rows.last() == rows[j]);
            }
        }
    }
}

/// What a cache map remembers of each path: size, mtime and hash.
pub open spec fn cache_view(m: Map<Seq<char>, CachedFile>) -> Map<Seq<char>, (i64, i64, Seq<char>)> {
    Map::new(|k: Seq<char>| m.contains_key(k), |k: Seq<char>| (m[k].size, m[k].mtime, m[k].hash@))
}

/// Whether some string of `v` holds the characters `k`.
pub open spec fn lists(v: Seq<String>, k: Seq<char>) -> bool {
    exists|i: int| 0 <= i < v.len() && #[trigger] v[i]@ == k
}

proof fn lemma_lists_push(v: Seq<String>, x: String, k: Seq<char>)
    ensures
        lists(v.push(x), k) <==> (lists(v, k) || x@ == k),
{
    if lists(v.push(x), k) {
        let i = choose|i: int| 0 <= i < v.push(x).len() && #[trigger] v.push(x)[i]@ == k;
        if i < v.len() {
            assert(v[i] == v.push(x)[i]);
        }
    }
    if lists(v, k) {
        let i = choose|i: int| 0 <= i < v.len() && #[trigger] v[i]@ == k;
        assert(v.push(x)[i] == v[i]);
    }
    if x@ == k {
        assert(v.push(x)[v.len() as int] == x);
    }
}

/// Whether the index `cache` holds `path` with this size and modification
/// time, so that its cached hash is reused.
pub open spec fn reuses(
    cache: Map<Seq<char>, (i64, i64, Seq<char>)>,
    path: Seq<char>,
    size: i64,
    mtime: i64,
) -> bool {
    cache.contains_key(path) && cache[path].0 == size && cache[path].1 == mtime
}

/// The hash a scan records for a file the walk finds (path, size, mtime,
/// hash of its bytes): the cached one when `reuses` holds (the file is not
/// read), else the hash of its bytes.
pub open spec fn recorded_hash(
    cache: Map<Seq<char>, (i64, i64, Seq<char>)>,
    f: (Seq<char>, i64, i64, Seq<char>),
) -> Seq<char> {
    if reuses(cache, f.0, f.1, f.2) {
        cache[f.0].2
    } else {
        f.3
    }
}

/// The rows a scan over the index `cache` writes when its walk finds the
/// module files `files`, in order, as `Reconciler::cached_hash` and
/// `Reconciler::record` build them: path to (size, mtime, recorded hash).
/// Rows of cached paths the walk does not find are stale and deleted, so
/// this is the whole index after the scan.
pub open spec fn scan_index(
    cache: Map<Seq<char>, (i64, i64, Seq<char>)>,
    files: Seq<(Seq<char>, i64, i64, Seq<char>)>,
) -> Map<Seq<char>, (i64, i64, Seq<char>)>
    decreases files.len(),
{
    if files.len() == 0 {
        Map::empty()
    } else {
        let f = files.last();
        scan_index(cache, files.drop_last()).insert(f.0, (f.1, f.2, recorded_hash(cache, f)))
    }
}

/// No two files found by a walk share a path.
pub open spec fn distinct_paths(files: Seq<(Seq<char>, i64, i64, Seq<char>)>) -> bool {
    forall|i: int, j: int| 0 <= i < j < files.len() ==> files[i].0 != files[j].0
}

proof fn lemma_scan_index_entries(
    cache: Map<Seq<char>, (i64, i64, Seq<char>)>,
    files: Seq<(Seq<char>, i64, i64, Seq<char>)>,
)
    requires
        distinct_paths(files),
    ensures
        scan_index(cache, files).dom().finite(),
        scan_index(cache, files).len() == files.len(),
        forall|p: Seq<char>|
            #![trigger scan_index(cache, files).contains_key(p)]
            scan_index(cache, files).contains_key(p) <==> exists|i: int|
                0 <= i < files.len() && #[trigger] files[i].0 == p,
        forall|i: int|
            0 <= i < files.len() ==> #[trigger] scan_index(cache, files)[files[i].0] == (
                files[i].1,
                files[i].2,
                recorded_hash(cache, files[i]),
            ),
    decreases files.len(),
{
    if files.len() > 0 {
        let d = files.drop_last();
        let f = files.last();
        assert(distinct_paths(d)) by {
            assert forall|i: int, j: int| 0 <= i < j < d.len() implies d[i].0 != d[j].0 by {
                assert(d[i] == files[i] && d[j] == files[j]);
            }
        }
        lemma_scan_index_entries(cache, d);
        let m = scan_index(cache, d);
        assert(!m.contains_key(f.0)) by {
            if m.contains_key(f.0) {
                let i = choose|i: int| 0 <= i < d.len() && #[trigger] d[i].0 == f.0;
                assert(files[i].0 == files[files.len() - 1].0);
            }
        }
        assert(scan_index(cache, files) == m.insert(f.0, (f.1, f.2, recorded_hash(cache, f))));
        assert forall|p: Seq<char>|
            #![trigger scan_index(cache, files).contains_key(p)]
            scan_index(cache, files).contains_key(p) <==> exists|i: int|
                0 <= i < files.len() && #[trigger] files[i].0 == p by {
            if exists|i: int| 0 <= i < files.len() && #[trigger] files[i].0 == p {
                let i = choose|i: int| 0 <= i < files.len() && #[trigger] files[i].0 == p;
                if i < d.len() {
                    assert(d[i] == files[i]);
                }
            }
            if m.contains_key(p) {
                let i = choose|i: int| 0 <= i < d.len() && #[trigger] d[i].0 == p;
                assert(files[i] == d[i]);
            }
            if p == f.0 {
                assert(files[files.len() - 1].0 == p);
            }
        }
        assert forall|i: int| 0 <= i < files.len() implies #[trigger] scan_index(cache, files)[
            files[i].0] == (files[i].1, files[i].2, recorded_hash(cache, files[i])) by {
            if i < d.len() {
                assert(d[i] == files[i]);
                assert(files[i].0 != f.0);
            }
        }
        assert(m.dom().insert(f.0) =~= scan_index(cache, files).dom());
    }
}

/// Law: rescanning an unchanged collection changes nothing. After a scan
/// over any index `cache` finds the module files `files`, giving the index
/// `t1`, a second scan that finds the same files with the same sizes and
/// modification times reuses every hash (hashes nothing), leaves no row
/// stale (removes nothing), writes back exactly `t1`, and its progress
/// denominator (`t1`'s size) is the number of files indexed.
pub proof fn lemma_rescan_idempotent(
    cache: Map<Seq<char>, (i64, i64, Seq<char>)>,
    files: Seq<(Seq<char>, i64, i64, Seq<char>)>,
)
    requires
        distinct_paths(files),
    ensures
        ({
            let t1 = scan_index(cache, files);
            &&& forall|i: int|
                0 <= i < files.len() ==> reuses(t1, #[trigger] files[i].0, files[i].1, files[i].2)
            &&& forall|p: Seq<char>|
                #![trigger t1.contains_key(p)]
                t1.contains_key(p) ==> exists|i: int| 0 <= i < files.len() && #[trigger] files[i].0 == p
            &&& scan_index(t1, files) == t1
            &&& t1.len() == files.len()
        }),
{
    let t1 = scan_index(cache, files);
    lemma_scan_index_entries(cache, files);
    lemma_scan_index_entries(t1, files);
    let t2 = scan_index(t1, files);
    assert forall|i: int| 0 <= i < files.len() implies reuses(
        t1,
        #[trigger] files[i].0,
        files[i].1,
        files[i].2,
    ) by {
        assert(t1[files[i].0] == (files[i].1, files[i].2, recorded_hash(cache, files[i])));
        assert(t1.contains_key(files[i].0));
    }
    assert forall|p: Seq<char>| #[trigger] t2.contains_key(p) <==> t1.contains_key(p) by {}
    assert forall|p: Seq<char>| t2.contains_key(p) implies #[trigger] t2[p] == t1[p] by {
        let i = choose|i: int| 0 <= i < files.len() && #[trigger] files[i].0 == p;
        assert(t2[files[i].0] == (files[i].1, files[i].2, recorded_hash(t1, files[i])));
        assert(t1[files[i].0] == (files[i].1, files[i].2, recorded_hash(cache, files[i])));
        assert(t1.contains_key(files[i].0));
    }
    assert(t2 =~= t1);
}

/// How many of the files a walk finds (path, size, mtime, hash of its bytes)
/// a scan over the index `cache` reads and hashes: those whose size or
/// modification time the index does not hold.
pub open spec fn fresh_count(
    cache: Map<Seq<char>, (i64, i64, Seq<char>)>,
    files: Seq<(Seq<char>, i64, i64, Seq<char>)>,
) -> nat
    decreases files.len(),
{
    if files.len() == 0 {
        0
    } else {
        let f = files.last();
        fresh_count(cache, files.drop_last()) + if reuses(cache, f.0, f.1, f.2) {
            0nat
        } else {
            1nat
        }
    }
}

proof fn lemma_fresh_count_bounds(
    cache: Map<Seq<char>, (i64, i64, Seq<char>)>,
    files: Seq<(Seq<char>, i64, i64, Seq<char>)>,
)
    ensures
        fresh_count(cache, files) <= files.len(),
        (forall|i: int|
            0 <= i < files.len() ==> reuses(cache, #[trigger] files[i].0, files[i].1, files[i].2))
            ==> fresh_count(cache, files) == 0,
    decreases files.len(),
{
    if files.len() > 0 {
        let d = files.drop_last();
        lemma_fresh_count_bounds(cache, d);
        if forall|i: int|
            0 <= i < files.len() ==> reuses(cache, #[trigger] files[i].0, files[i].1, files[i].2) {
            assert forall|i: int| 0 <= i < d.len() implies reuses(
                cache,
                #[trigger] d[i].0,
                d[i].1,
                d[i].2,
            ) by {
                assert(d[i] == files[i]);
                assert(reuses(cache, files[i].0, files[i].1, files[i].2));
            }
            let l = files.len() - 1;
            assert(files.last() == files[l]);
            assert(reuses(cache, files[l].0, files[l].1, files[l].2));
        }
    }
}

/// Two walks find the same files: the same paths, sizes and modification
/// times, in the same order (the bytes they hash may differ).
pub open spec fn same_files(
    a: Seq<(Seq<char>, i64, i64, Seq<char>)>,
    b: Seq<(Seq<char>, i64, i64, Seq<char>)>,
) -> bool {
    &&& a.len() == b.len()
    &&& forall|i: int|
        0 <= i < a.len() ==> #[trigger] a[i].0 == b[i].0 && a[i].1 == b[i].1 && a[i].2 == b[i].2
}

/// The row invariant of the `files` table: a row's group, artist, file name
/// and extension (`fields`) are those `derive_fields` reads off its path,
/// and the extension is the file name's module extension.
pub open spec fn row_fields_ok(
    path: Seq<char>,
    fields: (Seq<char>, Option<Seq<char>>, Seq<char>, Seq<char>),
) -> bool {
    &&& fields == spec_derive_fields(path)
    &&& Some(fields.3) == spec_module_ext(fields.2)
}

/// What a scan writes in the row of `path`: group and artist read off the
/// path; a file name that is no junk, with its module extension; and, when
/// that name is the path's last segment, exactly the fields `derive_fields`
/// reads off the path.
pub open spec fn row_written(
    path: Seq<char>,
    fields: (Seq<char>, Option<Seq<char>>, Seq<char>, Seq<char>),
) -> bool {
    &&& fields.0 == spec_group_artist(path).0
    &&& fields.1 == spec_group_artist(path).1
    &&& Some(fields.3) == spec_module_ext(fields.2)
    &&& !spec_is_junk(fields.2)
    &&& fields.2 == split_on(path, '/').last() ==> fields == spec_derive_fields(path)
}

/// Whether `path` lies in the directory `dir`, both relative to the
/// collection root: it is `dir` or below it. Every path lies in the root,
/// the empty `dir`.
pub open spec fn is_under(path: Seq<char>, dir: Seq<char>) -> bool {
    dir.len() == 0 || path == dir || has_prefix(path, dir + seq!['/'])
}

/// A walk entry the scan takes: a regular file, not junk, whose name has a
/// module extension. Only `Reconciler::classify` makes one.
pub struct ModuleFile {
    name: String,
    ext: String,
}

impl ModuleFile {
    /// The file's name.
    pub closed spec fn spec_name(&self) -> Seq<char> {
        self.name@
    }

    /// The file's lower-cased module extension.
    pub closed spec fn spec_ext(&self) -> Seq<char> {
        self.ext@
    }

    #[verifier::type_invariant]
    spec fn inv(&self) -> bool {
        &&& !spec_is_junk(self.name@)
        &&& spec_module_ext(self.name@) == Some(self.ext@)
    }

    /// The file's name.
    pub fn name(&self) -> (res: &str)
        ensures
            res@ == self.spec_name(),
    {
        self.name.as_str()
    }

    /// The file's lower-cased module extension.
    pub fn ext(&self) -> (res: &str)
        ensures
            res@ == self.spec_ext(),
            Some(res@) == spec_module_ext(self.spec_name()),
    {
        proof {
            use_type_invariant(self);
        }
        self.ext.as_str()
    }
}

/// A scan in progress: reconciles the existing index with what the walk
/// finds. It decides which entries are module files, which cached hashes can
/// be reused (size and modification time unchanged), what row each file gets,
/// and which rows are stale afterwards; the caller walks, stats, hashes and
/// writes.
pub struct Reconciler {
    cache: StringHashMap<CachedFile>,
    cached_paths: Vec<String>,
    met: StringHashSet,
    walked: Ghost<Seq<(Seq<char>, i64, i64, Seq<char>)>>,
    written: Ghost<Map<Seq<char>, (Seq<char>, Option<Seq<char>>, Seq<char>, Seq<char>)>>,
    indexed: usize,
    hashed: usize,
    processed: usize,
}

impl Reconciler {
    /// The index before the scan: path to (size, mtime, hash).
    pub closed spec fn cached(&self) -> Map<Seq<char>, (i64, i64, Seq<char>)> {
        cache_view(self.cache@)
    }

    /// The paths met so far in this scan: indexed, or kept because the file
    /// is there but could not be read, or lies in a directory the walk could
    /// not read.
    pub closed spec fn met(&self) -> Set<Seq<char>> {
        self.met@
    }

    /// The module files indexed so far, in walk order: path, size, mtime and
    /// the hash recorded for it.
    pub closed spec fn walked(&self) -> Seq<(Seq<char>, i64, i64, Seq<char>)> {
        self.walked@
    }

    /// The index fields (group, artist, file name, extension) of the rows
    /// written so far, by path.
    pub closed spec fn written(&self) -> Map<
        Seq<char>,
        (Seq<char>, Option<Seq<char>>, Seq<char>, Seq<char>),
    > {
        self.written@
    }

    /// The rows indexed so far in this scan: path to (size, mtime, hash).
    pub open spec fn recorded(&self) -> Map<Seq<char>, (i64, i64, Seq<char>)> {
        scan_index(self.cached(), self.walked())
    }

    /// The index once the scan's writes are done: the rows of paths met and
    /// not re-indexed stay, every indexed row is written, stale rows go.
    pub open spec fn index_after_scan(&self) -> Map<Seq<char>, (i64, i64, Seq<char>)> {
        self.cached().restrict(self.met()).union_prefer_right(self.recorded())
    }

    /// Module files indexed so far.
    pub closed spec fn spec_indexed(&self) -> usize {
        self.indexed
    }

    /// Files hashed so far (new or changed).
    pub closed spec fn spec_hashed(&self) -> usize {
        self.hashed
    }

    /// Module files met so far by the walk.
    pub closed spec fn spec_processed(&self) -> usize {
        self.processed
    }

    /// Well-formedness: the cache and its list of paths agree, every row
    /// written is one `row_written` describes, and the counts are those of
    /// the files indexed.
    pub closed spec fn wf(&self) -> bool {
        &&& self.cache@.dom().finite()
        &&& forall|i: int, j: int|
            0 <= i < j < self.cached_paths@.len() ==> self.cached_paths@[i]@
                != self.cached_paths@[j]@
        &&& forall|k: Seq<char>|
            #![trigger self.cache@.contains_key(k)]
            #![trigger lists(self.cached_paths@, k)]
            self.cache@.contains_key(k) <==> lists(self.cached_paths@, k)
        &&& self.written@.dom() == scan_index(cache_view(self.cache@), self.walked@).dom()
        &&& forall|k: Seq<char>|
            #[trigger] self.written@.contains_key(k) ==> row_written(k, self.written@[k])
        &&& self.indexed == self.walked@.len()
        &&& self.hashed == fresh_count(cache_view(self.cache@), self.walked@)
        &&& self.hashed <= self.indexed
    }

    /// Begin a scan over the existing index `rows`.
    pub fn new(rows: Vec<CachedRow>) -> (res: Self)
        ensures
            res.wf(),
            res.cached() == rows_map(rows@),
            res.met() == Set::<Seq<char>>::empty(),
            res.walked() == Seq::<(Seq<char>, i64, i64, Seq<char>)>::empty(),
            res.written() == Map::<
                Seq<char>,
                (Seq<char>, Option<Seq<char>>, Seq<char>, Seq<char>),
            >::empty(),
            res.recorded() == Map::<Seq<char>, (i64, i64, Seq<char>)>::empty(),
            res.spec_indexed() == 0,
            res.spec_hashed() == 0,
            res.spec_processed() == 0,
    {
        let mut cache: StringHashMap<CachedFile> = StringHashMap::new();
        let mut cached_paths: Vec<String> = Vec::new();
        let mut i: usize = 0;
        while i < rows.len()
            invariant
                i <= rows@.len(),
                cache@.dom().finite(),
                rows_map(rows@.take(i as int)) == cache_view(cache@),
                forall|a: int, b: int|
                    0 <= a < b < cached_paths@.len() ==> cached_paths@[a]@ != cached_paths@[b]@,
                forall|k: Seq<char>|
                    #![trigger cache@.contains_key(k)]
                    #![trigger lists(cached_paths@, k)]
                    cache@.contains_key(k) <==> lists(cached_paths@, k),
            decreases rows@.len() - i,
        {
            let row = &rows[i];
            let ghost before = rows@.take(i as int);
            assert(rows@.take(i + 1).drop_last() =~= before);
            assert(rows@.take(i + 1).last() == rows@[i as int]);
            let ghost prev_cache = cache@;
            if !cache.contains_key(row.rel_path.as_str()) {
                let ghost old_paths = cached_paths@;
                let key = row.rel_path.clone();
                cached_paths.push(key);
                assert(cached_paths@ =~= old_paths.push(key));
                assert forall|a: int, b: int|
                    0 <= a < b < cached_paths@.len() implies cached_paths@[a]@
                        != cached_paths@[b]@ by {
                    if b == old_paths.len() {
                        assert(lists(old_paths, old_paths[a]@));
                    }
                }
                assert forall|k: Seq<char>|
                    #![trigger lists(cached_paths@, k)]
                    lists(cached_paths@, k) <==> (lists(old_paths, k) || k == row.rel_path@) by {
                    lemma_lists_push(old_paths, key, k);
                }
            }
            let entry = CachedFile { size: row.size, mtime: row.mtime, hash: row.hash.clone() };
            cache.insert(row.rel_path.clone(), entry);
            assert(rows_map(rows@.take(i + 1)) == rows_map(before).insert(
                row.rel_path@,
                (row.size, row.mtime, row.hash@),
            ));
            assert(cache_view(cache@) =~= cache_view(prev_cache).insert(
                row.rel_path@,
                (row.size, row.mtime, row.hash@),
            ));
            i = i + 1;
        }
        assert(rows@.take(rows@.len() as int) =~= rows@);
        let res = Reconciler {
            cache,
            cached_paths,
            met: StringHashSet::new(),
            walked: Ghost(Seq::empty()),
            written: Ghost(Map::empty()),
            indexed: 0,
            hashed: 0,
            processed: 0,
        };
        assert(res.cached() =~= rows_map(rows@));
        assert(res.written@.dom() =~= scan_index(cache_view(res.cache@), res.walked@).dom());
        res
    }

    /// Rows in the index before the scan: the progress bar's denominator.
    pub fn total(&self) -> (res: usize)
        ensures
            res == self.cached().len(),
    {
        assert(self.cached().dom() =~= self.cache@.dom());
        self.cache.len()
    }

    /// Module files indexed so far.
    pub fn indexed(&self) -> (res: usize)
        ensures
            res == self.spec_indexed(),
    {
        self.indexed
    }

    /// Files hashed so far.
    pub fn hashed(&self) -> (res: usize)
        ensures
            res == self.spec_hashed(),
    {
        self.hashed
    }

    /// Module files met so far.
    pub fn processed(&self) -> (res: usize)
        ensures
            res == self.spec_processed(),
    {
        self.processed
    }

    /// Consider one walk entry: when it is a regular file, not junk, whose
    /// name has a module extension, returns it as a module file and counts it
    /// as met; otherwise the entry is skipped and nothing changes.
    pub fn classify(&mut self, is_file: bool, name: &str) -> (res: Option<ModuleFile>)
        requires
            old(self).wf(),
            old(self).spec_processed() < usize::MAX,
        ensures
            final(self).wf(),
            res is Some <==> (is_file && !spec_is_junk(name@) && spec_module_ext(name@) is Some),
            res matches Some(m) ==> m.spec_name() == name@ && Some(m.spec_ext())
                == spec_module_ext(name@),
            final(self).spec_processed() == old(self).spec_processed() + if res is Some {
                1int
            } else {
                0
            },
            final(self).cached() == old(self).cached(),
            final(self).met() == old(self).met(),
            final(self).walked() == old(self).walked(),
            final(self).written() == old(self).written(),
            final(self).spec_indexed() == old(self).spec_indexed(),
            final(self).spec_hashed() == old(self).spec_hashed(),
    {
        if !is_file || is_junk(name) {
            return None;
        }
        match module_ext(name) {
            Some(ext) => {
                self.processed = self.processed + 1;
                Some(ModuleFile { name: String::from_str(name), ext })
            },
            None => None,
        }
    }

    /// The cached hash of `rel_path`, when the index holds it with the same
    /// size and modification time: the file need not be read again.
    pub fn cached_hash(&self, rel_path: &str, size: i64, mtime: i64) -> (res: Option<String>)
        ensures
            res.deep_view() == if reuses(self.cached(), rel_path@, size, mtime) {
                Some(self.cached()[rel_path@].2)
            } else {
                None
            },
    {
        match self.cache.get(rel_path) {
            Some(c) => {
                if c.size == size && c.mtime == mtime {
                    Some(c.hash.clone())
                } else {
                    None
                }
            },
            None => None,
        }
    }

    /// Keep the row of `rel_path`, a module file that is on disk but could
    /// not be read or stat-ed in this scan: it is not stale. Nothing is
    /// indexed for it.
    pub fn retain(&mut self, rel_path: &str)
        requires
            old(self).wf(),
        ensures
            final(self).wf(),
            final(self).met() == old(self).met().insert(rel_path@),
            final(self).walked() == old(self).walked(),
            final(self).written() == old(self).written(),
            final(self).cached() == old(self).cached(),
            final(self).spec_indexed() == old(self).spec_indexed(),
            final(self).spec_hashed() == old(self).spec_hashed(),
            final(self).spec_processed() == old(self).spec_processed(),
    {
        self.met.insert(String::from_str(rel_path));
    }

    /// Keep the rows of every cached path in the directory `dir` (relative
    /// to the root; empty for the root itself), which the walk could not
    /// read: the files there may still be on disk, so they are not stale.
    pub fn retain_under(&mut self, dir: &str)
        requires
            old(self).wf(),
        ensures
            final(self).wf(),
            final(self).met() == old(self).met().union(
                Set::new(|k: Seq<char>| old(self).cached().contains_key(k) && is_under(k, dir@)),
            ),
            final(self).walked() == old(self).walked(),
            final(self).written() == old(self).written(),
            final(self).cached() == old(self).cached(),
            final(self).spec_indexed() == old(self).spec_indexed(),
            final(self).spec_hashed() == old(self).spec_hashed(),
            final(self).spec_processed() == old(self).spec_processed(),
    {
        let ghost paths = self.cached_paths@;
        let whole = chars_of(dir).len() == 0;
        let mut prefix = String::from_str(dir);
        push_char(&mut prefix, '/');
        let mut i: usize = 0;
        while i < self.cached_paths.len()
            invariant
                paths == self.cached_paths@,
                i <= paths.len(),
                whole == (dir@.len() == 0),
                prefix@ == dir@ + seq!['/'],
                self.cache@ == old(self).cache@,
                self.cached_paths@ == old(self).cached_paths@,
                self.walked@ == old(self).walked@,
                self.written@ == old(self).written@,
                self.indexed == old(self).indexed,
                self.hashed == old(self).hashed,
                self.processed == old(self).processed,
                self.met@ == old(self).met@.union(
                    Set::new(|k: Seq<char>| lists(paths.take(i as int), k) && is_under(k, dir@)),
                ),
            decreases paths.len() - i,
        {
            let p = &self.cached_paths[i];
            let ghost pv = paths[i as int]@;
            assert(paths.take(i + 1) =~= paths.take(i as int).push(paths[i as int]));
            let under = whole || str_eq(p.as_str(), dir) || starts_with(
                p.as_str(),
                prefix.as_str(),
            );
            if under {
                let q = p.clone();
                self.met.insert(q);
            }
            assert forall|k: Seq<char>|
                #![trigger lists(paths.take(i + 1), k)]
                lists(paths.take(i + 1), k) <==> (lists(paths.take(i as int), k) || k == pv) by {
                lemma_lists_push(paths.take(i as int), paths[i as int], k);
            }
            assert(self.met@ =~= old(self).met@.union(
                Set::new(|k: Seq<char>| lists(paths.take(i + 1), k) && is_under(k, dir@)),
            ));
            i = i + 1;
        }
        assert(paths.take(paths.len() as int) =~= paths);
        assert forall|k: Seq<char>|
            lists(paths, k) && is_under(k, dir@) <==> (old(self).cached().contains_key(k)
                && is_under(k, dir@)) by {
            assert(old(self).cached().contains_key(k) == old(self).cache@.contains_key(k));
        }
        assert(self.met@ =~= old(self).met@.union(
            Set::new(|k: Seq<char>| old(self).cached().contains_key(k) && is_under(k, dir@)),
        ));
    }

    /// Index one module file found at `rel_path`. `fresh_hash` is the hash
    /// of its bytes when it was read in this scan, and `None` when its cached
    /// hash is reused, which is exactly when the index holds it with this
    /// size and modification time (see `cached_hash`). Returns the row to
    /// upsert: group and artist come from the path, file name and extension
    /// from the walk entry, so the row's extension is always its file name's
    /// module extension, and when the file name is the path's last segment
    /// the row's fields are exactly `derive_fields` of the path.
    pub fn record(
        &mut self,
        rel_path: String,
        file: ModuleFile,
        size: i64,
        mtime: i64,
        fresh_hash: Option<String>,
    ) -> (res: FileRow)
        requires
            old(self).wf(),
            old(self).spec_indexed() < usize::MAX,
            fresh_hash is None <==> reuses(old(self).cached(), rel_path@, size, mtime),
        ensures
            final(self).wf(),
            res.rel_path@ == rel_path@,
            res.grp@ == spec_group_artist(rel_path@).0,
            res.artist.deep_view() == spec_group_artist(rel_path@).1,
            res.filename@ == file.spec_name(),
            res.ext@ == file.spec_ext(),
            Some(res.ext@) == spec_module_ext(res.filename@),
            !spec_is_junk(res.filename@),
            res.filename@ == split_on(rel_path@, '/').last() ==> {
                &&& res.grp@ == spec_derive_fields(rel_path@).0
                &&& res.artist.deep_view() == spec_derive_fields(rel_path@).1
                &&& res.filename@ == spec_derive_fields(rel_path@).2
                &&& res.ext@ == spec_derive_fields(rel_path@).3
            },
            res.size == size,
            res.mtime == mtime,
            res.content_hash@ == match fresh_hash {
                Some(h) => h@,
                None => old(self).cached()[rel_path@].2,
            },
            final(self).walked() == old(self).walked().push(
                (rel_path@, size, mtime, res.content_hash@),
            ),
            final(self).recorded() == old(self).recorded().insert(
                rel_path@,
                (size, mtime, res.content_hash@),
            ),
            final(self).written() == old(self).written().insert(
                rel_path@,
                (res.grp@, res.artist.deep_view(), res.filename@, res.ext@),
            ),
            final(self).met() == old(self).met().insert(rel_path@),
            final(self).spec_indexed() == old(self).spec_indexed() + 1,
            final(self).spec_hashed() == old(self).spec_hashed() + if fresh_hash is Some {
                1int
            } else {
                0
            },
            final(self).cached() == old(self).cached(),
            final(self).spec_processed() == old(self).spec_processed(),
    {
        proof {
            use_type_invariant(&file);
        }
        let is_fresh = fresh_hash.is_some();
        let hash = match fresh_hash {
            Some(h) => h,
            None => self.cache.get(rel_path.as_str()).unwrap().hash.clone(),
        };
        let ghost c = self.cached();
        let ghost entry = (rel_path@, size, mtime, hash@);
        let ghost old_walked = self.walked@;
        let (grp, artist) = group_artist(rel_path.as_str());
        self.met.insert(rel_path.clone());
        self.walked = Ghost(self.walked@.push(entry));
        self.indexed = self.indexed + 1;
        if is_fresh {
            self.hashed = self.hashed + 1;
        }
        let ModuleFile { name, ext } = file;
        let ghost fields = (grp@, artist.deep_view(), name@, ext@);
        self.written = Ghost(self.written@.insert(rel_path@, fields));
        proof {
            assert(self.walked@.drop_last() =~= old_walked);
            assert(self.walked@.last() == entry);
            assert(recorded_hash(c, entry) == hash@);
            assert(self.written@.dom() =~= scan_index(c, self.walked@).dom());
            assert(row_written(rel_path@, fields));
            assert forall|k: Seq<char>| #[trigger]
                self.written@.contains_key(k) implies row_written(k, self.written@[k]) by {
                if k != rel_path@ {
                    assert(old(self).written@.contains_key(k));
                }
            }
        }
        FileRow {
            rel_path,
            grp,
            artist,
            filename: name,
            ext,
            size,
            mtime,
            content_hash: hash,
        }
    }

    /// End the scan: the paths to delete (cached before, not met by this
    /// walk) and the scan's counts. Deleting them and keeping the rows
    /// written leaves exactly `index_after_scan`.
    pub fn finish(&self) -> (res: (Vec<String>, ScanResult))
        requires
            self.wf(),
        ensures
            forall|i: int, j: int|
                0 <= i < j < res.0@.len() ==> res.0@[i]@ != res.0@[j]@,
            forall|k: Seq<char>|
                #![trigger lists(res.0@, k)]
                #![trigger self.cached().contains_key(k)]
                lists(res.0@, k) <==> (self.cached().contains_key(k) && !self.met().contains(k)),
            self.cached().remove_keys(Set::new(|k: Seq<char>| lists(res.0@, k))).union_prefer_right(
                self.recorded(),
            ) == self.index_after_scan(),
            res.1.indexed == self.spec_indexed(),
            res.1.indexed == self.walked().len(),
            res.1.hashed == self.spec_hashed(),
            res.1.hashed == fresh_count(self.cached(), self.walked()),
            res.1.removed == res.0@.len(),
            res.1.hashed <= res.1.indexed,
    {
        let ghost paths = self.cached_paths@;
        let ghost met = self.met@;
        let mut stale: Vec<String> = Vec::new();
        let mut i: usize = 0;
        while i < self.cached_paths.len()
            invariant
                paths == self.cached_paths@,
                met == self.met@,
                i <= paths.len(),
                forall|a: int, b: int| 0 <= a < b < paths.len() ==> paths[a]@ != paths[b]@,
                forall|a: int, b: int| 0 <= a < b < stale@.len() ==> stale@[a]@ != stale@[b]@,
                forall|k: Seq<char>|
                    #![trigger lists(stale@, k)]
                    lists(stale@, k) <==> (lists(paths.take(i as int), k) && !met.contains(k)),
            decreases paths.len() - i,
        {
            let p = &self.cached_paths[i];
            let ghost old_stale = stale@;
            assert(paths.take(i + 1) =~= paths.take(i as int).push(paths[i as int]));
            if !self.met.contains(p.as_str()) {
                stale.push(p.clone());
                assert(stale@ =~= old_stale.push(paths[i as int]));
                assert forall|a: int, b: int|
                    0 <= a < b < stale@.len() implies stale@[a]@ != stale@[b]@ by {
                    if b == old_stale.len() {
                        assert(lists(old_stale, old_stale[a]@));
                        let c = choose|c: int|
                            0 <= c < i && #[trigger] paths.take(i as int)[c]@ == old_stale[a]@;
                        assert(paths[c]@ == old_stale[a]@);
                    }
                }
                assert forall|k: Seq<char>|
                    #![trigger lists(stale@, k)]
                    lists(stale@, k) <==> (lists(paths.take(i + 1), k) && !met.contains(k)) by {
                    lemma_lists_push(old_stale, paths[i as int], k);
                    lemma_lists_push(paths.take(i as int), paths[i as int], k);
                }
            } else {
                assert forall|k: Seq<char>|
                    #![trigger lists(stale@, k)]
                    lists(stale@, k) <==> (lists(paths.take(i + 1), k) && !met.contains(k)) by {
                    lemma_lists_push(paths.take(i as int), paths[i as int], k);
                }
            }
            i = i + 1;
        }
        assert(paths.take(paths.len() as int) =~= paths);
        assert forall|k: Seq<char>|
            #![trigger lists(stale@, k)]
            #![trigger self.cached().contains_key(k)]
            lists(stale@, k) <==> (self.cached().contains_key(k) && !self.met().contains(k)) by {
            assert(self.cached().contains_key(k) == self.cache@.contains_key(k));
            assert(self.cache@.contains_key(k) == lists(paths, k));
        }
        assert(self.cached().remove_keys(Set::new(|k: Seq<char>| lists(stale@, k))) =~= self.cached().restrict(
            self.met(),
        ));
        let removed: usize = stale.len();
        (stale, ScanResult { indexed: self.indexed, hashed: self.hashed, removed })
    }
}

/// Law: a scan keeps the row invariant of the `files` table (`row_fields_ok`).
/// Let `before` be the index fields of the rows before the scan, each
/// satisfying it, and let the walk name each file it indexes by its path's
/// last segment. Then the table the scan leaves (rows kept unchanged, rows
/// written replacing them, stale rows gone) holds exactly the paths of
/// `index_after_scan`, and every row satisfies the invariant.
pub proof fn lemma_scan_keeps_row_invariant(
    r: Reconciler,
    before: Map<Seq<char>, (Seq<char>, Option<Seq<char>>, Seq<char>, Seq<char>)>,
)
    requires
        r.wf(),
        before.dom() == r.cached().dom(),
        forall|k: Seq<char>| #[trigger] before.contains_key(k) ==> row_fields_ok(k, before[k]),
        forall|k: Seq<char>|
            #[trigger] r.written().contains_key(k) ==> r.written()[k].2 == split_on(k, '/').last(),
    ensures
        ({
            let after = before.restrict(r.index_after_scan().dom()).union_prefer_right(
                r.written(),
            );
            &&& after.dom() == r.index_after_scan().dom()
            &&& forall|k: Seq<char>| #[trigger] after.contains_key(k) ==> row_fields_ok(k, after[k])
        }),
{
    let d = r.index_after_scan().dom();
    let after = before.restrict(d).union_prefer_right(r.written());
    assert(after.dom() =~= d);
    assert forall|k: Seq<char>| #[trigger] after.contains_key(k) implies row_fields_ok(
        k,
        after[k],
    ) by {
        if r.written().contains_key(k) {
            assert(row_written(k, r.written()[k]));
        } else {
            assert(before.contains_key(k));
        }
    }
}

/// Law: rescanning an unchanged collection changes nothing. Let `first` be
/// a scan that indexed every file it met (each path once), and `second` a
/// scan that starts from the index `first` left and whose walk indexes the
/// same files, with the same sizes and modification times, in the same
/// order, meeting nothing else. Then the second scan hashes nothing, finds
/// no row stale, leaves the index exactly as the first left it, indexes as
/// many files, and its progress denominator is that number; and when both
/// walks name each file by its path's last segment, it writes the same
/// index fields as the first.
pub proof fn lemma_rescan_changes_nothing(first: Reconciler, second: Reconciler)
    requires
        first.wf(),
        second.wf(),
        distinct_paths(first.walked()),
        first.met() == first.recorded().dom(),
        second.cached() == first.index_after_scan(),
        same_files(first.walked(), second.walked()),
        second.met() == second.recorded().dom(),
    ensures
        second.spec_hashed() == 0,
        forall|k: Seq<char>|
            #[trigger] second.cached().contains_key(k) ==> second.met().contains(k),
        second.index_after_scan() == first.index_after_scan(),
        second.spec_indexed() == first.spec_indexed(),
        second.cached().len() == first.spec_indexed(),
        (forall|k: Seq<char>|
            #[trigger] first.written().contains_key(k) ==> first.written()[k].2 == split_on(
                k,
                '/',
            ).last()) && (forall|k: Seq<char>|
            #[trigger] second.written().contains_key(k) ==> second.written()[k].2 == split_on(
                k,
                '/',
            ).last()) ==> second.written() == first.written(),
{
    let w1 = first.walked();
    let w2 = second.walked();
    let c1 = first.cached();
    let t1 = scan_index(c1, w1);
    lemma_rescan_idempotent(c1, w1);
    lemma_scan_index_entries(c1, w1);
    assert(first.index_after_scan() =~= t1);
    assert(distinct_paths(w2)) by {
        assert forall|i: int, j: int| 0 <= i < j < w2.len() implies w2[i].0 != w2[j].0 by {
            assert(w1[i].0 == w2[i].0 && w1[j].0 == w2[j].0);
        }
    }
    assert forall|i: int| 0 <= i < w2.len() implies reuses(
        t1,
        #[trigger] w2[i].0,
        w2[i].1,
        w2[i].2,
    ) by {
        assert(w1[i].0 == w2[i].0);
        assert(reuses(t1, w1[i].0, w1[i].1, w1[i].2));
    }
    lemma_fresh_count_bounds(t1, w2);
    lemma_scan_index_entries(t1, w2);
    let t2 = scan_index(t1, w2);
    assert forall|p: Seq<char>| #[trigger] t2.contains_key(p) <==> t1.contains_key(p) by {
        if t2.contains_key(p) {
            let i = choose|i: int| 0 <= i < w2.len() && #[trigger] w2[i].0 == p;
            assert(w1[i].0 == w2[i].0);
        }
        if t1.contains_key(p) {
            let i = choose|i: int| 0 <= i < w1.len() && #[trigger] w1[i].0 == p;
            assert(w1[i].0 == w2[i].0);
        }
    }
    assert forall|p: Seq<char>| t2.contains_key(p) implies #[trigger] t2[p] == t1[p] by {
        let i = choose|i: int| 0 <= i < w2.len() && #[trigger] w2[i].0 == p;
        assert(w1[i].0 == w2[i].0);
        assert(t2[w2[i].0] == (w2[i].1, w2[i].2, recorded_hash(t1, w2[i])));
        assert(t1[w1[i].0] == (w1[i].1, w1[i].2, recorded_hash(c1, w1[i])));
        assert(reuses(t1, w2[i].0, w2[i].1, w2[i].2));
    }
    assert(t2 =~= t1);
    assert(second.index_after_scan() =~= t1);
    if (forall|k: Seq<char>|
        #[trigger] first.written().contains_key(k) ==> first.written()[k].2 == split_on(
            k,
            '/',
        ).last()) && (forall|k: Seq<char>|
        #[trigger] second.written().contains_key(k) ==> second.written()[k].2 == split_on(
            k,
            '/',
        ).last()) {
        assert forall|k: Seq<char>| #[trigger]
            second.written().contains_key(k) implies second.written()[k] == first.written()[k] by {
            assert(row_written(k, second.written()[k]));
            assert(first.written().contains_key(k));
            assert(row_written(k, first.written()[k]));
        }
        assert(second.written() =~= first.written());
    }
}

} // verus!
