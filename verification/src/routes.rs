//! The decisions behind the HTTP API: validating and planning a rename or
//! move, confining file access to the collection root, mapping a failed move
//! to an answer, and the liveness report.

use vstd::prelude::*;

use crate::error::AppError;
use crate::scan::{
    derive_fields, has_module_ext, is_dot_name, path_extension, is_hidden_dir, is_junk, spec_derive_fields,
    spec_is_junk, spec_module_ext,
};
use crate::text::{
    chars_of, lemma_split_append_piece, lemma_split_concat, lemma_split_without_sep, piece_bounds,
    split_on, str_eq, substring, trim, trim_bounds, lemma_trim_idempotent, lemma_trim_shape,
    white_space,
};

verus! {

/// A single safe path segment: `s` trimmed of white space, refused when it
/// is empty, `.` or `..`, or holds `/`, `\` or NUL.
pub open spec fn spec_clean_segment(s: Seq<char>) -> Option<Seq<char>> {
    let t = trim(s);
    if t.len() == 0 || t == seq!['.'] || t == seq!['.', '.'] || t.contains('/') || t.contains(
        '\\',
    ) || t.contains('\0') {
        None
    } else {
        Some(t)
    }
}

/// A single safe path segment: non-empty after trimming, not `.`/`..`, no
/// separators or NUL. Returns the trimmed segment.
pub fn clean_segment(s: &str) -> (res: Option<String>)
    ensures
        res.deep_view() == spec_clean_segment(s@),
{
    let chars = chars_of(s);
    let (a, b) = trim_bounds(&chars);
    let ghost t = s@.subrange(a as int, b as int);
    if a == b {
        return None;
    }
    if b - a == 1 && chars[a] == '.' {
        assert(t =~= seq!['.']);
        return None;
    }
    if b - a == 2 && chars[a] == '.' && chars[a + 1] == '.' {
        assert(t =~= seq!['.', '.']);
        return None;
    }
    assert(t != seq!['.']) by {
        if t == seq!['.'] {
            assert(t.len() == 1);
            assert(t[0] == chars@[a as int]);
        }
    }
    assert(t != seq!['.', '.']) by {
        if t == seq!['.', '.'] {
            assert(t.len() == 2);
            assert(t[0] == chars@[a as int]);
            assert(t[1] == chars@[a + 1]);
        }
    }
    let mut i: usize = a;
    while i < b
        invariant
            chars@ == s@,
            a <= i <= b <= chars@.len(),
            t == s@.subrange(a as int, b as int),
            t == trim(s@),
            forall|k: int| a <= k < i ==> chars@[k] != '/' && chars@[k] != '\\' && chars@[k] != '\0',
        decreases b - i,
    {
        let c = chars[i];
        if c == '/' || c == '\\' || c == '\0' {
            assert(t[i - a] == c);
            return None;
        }
        i = i + 1;
    }
    assert(!t.contains('/') && !t.contains('\\') && !t.contains('\0')) by {
        assert forall|k: int| 0 <= k < t.len() implies t[k] != '/' && t[k] != '\\' && t[k]
            != '\0' by {
            assert(t[k] == chars@[a + k]);
        }
    }
    Some(substring(s, a, b))
}

/// A request to rename or move a module by its group / artist / filename,
/// the three path segments the collection is organised by.
#[derive(Debug, Clone)]
pub struct RenameRequest {
    /// Current relative path under the root.
    pub from: String,
    pub group: String,
    pub artist: Option<String>,
    pub filename: String,
}

/// An accepted rename: the source and destination relative paths, and the
/// index fields of the destination.
#[derive(Debug, Clone)]
pub struct RenamePlan {
    pub from: String,
    pub to: String,
    pub group: String,
    pub artist: Option<String>,
    pub filename: String,
    pub ext: String,
}

/// The artist segment a request asks for: absent, or blank after trimming,
/// means none; otherwise it must be a clean segment (`Err(())` if not).
pub open spec fn spec_requested_artist(artist: Option<Seq<char>>) -> Result<
    Option<Seq<char>>,
    (),
> {
    match artist {
        None => Ok(None),
        Some(a) => if trim(a).len() == 0 {
            Ok(None)
        } else {
            match spec_clean_segment(trim(a)) {
                Some(c) => Ok(Some(c)),
                None => Err(()),
            }
        },
    }
}

/// The destination built from clean segments: `group/artist/filename`, or
/// `group/filename` without an artist.
pub open spec fn spec_destination(
    group: Seq<char>,
    artist: Option<Seq<char>>,
    filename: Seq<char>,
) -> Seq<char> {
    match artist {
        Some(a) => group + seq!['/'] + a + seq!['/'] + filename,
        None => group + seq!['/'] + filename,
    }
}

/// What a rename request comes to: the destination path, or the message of
/// the 400 answer that refuses it. Checked in order: group, filename, module
/// extension, artist, and that the destination differs from the source. A
/// renamed file must also stay one the scanner indexes, so a destination that
/// passes those checks is then refused when its group or artist names a
/// hidden directory or its filename is junk.
pub open spec fn spec_plan_rename(
    from: Seq<char>,
    group: Seq<char>,
    artist: Option<Seq<char>>,
    filename: Seq<char>,
) -> Result<Seq<char>, Seq<char>> {
    match spec_clean_segment(group) {
        None => Err("invalid group"@),
        Some(g) => match spec_clean_segment(filename) {
            None => Err("invalid filename"@),
            Some(f) => if spec_module_ext(f) is None {
                Err("filename must keep a recognised module extension"@)
            } else {
                match spec_requested_artist(artist) {
                    Err(_) => Err("invalid artist"@),
                    Ok(a) => {
                        let to = spec_destination(g, a, f);
                        if to == from {
                            Err("source and destination are the same"@)
                        } else if is_dot_name(g) {
                            Err("group must not be a hidden directory"@)
                        } else if spec_is_junk(f) {
                            Err("filename would be skipped as junk"@)
                        } else if a matches Some(x) && is_dot_name(x) {
                            Err("artist must not be a hidden directory"@)
                        } else {
                            Ok(to)
                        }
                    },
                }
            },
        },
    }
}

fn bad_request(msg: &str) -> (res: AppError)
    ensures
        res matches AppError::BadRequest(m) && m@ == msg@,
{
    AppError::BadRequest(String::from_str(msg))
}

impl RenameRequest {
    /// The views of the request's fields.
    pub open spec fn artist_view(&self) -> Option<Seq<char>> {
        match self.artist {
            Some(a) => Some(a@),
            None => None,
        }
    }
}

/// Validate a rename request and build its destination from clean segments
/// (no `..`, no separators), so that it cannot leave the collection root.
/// A refusal is a 400 answer whose message names the offending part.
pub fn plan_rename(req: &RenameRequest) -> (res: Result<RenamePlan, AppError>)
    ensures
        match spec_plan_rename(req.from@, req.group@, req.artist_view(), req.filename@) {
            Ok(to) => res matches Ok(plan) && {
                &&& plan.from@ == req.from@
                &&& plan.to@ == to
                &&& plan.group@ == spec_derive_fields(to).0
                &&& plan.artist.deep_view() == spec_derive_fields(to).1
                &&& plan.filename@ == spec_derive_fields(to).2
                &&& plan.ext@ == spec_derive_fields(to).3
            },
            Err(msg) => res matches Err(AppError::BadRequest(m)) && m@ == msg,
        },
{
    let group = match clean_segment(req.group.as_str()) {
        Some(g) => g,
        None => return Err(bad_request("invalid group")),
    };
    let filename = match clean_segment(req.filename.as_str()) {
        Some(f) => f,
        None => return Err(bad_request("invalid filename")),
    };
    if !has_module_ext(filename.as_str()) {
        return Err(bad_request("filename must keep a recognised module extension"));
    }
    let artist: Option<String> = match &req.artist {
        None => None,
        Some(a) => {
            let chars = chars_of(a.as_str());
            let (x, y) = trim_bounds(&chars);
            if x == y {
                None
            } else {
                let trimmed = substring(a.as_str(), x, y);
                match clean_segment(trimmed.as_str()) {
                    Some(c) => Some(c),
                    None => return Err(bad_request("invalid artist")),
                }
            }
        },
    };
    assert(spec_requested_artist(req.artist_view()) == Ok::<Option<Seq<char>>, ()>(
        artist.deep_view(),
    ));
    let mut to = group.clone();
    to.append("/");
    match &artist {
        Some(a) => {
            to.append(a.as_str());
            to.append("/");
        },
        None => {},
    }
    to.append(filename.as_str());
    proof {
        reveal_strlit("/");
    }
    assert(to@ == spec_destination(group@, artist.deep_view(), filename@)) by {
        match artist {
            Some(a) => {
                assert(to@ =~= group@ + seq!['/'] + a@ + seq!['/'] + filename@);
            },
            None => {
                assert(to@ =~= group@ + seq!['/'] + filename@);
            },
        }
    }
    if str_eq(to.as_str(), req.from.as_str()) {
        return Err(bad_request("source and destination are the same"));
    }
    if is_hidden_dir(1, true, group.as_str()) {
        return Err(bad_request("group must not be a hidden directory"));
    }
    if is_junk(filename.as_str()) {
        return Err(bad_request("filename would be skipped as junk"));
    }
    if let Some(a) = &artist {
        if is_hidden_dir(1, true, a.as_str()) {
            return Err(bad_request("artist must not be a hidden directory"));
        }
    }
    let (g, art, fname, ext) = derive_fields(to.as_str());
    Ok(RenamePlan { from: req.from.clone(), to, group: g, artist: art, filename: fname, ext })
}

/// The liveness report of `GET /status`, which needs no auth.
#[derive(Debug, Clone)]
pub struct StatusReport {
    /// Whether the database answered (a running scan counts as healthy: it
    /// holds the connection, so the database is not asked).
    pub db_healthy: bool,
    /// Rows in the index; unknown while scanning or when the query failed.
    pub track_count: Option<i64>,
    /// The configured collection root.
    pub root: String,
    pub scanning: bool,
    pub scan_total: usize,
    pub scan_processed: usize,
    pub scan_hashed: usize,
}

/// Build the liveness report. `counted` is the index's row count as the
/// database gave it; the caller asks only when no scan is running (the scan
/// holds the single connection), and it is ignored while scanning.
pub fn status_report(
    scanning: bool,
    counted: Option<i64>,
    root: String,
    scan_total: usize,
    scan_processed: usize,
    scan_hashed: usize,
) -> (res: StatusReport)
    ensures
        res.track_count == (if scanning {
            None
        } else {
            counted
        }),
        res.db_healthy == (scanning || counted is Some),
        res.root@ == root@,
        res.scanning == scanning,
        res.scan_total == scan_total,
        res.scan_processed == scan_processed,
        res.scan_hashed == scan_hashed,
{
    let track_count = if scanning {
        None
    } else {
        counted
    };
    StatusReport {
        db_healthy: scanning || track_count.is_some(),
        track_count,
        root,
        scanning,
        scan_total,
        scan_processed,
        scan_hashed,
    }
}

/// A request path with its leading `/`s removed: the SPA asset it names,
/// relative to the static directory (empty for the site root).
pub fn asset_path(uri_path: &str) -> (res: String)
    ensures
        ({
            let k = res@.len();
            &&& k <= uri_path@.len()
            &&& res@ == uri_path@.skip(uri_path@.len() - k)
            &&& forall|j: int| 0 <= j < uri_path@.len() - k ==> uri_path@[j] == '/'
            &&& (k > 0 ==> res@[0] != '/')
        }),
{
    let chars = chars_of(uri_path);
    let mut a: usize = 0;
    while a < chars.len() && chars[a] == '/'
        invariant
            chars@ == uri_path@,
            a <= chars@.len(),
            forall|j: int| 0 <= j < a ==> chars@[j] == '/',
        decreases chars@.len() - a,
    {
        a = a + 1;
    }
    let res = substring(uri_path, a, chars.len());
    assert(res@ =~= uri_path@.skip(a as int));
    res
}

/// The content type `mime_guess` gives a path, by its extension.
pub uninterp spec fn guessed_mime(path: Seq<char>) -> Seq<char>;

/// Calls `mime_guess::from_path(path).first_or_octet_stream()`. Claims that
/// the result is a function of the path, named `guessed_mime`, and, as the
/// crate's source shows, that a path without an extension (by
/// `Path::extension`) gets `application/octet-stream`. Its table of
/// extensions is left unstated.
#[verifier::external_body]
fn guess_mime(path: &str) -> (res: String)
    ensures
        res@ == guessed_mime(path@),
        path_extension(path@) is None ==> res@ == "application/octet-stream"@,
{
    mime_guess::from_path(path).first_or_octet_stream().to_string()
}

/// The `Content-Type` an SPA asset is served with, guessed from its path's
/// extension; `application/octet-stream` when there is none.
pub fn asset_content_type(path: &str) -> (res: String)
    ensures
        res@ == guessed_mime(path@),
        path_extension(path@) is None ==> res@ == "application/octet-stream"@,
{
    guess_mime(path)
}

/// Law: `clean_segment` takes what `s` holds between its leading and
/// trailing white space (`s[a..b]`, only white space outside it, and no
/// white space at its ends) and accepts it exactly when it is one safe path
/// component: not empty, not `.` or `..`, and free of `/`, `\` and NUL.
pub proof fn lemma_clean_segment_safe(s: Seq<char>) -> (r: (int, int))
    ensures
        0 <= r.0 <= r.1 <= s.len(),
        forall|j: int| 0 <= j < r.0 ==> white_space(#[trigger] s[j]),
        forall|j: int| r.1 <= j < s.len() ==> white_space(#[trigger] s[j]),
        r.0 < r.1 ==> !white_space(s[r.0]) && !white_space(s[r.1 - 1]),
        ({
            let t = s.subrange(r.0, r.1);
            spec_clean_segment(s) == if t.len() == 0 || t == seq!['.'] || t == seq!['.', '.']
                || exists|i: int|
                0 <= i < t.len() && (#[trigger] t[i] == '/' || t[i] == '\\' || t[i] == '\0') {
                None
            } else {
                Some(t)
            }
        }),
{
    let r = lemma_trim_shape(s);
    let t = s.subrange(r.0, r.1);
    assert(trim(s) == t);
    if t.contains('/') {
        let i = choose|i: int| 0 <= i < t.len() && t[i] == '/';
        assert(t[i] == '/');
    }
    if t.contains('\\') {
        let i = choose|i: int| 0 <= i < t.len() && t[i] == '\\';
        assert(t[i] == '\\');
    }
    if t.contains('\0') {
        let i = choose|i: int| 0 <= i < t.len() && t[i] == '\0';
        assert(t[i] == '\0');
    }
    r
}

/// Law: a clean segment is the same after cleaning it again.
pub proof fn lemma_clean_segment_idempotent(s: Seq<char>)
    requires
        spec_clean_segment(s) is Some,
    ensures
        spec_clean_segment(spec_clean_segment(s)->0) == spec_clean_segment(s),
{
    lemma_trim_idempotent(s);
}

/// The pieces of a destination built from segments without `/` are those
/// segments.
pub proof fn lemma_destination_pieces(g: Seq<char>, a: Option<Seq<char>>, f: Seq<char>)
    requires
        !g.contains('/'),
        !f.contains('/'),
        a matches Some(x) ==> !x.contains('/'),
    ensures
        split_on(spec_destination(g, a, f), '/') == match a {
            Some(x) => seq![g, x, f],
            None => seq![g, f],
        },
{
    lemma_split_without_sep(g, '/');
    match a {
        Some(x) => {
            lemma_split_append_piece(g, x, '/');
            let gx = g + seq!['/'] + x;
            lemma_split_append_piece(gx, f, '/');
            assert(seq![g].push(x).push(f) =~= seq![g, x, f]);
        },
        None => {
            lemma_split_append_piece(g, f, '/');
            assert(seq![g].push(f) =~= seq![g, f]);
        },
    }
}

/// Law: a rename whose segments pass every check (clean group and
/// filename, a module extension, a valid artist, no hidden directory, no
/// junk name) is refused as "source and destination are the same" exactly
/// when the destination `group/artist/filename` (or `group/filename`) is
/// the source path, and is otherwise planned to that destination. Moving a
/// file into or out of an artist folder is such a rename.
pub proof fn lemma_rename_refused_only_when_same(
    from: Seq<char>,
    group: Seq<char>,
    artist: Option<Seq<char>>,
    filename: Seq<char>,
)
    requires
        spec_clean_segment(group) is Some,
        spec_clean_segment(filename) is Some,
        spec_module_ext(spec_clean_segment(filename)->0) is Some,
        !spec_is_junk(spec_clean_segment(filename)->0),
        !is_dot_name(spec_clean_segment(group)->0),
        spec_requested_artist(artist) is Ok,
        !(spec_requested_artist(artist)->Ok_0 matches Some(a) && is_dot_name(a)),
    ensures
        ({
            let g = spec_clean_segment(group)->0;
            let f = spec_clean_segment(filename)->0;
            let to = match spec_requested_artist(artist)->Ok_0 {
                Some(a) => g + seq!['/'] + a + seq!['/'] + f,
                None => g + seq!['/'] + f,
            };
            spec_plan_rename(from, group, artist, filename) == if to == from {
                Err::<Seq<char>, Seq<char>>("source and destination are the same"@)
            } else {
                Ok(to)
            }
        }),
{
}

/// Law: an accepted rename's destination is two or three `/`-separated
/// pieces, each of them a clean segment (not empty, `.` or `..`, no
/// separator), so joining it under the root cannot leave the root; the file
/// stays one the scanner indexes (no directory piece is hidden, the file name
/// is no junk and keeps a module extension); and the index fields read back
/// from it are exactly the requested group, artist and filename, with the
/// filename's module extension.
pub proof fn lemma_rename_destination(
    from: Seq<char>,
    group: Seq<char>,
    artist: Option<Seq<char>>,
    filename: Seq<char>,
)
    requires
        spec_plan_rename(from, group, artist, filename) is Ok,
    ensures
        ({
            let to = spec_plan_rename(from, group, artist, filename)->Ok_0;
            let pieces = split_on(to, '/');
            &&& pieces.len() == 2 || pieces.len() == 3
            &&& forall|i: int|
                0 <= i < pieces.len() ==> spec_clean_segment(#[trigger] pieces[i]) == Some(
                    pieces[i],
                )
            &&& forall|i: int| 0 <= i < pieces.len() - 1 ==> !is_dot_name(#[trigger] pieces[i])
            &&& !spec_is_junk(pieces.last())
            &&& spec_module_ext(pieces.last()) is Some
            &&& spec_derive_fields(to).0 == spec_clean_segment(group)->0
            &&& spec_derive_fields(to).1 == spec_requested_artist(artist)->Ok_0
            &&& spec_derive_fields(to).2 == spec_clean_segment(filename)->0
            &&& Some(spec_derive_fields(to).3) == spec_module_ext(spec_clean_segment(filename)->0)
        }),
{
    let g = spec_clean_segment(group)->0;
    let f = spec_clean_segment(filename)->0;
    let a = spec_requested_artist(artist)->Ok_0;
    lemma_clean_segment_idempotent(group);
    lemma_clean_segment_idempotent(filename);
    match artist {
        Some(x) => {
            if trim(x).len() != 0 {
                lemma_clean_segment_idempotent(trim(x));
            }
        },
        None => {},
    }
    lemma_destination_pieces(g, a, f);
    let to = spec_destination(g, a, f);
    let pieces = split_on(to, '/');
    assert(pieces.last() == f);
    lemma_split_without_sep(f, '/');
    assert(split_on(f, '/').last() == f);
}

/// Whether piece `i` of a path is a component: empty pieces never are, and
/// `.` only as the very first piece (a leading current-directory component).
pub open spec fn is_component(piece: Seq<char>, i: int) -> bool {
    piece.len() > 0 && (piece != seq!['.'] || i == 0)
}

/// The components among the first pieces of a path, in order.
pub open spec fn kept_pieces(pieces: Seq<Seq<char>>) -> Seq<Seq<char>>
    decreases pieces.len(),
{
    if pieces.len() == 0 {
        Seq::<Seq<char>>::empty()
    } else {
        let rest = kept_pieces(pieces.drop_last());
        if is_component(pieces.last(), pieces.len() - 1) {
            rest.push(pieces.last())
        } else {
            rest
        }
    }
}

/// The components of a `/`-separated path as `Path::components` yields
/// them: a root component (written `/`) when the path starts with `/`, then
/// every non-empty piece, where `.` counts only at the very start.
pub open spec fn path_components(p: Seq<char>) -> Seq<Seq<char>> {
    (if p.len() > 0 && p[0] == '/' {
        seq![seq!['/']]
    } else {
        Seq::<Seq<char>>::empty()
    }) + kept_pieces(split_on(p, '/'))
}

/// `Path::starts_with`: the components of `base` begin the components of
/// `p`.
pub open spec fn path_starts_with(p: Seq<char>, base: Seq<char>) -> bool {
    path_components(base).is_prefix_of(path_components(p))
}

/// The components of `p` as strings.
fn components(p: &str) -> (res: Vec<String>)
    ensures
        res@.map_values(|c: String| c@) == path_components(p@),
{
    let chars = chars_of(p);
    let bounds = piece_bounds(&chars, '/');
    let ghost pieces = split_on(p@, '/');
    let mut out: Vec<String> = Vec::new();
    let rooted = chars.len() > 0 && chars[0] == '/';
    let ghost root_part = if rooted {
        seq![seq!['/']]
    } else {
        Seq::<Seq<char>>::empty()
    };
    if rooted {
        let mut r = String::new();
        crate::text::push_char(&mut r, '/');
        out.push(r);
        assert(out@.map_values(|c: String| c@) =~= root_part);
    } else {
        assert(out@.map_values(|c: String| c@) =~= root_part);
    }
    let mut i: usize = 0;
    assert(pieces.take(0) =~= Seq::<Seq<char>>::empty());
    while i < bounds.len()
        invariant
            chars@ == p@,
            pieces == split_on(p@, '/'),
            bounds@.len() == pieces.len(),
            i <= bounds@.len(),
            forall|k: int|
                #![trigger bounds@[k]]
                0 <= k < bounds@.len() ==> {
                    &&& bounds@[k].0 <= bounds@[k].1 <= p@.len()
                    &&& pieces[k] == p@.subrange(bounds@[k].0 as int, bounds@[k].1 as int)
                },
            out@.map_values(|c: String| c@) == root_part + kept_pieces(pieces.take(i as int)),
        decreases bounds@.len() - i,
    {
        let (a, b) = bounds[i];
        let ghost piece = pieces[i as int];
        assert(pieces.take(i + 1).drop_last() =~= pieces.take(i as int));
        assert(pieces.take(i + 1).last() == piece);
        let dot = b - a == 1 && chars[a] == '.';
        assert(dot == (piece == seq!['.'])) by {
            if piece == seq!['.'] {
                assert(piece.len() == 1);
                assert(piece[0] == p@[a as int]);
            }
            if dot {
                assert(piece =~= seq!['.']);
            }
        }
        let ghost before = out@.map_values(|c: String| c@);
        if a < b && (!dot || i == 0) {
            let part = substring(p, a, b);
            out.push(part);
            assert(out@.map_values(|c: String| c@) =~= before.push(piece));
            assert(root_part + kept_pieces(pieces.take(i as int)).push(piece) =~= (root_part
                + kept_pieces(pieces.take(i as int))).push(piece));
        }
        i = i + 1;
    }
    assert(pieces.take(bounds@.len() as int) =~= pieces);
    out
}

/// Whether the path `p` lies under `base`, compared component by component
/// as `Path::starts_with` does. Used on canonical paths to confine file
/// access to the collection root (and the SPA to its directory).
pub fn is_within(p: &str, base: &str) -> (res: bool)
    ensures
        res == path_starts_with(p@, base@),
{
    let pc = components(p);
    let bc = components(base);
    let ghost pv = pc@.map_values(|c: String| c@);
    let ghost bv = bc@.map_values(|c: String| c@);
    if bc.len() > pc.len() {
        return false;
    }
    let mut i: usize = 0;
    while i < bc.len()
        invariant
            pv == pc@.map_values(|c: String| c@),
            bv == bc@.map_values(|c: String| c@),
            pv == path_components(p@),
            bv == path_components(base@),
            bc@.len() <= pc@.len(),
            i <= bc@.len(),
            forall|k: int| 0 <= k < i ==> bv[k] == pv[k],
        decreases bc@.len() - i,
    {
        if !str_eq(bc[i].as_str(), pc[i].as_str()) {
            assert(bv[i as int] != pv[i as int]);
            return false;
        }
        i = i + 1;
    }
    assert(bv =~= pv.subrange(0, bv.len() as int));
    true
}

/// Law: every path lies within itself.
pub proof fn lemma_within_reflexive(p: Seq<char>)
    ensures
        path_starts_with(p, p),
{
}

/// Law: lying within is transitive, so a path within a directory that lies
/// within the root lies within the root.
pub proof fn lemma_within_transitive(p: Seq<char>, q: Seq<char>, r: Seq<char>)
    requires
        path_starts_with(p, q),
        path_starts_with(q, r),
    ensures
        path_starts_with(p, r),
{
    let (cp, cq, cr) = (path_components(p), path_components(q), path_components(r));
    assert forall|i: int| 0 <= i < cr.len() implies cr[i] == cp[i] by {
        assert(cr[i] == cq[i]);
    }
}

/// Appending pieces that are each a component wherever they stand appends
/// them to the components.
proof fn lemma_kept_pieces_append(p: Seq<Seq<char>>, q: Seq<Seq<char>>)
    requires
        forall|i: int| 0 <= i < q.len() ==> #[trigger] q[i].len() > 0 && q[i] != seq!['.'],
    ensures
        kept_pieces(p + q) == kept_pieces(p) + q,
    decreases q.len(),
{
    if q.len() == 0 {
        assert(p + q =~= p);
        assert(kept_pieces(p) + q =~= kept_pieces(p));
    } else {
        let q2 = q.drop_last();
        assert forall|i: int| 0 <= i < q2.len() implies #[trigger] q2[i].len() > 0 && q2[i]
            != seq!['.'] by {
            assert(q2[i] == q[i]);
        }
        lemma_kept_pieces_append(p, q2);
        assert((p + q).drop_last() =~= p + q2);
        assert((p + q).last() == q.last());
        assert(q.last() == q[q.len() - 1]);
        assert(kept_pieces(p + q2).push(q.last()) =~= kept_pieces(p) + q);
    }
}

/// Law: an accepted rename's destination, joined under any non-empty root
/// path, lies within that root, and what it adds to the root's components
/// are exactly its clean segments (no `.` or `..`): the move cannot leave the
/// collection.
pub proof fn lemma_destination_stays_under_root(
    root: Seq<char>,
    from: Seq<char>,
    group: Seq<char>,
    artist: Option<Seq<char>>,
    filename: Seq<char>,
)
    requires
        root.len() > 0,
        spec_plan_rename(from, group, artist, filename) is Ok,
    ensures
        ({
            let to = spec_plan_rename(from, group, artist, filename)->Ok_0;
            let joined = root + seq!['/'] + to;
            &&& path_starts_with(joined, root)
            &&& path_components(joined) == path_components(root) + split_on(to, '/')
        }),
{
    let to = spec_plan_rename(from, group, artist, filename)->Ok_0;
    lemma_rename_destination(from, group, artist, filename);
    let q = split_on(to, '/');
    assert forall|i: int| 0 <= i < q.len() implies #[trigger] q[i].len() > 0 && q[i] != seq![
        '.',
    ] by {
        assert(spec_clean_segment(q[i]) == Some(q[i]));
    }
    lemma_split_concat(root, to, '/');
    lemma_kept_pieces_append(split_on(root, '/'), q);
    let joined = root + seq!['/'] + to;
    assert(joined[0] == root[0]);
    assert(path_components(joined) =~= path_components(root) + q);
    assert(path_components(root) =~= (path_components(root) + q).subrange(
        0,
        path_components(root).len() as int,
    ));
}

/// Whether a file may be served or moved: its canonical path is known, the
/// root's canonical path is known, it lies within the root and it is a
/// regular file. Otherwise the request is answered 404.
pub fn check_inside_root(
    canonical: Option<&str>,
    canonical_root: Option<&str>,
    is_file: bool,
) -> (res: Result<(), AppError>)
    ensures
        res is Ok <==> (canonical matches Some(c) && canonical_root matches Some(r)
            && path_starts_with(c@, r@) && is_file),
        res is Err ==> res == Err::<(), AppError>(AppError::NotFound),
{
    match (canonical, canonical_root) {
        (Some(c), Some(r)) => {
            if is_within(c, r) && is_file {
                Ok(())
            } else {
                Err(AppError::NotFound)
            }
        },
        _ => Err(AppError::NotFound),
    }
}

/// How the filesystem move of a rename went.
#[derive(Debug, Clone, PartialEq, Eq)]
pub enum MoveOutcome {
    Moved,
    /// Something already exists at the destination; it is never overwritten.
    DestinationExists,
    /// The source vanished before it could be moved.
    SourceMissing,
    /// Any other failure, with its description.
    Failed(String),
}

/// The answer to a rename once the move was attempted: a refusal to
/// overwrite is 409, a vanished source 404, other failures 500.
pub fn move_result(outcome: MoveOutcome) -> (res: Result<(), AppError>)
    ensures
        match outcome {
            MoveOutcome::Moved => res is Ok,
            MoveOutcome::DestinationExists => res matches Err(AppError::Conflict(m)) && m@
                == "destination already exists"@,
            MoveOutcome::SourceMissing => res == Err::<(), AppError>(AppError::NotFound),
            MoveOutcome::Failed(m) => res matches Err(AppError::Internal(x)) && x@ == m@,
        },
{
    match outcome {
        MoveOutcome::Moved => Ok(()),
        MoveOutcome::DestinationExists => Err(
            AppError::Conflict(String::from_str("destination already exists")),
        ),
        MoveOutcome::SourceMissing => Err(AppError::NotFound),
        MoveOutcome::Failed(m) => Err(AppError::Internal(m)),
    }
}

} // verus!
