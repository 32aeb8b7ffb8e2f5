//! The Content-Security-Policy header. Same-origin except the Google Fonts
//! hosts; the player runs libopenmpt as WebAssembly inside an AudioWorklet, so
//! `'wasm-unsafe-eval'` and `worker-src 'self' blob:` are allowed. The SPA's
//! inline bootstrap scripts are allowed by the hash of their bodies, never by
//! `'unsafe-inline'`.

use vstd::prelude::*;

use crate::digest::{script_hash_source, spec_script_hash_source};
use crate::text::push_char;
use vstd::string::StringSliceAdditionalSpecFns;

verus! {

/// The source list of the `script-src` directive: `'self'
/// 'wasm-unsafe-eval'` followed by each hash, each after one space.
pub open spec fn script_sources(hashes: Seq<Seq<char>>) -> Seq<char>
    decreases hashes.len(),
{
    if hashes.len() == 0 {
        "'self' 'wasm-unsafe-eval'"@
    } else {
        script_sources(hashes.drop_last()).push(' ') + hashes.last()
    }
}

/// The text before the `script-src` source list.
pub open spec fn csp_head() -> Seq<char> {
    "default-src 'self'; script-src "@
}

/// The directives between the `script-src` list and `worker-src`.
pub open spec fn csp_middle() -> Seq<char> {
    "; style-src 'self' 'unsafe-inline' https://fonts.googleapis.com; font-src 'self' data: https://fonts.gstatic.com; img-src 'self' data: blob:; connect-src 'self'; "@
}

/// The `worker-src` directive, which lets the AudioWorklet module load.
pub open spec fn csp_worker_src() -> Seq<char> {
    "worker-src 'self' blob:"@
}

/// The directives after `worker-src`.
pub open spec fn csp_tail() -> Seq<char> {
    "; child-src 'self' blob:; frame-ancestors 'none'; base-uri 'self'; object-src 'none'; form-action 'self'"@
}

/// The whole policy for the given inline-script hash sources.
pub open spec fn csp_policy(hashes: Seq<Seq<char>>) -> Seq<char> {
    csp_head() + script_sources(hashes) + csp_middle() + csp_worker_src() + csp_tail()
}

/// Content-Security-Policy allowing exactly the given inline-script hash
/// sources (each like `'sha256-...'`) besides same-origin scripts and wasm.
pub fn build_csp(script_hashes: &[String]) -> (res: String)
    ensures
        res@ == csp_policy(script_hashes@.map_values(|h: String| h@)),
{
    let ghost hs = script_hashes@.map_values(|h: String| h@);
    let mut sources = String::from_str("'self' 'wasm-unsafe-eval'");
    let mut i: usize = 0;
    assert(hs.take(0) =~= Seq::<Seq<char>>::empty());
    while i < script_hashes.len()
        invariant
            hs == script_hashes@.map_values(|h: String| h@),
            i <= script_hashes@.len(),
            sources@ == script_sources(hs.take(i as int)),
        decreases script_hashes@.len() - i,
    {
        push_char(&mut sources, ' ');
        sources.append(script_hashes[i].as_str());
        assert(hs.take(i + 1).drop_last() =~= hs.take(i as int));
        assert(hs.take(i + 1).last() == script_hashes@[i as int]@);
        i = i + 1;
    }
    assert(hs.take(i as int) =~= hs);
    let mut out = String::from_str("default-src 'self'; script-src ");
    out.append(sources.as_str());
    out.append(
        "; style-src 'self' 'unsafe-inline' https://fonts.googleapis.com; font-src 'self' data: https://fonts.gstatic.com; img-src 'self' data: blob:; connect-src 'self'; ",
    );
    out.append("worker-src 'self' blob:");
    out.append(
        "; child-src 'self' blob:; frame-ancestors 'none'; base-uri 'self'; object-src 'none'; form-action 'self'",
    );
    out
}

/// Whether `needle` occurs in `hay` starting at position `at`.
pub open spec fn occurs_at(hay: Seq<u8>, needle: Seq<u8>, at: int) -> bool {
    0 <= at && at + needle.len() <= hay.len() && hay.subrange(at, at + needle.len()) == needle
}

/// The first position at or after `from` where `needle` occurs in `hay`, as
/// `str::find` on `hay[from..]` reports it (but counted from the start).
pub open spec fn find_from(hay: Seq<u8>, needle: Seq<u8>, from: int) -> Option<int>
    decreases hay.len() + 1 - from,
{
    if from < 0 || from > hay.len() - needle.len() {
        None
    } else if occurs_at(hay, needle, from) {
        Some(from)
    } else {
        find_from(hay, needle, from + 1)
    }
}

/// What `find_from` reports is an occurrence at or after `from`, and the
/// first one.
pub proof fn lemma_find_from(hay: Seq<u8>, needle: Seq<u8>, from: int)
    requires
        0 <= from,
    ensures
        match find_from(hay, needle, from) {
            Some(i) => from <= i && occurs_at(hay, needle, i) && forall|j: int|
                from <= j < i ==> !occurs_at(hay, needle, j),
            None => forall|j: int| from <= j ==> !occurs_at(hay, needle, j),
        },
    decreases hay.len() + 1 - from,
{
    if from > hay.len() - needle.len() {
    } else if !occurs_at(hay, needle, from) {
        lemma_find_from(hay, needle, from + 1);
    }
}

/// `<script`
pub open spec fn script_open() -> Seq<u8> {
    seq![60u8, 115u8, 99u8, 114u8, 105u8, 112u8, 116u8]
}

/// `>`
pub open spec fn tag_end() -> Seq<u8> {
    seq![62u8]
}

/// `</script>`
pub open spec fn script_close() -> Seq<u8> {
    seq![60u8, 47u8, 115u8, 99u8, 114u8, 105u8, 112u8, 116u8, 62u8]
}

/// `src=`
pub open spec fn src_attr() -> Seq<u8> {
    seq![115u8, 114u8, 99u8, 61u8]
}

/// The bodies of the inline `<script>` elements of `html` from byte `idx`
/// on: each element runs from `<script` to the next `>` (its opening tag) and
/// on to the next `</script>`; an element whose opening tag holds `src=` is
/// external and has no inline body. Scanning stops at the first element left
/// unclosed.
pub open spec fn inline_script_bodies(html: Seq<u8>, idx: int) -> Seq<Seq<u8>>
    decreases html.len() - idx,
{
    if idx < 0 || idx > html.len() {
        Seq::<Seq<u8>>::empty()
    } else {
        match find_from(html, script_open(), idx) {
            None => Seq::<Seq<u8>>::empty(),
            Some(tag) => match find_from(html, tag_end(), tag) {
                None => Seq::<Seq<u8>>::empty(),
                Some(gt) => match find_from(html, script_close(), gt + 1) {
                    None => Seq::<Seq<u8>>::empty(),
                    Some(close) => {
                        proof {
                            lemma_find_from(html, script_open(), idx);
                            lemma_find_from(html, tag_end(), tag);
                            lemma_find_from(html, script_close(), gt + 1);
                        }
                        let rest = inline_script_bodies(html, close + 9);
                        if find_from(html.subrange(tag, gt + 1), src_attr(), 0) is Some {
                            rest
                        } else {
                            seq![html.subrange(gt + 1, close)] + rest
                        }
                    },
                },
            },
        }
    }
}

/// The `'sha256-...'` source for every inline script body.
pub open spec fn spec_inline_script_hashes(html: Seq<u8>) -> Seq<Seq<char>> {
    inline_script_bodies(html, 0).map_values(|b: Seq<u8>| spec_script_hash_source(b))
}

/// The bytes of a short ASCII pattern.
fn pattern(which: u8) -> (res: Vec<u8>)
    ensures
        which == 0 ==> res@ == script_open(),
        which == 1 ==> res@ == tag_end(),
        which == 2 ==> res@ == script_close(),
        which != 0 && which != 1 && which != 2 ==> res@ == src_attr(),
{
    if which == 0 {
        let v = vec![60u8, 115u8, 99u8, 114u8, 105u8, 112u8, 116u8];
        assert(v@ =~= script_open());
        v
    } else if which == 1 {
        let v = vec![62u8];
        assert(v@ =~= tag_end());
        v
    } else if which == 2 {
        let v = vec![60u8, 47u8, 115u8, 99u8, 114u8, 105u8, 112u8, 116u8, 62u8];
        assert(v@ =~= script_close());
        v
    } else {
        let v = vec![115u8, 114u8, 99u8, 61u8];
        assert(v@ =~= src_attr());
        v
    }
}

/// Whether `needle` occurs in `hay[lo..hi]` at position `at`.
fn occurs_within(hay: &[u8], lo: usize, hi: usize, needle: &Vec<u8>, at: usize) -> (res: bool)
    requires
        lo <= at,
        lo <= hi <= hay@.len(),
    ensures
        res == occurs_at(hay@.subrange(lo as int, hi as int), needle@, at - lo),
{
    let n: usize = needle.len();
    if at > hi || hi - at < n {
        return false;
    }
    let ghost sub = hay@.subrange(lo as int, hi as int);
    let mut k: usize = 0;
    while k < n
        invariant
            n == needle@.len(),
            lo <= at <= hi <= hay@.len(),
            at + n <= hi,
            sub == hay@.subrange(lo as int, hi as int),
            k <= n,
            forall|j: int| 0 <= j < k ==> hay@[at + j] == needle@[j],
        decreases n - k,
    {
        if hay[at + k] != needle[k] {
            assert(sub.subrange(at - lo, at - lo + n)[k as int] != needle@[k as int]);
            return false;
        }
        k = k + 1;
    }
    assert(sub.subrange(at - lo, at - lo + n) =~= needle@);
    true
}

/// `find_from` on `hay[lo..hi]`, counted from `lo`.
fn find_within(hay: &[u8], lo: usize, hi: usize, needle: &Vec<u8>, from: usize) -> (res: Option<usize>)
    requires
        lo <= hi <= hay@.len(),
        from <= hi - lo,
        needle@.len() > 0,
    ensures
        match find_from(hay@.subrange(lo as int, hi as int), needle@, from as int) {
            Some(i) => res == Some(i as usize),
            None => res is None,
        },
{
    let ghost sub = hay@.subrange(lo as int, hi as int);
    let n: usize = needle.len();
    if n > hi - lo {
        return None;
    }
    let mut i: usize = from;
    while n <= hi - lo - i
        invariant
            n == needle@.len(),
            n > 0,
            i <= hi - lo,
            n <= hi - lo,
            lo <= hi <= hay@.len(),
            sub == hay@.subrange(lo as int, hi as int),
            from <= i,
            find_from(sub, needle@, from as int) == find_from(sub, needle@, i as int),
        decreases hi - lo - i,
    {
        if occurs_within(hay, lo, hi, needle, lo + i) {
            return Some(i);
        }
        i = i + 1;
    }
    None
}

/// CSP `'sha256-...'` source for every inline `<script>` (no `src=`) in
/// `html`, in document order.
pub fn inline_script_hashes(html: &str) -> (res: Vec<String>)
    ensures
        res@.map_values(|s: String| s@) == spec_inline_script_hashes(html.spec_bytes()),
{
    let h = html.as_bytes();
    let len: usize = h.len();
    let open = pattern(0);
    let gt_pat = pattern(1);
    let close_pat = pattern(2);
    let src = pattern(3);
    let ghost all = inline_script_bodies(h@, 0).map_values(|b: Seq<u8>| spec_script_hash_source(b));
    let mut out: Vec<String> = Vec::new();
    let mut idx: usize = 0;
    assert(h@.subrange(0, len as int) =~= h@);
    loop
        invariant
            len == h@.len(),
            h@ == html.spec_bytes(),
            open@ == script_open(),
            gt_pat@ == tag_end(),
            close_pat@ == script_close(),
            src@ == src_attr(),
            idx <= len,
            h@.subrange(0, len as int) == h@,
            all == inline_script_bodies(h@, 0).map_values(|b: Seq<u8>| spec_script_hash_source(b)),
            out@.map_values(|s: String| s@) + inline_script_bodies(h@, idx as int).map_values(
                |b: Seq<u8>| spec_script_hash_source(b),
            ) == all,
        decreases len - idx,
    {
        let ghost cur = inline_script_bodies(h@, idx as int);
        let tag = match find_within(h, 0, len, &open, idx) {
            Some(t) => t,
            None => {
                assert(cur =~= Seq::<Seq<u8>>::empty());
                assert(out@.map_values(|s: String| s@) =~= all);
                return out;
            },
        };
        proof {
            lemma_find_from(h@, script_open(), idx as int);
        }
        let gt = match find_within(h, 0, len, &gt_pat, tag) {
            Some(g) => g,
            None => {
                assert(cur =~= Seq::<Seq<u8>>::empty());
                assert(out@.map_values(|s: String| s@) =~= all);
                return out;
            },
        };
        proof {
            lemma_find_from(h@, tag_end(), tag as int);
        }
        let close = match find_within(h, 0, len, &close_pat, gt + 1) {
            Some(c) => c,
            None => {
                assert(cur =~= Seq::<Seq<u8>>::empty());
                assert(out@.map_values(|s: String| s@) =~= all);
                return out;
            },
        };
        proof {
            lemma_find_from(h@, script_close(), gt + 1);
        }
        let ghost rest = inline_script_bodies(h@, close + 9);
        let ghost f = |b: Seq<u8>| spec_script_hash_source(b);
        let external = find_within(h, tag, gt + 1, &src, 0).is_some();
        if !external {
            let ghost body = h@.subrange(gt + 1, close as int);
            assert(cur == seq![body] + rest);
            let hashed = script_hash_source(&h[gt + 1..close]);
            let ghost before = out@.map_values(|s: String| s@);
            out.push(hashed);
            assert(out@.map_values(|s: String| s@) =~= before.push(f(body)));
            assert((seq![body] + rest).map_values(f) =~= seq![f(body)] + rest.map_values(f));
            assert(before.push(f(body)) + rest.map_values(f) =~= before + (seq![f(body)]
                + rest.map_values(f)));
        } else {
            assert(cur == rest);
        }
        idx = close + 9;
    }
}

/// An occurrence at `p` with none before it from `from` on is what
/// `find_from` reports.
pub proof fn lemma_find_from_first(hay: Seq<u8>, needle: Seq<u8>, from: int, p: int)
    requires
        0 <= from <= p,
        occurs_at(hay, needle, p),
        forall|j: int| from <= j < p ==> !occurs_at(hay, needle, j),
    ensures
        find_from(hay, needle, from) == Some(p),
    decreases p - from,
{
    if from < p {
        assert(!occurs_at(hay, needle, from));
        lemma_find_from_first(hay, needle, from + 1, p);
    }
}

/// Whether an opening tag holds `src=`, which makes the script external.
pub open spec fn has_src(open_tag: Seq<u8>) -> bool {
    find_from(open_tag, src_attr(), 0) is Some
}

/// Law: an opening tag counts as external exactly when the bytes `src=`
/// occur in it, at any position.
pub proof fn lemma_has_src_anywhere(open_tag: Seq<u8>)
    ensures
        has_src(open_tag) <==> exists|i: int| #[trigger] occurs_at(open_tag, src_attr(), i),
{
    lemma_find_from(open_tag, src_attr(), 0);
    if exists|i: int| #[trigger] occurs_at(open_tag, src_attr(), i) {
        let i = choose|i: int| #[trigger] occurs_at(open_tag, src_attr(), i);
        assert(0 <= i);
    }
}

/// Law: the scan takes the `<script>` elements one at a time. For the next
/// element from `idx` on, opening at `tag`, whose opening tag ends at the
/// first `>` (at `gt`) and whose body ends at the first `</script>` (at
/// `close`): an external element (`src=` in its opening tag) contributes no
/// hash, an inline one contributes its body; the scan goes on after its
/// closing tag.
pub proof fn lemma_one_script_element(html: Seq<u8>, idx: int, tag: int, gt: int, close: int)
    requires
        0 <= idx <= tag,
        occurs_at(html, script_open(), tag),
        forall|j: int| idx <= j < tag ==> !occurs_at(html, script_open(), j),
        tag <= gt,
        occurs_at(html, tag_end(), gt),
        forall|j: int| tag <= j < gt ==> !occurs_at(html, tag_end(), j),
        gt + 1 <= close,
        occurs_at(html, script_close(), close),
        forall|j: int| gt + 1 <= j < close ==> !occurs_at(html, script_close(), j),
    ensures
        inline_script_bodies(html, idx) == if exists|i: int|
            #[trigger] occurs_at(html.subrange(tag, gt + 1), src_attr(), i) {
            inline_script_bodies(html, close + 9)
        } else {
            seq![html.subrange(gt + 1, close)] + inline_script_bodies(html, close + 9)
        },
{
    lemma_has_src_anywhere(html.subrange(tag, gt + 1));
    lemma_find_from_first(html, script_open(), idx, tag);
    lemma_find_from_first(html, tag_end(), tag, gt);
    lemma_find_from_first(html, script_close(), gt + 1, close);
}

/// Law: every policy begins by allowing same-origin scripts and wasm
/// instantiation in `script-src`, whatever the hashes.
pub proof fn lemma_policy_allows_wasm(hashes: Seq<Seq<char>>)
    ensures
        csp_policy(hashes).subrange(0, csp_head().len() + "'self' 'wasm-unsafe-eval'"@.len() as int)
            == csp_head() + "'self' 'wasm-unsafe-eval'"@,
{
    lemma_sources_prefix(hashes);
    let p = csp_policy(hashes);
    let n = (csp_head().len() + "'self' 'wasm-unsafe-eval'"@.len()) as int;
    assert(p.subrange(0, n) =~= csp_head() + "'self' 'wasm-unsafe-eval'"@);
}

/// The `script-src` list always starts with `'self' 'wasm-unsafe-eval'`.
pub proof fn lemma_sources_prefix(hashes: Seq<Seq<char>>)
    ensures
        script_sources(hashes).len() >= "'self' 'wasm-unsafe-eval'"@.len(),
        script_sources(hashes).subrange(0, "'self' 'wasm-unsafe-eval'"@.len() as int)
            == "'self' 'wasm-unsafe-eval'"@,
    decreases hashes.len(),
{
    let base = "'self' 'wasm-unsafe-eval'"@;
    if hashes.len() == 0 {
        assert(script_sources(hashes).subrange(0, base.len() as int) =~= base);
    } else {
        lemma_sources_prefix(hashes.drop_last());
        let prev = script_sources(hashes.drop_last());
        let cur = prev.push(' ') + hashes.last();
        assert(cur.subrange(0, base.len() as int) =~= prev.subrange(0, base.len() as int));
    }
}

/// Law: the policy always holds `worker-src 'self' blob:`, so the player's
/// AudioWorklet module can load.
pub proof fn lemma_policy_allows_workers(hashes: Seq<Seq<char>>)
    ensures
        exists|i: int|
            0 <= i && i + csp_worker_src().len() <= csp_policy(hashes).len()
                && #[trigger] csp_policy(hashes).subrange(i, i + csp_worker_src().len())
                == csp_worker_src(),
{
    let p = csp_policy(hashes);
    let i = (csp_head().len() + script_sources(hashes).len() + csp_middle().len()) as int;
    assert(p.subrange(i, i + csp_worker_src().len()) =~= csp_worker_src());
}

/// Each hash after one space, in order.
pub open spec fn spaced_hashes(hashes: Seq<Seq<char>>) -> Seq<char>
    decreases hashes.len(),
{
    if hashes.len() == 0 {
        Seq::<char>::empty()
    } else {
        spaced_hashes(hashes.drop_last()) + seq![' '] + hashes.last()
    }
}

proof fn lemma_sources_are_base_and_hashes(hashes: Seq<Seq<char>>)
    ensures
        script_sources(hashes) == "'self' 'wasm-unsafe-eval'"@ + spaced_hashes(hashes),
    decreases hashes.len(),
{
    if hashes.len() == 0 {
        assert("'self' 'wasm-unsafe-eval'"@ + spaced_hashes(hashes) =~= "'self' 'wasm-unsafe-eval'"@);
    } else {
        lemma_sources_are_base_and_hashes(hashes.drop_last());
        let base = "'self' 'wasm-unsafe-eval'"@;
        let prev = spaced_hashes(hashes.drop_last());
        assert((base + prev).push(' ') + hashes.last() =~= base + (prev + seq![' ']
            + hashes.last()));
    }
}

/// Law: the hashes go into `script-src` only, each after one space, in the
/// order given: the policy is the policy without hashes with them inserted
/// right after `'wasm-unsafe-eval'`, and nowhere else.
pub proof fn lemma_hashes_only_in_script_src(hashes: Seq<Seq<char>>)
    ensures
        ({
            let bare = csp_policy(Seq::<Seq<char>>::empty());
            let k = (csp_head().len() + "'self' 'wasm-unsafe-eval'"@.len()) as int;
            csp_policy(hashes) == bare.take(k) + spaced_hashes(hashes) + bare.skip(k)
        }),
{
    lemma_sources_are_base_and_hashes(hashes);
    lemma_sources_are_base_and_hashes(Seq::<Seq<char>>::empty());
    let base = "'self' 'wasm-unsafe-eval'"@;
    let bare = csp_policy(Seq::<Seq<char>>::empty());
    let k = csp_head().len() + base.len();
    let rest = csp_middle() + csp_worker_src() + csp_tail();
    assert(spaced_hashes(Seq::<Seq<char>>::empty()) =~= Seq::<char>::empty());
    assert(bare =~= csp_head() + base + rest);
    assert(bare.take(k as int) =~= csp_head() + base);
    assert(bare.skip(k as int) =~= rest);
    assert(csp_policy(hashes) =~= csp_head() + base + spaced_hashes(hashes) + rest);
}

/// Law: every hash handed in is allowed: it stands in the `script-src` list,
/// after a space.
pub proof fn lemma_sources_hold_each_hash(hashes: Seq<Seq<char>>, k: int)
    requires
        0 <= k < hashes.len(),
    ensures
        exists|i: int|
            0 <= i && i + 1 + hashes[k].len() <= script_sources(hashes).len()
                && #[trigger] script_sources(hashes).subrange(i, i + 1 + hashes[k].len())
                == seq![' '] + hashes[k],
    decreases hashes.len(),
{
    let prev = script_sources(hashes.drop_last());
    let cur = prev.push(' ') + hashes.last();
    assert(script_sources(hashes) == cur);
    if k == hashes.len() - 1 {
        let i = prev.len() as int;
        assert(hashes.last() == hashes[k]);
        assert(cur.subrange(i, i + 1 + hashes[k].len()) =~= seq![' '] + hashes[k]);
    } else {
        lemma_sources_hold_each_hash(hashes.drop_last(), k);
        let i = choose|i: int|
            0 <= i && i + 1 + hashes.drop_last()[k].len() <= prev.len()
                && #[trigger] prev.subrange(i, i + 1 + hashes.drop_last()[k].len()) == seq![' ']
                + hashes.drop_last()[k];
        assert(hashes.drop_last()[k] == hashes[k]);
        assert(cur.subrange(i, i + 1 + hashes[k].len()) =~= prev.subrange(
            i,
            i + 1 + hashes[k].len(),
        ));
    }
}

} // verus!
