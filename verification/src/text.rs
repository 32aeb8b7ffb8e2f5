//! Character-level helpers on `str` and `String` used across the crate:
//! splitting on a separator, trimming white space, comparing and slicing.

use vstd::prelude::*;

verus! {

/// The pieces of `s` between occurrences of `sep`, as `str::split` yields
/// them: always at least one piece, and `k` separators give `k + 1` pieces.
/// Defined by the last character, so that extending `s` by one character is
/// one unfolding.
pub open spec fn split_on(s: Seq<char>, sep: char) -> Seq<Seq<char>>
    decreases s.len(),
{
    if s.len() == 0 {
        seq![Seq::<char>::empty()]
    } else if s.last() == sep {
        split_on(s.drop_last(), sep).push(Seq::<char>::empty())
    } else {
        let pieces = split_on(s.drop_last(), sep);
        pieces.update(pieces.len() - 1, pieces.last().push(s.last()))
    }
}

/// `split_on` never yields an empty list of pieces.
pub proof fn lemma_split_nonempty(s: Seq<char>, sep: char)
    ensures
        split_on(s, sep).len() >= 1,
    decreases s.len(),
{
    if s.len() > 0 {
        lemma_split_nonempty(s.drop_last(), sep);
    }
}

/// Index of the last occurrence of `c` in `s`.
pub open spec fn last_index_of(s: Seq<char>, c: char) -> Option<int>
    decreases s.len(),
{
    if s.len() == 0 {
        None
    } else if s.last() == c {
        Some(s.len() - 1)
    } else {
        last_index_of(s.drop_last(), c)
    }
}

/// A string with no occurrence of `sep` is one piece.
pub proof fn lemma_split_without_sep(s: Seq<char>, sep: char)
    requires
        !s.contains(sep),
    ensures
        split_on(s, sep) == seq![s],
    decreases s.len(),
{
    if s.len() > 0 {
        assert(!s.drop_last().contains(sep)) by {
            if s.drop_last().contains(sep) {
                let k = choose|k: int| 0 <= k < s.drop_last().len() && s.drop_last()[k] == sep;
                assert(s[k] == sep);
            }
        }
        lemma_split_without_sep(s.drop_last(), sep);
        assert(s.last() != sep) by {
            assert(s[s.len() - 1] == s.last());
        }
        assert(s.drop_last().push(s.last()) =~= s);
        let p = split_on(s.drop_last(), sep);
        assert(p.update(p.len() - 1, p.last().push(s.last())) =~= seq![s]);
    } else {
        assert(s =~= Seq::<char>::empty());
    }
}

/// Splitting `a + sep + b` where `b` holds no separator adds `b` as the last
/// piece.
pub proof fn lemma_split_append_piece(a: Seq<char>, b: Seq<char>, sep: char)
    requires
        !b.contains(sep),
    ensures
        split_on(a + seq![sep] + b, sep) == split_on(a, sep).push(b),
    decreases b.len(),
{
    if b.len() == 0 {
        assert(a + seq![sep] + b =~= a.push(sep));
        assert((a.push(sep)).drop_last() =~= a);
        assert((a.push(sep)).last() == sep);
        assert(b =~= Seq::<char>::empty());
    } else {
        assert(!b.drop_last().contains(sep)) by {
            if b.drop_last().contains(sep) {
                let k = choose|k: int| 0 <= k < b.drop_last().len() && b.drop_last()[k] == sep;
                assert(b[k] == sep);
            }
        }
        lemma_split_append_piece(a, b.drop_last(), sep);
        let s = a + seq![sep] + b;
        assert(s.drop_last() =~= a + seq![sep] + b.drop_last());
        assert(s.last() == b.last());
        assert(b.last() != sep) by {
            assert(b[b.len() - 1] == b.last());
        }
        assert(b.drop_last().push(b.last()) =~= b);
        let p = split_on(s.drop_last(), sep);
        assert(p == split_on(a, sep).push(b.drop_last()));
        assert(p.update(p.len() - 1, p.last().push(s.last())) =~= split_on(a, sep).push(b));
    }
}

/// Splitting `a + sep + b` gives the pieces of `a` followed by those of `b`.
pub proof fn lemma_split_concat(a: Seq<char>, b: Seq<char>, sep: char)
    ensures
        split_on(a + seq![sep] + b, sep) == split_on(a, sep) + split_on(b, sep),
    decreases b.len(),
{
    let s = a + seq![sep] + b;
    if b.len() == 0 {
        assert(s =~= a.push(sep));
        assert(s.drop_last() =~= a);
        assert(s.last() == sep);
        assert(split_on(a, sep).push(Seq::<char>::empty()) =~= split_on(a, sep) + split_on(b, sep));
    } else {
        let b2 = b.drop_last();
        lemma_split_concat(a, b2, sep);
        lemma_split_nonempty(b2, sep);
        lemma_split_nonempty(a, sep);
        assert(s.drop_last() =~= a + seq![sep] + b2);
        assert(s.last() == b.last());
        let pa = split_on(a, sep);
        let pb = split_on(b2, sep);
        if b.last() == sep {
            assert((pa + pb).push(Seq::<char>::empty()) =~= pa + pb.push(Seq::<char>::empty()));
        } else {
            let p = pa + pb;
            assert(p.update(p.len() - 1, p.last().push(b.last())) =~= pa + pb.update(
                pb.len() - 1,
                pb.last().push(b.last()),
            ));
        }
    }
}

/// The characters of `s`, in order.
pub fn chars_of(s: &str) -> (res: Vec<char>)
    ensures
        res@ == s@,
{
    let mut res: Vec<char> = Vec::new();
    for c in it: s.chars()
        invariant
            it.seq() == s@,
            res@ == it.seq().take(it.index() as int),
    {
        res.push(c);
    }
    res
}

/// Whether `a` and `b` hold the same characters.
pub fn str_eq(a: &str, b: &str) -> (res: bool)
    ensures
        res == (a@ == b@),
{
    let x = chars_of(a);
    let y = chars_of(b);
    if x.len() != y.len() {
        return false;
    }
    let mut i: usize = 0;
    while i < x.len()
        invariant
            x@ == a@,
            y@ == b@,
            x.len() == y.len(),
            i <= x.len(),
            forall|j: int| 0 <= j < i ==> x@[j] == y@[j],
        decreases x.len() - i,
    {
        if x[i] != y[i] {
            return false;
        }
        i = i + 1;
    }
    assert(x@ =~= y@);
    true
}

/// Whether `s` begins with `prefix`.
pub fn starts_with(s: &str, prefix: &str) -> (res: bool)
    ensures
        res == has_prefix(s@, prefix@),
{
    let x = chars_of(s);
    let p = chars_of(prefix);
    if p.len() > x.len() {
        return false;
    }
    let mut i: usize = 0;
    while i < p.len()
        invariant
            x@ == s@,
            p@ == prefix@,
            p.len() <= x.len(),
            i <= p.len(),
            forall|j: int| 0 <= j < i ==> x@[j] == p@[j],
        decreases p.len() - i,
    {
        if x[i] != p[i] {
            assert(s@.take(prefix@.len() as int)[i as int] != prefix@[i as int]);
            return false;
        }
        i = i + 1;
    }
    assert(s@.take(prefix@.len() as int) =~= prefix@);
    true
}

/// The characters of `s` from position `from` up to, not including, `to`.
pub fn substring(s: &str, from: usize, to: usize) -> (res: String)
    requires
        from <= to <= s@.len(),
    ensures
        res@ == s@.subrange(from as int, to as int),
{
    String::from_str(s.substring_char(from, to))
}

/// The bounds `(start, end)` of each piece of `s` between occurrences of
/// `sep`, in order: piece `i` of `split_on(s, sep)` is `s[start..end]`.
pub fn piece_bounds(s: &Vec<char>, sep: char) -> (res: Vec<(usize, usize)>)
    ensures
        res@.len() == split_on(s@, sep).len(),
        res@.len() >= 1,
        forall|i: int|
            #![trigger res@[i]]
            0 <= i < res@.len() ==> {
                &&& res@[i].0 <= res@[i].1 <= s@.len()
                &&& split_on(s@, sep)[i] == s@.subrange(res@[i].0 as int, res@[i].1 as int)
            },
        forall|i: int| #![trigger res@[i]] 0 <= i < res@.len() - 1 ==> s@[res@[i].1 as int] == sep,
        forall|i: int| 0 <= i < res@.len() - 1 ==> #[trigger] res@[i + 1].0 == res@[i].1 + 1,
        res@[0].0 == 0,
        res@[res@.len() - 1].1 == s@.len(),
{
    let mut res: Vec<(usize, usize)> = Vec::new();
    let mut start: usize = 0;
    let mut i: usize = 0;
    while i < s.len()
        invariant
            i <= s@.len(),
            start <= i,
            res@.len() + 1 == split_on(s@.take(i as int), sep).len(),
            forall|k: int|
                #![trigger res@[k]]
                0 <= k < res@.len() ==> {
                    &&& res@[k].0 <= res@[k].1 < i
                    &&& split_on(s@.take(i as int), sep)[k] == s@.subrange(
                        res@[k].0 as int,
                        res@[k].1 as int,
                    )
                    &&& s@[res@[k].1 as int] == sep
                },
            split_on(s@.take(i as int), sep).last() == s@.subrange(start as int, i as int),
            forall|k: int| 0 <= k < res@.len() - 1 ==> #[trigger] res@[k + 1].0 == res@[k].1 + 1,
            res@.len() > 0 ==> res@[0].0 == 0,
            res@.len() > 0 ==> start == res@[res@.len() - 1].1 + 1,
            res@.len() == 0 ==> start == 0,
        decreases s@.len() - i,
    {
        let ghost before = s@.take(i as int);
        let ghost after = s@.take(i + 1);
        assert(after.drop_last() =~= before);
        assert(after.last() == s@[i as int]);
        let ghost p = split_on(before, sep);
        proof {
            lemma_split_nonempty(before, sep);
        }
        if s[i] == sep {
            assert(split_on(after, sep) == p.push(Seq::<char>::empty()));
            res.push((start, i));
            start = i + 1;
            assert(s@.subrange(start as int, (i + 1) as int) =~= Seq::<char>::empty());
            assert forall|k: int| #![trigger res@[k]] 0 <= k < res@.len() implies {
                &&& res@[k].0 <= res@[k].1 < i + 1
                &&& split_on(s@.take(i + 1), sep)[k] == s@.subrange(
                    res@[k].0 as int,
                    res@[k].1 as int,
                )
                &&& s@[res@[k].1 as int] == sep
            } by {
                assert(split_on(after, sep)[k] == p.push(Seq::<char>::empty())[k]);
            }
        } else {
            let ghost q = p.update(p.len() - 1, p.last().push(s@[i as int]));
            assert(split_on(after, sep) == q);
            assert(s@.subrange(start as int, (i + 1) as int) =~= s@.subrange(
                start as int,
                i as int,
            ).push(s@[i as int]));
            assert forall|k: int| #![trigger res@[k]] 0 <= k < res@.len() implies {
                &&& res@[k].0 <= res@[k].1 < i + 1
                &&& split_on(s@.take(i + 1), sep)[k] == s@.subrange(
                    res@[k].0 as int,
                    res@[k].1 as int,
                )
                &&& s@[res@[k].1 as int] == sep
            } by {
                assert(split_on(after, sep)[k] == q[k]);
            }
        }
        i = i + 1;
    }
    assert(s@.take(s@.len() as int) =~= s@);
    proof {
        lemma_split_nonempty(s@, sep);
    }
    let ghost old_res = res@;
    res.push((start, s.len()));
    assert forall|k: int| #![trigger res@[k]] 0 <= k < res@.len() implies {
        &&& res@[k].0 <= res@[k].1 <= s@.len()
        &&& split_on(s@, sep)[k] == s@.subrange(res@[k].0 as int, res@[k].1 as int)
        &&& k < res@.len() - 1 ==> s@[res@[k].1 as int] == sep
    } by {
        if k < old_res.len() {
            assert(res@[k] == old_res[k]);
        }
    }
    res
}

/// Calls `String::push`; claims what its documentation says: `c` is
/// appended to the end of `s`.
#[verifier::external_body]
pub(crate) fn push_char(s: &mut String, c: char)
    ensures
        final(s)@ == old(s)@.push(c),
{
    s.push(c)
}

/// Whether `s` begins with `prefix`.
pub open spec fn has_prefix(s: Seq<char>, prefix: Seq<char>) -> bool {
    prefix.len() <= s.len() && s.take(prefix.len() as int) == prefix
}

/// Whether `c` has the Unicode `White_Space` property (PropList.txt): tab,
/// line feed, vertical tab, form feed, carriage return, space, next line,
/// no-break space, ogham space mark, the spaces U+2000 to U+200A, line and
/// paragraph separators, narrow no-break space, medium mathematical space
/// and ideographic space.
pub open spec fn white_space(c: char) -> bool {
    let v = c as u32;
    ||| 0x09 <= v <= 0x0d
    ||| v == 0x20
    ||| v == 0x85
    ||| v == 0xa0
    ||| v == 0x1680
    ||| 0x2000 <= v <= 0x200a
    ||| v == 0x2028
    ||| v == 0x2029
    ||| v == 0x202f
    ||| v == 0x205f
    ||| v == 0x3000
}

/// Whether `c` has the Unicode `White_Space` property, the test
/// `char::is_whitespace` makes.
fn is_white_space(c: char) -> (res: bool)
    ensures
        res == white_space(c),
{
    let v = c as u32;
    (0x09 <= v && v <= 0x0d) || v == 0x20 || v == 0x85 || v == 0xa0 || v == 0x1680 || (0x2000
        <= v && v <= 0x200a) || v == 0x2028 || v == 0x2029 || v == 0x202f || v == 0x205f || v
        == 0x3000
}

/// The value of `str::to_lowercase` on `s` (Unicode lower case).
pub uninterp spec fn lowercase(s: Seq<char>) -> Seq<char>;

/// ASCII lower case of one character: `A`-`Z` become `a`-`z`, all else stays.
pub open spec fn ascii_lower(c: char) -> char {
    if 'A' <= c <= 'Z' {
        ((c as u32) + 32) as char
    } else {
        c
    }
}

/// Calls `str::to_lowercase`. Claims that the result is a function of the
/// characters of `s`, named `lowercase`, and, for a string of ASCII
/// characters only, that each upper-case letter becomes its lower-case
/// letter and everything else is kept (the Unicode lower-case mapping of
/// ASCII). For other characters the mapping is left unstated.
#[verifier::external_body]
pub(crate) fn to_lowercase(s: &str) -> (res: String)
    ensures
        res@ == lowercase(s@),
        vstd::utf8::is_ascii_chars(s@) ==> res@ == s@.map_values(|c: char| ascii_lower(c)),
{
    s.to_lowercase()
}

/// `s` without its leading white space.
pub open spec fn trim_start(s: Seq<char>) -> Seq<char>
    decreases s.len(),
{
    if s.len() > 0 && white_space(s[0]) {
        trim_start(s.drop_first())
    } else {
        s
    }
}

/// `s` without its trailing white space.
pub open spec fn trim_end(s: Seq<char>) -> Seq<char>
    decreases s.len(),
{
    if s.len() > 0 && white_space(s.last()) {
        trim_end(s.drop_last())
    } else {
        s
    }
}

/// `s` without leading and trailing white space, as `str::trim` gives it.
pub open spec fn trim(s: Seq<char>) -> Seq<char> {
    trim_end(trim_start(s))
}

proof fn lemma_trim_start_shape(s: Seq<char>) -> (a: int)
    ensures
        0 <= a <= s.len(),
        trim_start(s) == s.skip(a),
        forall|j: int| 0 <= j < a ==> white_space(#[trigger] s[j]),
        a < s.len() ==> !white_space(s[a]),
    decreases s.len(),
{
    if s.len() > 0 && white_space(s[0]) {
        let d = s.drop_first();
        let a = lemma_trim_start_shape(d);
        assert forall|j: int| 0 <= j < a + 1 implies white_space(#[trigger] s[j]) by {
            if j > 0 {
                assert(s[j] == d[j - 1]);
            }
        }
        assert(d.skip(a) =~= s.skip(a + 1));
        if a + 1 < s.len() {
            assert(s[a + 1] == d[a]);
        }
        a + 1
    } else {
        assert(s.skip(0) =~= s);
        0
    }
}

proof fn lemma_trim_end_shape(s: Seq<char>) -> (b: int)
    ensures
        0 <= b <= s.len(),
        trim_end(s) == s.take(b),
        forall|j: int| b <= j < s.len() ==> white_space(#[trigger] s[j]),
        b > 0 ==> !white_space(s[b - 1]),
    decreases s.len(),
{
    if s.len() > 0 && white_space(s.last()) {
        let d = s.drop_last();
        let b = lemma_trim_end_shape(d);
        assert forall|j: int| b <= j < s.len() implies white_space(#[trigger] s[j]) by {
            if j < s.len() - 1 {
                assert(s[j] == d[j]);
            }
        }
        assert(d.take(b) =~= s.take(b));
        if b > 0 {
            assert(s[b - 1] == d[b - 1]);
        }
        b
    } else {
        assert(s.take(s.len() as int) =~= s);
        s.len() as int
    }
}

/// Law: trimming removes exactly the white space at both ends. The result
/// is the run `s[a..b]` of the input with only white space before `a` and
/// from `b` on, and when it is not empty it neither begins nor ends with
/// white space.
pub proof fn lemma_trim_shape(s: Seq<char>) -> (r: (int, int))
    ensures
        0 <= r.0 <= r.1 <= s.len(),
        trim(s) == s.subrange(r.0, r.1),
        forall|j: int| 0 <= j < r.0 ==> white_space(#[trigger] s[j]),
        forall|j: int| r.1 <= j < s.len() ==> white_space(#[trigger] s[j]),
        r.0 < r.1 ==> !white_space(s[r.0]) && !white_space(s[r.1 - 1]),
{
    let a = lemma_trim_start_shape(s);
    let t = s.skip(a);
    let b = lemma_trim_end_shape(t);
    assert(t.take(b) =~= s.subrange(a, a + b));
    assert forall|j: int| a + b <= j < s.len() implies white_space(#[trigger] s[j]) by {
        assert(s[j] == t[j - a]);
    }
    if b > 0 {
        assert(s[a + b - 1] == t[b - 1]);
        assert(s[a] == t[0]);
    }
    (a, a + b)
}

proof fn lemma_trim_start_skip(s: Seq<char>, i: int)
    requires
        0 <= i < s.len(),
        white_space(s[i]),
    ensures
        trim_start(s.skip(i)) == trim_start(s.skip(i + 1)),
{
    assert(s.skip(i).drop_first() =~= s.skip(i + 1));
}

proof fn lemma_trim_end_sub(s: Seq<char>, a: int, j: int)
    requires
        0 <= a < j <= s.len(),
        white_space(s[j - 1]),
    ensures
        trim_end(s.subrange(a, j)) == trim_end(s.subrange(a, j - 1)),
{
    assert(s.subrange(a, j).drop_last() =~= s.subrange(a, j - 1));
}

/// The bounds `(a, b)` of `trim(s)` within `s`.
pub fn trim_bounds(s: &Vec<char>) -> (res: (usize, usize))
    ensures
        res.0 <= res.1 <= s@.len(),
        trim(s@) == s@.subrange(res.0 as int, res.1 as int),
{
    let n: usize = s.len();
    let mut a: usize = 0;
    assert(s@.skip(0) =~= s@);
    while a < n && is_white_space(s[a])
        invariant
            n == s@.len(),
            a <= n,
            trim_start(s@) == trim_start(s@.skip(a as int)),
        decreases n - a,
    {
        proof {
            lemma_trim_start_skip(s@, a as int);
        }
        a = a + 1;
    }
    let ghost rest = s@.skip(a as int);
    assert(trim_start(rest) == rest);
    assert(rest =~= s@.subrange(a as int, n as int));
    let mut b: usize = n;
    while b > a && is_white_space(s[b - 1])
        invariant
            n == s@.len(),
            a <= b <= n,
            trim_end(s@.subrange(a as int, n as int)) == trim_end(s@.subrange(a as int, b as int)),
        decreases b,
    {
        proof {
            lemma_trim_end_sub(s@, a as int, b as int);
        }
        b = b - 1;
    }
    let ghost kept = s@.subrange(a as int, b as int);
    assert(kept.len() > 0 ==> kept.last() == s@[b - 1]);
    assert(trim_end(kept) == kept);
    (a, b)
}

proof fn lemma_trim_start_result(s: Seq<char>)
    ensures
        trim_start(s).len() == 0 || !white_space(trim_start(s)[0]),
    decreases s.len(),
{
    if s.len() > 0 && white_space(s[0]) {
        lemma_trim_start_result(s.drop_first());
    }
}

proof fn lemma_trim_end_result(s: Seq<char>)
    ensures
        trim_end(s).len() == 0 || !white_space(trim_end(s).last()),
    decreases s.len(),
{
    if s.len() > 0 && white_space(s.last()) {
        lemma_trim_end_result(s.drop_last());
    }
}

/// Trimming the end keeps the first character, if any is left.
proof fn lemma_trim_end_keeps_first(s: Seq<char>)
    ensures
        trim_end(s).len() > 0 ==> trim_end(s)[0] == s[0],
    decreases s.len(),
{
    if s.len() > 0 && white_space(s.last()) {
        lemma_trim_end_keeps_first(s.drop_last());
    }
}

/// Law: trimming twice is trimming once.
pub proof fn lemma_trim_idempotent(s: Seq<char>)
    ensures
        trim(trim(s)) == trim(s),
{
    let t = trim(s);
    lemma_trim_start_result(s);
    lemma_trim_end_keeps_first(trim_start(s));
    lemma_trim_end_result(trim_start(s));
    if t.len() > 0 {
        assert(trim_start(t) == t);
        assert(t.last() == t[t.len() - 1]);
        assert(trim_end(t) == t);
    } else {
        assert(trim_start(t) == t);
        assert(trim_end(t) == t);
    }
}

} // verus!
