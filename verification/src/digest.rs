//! Content hashing: SHA-256 from `sha2`, rendered as lower-case hex (the
//! index's content hash) or as standard base64 (CSP script sources).

use vstd::prelude::*;

use sha2::Digest;

verus! {

/// The SHA-256 digest of `data`, as `sha2::Sha256::digest` computes it.
pub uninterp spec fn sha256(data: Seq<u8>) -> Seq<u8>;

/// Calls `sha2::Sha256::digest`. Claims that the digest is a function of the
/// input bytes alone, named `sha256`, and that it is 32 bytes long (the
/// output type is `GenericArray<u8, U32>`). The SHA-256 algorithm itself is
/// left unstated.
#[verifier::external_body]
fn sha256_digest(data: &[u8]) -> (res: Vec<u8>)
    ensures
        res@ == sha256(data@),
        res@.len() == 32,
{
    sha2::Sha256::digest(data).to_vec()
}

/// The lower-case hexadecimal digit for `v` in `0..16`.
pub open spec fn hex_digit(v: int) -> char {
    if v < 10 {
        ('0' as int + v) as char
    } else {
        ('a' as int + (v - 10)) as char
    }
}

/// Lower-case hexadecimal rendering: two digits per byte, high nibble first.
pub open spec fn hex_lower(data: Seq<u8>) -> Seq<char>
    decreases data.len(),
{
    if data.len() == 0 {
        Seq::<char>::empty()
    } else {
        let b = data[0] as int;
        seq![hex_digit(b / 16), hex_digit(b % 16)] + hex_lower(data.drop_first())
    }
}

/// Calls `hex::encode`. Claims what its source does: each byte becomes two
/// characters of `0123456789abcdef`, the high nibble first, in input order.
#[verifier::external_body]
fn hex_encode(data: &[u8]) -> (res: String)
    ensures
        res@ == hex_lower(data@),
{
    hex::encode(data)
}

/// The character of the standard base64 alphabet for `v` in `0..64`:
/// `A`-`Z`, `a`-`z`, `0`-`9`, `+`, `/`.
pub open spec fn base64_digit(v: int) -> char {
    if v < 26 {
        ('A' as int + v) as char
    } else if v < 52 {
        ('a' as int + (v - 26)) as char
    } else if v < 62 {
        ('0' as int + (v - 52)) as char
    } else if v == 62 {
        '+'
    } else {
        '/'
    }
}

/// Standard base64 with `=` padding (RFC 4648): each group of three bytes
/// becomes four characters; a final group of one or two bytes is padded.
pub open spec fn base64_standard(d: Seq<u8>) -> Seq<char>
    decreases d.len(),
{
    let b0 = if d.len() > 0 { d[0] as int } else { 0 };
    let b1 = if d.len() > 1 { d[1] as int } else { 0 };
    let b2 = if d.len() > 2 { d[2] as int } else { 0 };
    if d.len() == 0 {
        Seq::<char>::empty()
    } else if d.len() == 1 {
        seq![base64_digit(b0 / 4), base64_digit((b0 % 4) * 16), '=', '=']
    } else if d.len() == 2 {
        seq![
            base64_digit(b0 / 4),
            base64_digit((b0 % 4) * 16 + b1 / 16),
            base64_digit((b1 % 16) * 4),
            '=',
        ]
    } else {
        seq![
            base64_digit(b0 / 4),
            base64_digit((b0 % 4) * 16 + b1 / 16),
            base64_digit((b1 % 16) * 4 + b2 / 64),
            base64_digit(b2 % 64),
        ] + base64_standard(d.skip(3))
    }
}

/// Calls `Engine::encode` of `base64::engine::general_purpose::STANDARD`.
/// Claims what its source does: the standard alphabet with `=` padding. The
/// engine panics when the encoded length overflows `usize`; `requires`
/// keeps inputs well below that.
#[verifier::external_body]
fn base64_encode(data: &[u8]) -> (res: String)
    requires
        data@.len() <= usize::MAX / 2,
    ensures
        res@ == base64_standard(data@),
{
    base64::Engine::encode(&base64::engine::general_purpose::STANDARD, data)
}

/// The index's content hash of a file's bytes: SHA-256, in lower-case hex.
pub open spec fn spec_content_hash(data: Seq<u8>) -> Seq<char> {
    hex_lower(sha256(data))
}

/// Content hash of a file's bytes: SHA-256 in lower-case hex, 64 characters.
pub fn content_hash(data: &[u8]) -> (res: String)
    ensures
        res@ == spec_content_hash(data@),
        res@ == hex_lower(sha256(data@)),
        res@.len() == 64,
{
    let digest = sha256_digest(data);
    proof {
        lemma_hex_len(digest@);
    }
    hex_encode(digest.as_slice())
}

/// The CSP source expression that allows an inline script whose body is
/// `body`: `'sha256-<base64 digest>'`.
pub open spec fn spec_script_hash_source(body: Seq<u8>) -> Seq<char> {
    "'sha256-"@ + base64_standard(sha256(body)) + "'"@
}

/// The CSP source expression `'sha256-<base64 of the SHA-256 of body>'`.
pub fn script_hash_source(body: &[u8]) -> (res: String)
    ensures
        res@ == spec_script_hash_source(body@),
        res@ == "'sha256-"@ + base64_standard(sha256(body@)) + "'"@,
{
    let digest = sha256_digest(body);
    let encoded = base64_encode(digest.as_slice());
    let mut out = String::from_str("'sha256-");
    out.append(encoded.as_str());
    out.append("'");
    out
}

/// Hex rendering gives two characters per byte.
pub proof fn lemma_hex_len(data: Seq<u8>)
    ensures
        hex_lower(data).len() == 2 * data.len(),
    decreases data.len(),
{
    if data.len() > 0 {
        lemma_hex_len(data.drop_first());
    }
}

proof fn lemma_hex_digit_injective(a: int, b: int)
    requires
        0 <= a < 16,
        0 <= b < 16,
        hex_digit(a) == hex_digit(b),
    ensures
        a == b,
{
    assert(hex_digit(a) as int == if a < 10 { '0' as int + a } else { 'a' as int + (a - 10) });
    assert(hex_digit(b) as int == if b < 10 { '0' as int + b } else { 'a' as int + (b - 10) });
}

/// Distinct byte strings have distinct hex renderings.
pub proof fn lemma_hex_lower_injective(x: Seq<u8>, y: Seq<u8>)
    requires
        hex_lower(x) == hex_lower(y),
    ensures
        x == y,
    decreases x.len(),
{
    lemma_hex_len(x);
    lemma_hex_len(y);
    if x.len() > 0 {
        let a = x[0] as int;
        let b = y[0] as int;
        assert(hex_lower(x)[0] == hex_digit(a / 16));
        assert(hex_lower(y)[0] == hex_digit(b / 16));
        assert(hex_lower(x)[1] == hex_digit(a % 16));
        assert(hex_lower(y)[1] == hex_digit(b % 16));
        lemma_hex_digit_injective(a / 16, b / 16);
        lemma_hex_digit_injective(a % 16, b % 16);
        assert(a == 16 * (a / 16) + a % 16);
        assert(b == 16 * (b / 16) + b % 16);
        assert(hex_lower(x.drop_first()) =~= hex_lower(x).skip(2));
        assert(hex_lower(y.drop_first()) =~= hex_lower(y).skip(2));
        lemma_hex_lower_injective(x.drop_first(), y.drop_first());
        assert(x =~= seq![x[0]] + x.drop_first());
        assert(y =~= seq![y[0]] + y.drop_first());
    } else {
        assert(x =~= y);
    }
}

/// Law: the content hash covers every byte of a file. Two files get the same
/// content hash exactly when the SHA-256 digests of their whole contents
/// agree, so files that differ anywhere, however far in, are told apart
/// whenever their digests differ.
pub proof fn lemma_content_hash_identifies(d1: Seq<u8>, d2: Seq<u8>)
    ensures
        spec_content_hash(d1) == spec_content_hash(d2) <==> sha256(d1) == sha256(d2),
        spec_content_hash(d1) == hex_lower(sha256(d1)),
{
    if spec_content_hash(d1) == spec_content_hash(d2) {
        lemma_hex_lower_injective(sha256(d1), sha256(d2));
    }
}

proof fn lemma_base64_digit(a: int, b: int)
    requires
        0 <= a < 64,
        0 <= b < 64,
    ensures
        base64_digit(a) != '=',
        base64_digit(a) == base64_digit(b) ==> a == b,
{
    assert(base64_digit(a) as int == if a < 26 {
        'A' as int + a
    } else if a < 52 {
        'a' as int + (a - 26)
    } else if a < 62 {
        '0' as int + (a - 52)
    } else if a == 62 {
        '+' as int
    } else {
        '/' as int
    });
    assert(base64_digit(b) as int == if b < 26 {
        'A' as int + b
    } else if b < 52 {
        'a' as int + (b - 26)
    } else if b < 62 {
        '0' as int + (b - 52)
    } else if b == 62 {
        '+' as int
    } else {
        '/' as int
    });
}

/// Distinct byte strings have distinct base64 renderings.
pub proof fn lemma_base64_injective(x: Seq<u8>, y: Seq<u8>)
    requires
        base64_standard(x) == base64_standard(y),
    ensures
        x == y,
    decreases x.len(),
{
    let ex = base64_standard(x);
    let ey = base64_standard(y);
    if x.len() == 0 || y.len() == 0 {
        assert(x.len() > 0 ==> ex.len() >= 4);
        assert(y.len() > 0 ==> ey.len() >= 4);
        assert(x =~= y);
    } else {
        let x0 = x[0] as int;
        let y0 = y[0] as int;
        let x1 = if x.len() > 1 { x[1] as int } else { 0 };
        let y1 = if y.len() > 1 { y[1] as int } else { 0 };
        let x2 = if x.len() > 2 { x[2] as int } else { 0 };
        let y2 = if y.len() > 2 { y[2] as int } else { 0 };
        assert(ex[0] == base64_digit(x0 / 4) && ey[0] == base64_digit(y0 / 4));
        assert(ex[1] == base64_digit((x0 % 4) * 16 + x1 / 16));
        assert(ey[1] == base64_digit((y0 % 4) * 16 + y1 / 16));
        lemma_base64_digit(x0 / 4, y0 / 4);
        lemma_base64_digit((x0 % 4) * 16 + x1 / 16, (y0 % 4) * 16 + y1 / 16);
        lemma_base64_digit((x1 % 16) * 4 + x2 / 64, (y1 % 16) * 4 + y2 / 64);
        lemma_base64_digit(x2 % 64, y2 % 64);
        lemma_base64_digit((x0 % 4) * 16, (y0 % 4) * 16);
        lemma_base64_digit((x1 % 16) * 4, (y1 % 16) * 4);
        // The padding tells how many bytes the first group holds.
        assert(x.len() == 1 <==> y.len() == 1);
        assert(x.len() == 2 <==> y.len() == 2);
        assert(x0 == 4 * (x0 / 4) + x0 % 4 && y0 == 4 * (y0 / 4) + y0 % 4);
        assert(x1 == 16 * (x1 / 16) + x1 % 16 && y1 == 16 * (y1 / 16) + y1 % 16);
        assert(x2 == 64 * (x2 / 64) + x2 % 64 && y2 == 64 * (y2 / 64) + y2 % 64);
        assert(x0 == y0);
        if x.len() == 1 {
            assert(x =~= y);
        } else if x.len() == 2 {
            assert(x1 == y1);
            assert(x =~= y);
        } else {
            assert(ex[2] == base64_digit((x1 % 16) * 4 + x2 / 64));
            assert(ey[2] == base64_digit((y1 % 16) * 4 + y2 / 64));
            assert(ex[3] == base64_digit(x2 % 64));
            assert(ey[3] == base64_digit(y2 % 64));
            assert(x1 == y1);
            assert(x2 == y2);
            assert(base64_standard(x.skip(3)) =~= ex.skip(4));
            assert(base64_standard(y.skip(3)) =~= ey.skip(4));
            lemma_base64_injective(x.skip(3), y.skip(3));
            assert(x =~= x.take(3) + x.skip(3));
            assert(y =~= y.take(3) + y.skip(3));
            assert(x.take(3) =~= y.take(3));
        }
    }
}

/// Law: a script's CSP source covers every byte of its body. Two bodies get
/// the same `'sha256-...'` source exactly when the SHA-256 digests of the
/// whole bodies agree, so a body the browser hashes differently (one more
/// or one fewer byte anywhere) is not allowed by the source of another
/// whenever their digests differ.
pub proof fn lemma_script_hash_source_identifies(b1: Seq<u8>, b2: Seq<u8>)
    ensures
        spec_script_hash_source(b1) == spec_script_hash_source(b2) <==> sha256(b1) == sha256(
            b2,
        ),
        spec_script_hash_source(b1) == "'sha256-"@ + base64_standard(sha256(b1)) + "'"@,
{
    if spec_script_hash_source(b1) == spec_script_hash_source(b2) {
        let pre = "'sha256-"@;
        let post = "'"@;
        let s1 = spec_script_hash_source(b1);
        let s2 = spec_script_hash_source(b2);
        let e1 = base64_standard(sha256(b1));
        let e2 = base64_standard(sha256(b2));
        assert(s1.len() == pre.len() + e1.len() + post.len());
        assert(e1.len() == e2.len());
        assert(e1 =~= s1.subrange(pre.len() as int, (pre.len() + e1.len()) as int));
        assert(e2 =~= s2.subrange(pre.len() as int, (pre.len() + e2.len()) as int));
        lemma_base64_injective(sha256(b1), sha256(b2));
    }
}

} // verus!
