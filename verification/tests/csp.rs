use tracker_backend::csp::{build_csp, inline_script_hashes};
use tracker_backend::digest::{content_hash, script_hash_source};

#[test]
fn hashes_inline_scripts_skips_external() {
    let html = r#"<script src="/app.js"></script><script>abc</script>"#;
    assert_eq!(
        inline_script_hashes(html),
        vec!["'sha256-ungWv48Bz+pBQUDeXa4iI7ADYaOWF3qctBD/YfIAFa0='"]
    );
}

#[test]
fn csp_allows_wasm_and_workers() {
    let csp = build_csp(&["'sha256-X'".into()]);
    assert!(csp.contains("script-src 'self' 'wasm-unsafe-eval' 'sha256-X'"));
    assert!(csp.contains("worker-src 'self' blob:"));
    assert!(!csp.contains("script-src 'self' 'unsafe-inline'"));
}

#[test]
fn csp_without_hashes_is_exact() {
    assert_eq!(
        build_csp(&[]),
        "default-src 'self'; script-src 'self' 'wasm-unsafe-eval'; \
         style-src 'self' 'unsafe-inline' https://fonts.googleapis.com; \
         font-src 'self' data: https://fonts.gstatic.com; img-src 'self' data: blob:; \
         connect-src 'self'; worker-src 'self' blob:; child-src 'self' blob:; \
         frame-ancestors 'none'; base-uri 'self'; object-src 'none'; form-action 'self'"
    );
}

#[test]
fn csp_lists_every_hash_in_order() {
    let csp = build_csp(&["'sha256-A'".into(), "'sha256-B'".into()]);
    assert!(csp.starts_with(
        "default-src 'self'; script-src 'self' 'wasm-unsafe-eval' 'sha256-A' 'sha256-B'; style-src"
    ));
}

#[test]
fn inline_scripts_in_document_order() {
    let html = "<html><script type=\"module\">x</script><p>\u{e9}</p><script>abc</script></html>";
    let hashes = inline_script_hashes(html);
    assert_eq!(hashes.len(), 2);
    assert_eq!(hashes[0], script_hash_source(b"x"));
    assert_eq!(hashes[1], "'sha256-ungWv48Bz+pBQUDeXa4iI7ADYaOWF3qctBD/YfIAFa0='");
}

#[test]
fn unclosed_script_stops_the_scan() {
    assert!(inline_script_hashes("<script>abc").is_empty());
    assert!(inline_script_hashes("<script abc</script>").is_empty());
    assert!(inline_script_hashes("no scripts here").is_empty());
    assert!(inline_script_hashes("").is_empty());
}

#[test]
fn empty_inline_script_is_hashed() {
    // SHA-256 of the empty string.
    assert_eq!(
        inline_script_hashes("<script></script>"),
        vec!["'sha256-47DEQpj8HBSa+/TImW+5JCeuQeRkm5NMpJWZG3hSuFU='"]
    );
}

#[test]
fn content_hash_is_lowercase_hex_sha256() {
    assert_eq!(
        content_hash(b"abc"),
        "ba7816bf8f01cfea414140de5dae2223b00361a396177a9cb410ff61f20015ad"
    );
    assert_eq!(
        content_hash(b""),
        "e3b0c44298fc1c149afbf4c8996fb92427ae41e4649b934ca495991b7852b855"
    );
    assert_eq!(content_hash(b"MODDATA").len(), 64);
}

#[test]
fn script_hash_source_pads_base64() {
    assert_eq!(
        script_hash_source(b"abc"),
        "'sha256-ungWv48Bz+pBQUDeXa4iI7ADYaOWF3qctBD/YfIAFa0='"
    );
}
