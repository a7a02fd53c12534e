//! The version line.

use edge_worker::get_version_info;

#[test]
fn test_get_version_info() {
    let version = get_version_info("0.1.0", "unknown");
    assert!(version.contains("Inscenium Edge Worker WASM"));
    assert!(version.contains("Rust"));
}

#[test]
fn version_line_is_put_together_from_its_parts() {
    assert_eq!(
        get_version_info("1.2.3", "1.80.0"),
        "Inscenium Edge Worker WASM v1.2.3 - Built with Rust 1.80.0"
    );
    assert_eq!(get_version_info("", ""), "Inscenium Edge Worker WASM v - Built with Rust ");
}
