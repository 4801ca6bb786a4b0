use straptrack::source::{compression_of, is_permissive, Compression};

#[test]
fn compression_by_suffix() {
    assert_eq!(compression_of("log.txt"), Compression::Plain);
    assert_eq!(compression_of("a.strap"), Compression::Plain);
    assert_eq!(compression_of("a.strap.gz"), Compression::Gzip);
    assert_eq!(compression_of("a.GZIP"), Compression::Gzip);
    assert_eq!(compression_of("a.zst"), Compression::Zstd);
    assert_eq!(compression_of("a.log.ZSTD"), Compression::Zstd);
    assert_eq!(compression_of("a.Zip"), Compression::Zip);
    assert_eq!(compression_of("gz"), Compression::Plain);
    assert_eq!(compression_of(""), Compression::Plain);
}

#[test]
fn permissive_by_telemetry_suffix() {
    assert!(is_permissive("run.strap"));
    assert!(is_permissive("run.STRAP"));
    assert!(is_permissive("run.strap.gz"));
    assert!(is_permissive("run.strap.zstd"));
    assert!(is_permissive("run.strap.zip"));
    assert!(!is_permissive("run.log"));
    assert!(!is_permissive("run.log.gz"));
    assert!(!is_permissive("run.strap.txt"));
    assert!(!is_permissive("run.strap.gz.gz"));
    assert!(!is_permissive(""));
}
