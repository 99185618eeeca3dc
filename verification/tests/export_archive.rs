use studio_core::archive::is_compressed;
use studio_core::export::is_writable;

#[test]
fn only_the_formats_studio_offers_are_writable() {
    assert!(is_writable("out.versatiles"));
    assert!(is_writable("out.mbtiles"));
    assert!(is_writable("out.pmtiles"));
    // Case is the filesystem's business, not the user's.
    assert!(is_writable("OUT.MBTiles"));

    assert!(!is_writable("out.geojson"));
    assert!(!is_writable("out"));
    assert!(!is_writable("out.tar"), "a tar is a way to serve, not a file to hand over");
}

#[test]
fn a_directory_or_a_hidden_name_is_not_a_container() {
    assert!(is_writable("/tmp/x/out.pmtiles"));
    assert!(!is_writable(".mbtiles"));
    assert!(!is_writable("/tmp/out.mbtiles/.."));
}

/// The rule the two bundles used to disagree about.
#[test]
fn what_is_already_compressed_is_stored_rather_than_deflated() {
    for name in ["a.versatiles", "a.mbtiles", "a.png", "a.JPEG", "fonts/x.gz"] {
        assert!(is_compressed(name), "{name} should be stored");
    }
    for name in ["project.yaml", "style.json", "berlin.vpl", "x.pbf"] {
        assert!(!is_compressed(name), "{name} should be deflated");
    }
}

#[test]
fn the_scratch_file_is_beside_its_target() {
    let scratch = studio_core::export::scratch_name("berlin.versatiles");
    assert_ne!(scratch, "berlin.versatiles");
    assert_eq!(scratch, "berlin.writing.versatiles", "the extension has to stay last - the writer picks its format from it");
    assert_eq!(studio_core::export::scratch_name("README"), "README.writing");
}

#[test]
fn an_export_too_large_to_write_is_refused_before_it_starts() {
    assert!(studio_core::export::admits(0));
    assert!(studio_core::export::admits(studio_core::export::MAX_TILES));
    assert!(!studio_core::export::admits(studio_core::export::MAX_TILES + 1));
}
