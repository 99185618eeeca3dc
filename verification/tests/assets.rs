use studio_core::assets::{families_from, Family, Pinned};
use studio_core::assets::{archive_path, check_download, release_url, write_digest};
use studio_core::paths::PathError;

const ABC: &str = "sha256:ba7816bf8f01cfea414140de5dae2223b00361a396177a9cb410ff61f20015ad";

#[test]
fn an_archive_is_named_after_its_family() {
    assert_eq!(archive_path("/fonts", "noto_sans").unwrap(), "/fonts/noto_sans.tar.gz");
    assert_eq!(archive_path("/fonts/", "lato").unwrap(), "/fonts/lato.tar.gz");
    assert_eq!(archive_path("/fonts", "../../x"), Err(PathError::Separator));
}

#[test]
fn a_pinned_release_is_fetched_from_its_own_tag() {
    let url = release_url("versatiles-org/versatiles-fonts", "v2.0.0", "noto_sans.tar.gz");
    assert_eq!(url, "https://github.com/versatiles-org/versatiles-fonts/releases/download/v2.0.0/noto_sans.tar.gz");
    assert!(!url.contains("/latest/"));
}

#[test]
fn an_archive_that_is_not_what_was_pinned_is_refused() {
    assert!(check_download("noto_sans", b"abc", ABC).is_ok());
    let error = check_download("noto_sans", b"something else", ABC).unwrap_err();
    assert_eq!(error.expected, ABC);
    assert_ne!(error.found, ABC);
    assert!(error.found.starts_with("sha256:") && error.found.len() == 71);
}

#[test]
fn a_digest_is_written_in_lowercase_hex() {
    assert_eq!(write_digest(&vec![0x0a, 0x14, 0x1e, 0xff]), "sha256:0a141eff");
}

#[test]
fn families_are_listed_in_the_manifest_s_order_with_what_is_installed() {
    let pin = |id: &str, bytes: u64| Pinned { id: id.to_string(), url: format!("https://x/{id}"), digest: String::new(), bytes };
    let listed = families_from(&vec![pin("noto", 10), pin("fira", 20)], &vec![false, true]);
    assert_eq!(
        listed,
        vec![
            Family { id: "noto".to_string(), bytes: 10, installed: false },
            Family { id: "fira".to_string(), bytes: 20, installed: true },
        ]
    );
}
