use atpacks::packs::{DownloadablePack, DownloadablePacks, PackError, PackInfo};
use atpacks::versions::parse_available_versions_from_html;

#[test]
fn from_str_detects_name_and_version() {
    let info = PackInfo::from_str("atmega==1.1").unwrap();
    assert_eq!(info.selected_version, Some("1.1".to_string()));
    assert_eq!(info.name, "atmega");
}

#[test]
fn from_str_returns_none_version_if_omitted() {
    assert_eq!(PackInfo::from_str("atmega").unwrap().selected_version, None);
}

#[test]
fn from_str_keeps_an_empty_selected_version() {
    let info = PackInfo::from_str("atmega==").unwrap();
    assert_eq!(info.selected_version, Some(String::new()));
}

#[test]
fn from_str_rejects_an_unsupported_family() {
    match PackInfo::from_str("hurgel==1.2.3") {
        Err(PackError::UnsupportedFamily { family }) => assert_eq!(family, "hurgel"),
        _ => panic!("expected the unsupported-family error"),
    }
}

#[test]
fn name_for_download_returns_some_for_supported() {
    assert_eq!(
        PackInfo::name_for_download("atmega"),
        Some("Microchip.ATmega_DFP")
    );
}

#[test]
fn name_for_download_returns_none_for_unsupported() {
    assert_eq!(
        PackInfo::name_for_download("NoOneNamesAControllerBob_right?"),
        None
    );
}

#[test]
fn parse_available_versions_from_html_returns_every_contained_version_for_pack() {
    let versions = parse_available_versions_from_html(
        "BobAndMarry,\nMicrochip.ATmega_DFP.1.atpack//Microchip.ATmega_DFP.1.2.4.atpack",
        "ATmega_DFP",
    );
    assert_eq!(versions, vec!["1.2.4"]);
}

#[test]
fn parse_skips_a_truncated_version() {
    let versions = parse_available_versions_from_html(
        "Microchip.ATmega_DFP.1.atpack//Microchip.ATmega_DFP.1.2.4.atpack",
        "ATmega_DFP",
    );
    assert_eq!(versions, vec!["1.2.4"]);
}

#[test]
fn parse_returns_empty_when_the_pattern_occurs_nowhere() {
    let versions = parse_available_versions_from_html("BobAndMarry", "ATmega_DFP");
    assert_eq!(versions, Vec::<String>::new());
}

#[test]
fn parse_returns_empty_on_empty_input() {
    let versions = parse_available_versions_from_html("", "ATmega_DFP");
    assert_eq!(versions, Vec::<String>::new());
}

#[test]
fn parse_keeps_duplicates_in_page_order() {
    let versions = parse_available_versions_from_html(
        "X.1.2.4.atpack X.1.1.2.atpack X.1.2.4.atpack",
        "X",
    );
    assert_eq!(versions, vec!["1.2.4", "1.1.2", "1.2.4"]);
}

#[test]
fn parse_twice_yields_identical_output() {
    let page = "BobAndMarry,\nMicrochip.ATmega_DFP.1.atpack//Microchip.ATmega_DFP.1.2.4.atpack";
    let first = parse_available_versions_from_html(page, "ATmega_DFP");
    let second = parse_available_versions_from_html(page, "ATmega_DFP");
    assert_eq!(first, second);
}

#[test]
fn for_pack_finds_every_version_for_family() {
    let packs = DownloadablePacks::from_html(
        "BobAndMarry,\nMicrochip.ATmega_DFP.1.atpack//Microchip.ATmega_DFP.1.2.4.atpack"
            .to_string(),
    )
    .for_pack(PackInfo::from_name("atmega").unwrap())
    .unwrap();
    assert_eq!(packs.available_versions(), &vec!["1.2.4"]);
}

#[test]
fn new_rejects_an_unavailable_selected_version() {
    let info = PackInfo::from_str("atmega==9.9.9").unwrap();
    let result = DownloadablePack::new(
        info,
        vec!["1.1.2".to_string(), "1.2.4".to_string()],
    );
    match result {
        Err(PackError::VersionNotAvailable {
            requested,
            available,
        }) => {
            assert_eq!(requested, "9.9.9");
            assert_eq!(available, vec!["1.1.2", "1.2.4"]);
        }
        _ => panic!("expected the version-not-available error"),
    }
}

#[test]
fn version_returns_newest_available_if_none_selected() {
    let pack = DownloadablePack::new(
        PackInfo::from_name("atmega").unwrap(),
        vec!["1.1.2".to_string(), "1.2.4".to_string()],
    )
    .unwrap();
    assert_eq!(pack.version(), "1.2.4");
}

#[test]
fn version_returns_the_selected_version_if_present() {
    let pack = DownloadablePack::new(
        PackInfo::from_str("atmega==1.1.2").unwrap(),
        vec!["1.1.2".to_string(), "1.2.4".to_string()],
    )
    .unwrap();
    assert_eq!(pack.version(), "1.1.2");
}

#[test]
fn version_compares_lexicographically() {
    let pack = DownloadablePack::new(
        PackInfo::from_name("atmega").unwrap(),
        vec!["1.10.0".to_string(), "1.9.0".to_string()],
    )
    .unwrap();
    assert_eq!(pack.version(), "1.9.0");
}

#[test]
fn url_returns_download_url_for_selected_version_if_present() {
    let pack = DownloadablePacks::from_html(
        "BobAndMarry,\nMicrochip.ATmega_DFP.1.1.2.atpack//Microchip.ATmega_DFP.1.2.4.atpack"
            .to_string(),
    )
    .for_pack(PackInfo::from("atmega", "1.1.2").unwrap())
    .unwrap();
    assert_eq!(
        pack.url(),
        "https://packs.download.microchip.com/Microchip.ATmega_DFP.1.1.2.atpack"
    );
}

#[test]
fn url_returns_newest_version_if_none_selected() {
    let pack = DownloadablePacks::from_html(
        "BobAndMarry,\nMicrochip.ATmega_DFP.1.1.2.atpack//Microchip.ATmega_DFP.1.2.4.atpack"
            .to_string(),
    )
    .for_pack(PackInfo::from_str("atmega").unwrap())
    .unwrap();
    assert_eq!(
        pack.url(),
        "https://packs.download.microchip.com/Microchip.ATmega_DFP.1.2.4.atpack"
    );
}
