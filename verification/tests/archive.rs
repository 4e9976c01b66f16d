use atpacks::archive::Pack;
use atpacks::packs::PackError;

fn build_zip(files: &[&str]) -> Vec<u8> {
    let mut writer = zip::ZipWriter::new(std::io::Cursor::new(Vec::<u8>::new()));
    for file in files {
        writer
            .start_file(*file, zip::write::SimpleFileOptions::default())
            .unwrap();
    }
    writer.finish().unwrap().into_inner()
}

#[test]
fn list_controllers_returns_atdf_controllers_if_only_atdf_files_present() {
    let pack = Pack {
        content: build_zip(&["atdf/ATmega.atdf", "atdf/ATmega8.atdf"]),
    };
    assert_eq!(pack.list_controllers().unwrap(), vec!["ATmega", "ATmega8"]);
}

#[test]
fn list_controllers_returns_only_atdf_files_if_many_files_present() {
    let pack = Pack {
        content: build_zip(&[
            "atdf/ATmega.atdf",
            "atdf/ATmega8.atdf",
            "foo/atdf/bargel.foo",
        ]),
    };
    assert_eq!(pack.list_controllers().unwrap(), vec!["ATmega", "ATmega8"]);
}

#[test]
fn list_controllers_returns_nothing_if_only_ignored_entries_present() {
    let pack = Pack {
        content: build_zip(&["Bob", "Nested/Marry"]),
    };
    assert_eq!(pack.list_controllers().unwrap(), Vec::<String>::new());
}

#[test]
fn list_controllers_sorts_ascending() {
    let pack = Pack {
        content: build_zip(&["atdf/Tiny.atdf", "atdf/ATmega8.atdf", "atdf/Mega.atdf"]),
    };
    assert_eq!(
        pack.list_controllers().unwrap(),
        vec!["ATmega8", "Mega", "Tiny"]
    );
}

#[test]
fn list_controllers_twice_yields_identical_output() {
    let pack = Pack {
        content: build_zip(&["atdf/B.atdf", "atdf/A.atdf"]),
    };
    let first = pack.list_controllers().unwrap();
    let second = pack.list_controllers().unwrap();
    assert_eq!(first, second);
    assert_eq!(first, vec!["A", "B"]);
}

#[test]
fn list_controllers_rejects_malformed_bytes() {
    let pack = Pack {
        content: vec![1, 2, 3, 4],
    };
    assert!(matches!(
        pack.list_controllers(),
        Err(PackError::MalformedArchive)
    ));
}
