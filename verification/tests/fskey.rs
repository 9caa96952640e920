use dirwatch::fskey::{fs_is_case_insensitive, fs_key_str};
use dirwatch::os::Os;
use std::path::Path;

const SYSTEMS: [Os; 3] = [Os::Windows, Os::MacOs, Os::Linux];

#[test]
fn key_folds_case_only_where_the_filesystem_does() {
    for os in SYSTEMS {
        let k = fs_key_str(os, "Dir/MixedCase.LOG");
        if fs_is_case_insensitive(os) {
            assert_eq!(k, "dir/mixedcase.log");
        } else {
            assert_eq!(k, "Dir/MixedCase.LOG");
        }
    }
}

#[test]
fn path_and_str_forms_agree() {
    let p = Path::new("Some/Path/File.TXT");
    for os in SYSTEMS {
        assert_eq!(
            fs_key_str(os, &p.to_string_lossy()),
            fs_key_str(os, "Some/Path/File.TXT")
        );
    }
}

#[test]
fn names_fold_on_windows_and_macos_only() {
    assert!(fs_is_case_insensitive(Os::Windows));
    assert!(fs_is_case_insensitive(Os::MacOs));
    assert!(!fs_is_case_insensitive(Os::Linux));
    assert_eq!(fs_key_str(Os::Windows, "C:\\\u{c4}B.LOG"), "c:\\\u{e4}b.log");
}
