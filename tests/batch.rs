use specimen_rename::batch::{Action, Batch, Read};
use specimen_rename::paths::rename_all;
use specimen_rename::setup::{matrix_args, sanity_checks, SetupError};

fn header() -> (String, String) {
    ("Old Path".to_string(), "New Path".to_string())
}

#[test]
fn repeated_specimen_gets_d_v_manual() {
    let mut b = Batch::new();
    assert_eq!(b.register("MGCL_0001", "/d/1.jpg"), "MGCL_0001_D");
    assert_eq!(b.register("MGCL_0001", "/d/2.jpg"), "MGCL_0001_V");
    assert_eq!(b.register("MGCL_0002", "/d/3.jpg"), "MGCL_0002_D");
    assert_eq!(b.register("MGCL_0001", "/d/4.jpg"), "MGCL_0001_MANUAL");
    assert_eq!(b.register("MGCL_0001", "/d/5.jpg"), "MGCL_0001_MANUAL");
    assert_eq!(b.count_of("MGCL_0001"), 4);
}

#[test]
fn matrix_read_names_the_file() {
    let mut b = Batch::new();
    let a = b.read("/d/1.jpg", Read::Matrix("MGCL 1234567\n".to_string()), false);
    assert!(matches!(a, Action::Rename(ref n) if n == "MGCL_1234567_D"));
    let a = b.read("/d/2.jpg", Read::Barcode("CODE-128:MGCL 1234567".to_string()), true);
    assert!(matches!(a, Action::Rename(ref n) if n == "MGCL_1234567_V"));
    assert!(b.failed().is_empty());
}

#[test]
fn empty_matrix_read_falls_back_to_barcode() {
    let mut b = Batch::new();
    let a = b.read("/d/1.jpg", Read::Matrix(String::new()), true);
    assert!(matches!(a, Action::ReadBarcode));
    assert!(b.failed().is_empty());
    let a = b.read("/d/1.jpg", Read::Barcode(String::new()), true);
    assert!(matches!(a, Action::Skip));
    assert_eq!(b.failed(), &vec!["/d/1.jpg".to_string()]);
}

#[test]
fn empty_matrix_read_fails_without_fallback() {
    let mut b = Batch::new();
    let a = b.read("/d/1.jpg", Read::Matrix(String::new()), false);
    assert!(matches!(a, Action::Skip));
    assert_eq!(b.failed().len(), 1);
}

#[test]
fn text_without_marker_still_counts_as_read() {
    let mut b = Batch::new();
    let a = b.read("/d/1.jpg", Read::Matrix("garbage".to_string()), false);
    assert!(matches!(a, Action::Rename(ref n) if n == "_D"));
}

#[test]
fn empty_run_has_header_only_log() {
    let b = Batch::new();
    assert!(b.failed().is_empty());
    assert_eq!(b.audit_log(), vec![header()]);
}

#[test]
fn unreadable_run_fails_every_file() {
    let mut b = Batch::new();
    let files = ["/d/1.jpg", "/d/2.jpg", "/d/3.jpg"];
    for f in files {
        if let Action::ReadBarcode = b.read(f, Read::Matrix(String::new()), true) {
            b.read(f, Read::Barcode(String::new()), true);
        }
    }
    assert_eq!(b.failed().len(), files.len());
    assert_eq!(b.audit_log(), vec![header()]);
}

#[test]
fn ledger_keeps_the_last_rename_of_a_path() {
    let mut b = Batch::new();
    b.record_edits(vec![
        ("/d/a.jpg".to_string(), "/d/X_D.jpg".to_string()),
        ("/d/a.CR2".to_string(), "/d/X_D.CR2".to_string()),
    ]);
    b.record_edits(vec![("/d/a.jpg".to_string(), "/d/Y_D.jpg".to_string())]);
    let log = b.audit_log();
    assert_eq!(log.len(), 3);
    assert_eq!(log[0], header());
    assert!(log.contains(&("/d/a.jpg".to_string(), "/d/Y_D.jpg".to_string())));
    assert!(log.contains(&("/d/a.CR2".to_string(), "/d/X_D.CR2".to_string())));
}

#[test]
fn setup_errors_in_order() {
    assert_eq!(sanity_checks(false, false, false), Err(SetupError::MatrixReaderMissing));
    assert_eq!(sanity_checks(true, false, false), Err(SetupError::BarcodeReaderMissing));
    assert_eq!(sanity_checks(true, true, false), Err(SetupError::NotADirectory));
    assert_eq!(sanity_checks(true, true, true), Ok(()));
}

#[test]
fn matrix_decoder_arguments() {
    assert_eq!(matrix_args("/d/1.jpg", "30000"), vec!["--stop-after=1", "-m30000", "/d/1.jpg"]);
}

#[test]
fn name_with_slash_is_a_failure() {
    let mut b = Batch::new();
    let a = b.read("/d/1.jpg", Read::Matrix("MGCL1234567/../x".to_string()), true);
    assert!(matches!(a, Action::Skip));
    assert_eq!(b.failed(), &vec!["/d/1.jpg".to_string()]);
    assert_eq!(b.count_of("MGCL1234567/../x"), 0);
}

#[test]
fn three_captures_renamed_and_logged() {
    let mut b = Batch::new();
    let files = ["/d/IMG_1.JPG", "/d/IMG_2.JPG", "/e/IMG_3.JPG"];
    let expected = ["/d/MGCL1037795_D.JPG", "/d/MGCL1037795_V.JPG", "/e/MGCL1037795_MANUAL.JPG"];
    for f in files {
        match b.read(f, Read::Matrix("MGCL1037795\n".to_string()), false) {
            Action::Rename(full) => {
                let pairs = rename_all(f, &full, &vec![f.to_string()]);
                b.record_edits(pairs);
            }
            _ => panic!("expected a rename"),
        }
    }
    let log = b.audit_log();
    assert_eq!(log.len(), 4);
    for (f, e) in files.iter().zip(expected.iter()) {
        assert!(log.contains(&(f.to_string(), e.to_string())));
    }
}
