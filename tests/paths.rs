use specimen_rename::paths::{collect, is_jpg_path, path_le, rename_all};

fn strings(v: &[&str]) -> Vec<String> {
    v.iter().map(|s| s.to_string()).collect()
}

#[test]
fn collected_in_path_order() {
    let found = strings(&["/d/b.JPG", "/d/A.jpg", "/d/a.jpg"]);
    assert_eq!(collect(found), strings(&["/d/A.jpg", "/d/a.jpg", "/d/b.JPG"]));
}

#[test]
fn only_jpg_files_are_collected() {
    let found = strings(&["/d/x.CR2", "/d/sub/z.Jpg", "/d/y.png", "/d/a.jpg", "/d/jpg"]);
    assert_eq!(collect(found), strings(&["/d/a.jpg", "/d/sub/z.Jpg"]));
}

#[test]
fn nothing_to_collect() {
    assert_eq!(collect(Vec::new()), Vec::<String>::new());
}

#[test]
fn path_order_is_by_code_point() {
    assert!(path_le("/d/A", "/d/a"));
    assert!(!path_le("/d/b", "/d/a"));
    assert!(path_le("/d", "/d/a"));
    assert!(path_le("/d/a", "/d/a"));
    assert!(is_jpg_path("x.jPg"));
    assert!(!is_jpg_path("x.jpeg"));
}

#[test]
fn siblings_renamed_together() {
    let entries = strings(&["/d/IMG_01.CR2", "/d/IMG_01.JPG", "/d/IMG_02.JPG"]);
    let pairs = rename_all("/d/IMG_01.JPG", "MGCL_0001_D", &entries);
    assert_eq!(
        pairs,
        vec![
            ("/d/IMG_01.CR2".to_string(), "/d/MGCL_0001_D.CR2".to_string()),
            ("/d/IMG_01.JPG".to_string(), "/d/MGCL_0001_D.JPG".to_string()),
        ]
    );
}

#[test]
fn siblings_need_the_same_stem_and_directory() {
    let entries = strings(&["/d/IMG_01.JPG.bak", "/e/IMG_01.CR2", "/d/IMG_010.CR2", "/d/IMG_01", "/d/IMG_01.jpg"]);
    let pairs = rename_all("/d/IMG_01.JPG", "N_V", &entries);
    assert_eq!(pairs, vec![("/d/IMG_01.jpg".to_string(), "/d/N_V.jpg".to_string())]);
}
