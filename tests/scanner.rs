use photo_culler::photo_pair::DeletionAction;
use photo_culler::scanner::{pair_files, FileEntry};

fn file(name: &str) -> FileEntry {
    let (stem, extension) = name.rsplit_once('.').unwrap();
    FileEntry { path: format!("/d/{name}"), stem: stem.to_string(), extension: extension.to_string() }
}

#[test]
fn pairs_jpegs_with_raws_sorted_by_name() {
    let entries = vec![
        file("IMG_2.jpeg"),
        file("img_1.raf"),
        file("IMG_3.RAF"),
        file("notes.txt"),
        file("IMG_1.JPG"),
        file("b.jpg"),
    ];
    let pairs = pair_files(&entries);
    let names: Vec<&str> = pairs.iter().map(|p| p.basename.as_str()).collect();
    assert_eq!(names, vec!["B", "IMG_1", "IMG_2"]);
    assert_eq!(pairs[0].jpeg_path, "/d/b.jpg");
    assert_eq!(pairs[0].raw_path, None);
    assert_eq!(pairs[1].jpeg_path, "/d/IMG_1.JPG");
    assert_eq!(pairs[1].raw_path.as_deref(), Some("/d/img_1.raf"));
    assert_eq!(pairs[2].raw_path, None);
    assert!(pairs.iter().all(|p| p.action == DeletionAction::KeepBoth));
}

#[test]
fn later_file_of_the_same_name_wins() {
    let entries = vec![file("x.jpg"), file("X.JPEG"), file("x.RAF"), file("X.raf")];
    let pairs = pair_files(&entries);
    assert_eq!(pairs.len(), 1);
    assert_eq!(pairs[0].basename, "X");
    assert_eq!(pairs[0].jpeg_path, "/d/X.JPEG");
    assert_eq!(pairs[0].raw_path.as_deref(), Some("/d/X.raf"));
}

#[test]
fn no_files_no_pairs() {
    assert!(pair_files(&Vec::new()).is_empty());
    assert!(pair_files(&vec![file("a.raf"), file("b.png")]).is_empty());
}
