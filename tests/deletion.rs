use photo_culler::deletion::{calculate_deletion_summary, deletion_targets, DeletionSummary};
use photo_culler::photo_pair::{DeletionAction, PhotoPair};

fn pair(name: &str, raw: bool, action: DeletionAction) -> PhotoPair {
    let raw_path = if raw { Some(format!("/p/{name}.RAF")) } else { None };
    let mut p = PhotoPair::new(name.to_string(), format!("/p/{name}.JPG"), raw_path);
    p.action = action;
    p
}

#[test]
fn labels() {
    assert_eq!(DeletionAction::KeepBoth.label(), "Keep Both");
    assert_eq!(DeletionAction::DeleteRaw.label(), "Delete RAW");
    assert_eq!(DeletionAction::DeleteJpeg.label(), "Delete JPEG");
    assert_eq!(DeletionAction::DeleteBoth.label(), "Delete Both");
    assert_eq!(DeletionAction::default(), DeletionAction::KeepBoth);
}

#[test]
fn new_pair_keeps_both() {
    let p = PhotoPair::new("A".to_string(), "/p/A.JPG".to_string(), None);
    assert_eq!(p.action, DeletionAction::KeepBoth);
    assert!(!p.has_raw());
    assert_eq!(p.basename, "A");
    let q = PhotoPair::new("B".to_string(), "/p/B.JPG".to_string(), Some("/p/B.RAF".to_string()));
    assert!(q.has_raw());
}

#[test]
fn summary_counts_marked_files() {
    let pairs = vec![
        pair("A", true, DeletionAction::KeepBoth),
        pair("B", true, DeletionAction::DeleteRaw),
        pair("C", false, DeletionAction::DeleteRaw),
        pair("D", true, DeletionAction::DeleteJpeg),
        pair("E", true, DeletionAction::DeleteBoth),
        pair("F", false, DeletionAction::DeleteBoth),
    ];
    let sizes = vec![(1, 2), (10, 20), (100, 200), (1000, 2000), (10000, 20000), (100000, 200000)];
    let s = calculate_deletion_summary(&pairs, &sizes);
    assert_eq!(s.raw_count, 2);
    assert_eq!(s.jpeg_count, 3);
    assert_eq!(s.raw_bytes, 20 + 20000);
    assert_eq!(s.jpeg_bytes, 1000 + 10000 + 100000);
    assert_eq!(s.total_files(), 5);
    assert_eq!(s.total_bytes(), 131020);
}

#[test]
fn empty_summary() {
    let s = calculate_deletion_summary(&Vec::new(), &Vec::new());
    assert_eq!((s.raw_count, s.jpeg_count, s.raw_bytes, s.jpeg_bytes), (0, 0, 0, 0));
    let d = DeletionSummary::default();
    assert_eq!(d.total_files(), 0);
    assert_eq!(d.total_bytes(), 0);
}

#[test]
fn targets_in_order() {
    let pairs = vec![
        pair("A", true, DeletionAction::KeepBoth),
        pair("B", true, DeletionAction::DeleteRaw),
        pair("C", false, DeletionAction::DeleteRaw),
        pair("E", true, DeletionAction::DeleteBoth),
        pair("F", false, DeletionAction::DeleteJpeg),
    ];
    assert_eq!(
        deletion_targets(&pairs),
        vec!["/p/B.RAF", "/p/E.JPG", "/p/E.RAF", "/p/F.JPG"]
    );
}

fn sized(bytes: u64) -> DeletionSummary {
    DeletionSummary { raw_count: 0, jpeg_count: 0, raw_bytes: bytes / 3, jpeg_bytes: bytes - bytes / 3 }
}

#[test]
fn format_size_values() {
    assert_eq!(sized(0).format_size(), "0 bytes");
    assert_eq!(sized(1023).format_size(), "1023 bytes");
    assert_eq!(sized(1024).format_size(), "1.00 KB");
    assert_eq!(sized(1536).format_size(), "1.50 KB");
    assert_eq!(sized(1152).format_size(), "1.12 KB");
    assert_eq!(sized(1048575).format_size(), "1024.00 KB");
    assert_eq!(sized(2621440).format_size(), "2.50 MB");
    assert_eq!(sized(3 * 1073741824).format_size(), "3.00 GB");
    assert_eq!(sized(5_000_000_000_000).format_size(), "4656.61 GB");
}

#[test]
fn format_size_agrees_with_float_formatting() {
    let mut b: u64 = 1;
    while b < (1u64 << 52) {
        for d in [0u64, 1, 5, 127, 512, 1000] {
            let bytes = b + d;
            let expected = if bytes >= 1_073_741_824 {
                format!("{:.2} GB", bytes as f64 / 1_073_741_824.0)
            } else if bytes >= 1_048_576 {
                format!("{:.2} MB", bytes as f64 / 1_048_576.0)
            } else if bytes >= 1024 {
                format!("{:.2} KB", bytes as f64 / 1024.0)
            } else {
                format!("{} bytes", bytes)
            };
            assert_eq!(sized(bytes).format_size(), expected, "{bytes}");
        }
        b = b * 3 / 2 + 1;
    }
}
