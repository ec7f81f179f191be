use netflow_pipeline::scan::{epoch_chunk_size, scan_windows};

#[test]
fn chunk_size_divides_rows_by_cores() {
    assert_eq!(epoch_chunk_size(2_000_000, 8), 250_000);
    assert_eq!(epoch_chunk_size(10, 3), 3);
    assert_eq!(epoch_chunk_size(0, 4), 0);
}

#[test]
fn windows_cover_the_chunk_in_kilorow_pages() {
    let ws = scan_windows(2500, 1);
    assert_eq!(ws.len(), 3);
    assert_eq!((ws[0].offset, ws[0].limit), (2500, 1000));
    assert_eq!((ws[1].offset, ws[1].limit), (3500, 1000));
    assert_eq!((ws[2].offset, ws[2].limit), (4500, 500));
}

#[test]
fn exact_multiple_has_full_windows_only() {
    let ws = scan_windows(2000, 0);
    assert_eq!(ws.len(), 2);
    assert_eq!((ws[0].offset, ws[0].limit), (0, 1000));
    assert_eq!((ws[1].offset, ws[1].limit), (1000, 1000));
}

#[test]
fn small_chunk_is_one_window() {
    let ws = scan_windows(10, 3);
    assert_eq!(ws.len(), 1);
    assert_eq!((ws[0].offset, ws[0].limit), (30, 10));
}

#[test]
fn empty_chunk_has_no_windows() {
    assert!(scan_windows(0, 5).is_empty());
}
