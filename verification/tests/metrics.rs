use media_scan::metrics::{MetricsTable, Tally};

fn row(extension: &str, count: u64, size: u64) -> Tally {
    Tally { extension: extension.to_string(), count, size }
}

#[test]
fn new_table_is_empty() {
    let table = MetricsTable::new();
    assert!(table.rows().is_empty());
    assert_eq!(table.total_files(), 0);
    assert_eq!(table.total_size(), 0);
    assert_eq!(table.lookup(&"jpg".to_string()), None);
}

#[test]
fn record_counts_and_adds_sizes() {
    let mut table = MetricsTable::new();
    table.record(&"jpg".to_string(), 10);
    assert_eq!(table.lookup(&"jpg".to_string()), Some((1, 10)));
    table.record(&"jpg".to_string(), 20);
    assert_eq!(table.lookup(&"jpg".to_string()), Some((2, 30)));
    assert_eq!(table.rows(), &vec![row("jpg", 2, 30)]);
}

#[test]
fn record_keeps_extensions_apart() {
    let mut table = MetricsTable::new();
    table.record(&"jpg".to_string(), 10);
    table.record(&"png".to_string(), 7);
    table.record(&"jpg".to_string(), 5);
    assert_eq!(table.lookup(&"jpg".to_string()), Some((2, 15)));
    assert_eq!(table.lookup(&"png".to_string()), Some((1, 7)));
    assert_eq!(table.lookup(&"gif".to_string()), None);
    assert_eq!(table.lookup(&"JPG".to_string()), None);
}

#[test]
fn rows_stand_in_order_of_first_meeting() {
    let mut table = MetricsTable::new();
    table.record(&"png".to_string(), 1);
    table.record(&"jpg".to_string(), 2);
    table.record(&"png".to_string(), 3);
    table.record(&"gif".to_string(), 4);
    assert_eq!(table.rows(), &vec![row("png", 2, 4), row("jpg", 1, 2), row("gif", 1, 4)]);
}

#[test]
fn totals_add_up_all_rows() {
    let mut table = MetricsTable::new();
    table.record(&"png".to_string(), 1);
    table.record(&"jpg".to_string(), 2);
    table.record(&"png".to_string(), 3);
    assert_eq!(table.total_files(), 3);
    assert_eq!(table.total_size(), 6);
}

#[test]
fn empty_file_is_counted() {
    let mut table = MetricsTable::new();
    table.record(&"jpg".to_string(), 0);
    assert_eq!(table.lookup(&"jpg".to_string()), Some((1, 0)));
    assert_eq!(table.total_files(), 1);
    assert_eq!(table.total_size(), 0);
}

#[test]
fn fits_tells_when_the_totals_would_overflow() {
    let mut table = MetricsTable::new();
    assert!(table.fits(u64::MAX));
    table.record(&"jpg".to_string(), 1);
    assert!(table.fits(u64::MAX - 1));
    assert!(!table.fits(u64::MAX));
    table.record(&"png".to_string(), u64::MAX - 1);
    assert_eq!(table.total_size(), u64::MAX);
    assert!(table.fits(0));
    assert!(!table.fits(1));
}
