use guksu::{Error, ScanError, StorageError};

#[test]
fn from_wraps_and_display_forwards() {
    let scan = ScanError::QueryDim { query_dim: 1, view_dim: 2 };
    let e: Error = scan.into();
    assert_eq!(e, Error::Scan(scan));
    assert_eq!(e.to_string(), scan.to_string());

    let storage = StorageError::ZeroDim;
    let e: Error = storage.into();
    assert_eq!(e, Error::Storage(storage));
    assert_eq!(e.to_string(), storage.to_string());
}

#[test]
fn question_mark_composes_both_seams() {
    fn scan_side() -> Result<(), Error> {
        Err(ScanError::FilterLen { filter_len: 1, rows: 2 })?;
        Ok(())
    }
    fn storage_side() -> Result<(), Error> {
        Err(StorageError::TooManyRows { rows: usize::MAX })?;
        Ok(())
    }
    assert!(matches!(scan_side(), Err(Error::Scan(ScanError::FilterLen { .. }))));
    assert!(matches!(storage_side(), Err(Error::Storage(StorageError::TooManyRows { .. }))));
}

#[test]
fn storage_storage_error_messages() {
    assert_eq!(StorageError::ZeroDim.to_string(), "dim must be > 0");
    assert_eq!(
        StorageError::Ragged { data_len: 3, row_len: 2 }.to_string(),
        "data length 3 is not whole rows of 2"
    );
    assert_eq!(
        StorageError::Stride { stride: 4, min_len: 8 }.to_string(),
        "stride 4 cannot hold rows of length 8"
    );
    assert_eq!(
        StorageError::ScaleCount { scales: 1, rows: 2 }.to_string(),
        "expected one scale per row: 1 vs 2"
    );
    assert_eq!(
        StorageError::TooManyRows { rows: 1 << 33 }.to_string(),
        "8589934592 rows exceeds the u32 id space"
    );
}

#[test]
fn error_storage_error_messages() {
    assert_eq!(StorageError::ZeroDim.to_string(), "dim must be > 0");
    assert_eq!(
        StorageError::Ragged { data_len: 3, row_len: 2 }.to_string(),
        "data length 3 is not whole rows of 2"
    );
    assert_eq!(
        StorageError::Stride { stride: 4, min_len: 8 }.to_string(),
        "stride 4 cannot hold rows of length 8"
    );
    assert_eq!(
        StorageError::ScaleCount { scales: 1, rows: 2 }.to_string(),
        "expected one scale per row: 1 vs 2"
    );
    assert_eq!(
        StorageError::TooManyRows { rows: 1 << 33 }.to_string(),
        "8589934592 rows exceeds the u32 id space"
    );
}

#[test]
fn scan_error_messages() {
    assert_eq!(
        ScanError::FilterLen { filter_len: 3, rows: 1 }.to_string(),
        "filter covers 3 ids but the view has 1 rows"
    );
    assert_eq!(
        ScanError::QueryDim { query_dim: 1, view_dim: 2 }.to_string(),
        "query dim 1 vs view dim 2"
    );
}
