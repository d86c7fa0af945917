use kmeans_parallel::records::{read_records, record_shape, LoadError};

fn rows(list: &[&[&str]]) -> Vec<Vec<String>> {
    list.iter().map(|r| r.iter().map(|f| f.to_string()).collect()).collect()
}

#[test]
fn records_follow_the_header() {
    let text = b"a,b\n1,2\n3,4\n";
    assert_eq!(read_records(text, None).unwrap(), rows(&[&["1", "2"], &["3", "4"]]));
}

#[test]
fn row_limit_keeps_the_first_rows() {
    let text = b"a,b\n1,2\n3,4\n5,6\n";
    assert_eq!(read_records(text, Some(2)).unwrap(), rows(&[&["1", "2"], &["3", "4"]]));
    assert_eq!(read_records(text, Some(1)).unwrap(), rows(&[&["1", "2"]]));
    assert!(read_records(text, Some(0)).unwrap().is_empty());
    assert_eq!(read_records(text, Some(10)).unwrap().len(), 3);
}

#[test]
fn header_alone_gives_no_rows() {
    assert!(read_records(b"a,b,c\n", None).unwrap().is_empty());
    assert!(read_records(b"", None).unwrap().is_empty());
}

#[test]
fn unreadable_record_within_limit_fails() {
    let text = b"a,b\n1,2\n3\n4,5\n";
    assert!(matches!(read_records(text, None), Err(LoadError::Csv(_))));
    assert!(matches!(read_records(text, Some(2)), Err(LoadError::Csv(_))));
    assert_eq!(read_records(text, Some(1)).unwrap(), rows(&[&["1", "2"]]));
}

#[test]
fn fields_are_kept_as_text() {
    let text = b"x,y,z\n0.5,abc,\n\"q,r\",-1e3,7\n";
    assert_eq!(
        read_records(text, None).unwrap(),
        rows(&[&["0.5", "abc", ""], &["q,r", "-1e3", "7"]])
    );
}

#[test]
fn shape_counts_rows_and_first_row_fields() {
    assert_eq!(record_shape(&rows(&[&["1", "2", "3"], &["4", "5", "6"]])), (2, 3));
    assert_eq!(record_shape(&Vec::new()), (0, 0));
}
