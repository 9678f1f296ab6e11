use latsim::load_requests::{load_requests, parse_field, parse_request_line};

#[test]
fn parse_field_reads_decimal() {
    let line = b"1234".to_vec();
    assert_eq!(parse_field(&line, 0, 4), Some(1234));
    assert_eq!(parse_field(&line, 1, 3), Some(23));
    assert_eq!(parse_field(&line, 0, 1), Some(1));
}

#[test]
fn parse_field_rejects_empty_and_non_digits() {
    let line = b"12a4".to_vec();
    assert_eq!(parse_field(&line, 0, 0), None);
    assert_eq!(parse_field(&line, 0, 4), None);
    assert_eq!(parse_field(&line, 0, 2), Some(12));
}

#[test]
fn parse_field_rejects_overflow() {
    let line = b"18446744073709551615".to_vec();
    assert_eq!(parse_field(&line, 0, 20), Some(u64::MAX));
    let line = b"18446744073709551616".to_vec();
    assert_eq!(parse_field(&line, 0, 20), None);
}

#[test]
fn parse_request_line_well_formed() {
    let req = parse_request_line(&b"15,230,upload".to_vec()).unwrap();
    assert_eq!(req.arrived, 15);
    assert_eq!(req.duration, 230);
    assert_eq!(req.name, b"upload".to_vec());
}

#[test]
fn parse_request_line_empty_name() {
    let req = parse_request_line(&b"1,2,".to_vec()).unwrap();
    assert_eq!(req.arrived, 1);
    assert_eq!(req.duration, 2);
    assert_eq!(req.name, b"".to_vec());
}

#[test]
fn parse_request_line_wrong_field_count() {
    assert!(parse_request_line(&b"1,2".to_vec()).is_none());
    assert!(parse_request_line(&b"1".to_vec()).is_none());
    assert!(parse_request_line(&b"".to_vec()).is_none());
    assert!(parse_request_line(&b"1,2,a,b".to_vec()).is_none());
}

#[test]
fn parse_request_line_bad_numbers() {
    assert!(parse_request_line(&b"x,2,a".to_vec()).is_none());
    assert!(parse_request_line(&b"1,y,a".to_vec()).is_none());
    assert!(parse_request_line(&b",2,a".to_vec()).is_none());
    assert!(parse_request_line(&b"1,,a".to_vec()).is_none());
    assert!(parse_request_line(&b"1.5,2,a".to_vec()).is_none());
}

/// A three-line file with one malformed record yields exactly two loaded
/// requests and one warning.
#[test]
fn three_records_one_malformed() {
    let lines = vec![b"0,10,first".to_vec(), b"5,20".to_vec(), b"9,30,third".to_vec()];
    let (requests, skipped) = load_requests(&lines);
    assert_eq!(requests.len(), 2);
    assert_eq!(skipped, vec![1]);
    assert_eq!(requests[0].arrived, 0);
    assert_eq!(requests[0].duration, 10);
    assert_eq!(requests[0].name, b"first".to_vec());
    assert_eq!(requests[1].arrived, 9);
    assert_eq!(requests[1].duration, 30);
    assert_eq!(requests[1].name, b"third".to_vec());
}

#[test]
fn load_requests_all_well_formed() {
    let lines = vec![b"0,1,a".to_vec(), b"2,3,b".to_vec()];
    let (requests, skipped) = load_requests(&lines);
    assert_eq!(requests.len(), 2);
    assert!(skipped.is_empty());
}

#[test]
fn load_requests_empty_input() {
    let lines: Vec<Vec<u8>> = Vec::new();
    let (requests, skipped) = load_requests(&lines);
    assert!(requests.is_empty());
    assert!(skipped.is_empty());
}
