use trophy_analysis::field::parse_count;
use trophy_analysis::loader::{parse_record, parse_records, split_on, LoadError};
use trophy_analysis::PlayerRecord;

const HEADER: &str = "header1,header2,header3,header4,header5,attack_wins,defense_wins,dummy1,dummy2,dummy3,trophies,dummy4,donations,dummy5,dummy6,builder_tropies";

#[test]
fn test_read_file_success() {
    let text = format!(
        "{}\n{}\n{}\n",
        HEADER, "0,0,0,0,0,5,3,0,0,0,1000,0,50,0,0,10", "0,0,0,0,0,8,6,0,0,0,1200,0,60,0,0,15"
    );
    let result = parse_records(text.as_bytes());
    assert!(result.is_ok());
    let records = result.unwrap();
    assert_eq!(records.len(), 2);
    assert_eq!(records[0].trophies, 1000);
}

#[test]
fn test_read_file_invalid_format() {
    let text = format!("{}\n{}\n", HEADER, "invalid,data");
    let result = parse_records(text.as_bytes());
    println!("{:?}", result);
    assert!(result.is_err());
    assert_eq!(result, Err(LoadError::ShortRow { line: 2 }));
}

#[test]
fn well_formed_rows_give_one_record_each() {
    let text = format!(
        "{}\n{}\n{}",
        HEADER, "0,0,0,0,0,5,3,0,0,0,1000,0,50,0,0,10", "0,0,0,0,0,8,6,0,0,0,1200,0,60,0,0,15"
    );
    let records = parse_records(text.as_bytes()).unwrap();
    assert_eq!(
        records,
        vec![
            PlayerRecord { attack_wins: 5, defense_wins: 3, donations: 50, builder_tropies: 10, trophies: 1000 },
            PlayerRecord { attack_wins: 8, defense_wins: 6, donations: 60, builder_tropies: 15, trophies: 1200 },
        ]
    );
}

#[test]
fn non_numeric_field_reads_as_zero() {
    let text = format!("{}\n{}\n", HEADER, "x,y,z,w,v,abc,3,0,0,0,1000,0,50,0,0,10");
    let records = parse_records(text.as_bytes()).unwrap();
    assert_eq!(records.len(), 1);
    assert_eq!(records[0].attack_wins, 0);
    assert_eq!(records[0].defense_wins, 3);
    assert_eq!(records[0].trophies, 1000);
}

#[test]
fn short_row_after_good_rows_fails_the_load() {
    let text = format!(
        "{}\n{}\n{}\n{}\n",
        HEADER, "0,0,0,0,0,5,3,0,0,0,1000,0,50,0,0,10", "1,2,3", "0,0,0,0,0,8,6,0,0,0,1200,0,60,0,0,15"
    );
    assert_eq!(parse_records(text.as_bytes()), Err(LoadError::ShortRow { line: 3 }));
}

#[test]
fn row_with_fifteen_fields_is_short() {
    let text = format!("{}\n{}\n", HEADER, "0,0,0,0,0,5,3,0,0,0,1000,0,50,0,0");
    assert_eq!(parse_records(text.as_bytes()), Err(LoadError::ShortRow { line: 2 }));
}

#[test]
fn header_only_gives_no_records() {
    assert_eq!(parse_records(HEADER.as_bytes()), Ok(vec![]));
    assert_eq!(parse_records(format!("{}\n", HEADER).as_bytes()), Ok(vec![]));
    assert_eq!(parse_records(b""), Ok(vec![]));
}

#[test]
fn header_is_not_validated() {
    let text = "anything at all\n0,0,0,0,0,5,3,0,0,0,1000,0,50,0,0,10\n";
    assert_eq!(parse_records(text.as_bytes()).unwrap().len(), 1);
}

#[test]
fn crlf_line_endings_are_stripped() {
    let text = format!("{}\r\n{}\r\n", HEADER, "0,0,0,0,0,5,3,0,0,0,1000,0,50,0,0,10");
    let records = parse_records(text.as_bytes()).unwrap();
    assert_eq!(records[0].builder_tropies, 10);
}

#[test]
fn empty_line_in_the_data_is_a_short_row() {
    let text = format!("{}\n\n{}\n", HEADER, "0,0,0,0,0,5,3,0,0,0,1000,0,50,0,0,10");
    assert_eq!(parse_records(text.as_bytes()), Err(LoadError::ShortRow { line: 2 }));
}

#[test]
fn extra_fields_are_ignored() {
    let row = "0,0,0,0,0,5,3,0,0,0,1000,0,50,0,0,10,99,98";
    assert_eq!(
        parse_record(row.as_bytes()),
        Some(PlayerRecord { attack_wins: 5, defense_wins: 3, donations: 50, builder_tropies: 10, trophies: 1000 })
    );
}

#[test]
fn parse_count_reads_digits_and_defaults_to_zero() {
    assert_eq!(parse_count(b"1234"), 1234);
    assert_eq!(parse_count(b"+42"), 42);
    assert_eq!(parse_count(b"007"), 7);
    assert_eq!(parse_count(b""), 0);
    assert_eq!(parse_count(b"+"), 0);
    assert_eq!(parse_count(b"-5"), 0);
    assert_eq!(parse_count(b" 5"), 0);
    assert_eq!(parse_count(b"5x"), 0);
    assert_eq!(parse_count(b"1.5"), 0);
    assert_eq!(parse_count(usize::MAX.to_string().as_bytes()), usize::MAX);
    assert_eq!(parse_count(b"99999999999999999999999999"), 0);
}

#[test]
fn parse_count_agrees_with_std_parsing() {
    for s in ["0", "12", "+3", "-3", "", "a", "18446744073709551616", "4294967295", "++1"] {
        let expected: usize = s.parse().unwrap_or(0);
        assert_eq!(parse_count(s.as_bytes()), expected, "field {:?}", s);
    }
}

#[test]
fn split_on_keeps_empty_pieces() {
    let pieces = split_on(b",a,,b,", b',');
    assert_eq!(pieces, vec![vec![], vec![b'a'], vec![], vec![b'b'], vec![]]);
    assert_eq!(split_on(b"", b','), vec![Vec::<u8>::new()]);
}
