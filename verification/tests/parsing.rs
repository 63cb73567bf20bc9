use slotted_pig_lib::decimal::Amount;
use slotted_pig_lib::pattern::Pattern;
use slotted_pig_lib::timestamp::refuses_offset;
use slotted_pig_lib::timestamp::Timestamp;
use slotted_pig_lib::transaction::ColumnDeterminer;
use slotted_pig_lib::transaction::ConstantOrIndex;
use slotted_pig_lib::transaction::CsvFile;
use slotted_pig_lib::transaction::Transaction;
use slotted_pig_lib::transaction::TransactionError;
use slotted_pig_lib::transaction::TransactionParser;
use slotted_pig_lib::transaction::TransactionParserCsv;

const SIMPLE: &str = "amount,account,description,time
-10,credit card,store1,2024-02-24T20:10:59Z
-20,credit card,store2,2024-02-23T20:10:59Z
5,checking,paycheck,2024-02-01T20:10:59Z
";

fn strings(fields: &[&str]) -> Vec<String> {
    fields.iter().map(|field| field.to_string()).collect()
}

fn config(pattern: &str) -> TransactionParserCsv {
    TransactionParserCsv {
        filename_regex: Pattern::new(pattern).unwrap(),
        has_header: true,
        amount_column: ColumnDeterminer::Header("amount".to_string()),
        account_column: ColumnDeterminer::Header("account".to_string()),
        description_column: ColumnDeterminer::Header("description".to_string()),
        time_column: ColumnDeterminer::Header("time".to_string()),
    }
}

#[test]
fn from_csv_buffer_reads_rows_in_order() {
    let transactions = Transaction::from_csv_buffer(SIMPLE.as_bytes()).unwrap();
    assert_eq!(transactions.len(), 3);
    assert_eq!(transactions[0].amount.to_text(), "-10");
    assert_eq!(transactions[0].account, "credit card");
    assert_eq!(transactions[0].description, "store1");
    assert_eq!(transactions[0].time, Timestamp { seconds: 1708805459, nanos: 0 });
    assert_eq!(transactions[1].amount.to_text(), "-20");
    assert_eq!(transactions[1].description, "store2");
    assert_eq!(transactions[1].time, Timestamp { seconds: 1708719059, nanos: 0 });
    assert_eq!(transactions[2].amount.to_text(), "5");
    assert_eq!(transactions[2].account, "checking");
    assert_eq!(transactions[2].time, Timestamp { seconds: 1706818259, nanos: 0 });
}

#[test]
fn from_csv_buffer_of_nothing_is_empty() {
    assert!(Transaction::from_csv_buffer(b"").unwrap().is_empty());
}

#[test]
fn from_csv_buffer_of_a_header_alone_is_empty() {
    let transactions = Transaction::from_csv_buffer(b"amount,account,description,time\n").unwrap();
    assert!(transactions.is_empty());
}

#[test]
fn from_csv_buffer_keeps_fractions_of_a_second() {
    let data = "amount,account,description,time\n1.25,a,b,2021-05-01T01:17:02.604456Z\n";
    let transactions = Transaction::from_csv_buffer(data.as_bytes()).unwrap();
    assert_eq!(transactions[0].time, Timestamp { seconds: 1619831822, nanos: 604456000 });
    assert_eq!(transactions[0].amount.to_text(), "1.25");
}

#[test]
fn missing_amount_header_names_the_header_row() {
    let mut layout = config(".*");
    layout.amount_column = ColumnDeterminer::Header("Amt".to_string());
    let outcome = layout.parse_csv(SIMPLE.as_bytes());
    match outcome {
        Err(TransactionError::MissingAmount(row)) => {
            assert_eq!(row, "amountaccountdescriptiontime")
        }
        other => panic!("unexpected outcome: {:?}", other),
    }
}

#[test]
fn missing_headers_are_reported_in_the_order_of_the_fields() {
    let data = b"amount,time\n1,2024-02-24T20:10:59Z\n";
    let layout = config(".*");
    assert!(matches!(
        layout.parse_csv(data),
        Err(TransactionError::MissingAccount(row)) if row == "amounttime"
    ));
    let data = b"amount,account,time\n1,a,2024-02-24T20:10:59Z\n";
    assert!(matches!(
        layout.parse_csv(data),
        Err(TransactionError::MissingDescription(row)) if row == "amountaccounttime"
    ));
    let data = b"amount,account,description\n1,a,b\n";
    assert!(matches!(
        layout.parse_csv(data),
        Err(TransactionError::MissingTime(row)) if row == "amountaccountdescription"
    ));
}

#[test]
fn a_missing_header_comes_before_a_bad_row() {
    let data = b"amount,account,description\nhello,a,b\n";
    assert!(matches!(
        config(".*").parse_csv(data),
        Err(TransactionError::MissingTime(_))
    ));
}

#[test]
fn columns_by_index_and_constant_need_no_header() {
    let layout = TransactionParserCsv {
        filename_regex: Pattern::new(".*").unwrap(),
        has_header: false,
        amount_column: ColumnDeterminer::Index(2),
        account_column: ColumnDeterminer::Constant("savings".to_string()),
        description_column: ColumnDeterminer::Index(1),
        time_column: ColumnDeterminer::Index(0),
    };
    let data = b"2024-02-24T20:10:59Z,interest,0.42\n2024-03-24T20:10:59Z,fee,-1\n";
    let transactions = layout.parse_csv(data).unwrap();
    assert_eq!(transactions.len(), 2);
    assert_eq!(transactions[0].amount.to_text(), "0.42");
    assert_eq!(transactions[0].account, "savings");
    assert_eq!(transactions[0].description, "interest");
    assert_eq!(transactions[0].time, Timestamp { seconds: 1708805459, nanos: 0 });
    assert_eq!(transactions[1].amount.to_text(), "-1");
    assert_eq!(transactions[1].account, "savings");
    assert_eq!(transactions[1].description, "fee");
}

#[test]
fn a_header_row_is_no_transaction() {
    let mut layout = config(".*");
    layout.amount_column = ColumnDeterminer::Index(0);
    layout.account_column = ColumnDeterminer::Index(1);
    layout.description_column = ColumnDeterminer::Index(2);
    layout.time_column = ColumnDeterminer::Index(3);
    let transactions = layout.parse_csv(SIMPLE.as_bytes()).unwrap();
    assert_eq!(transactions.len(), 3);
    layout.has_header = false;
    assert!(matches!(
        layout.parse_csv(SIMPLE.as_bytes()),
        Err(TransactionError::BigDecimal(_))
    ));
}

#[test]
fn an_index_beyond_the_row_names_the_row() {
    let mut layout = config(".*");
    layout.time_column = ColumnDeterminer::Index(7);
    match layout.parse_csv(SIMPLE.as_bytes()) {
        Err(TransactionError::MissingTime(row)) => {
            assert_eq!(row, "-10credit cardstore12024-02-24T20:10:59Z")
        }
        other => panic!("unexpected outcome: {:?}", other),
    }
}

#[test]
fn an_amount_that_is_no_number_fails() {
    let data = b"amount,account,description,time\nten,a,b,2024-02-24T20:10:59Z\n";
    assert!(matches!(
        Transaction::from_csv_buffer(data),
        Err(TransactionError::BigDecimal(_))
    ));
}

#[test]
fn a_time_that_is_not_recognised_fails() {
    let data = b"amount,account,description,time\n10,a,b,not a time\n";
    assert!(matches!(
        Transaction::from_csv_buffer(data),
        Err(TransactionError::Dateparser(_))
    ));
}

#[test]
fn a_bad_amount_comes_before_a_bad_time() {
    let data = b"amount,account,description,time\nten,a,b,not a time\n";
    assert!(matches!(
        Transaction::from_csv_buffer(data),
        Err(TransactionError::BigDecimal(_))
    ));
}

#[test]
fn a_row_of_another_length_fails() {
    let data = b"amount,account,description,time\n10,a,b,2024-02-24T20:10:59Z\n10,a\n";
    assert!(matches!(Transaction::from_csv_buffer(data), Err(TransactionError::Csv(_))));
}

#[test]
fn a_bad_row_comes_before_a_later_row_of_another_length() {
    let data = b"amount,account,description,time\nten,a,b,2024-02-24T20:10:59Z\n10,a\n";
    assert!(matches!(
        Transaction::from_csv_buffer(data),
        Err(TransactionError::BigDecimal(_))
    ));
}

#[test]
fn a_header_that_is_no_text_fails() {
    let data = b"amount,\xff\xfe,description,time\n";
    assert!(matches!(Transaction::from_csv_buffer(data), Err(TransactionError::Csv(_))));
}

#[test]
fn from_fields_takes_the_outcome_of_reading_the_time() {
    let at = Timestamp { seconds: 7, nanos: 9 };
    let amount = Amount::parse("1.50").unwrap();
    let transaction = Transaction::from_fields(amount.clone(), "a", "b", Ok(at)).unwrap();
    assert_eq!(transaction.amount.to_text(), "1.50");
    assert_eq!(transaction.account, "a");
    assert_eq!(transaction.description, "b");
    assert_eq!(transaction.time, at);
    let failed = Transaction::from_fields(amount, "a", "b", Err(anyhow::Error::msg("no time")));
    assert!(matches!(failed, Err(TransactionError::Dateparser(_))));
}

fn one_row(time: &str) -> Result<Vec<Transaction>, TransactionError> {
    let data = format!("amount,account,description,time\n10,a,b,\"{}\"\n", time);
    Transaction::from_csv_buffer(data.as_bytes())
}

#[test]
fn a_time_with_an_offset_of_a_day_or_more_is_refused() {
    for time in [
        "2014-04-26 13:13:43 +9900",
        "2021-02-21+24:00",
        "2021-02-21 -2400",
        "2014-04-26 13:13:43+2400",
        "2014-04-26 13:13 -24:30",
        "2014-04-26 13:13:43.5 +2459",
        "01:06:06 +2400",
        "4:00pm +99:59",
        "May 02, 2021 15:51:31 +2400",
        "September 17, 2012 at 10:09am -3000",
        "2021-02-21 +2400Z",
        "2021-02-21 +2400:",
        "2021-02-24:00",
    ] {
        assert!(refuses_offset(time), "{}", time);
        match one_row(time) {
            Err(TransactionError::TimeZoneOffset(text)) => assert_eq!(text, time),
            other => panic!("unexpected outcome for {}: {:?}", time, other),
        }
    }
}

#[test]
fn a_time_with_an_offset_below_a_day_is_read() {
    let at = Timestamp { seconds: 1398489223, nanos: 0 };
    assert_eq!(one_row("2014-04-26 13:13:43 +0800").unwrap()[0].time, at);
    assert_eq!(one_row("2014-04-26 13:13:43 +08:00").unwrap()[0].time, at);
    assert_eq!(one_row("2014-04-26T05:13:43Z").unwrap()[0].time, at);
    let late = Timestamp { seconds: 1398518023 - 86340, nanos: 0 };
    assert_eq!(one_row("2014-04-26 13:13:43 +2359").unwrap()[0].time, late);
    let early = Timestamp { seconds: 1398518023 + 86340, nanos: 0 };
    assert_eq!(one_row("2014-04-26 13:13:43 -23:59").unwrap()[0].time, early);
    assert!(!refuses_offset("2014-04-26 13:13:43 +2359"));
    assert!(!refuses_offset("2014-04-26 13:13:43 -23:59"));
    assert!(!refuses_offset("2021-12-25"));
    assert!(!refuses_offset("3.31.+2400"));
    assert!(!refuses_offset("+2400"));
    assert!(!refuses_offset("2021-02-21 Z+2400"));
    assert!(!refuses_offset("4:00pm+2400"));
    assert!(one_row("2021-02-21 11:22 Z+2400").is_ok());
    assert!(!refuses_offset(""));
}

fn sweep(front: &str) -> usize {
    let starts = [
        "2014-04-26 13:13:43",
        "2014-04-26 13:13",
        "2021-02-21",
        "01:06:06",
        "4:00pm",
        "May 02, 2021 15:51:31",
    ];
    let gaps = ["", " "];
    let signs = ["+", "-"];
    let hours = ["00", "23", "24", "99"];
    let minutes = ["", "00", ":00", "59", ":6"];
    let ends = ["", "Z", ":", "0", " "];
    let mut read = 0;
    for start in starts {
        for gap in gaps {
            for sign in signs {
                for hour in hours {
                    for minute in minutes {
                        for end in ends {
                            let time = format!("{start}{gap}{front}{sign}{hour}{minute}{end}");
                            match one_row(&time) {
                                Ok(found) => {
                                    assert_eq!(found.len(), 1);
                                    read += 1;
                                }
                                Err(TransactionError::TimeZoneOffset(text)) => {
                                    assert_eq!(text, time);
                                    assert!(refuses_offset(&time));
                                }
                                Err(TransactionError::Dateparser(_)) => {
                                    assert!(!refuses_offset(&time));
                                }
                                other => panic!("unexpected outcome for {}: {:?}", time, other),
                            }
                        }
                    }
                }
            }
        }
    }
    read
}

#[test]
fn no_time_that_is_not_refused_stops_the_reading() {
    assert!(sweep("") > 0);
}

#[test]
fn no_time_with_a_named_zone_before_the_offset_stops_the_reading() {
    assert!(sweep("Z") > 0);
}

#[test]
fn no_time_with_a_word_before_the_offset_stops_the_reading() {
    sweep("pm ");
}

#[test]
fn no_time_with_a_point_before_the_offset_stops_the_reading() {
    sweep(".");
}

#[test]
fn a_bad_amount_comes_before_a_refused_time() {
    let data = b"amount,account,description,time\nten,a,b,2021-02-21+24:00\n";
    assert!(matches!(
        Transaction::from_csv_buffer(data),
        Err(TransactionError::BigDecimal(_))
    ));
}

#[test]
fn constant_or_index_finds_the_first_header_of_the_name() {
    let headers = strings(&["time", "amount", "note", "amount"]);
    let column = ColumnDeterminer::Header("amount".to_string());
    assert!(matches!(column.constant_or_index(&headers), Ok(ConstantOrIndex::Index(1))));
    let column = ColumnDeterminer::Header("Amount".to_string());
    assert_eq!(column.constant_or_index(&headers).unwrap_err(), "timeamountnoteamount");
    let column = ColumnDeterminer::Index(9);
    assert!(matches!(column.constant_or_index(&headers), Ok(ConstantOrIndex::Index(9))));
    let column = ColumnDeterminer::Constant("cash".to_string());
    assert!(matches!(
        column.constant_or_index(&headers),
        Ok(ConstantOrIndex::Constant("cash"))
    ));
}

#[test]
fn value_reads_the_field_or_names_the_row() {
    let row = strings(&["a", "b", "c"]);
    assert_eq!(ConstantOrIndex::Index(0).value(&row), Ok("a"));
    assert_eq!(ConstantOrIndex::Index(2).value(&row), Ok("c"));
    assert_eq!(ConstantOrIndex::Index(3).value(&row), Err("abc".to_string()));
    assert_eq!(ConstantOrIndex::Constant("x").value(&row), Ok("x"));
    assert_eq!(ConstantOrIndex::Constant("x").value(&Vec::new()), Ok("x"));
    assert_eq!(ConstantOrIndex::Index(0).value(&Vec::new()), Err(String::new()));
}

#[test]
fn default_config_reads_every_file_by_header() {
    let layout = TransactionParserCsv::default();
    assert_eq!(layout.filename_regex.as_str(), ".*");
    assert!(layout.has_header);
    assert!(matches!(&layout.amount_column, ColumnDeterminer::Header(h) if h == "amount"));
    assert!(matches!(&layout.account_column, ColumnDeterminer::Header(h) if h == "account"));
    assert!(matches!(
        &layout.description_column,
        ColumnDeterminer::Header(h) if h == "description"
    ));
    assert!(matches!(&layout.time_column, ColumnDeterminer::Header(h) if h == "time"));
}

#[test]
fn csv_config_is_the_first_whose_pattern_matches() {
    let mut second = config(".*\\.csv$");
    second.has_header = false;
    let parser = TransactionParser { csv: vec![config("^bank"), second, config(".*")] };
    let found = parser.csv_config("/data/bank-2024.csv", Some("bank-2024.csv")).unwrap();
    assert_eq!(found.filename_regex.as_str(), "^bank");
    let found = parser.csv_config("/data/card.csv", Some("card.csv")).unwrap();
    assert_eq!(found.filename_regex.as_str(), ".*\\.csv$");
    let found = parser.csv_config("/data/notes.txt", Some("notes.txt")).unwrap();
    assert_eq!(found.filename_regex.as_str(), ".*");
}

#[test]
fn csv_config_fails_without_a_match_or_a_name() {
    let parser = TransactionParser { csv: vec![config("^bank")] };
    assert!(matches!(
        parser.csv_config("/data/card.csv", Some("card.csv")),
        Err(TransactionError::NoMatchingCsvConfig(path)) if path == "/data/card.csv"
    ));
    assert!(matches!(
        parser.csv_config("/data/..", None),
        Err(TransactionError::InvalidPathToFile(path)) if path == "/data/.."
    ));
    let parser = TransactionParser { csv: Vec::new() };
    assert!(matches!(
        parser.csv_config("bank.csv", Some("bank.csv")),
        Err(TransactionError::NoMatchingCsvConfig(_))
    ));
}

#[test]
fn parse_csv_wraps_failures_with_the_path() {
    let parser = TransactionParser { csv: vec![config("^bank")] };
    let transactions = parser.parse_csv("in/bank.csv", Some("bank.csv"), SIMPLE.as_bytes());
    assert_eq!(transactions.unwrap().len(), 3);
    match parser.parse_csv("in/card.csv", Some("card.csv"), SIMPLE.as_bytes()) {
        Err(TransactionError::ParseFailed(path, cause)) => {
            assert_eq!(path, "in/card.csv");
            assert!(matches!(*cause, TransactionError::NoMatchingCsvConfig(p) if p == "in/card.csv"));
        }
        other => panic!("unexpected outcome: {:?}", other),
    }
    match parser.parse_csv("in/bank.csv", Some("bank.csv"), b"amount\n1\n") {
        Err(TransactionError::ParseFailed(path, cause)) => {
            assert_eq!(path, "in/bank.csv");
            assert!(matches!(*cause, TransactionError::MissingAccount(row) if row == "amount"));
        }
        other => panic!("unexpected outcome: {:?}", other),
    }
    match parser.parse_csv("in", None, SIMPLE.as_bytes()) {
        Err(TransactionError::ParseFailed(_, cause)) => {
            assert!(matches!(*cause, TransactionError::InvalidPathToFile(_)));
        }
        other => panic!("unexpected outcome: {:?}", other),
    }
}

#[test]
fn parse_csvs_joins_the_files_in_order() {
    let parser = TransactionParser { csv: vec![config(".*")] };
    let first = CsvFile {
        path: "a.csv".to_string(),
        file_name: Some("a.csv".to_string()),
        data: SIMPLE.as_bytes().to_vec(),
    };
    let second = CsvFile {
        path: "b.csv".to_string(),
        file_name: Some("b.csv".to_string()),
        data: b"amount,account,description,time\n7,cash,gift,2024-01-01T00:00:00Z\n".to_vec(),
    };
    let transactions = parser.parse_csvs(&vec![first, second]).unwrap();
    assert_eq!(transactions.len(), 4);
    assert_eq!(transactions[0].description, "store1");
    assert_eq!(transactions[2].description, "paycheck");
    assert_eq!(transactions[3].description, "gift");
    assert_eq!(transactions[3].amount.to_text(), "7");
    assert!(parser.parse_csvs(&Vec::new()).unwrap().is_empty());
}

#[test]
fn parse_csvs_stops_at_the_first_file_that_fails() {
    let parser = TransactionParser { csv: vec![config("\\.csv$")] };
    let good = CsvFile {
        path: "a.csv".to_string(),
        file_name: Some("a.csv".to_string()),
        data: SIMPLE.as_bytes().to_vec(),
    };
    let unknown = CsvFile {
        path: "b.txt".to_string(),
        file_name: Some("b.txt".to_string()),
        data: SIMPLE.as_bytes().to_vec(),
    };
    let broken = CsvFile {
        path: "c.csv".to_string(),
        file_name: Some("c.csv".to_string()),
        data: b"amount,account,description,time\nx,a,b,c\n".to_vec(),
    };
    match parser.parse_csvs(&vec![good, unknown, broken]) {
        Err(TransactionError::ParseFailed(path, cause)) => {
            assert_eq!(path, "b.txt");
            assert!(matches!(*cause, TransactionError::NoMatchingCsvConfig(_)));
        }
        other => panic!("unexpected outcome: {:?}", other),
    }
}
