use log_server::text::parse_i32;
use log_server::storage::file_stem;
use log_server::storage::join_path;
use log_server::clock::date_days_ago;
use log_server::codec::append32Number;
use log_server::request::{publisher_request_frame, request_frame, BlockReader, CRequest};
use log_server::storage::{CFile, FileProbe, FindStep, ListedChoice, LOG_FILE_MAX_BYTE_LEN};
use log_server::text::{greatest_text, signed_decimal_string, text_less};

#[test]
fn block_reader_walks_a_request() {
    let mut r = BlockReader::new();
    assert_eq!((r.index, r.need), (0, 32));
    r.advance(true, 7);
    assert_eq!((r.index, r.need), (1, 7));
    r.advance(true, 32);
    assert_eq!((r.index, r.need), (2, 32));
    r.advance(false, 0);
    assert_eq!((r.index, r.need), (0, 32));
}

#[test]
fn publisher_frame_has_nine_fields() {
    let mut r = CRequest::default();
    r.mode = "sending".to_string();
    r.keyword = "kw".to_string();
    let nine = publisher_request_frame(&r);
    let ten = request_frame(&r);
    assert_eq!(nine.len(), 9 * 32 + 7);
    let mut tail = Vec::new();
    append32Number(2, &mut tail);
    tail.extend_from_slice(b"kw");
    assert_eq!(&ten[..nine.len()], &nine[..]);
    assert_eq!(&ten[nine.len()..], &tail[..]);
}

#[test]
fn file_search_passes_full_files() {
    // The law of the search, on one run of probes: files 1 and 2 are full,
    // file 3 is missing, so file 3 is used.
    let f = CFile::new();
    let probes = [
        FileProbe::Size(LOG_FILE_MAX_BYTE_LEN + 1),
        FileProbe::Size(LOG_FILE_MAX_BYTE_LEN + 5),
        FileProbe::Missing,
    ];
    let mut index = 1u64;
    let mut used = None;
    for p in probes {
        match f.findFileStep(index, p) {
            FindStep::Next(n) => index = n,
            FindStep::Use(n) => {
                used = Some(n);
                break;
            }
            FindStep::Fail => break,
        }
    }
    assert_eq!(used, Some(3));
}

#[test]
fn text_order() {
    assert!(text_less("1.log", "2.log"));
    assert!(text_less("10.log", "9.log"));
    assert!(text_less("ab", "abc"));
    assert!(!text_less("abc", "abc"));
    assert!(!text_less("b", "a"));
}

#[test]
fn greatest_text_picks_last_greatest() {
    let names: Vec<String> = ["d/1.log", "d/3.log", "d/2.log", "d/3.log"].iter().map(|s| s.to_string()).collect();
    assert_eq!(greatest_text(&names), Some(3));
    assert_eq!(greatest_text(&Vec::new()), None);
}

#[test]
fn listed_file_choice_cases() {
    let f = CFile::new();
    let names: Vec<String> = ["d/1.log", "d/2.log"].iter().map(|s| s.to_string()).collect();
    assert!(matches!(f.listedFileChoice(&Vec::new(), None), ListedChoice::FirstFile));
    assert!(matches!(f.listedFileChoice(&names, None), ListedChoice::NotFound));
    assert!(matches!(f.listedFileChoice(&names, Some(10)), ListedChoice::Greatest(1)));
    assert!(matches!(
        f.listedFileChoice(&names, Some(LOG_FILE_MAX_BYTE_LEN + 1)),
        ListedChoice::AfterGreatest(1)
    ));
    assert_eq!(f.logFileName(1), "1.log");
}

#[test]
fn next_log_name_numbers() {
    let f = CFile::new();
    assert_eq!(f.nextLogName("2"), Some("3.log".to_string()));
    assert_eq!(f.nextLogName("+41"), Some("42.log".to_string()));
    assert_eq!(f.nextLogName("-5"), Some("-4.log".to_string()));
    assert_eq!(f.nextLogName("x"), None);
    assert_eq!(f.nextLogName(""), None);
    assert_eq!(f.nextLogName("99999999999"), None);
    assert_eq!(signed_decimal_string(i32::MIN), "-2147483648");
}

#[test]
fn expired_days_keep_recent_ones() {
    let f = CFile::new();
    let names: Vec<String> = ["2024-01-01", "2024-01-05", "2024-01-06", "notes", "2023-12-31"]
        .iter()
        .map(|s| s.to_string())
        .collect();
    assert_eq!(f.expiredDays(&names, "2024-01-05"), vec![0, 1, 4]);
    assert_eq!(f.expiredDays(&names, "2023-01-01"), Vec::<usize>::new());
}

#[test]
fn cutoff_date_has_date_shape() {
    let d = date_days_ago(5).expect("five days ago is in range");
    let today = date_days_ago(0).expect("today is in range");
    assert_eq!(d.len(), 10);
    assert!(d < today);
    let f = CFile::new();
    assert_eq!(f.cutoffDate(0).map(|s| s.len()), Some(10));
}

#[test]
fn decode_response_steps() {
    let mut r = log_server::request::CResponse { mode: String::new(), keyword: String::new(), data: String::new() };
    let mut prefix = Vec::new();
    append32Number(4, &mut prefix);
    assert_eq!(log_server::request::decode_response(0, prefix, &mut r), (true, 4));
    assert_eq!(log_server::request::decode_response(3, b"mem1".to_vec(), &mut r), (true, 32));
    assert_eq!(log_server::request::decode_response(5, b"42".to_vec(), &mut r), (false, 0));
    assert_eq!(r.keyword, "mem1");
    assert_eq!(r.data, "42");
    assert_eq!(r.mode, "");
}

#[test]
fn paths_join_as_on_unix() {
    assert_eq!(join_path("logs", "2024-01-31"), "logs/2024-01-31");
    assert_eq!(join_path("logs/", "x"), "logs/x");
    assert_eq!(join_path("", "x"), "x");
    assert_eq!(join_path("logs", "/abs"), "/abs");
    assert_eq!(join_path("a", ""), "a/");
    for (b, p) in [("logs", "d"), ("logs/", "d"), ("", "d"), ("x", "/y"), ("a", "")] {
        assert_eq!(join_path(b, p), std::path::Path::new(b).join(p).to_str().unwrap());
    }
    let f = CFile::new();
    assert_eq!(f.dayDirPath("s-1-1", "2024-01-31", "message"), "s-1-1/2024-01-31/message");
}

#[test]
fn file_stems() {
    for p in ["d/3.log", "d/a.b.log", "d/.hidden", "d/noext", "3.log", "d/x.", "a/b/.x.y"] {
        let expected = std::path::Path::new(p).file_stem().and_then(|s| s.to_str()).map(|s| s.to_string());
        assert_eq!(file_stem(p), expected, "{}", p);
    }
    assert_eq!(file_stem("d/"), None);
    assert_eq!(file_stem(""), None);
}

#[test]
fn parse_i32_agrees_with_std() {
    for s in ["0", "+0", "-0", "42", "-42", "+", "-", "", "2147483647", "2147483648", "-2147483648", "-2147483649", "1a", " 1", "007", "99999999999999999999"] {
        assert_eq!(parse_i32(s), s.parse::<i32>().ok(), "{}", s);
    }
}
