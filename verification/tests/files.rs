use log_server::content::CContent;
use log_server::clock::new_connection_id;
use log_server::storage::{CFile, FileProbe, FindStep, FIRST_LOG_INDEX, LOG_FILE_MAX_BYTE_LEN};
use log_server::text::{decimal_string, starts_with, str_eq, text_from_bytes};

#[test]
fn join_path_concrete() {
    let f = CFile::new();
    assert_eq!(f.joinPath("logs/2024-01-31/message", 1), "logs/2024-01-31/message/1.log");
    assert_eq!(f.joinPath("d", 120), "d/120.log");
    assert_eq!(f.joinPath("", u64::MAX), "/18446744073709551615.log");
}

#[test]
fn find_file_steps() {
    let f = CFile::new();
    assert_eq!(FIRST_LOG_INDEX, 1);
    assert!(matches!(f.findFileStep(1, FileProbe::Missing), FindStep::Use(1)));
    assert!(matches!(f.findFileStep(3, FileProbe::Size(LOG_FILE_MAX_BYTE_LEN)), FindStep::Use(3)));
    assert!(matches!(f.findFileStep(3, FileProbe::Size(LOG_FILE_MAX_BYTE_LEN + 1)), FindStep::Next(4)));
    assert!(matches!(f.findFileStep(2, FileProbe::MetadataError), FindStep::Fail));
}

#[test]
fn decimal_string_concrete() {
    assert_eq!(decimal_string(0), "0");
    assert_eq!(decimal_string(9), "9");
    assert_eq!(decimal_string(10), "10");
    assert_eq!(decimal_string(10240), "10240");
}

#[test]
fn text_helpers() {
    assert!(str_eq("abc", "abc"));
    assert!(!str_eq("abc", "abd"));
    assert!(!str_eq("ab", "abc"));
    assert!(starts_with("cfgs-v2.0-1", "cfgs-v2.0-1"));
    assert!(starts_with("cfgs-v2.0-1", "cfgs-"));
    assert!(!starts_with("cfgs", "cfgs-"));
    assert!(starts_with("x", ""));
    assert_eq!(text_from_bytes("wörld".as_bytes().to_vec()), "wörld");
    assert_eq!(text_from_bytes(vec![0xc3]), "");
}

#[test]
fn connection_ids_are_v4_uuids() {
    let a = new_connection_id();
    let b = new_connection_id();
    assert_ne!(a, b);
    let chars: Vec<char> = a.chars().collect();
    assert_eq!(chars.len(), 36);
    for (i, c) in chars.iter().enumerate() {
        if [8, 13, 18, 23].contains(&i) {
            assert_eq!(*c, '-');
        } else {
            assert!(c.is_ascii_digit() || ('a'..='f').contains(c));
        }
    }
    assert_eq!(chars[14], '4');
    assert!(['8', '9', 'a', 'b'].contains(&chars[19]));
}

#[test]
fn clock_texts_have_their_shape() {
    let f = CFile::new();
    let date = f.nowDate();
    let b = date.as_bytes();
    let n = b.len();
    assert!(n >= 10);
    assert_eq!(b[n - 6], b'-');
    assert_eq!(b[n - 3], b'-');
    let month: u32 = date[n - 5..n - 3].parse().unwrap();
    assert!((1..=12).contains(&month));
    let now = CContent::new().now();
    let t = now.as_bytes();
    let m = t.len();
    assert_eq!(t[m - 9], b' ');
    assert_eq!(t[m - 6], b':');
    assert_eq!(t[m - 3], b':');
    assert_eq!(&now[..m - 9].len(), &n);
    assert!(f.now().len() >= 19);
}
