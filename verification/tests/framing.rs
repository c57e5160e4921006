use log_server::codec::{append32Number, decode_number};
use log_server::request::{
    ask_query_frame, content_frame, decode_content, decode_request, parse_content, parse_request,
    request_frame, response_frame, CContentFrame, CRequest, CResponse,
};

fn sample_request() -> CRequest {
    CRequest {
        mode: "sending".to_string(),
        identify: "publish".to_string(),
        server_name: "cfgs".to_string(),
        server_version: "v2.0".to_string(),
        server_no: "1".to_string(),
        topic: "/get".to_string(),
        data: "hello wörld".to_string(),
        storage_mode: "file".to_string(),
        log_type: "message".to_string(),
        keyword: "".to_string(),
    }
}

#[test]
fn append32_number_writes_bits_lsb_first() {
    let mut buf = vec![7u8];
    append32Number(5, &mut buf);
    assert_eq!(buf.len(), 33);
    assert_eq!(buf[0], 7);
    assert_eq!(&buf[1..5], &[1, 0, 1, 0]);
    assert!(buf[5..].iter().all(|b| *b == 0));
}

#[test]
fn append32_number_max_is_all_ones() {
    let mut buf = Vec::new();
    append32Number(u32::MAX, &mut buf);
    assert_eq!(buf, vec![1u8; 32]);
}

#[test]
fn decode_number_reads_back_append32() {
    for v in [0u32, 1, 2, 255, 256, 70000, 0xdead_beef, u32::MAX] {
        let mut buf = Vec::new();
        append32Number(v, &mut buf);
        assert_eq!(decode_number(&buf), v as u64);
    }
}

#[test]
fn decode_number_weights_whole_bytes() {
    // A prefix byte is weighted by its position, whatever its value.
    assert_eq!(decode_number(&[3, 2]), 3 + 2 * 2);
    assert_eq!(decode_number(&[]), 0);
}

#[test]
fn request_frame_layout() {
    let r = sample_request();
    let bytes = request_frame(&r);
    let field_lens: usize = [7, 7, 4, 4, 1, 4, 12, 4, 7, 0].iter().sum();
    assert_eq!(bytes.len(), 10 * 32 + field_lens);
    assert_eq!(decode_number(&bytes[0..32]), 7);
    assert_eq!(&bytes[32..39], b"sending");
}

#[test]
fn request_roundtrip_concrete() {
    let r = sample_request();
    let mut bytes = request_frame(&r);
    let n = bytes.len();
    bytes.extend_from_slice(b"trailing bytes");
    let (parsed, used) = parse_request(&bytes).expect("a whole request");
    assert_eq!(used, n);
    assert_eq!(parsed.mode, "sending");
    assert_eq!(parsed.identify, "publish");
    assert_eq!(parsed.server_name, "cfgs");
    assert_eq!(parsed.server_version, "v2.0");
    assert_eq!(parsed.server_no, "1");
    assert_eq!(parsed.topic, "/get");
    assert_eq!(parsed.data, "hello wörld");
    assert_eq!(parsed.storage_mode, "file");
    assert_eq!(parsed.log_type, "message");
    assert_eq!(parsed.keyword, "");
}

#[test]
fn parse_request_incomplete_is_none() {
    let bytes = request_frame(&sample_request());
    assert!(parse_request(&bytes[..bytes.len() - 1]).is_none());
    assert!(parse_request(&bytes[..31]).is_none());
    assert!(parse_request(&[]).is_none());
}

#[test]
fn decode_request_steps() {
    let mut r = CRequest::default();
    let mut prefix = Vec::new();
    append32Number(7, &mut prefix);
    assert_eq!(decode_request(0, prefix, &mut r), (true, 7));
    assert_eq!(decode_request(1, b"connect".to_vec(), &mut r), (true, 32));
    assert_eq!(r.mode, "connect");
    assert_eq!(decode_request(19, b"kw".to_vec(), &mut r), (false, 0));
    assert_eq!(r.keyword, "kw");
    // A block past the last field changes nothing.
    assert_eq!(decode_request(21, b"x".to_vec(), &mut r), (true, 32));
    assert_eq!(r.mode, "connect");
}

#[test]
fn decode_request_invalid_utf8_is_empty() {
    let mut r = CRequest::default();
    r.topic = "old".to_string();
    assert_eq!(decode_request(11, vec![0xff, 0xfe], &mut r), (true, 32));
    assert_eq!(r.topic, "");
}

#[test]
fn content_roundtrip_concrete() {
    let bytes = content_frame("[message] [t] [/get] hi\n");
    let (c, used) = parse_content(&bytes).expect("a whole line");
    assert_eq!(used, bytes.len());
    assert_eq!(c.data, "[message] [t] [/get] hi\n");
}

#[test]
fn decode_content_steps() {
    let mut c = CContentFrame { data: String::new() };
    let mut prefix = Vec::new();
    append32Number(2, &mut prefix);
    assert_eq!(decode_content(0, prefix, &mut c), (true, 2));
    assert_eq!(decode_content(1, b"hi".to_vec(), &mut c), (false, 0));
    assert_eq!(c.data, "hi");
    assert_eq!(decode_content(3, b"zz".to_vec(), &mut c), (true, 32));
    assert_eq!(c.data, "hi");
}

#[test]
fn response_and_ask_frames() {
    let resp = CResponse { mode: "query-result".to_string(), keyword: "mem1".to_string(), data: "42".to_string() };
    let bytes = response_frame(&resp);
    assert_eq!(bytes.len(), 3 * 32 + 12 + 4 + 2);
    assert_eq!(&bytes[32..44], b"query-result");
    let ask = ask_query_frame("mem1");
    assert_eq!(ask.len(), 2 * 32 + 12 + 4);
    assert_eq!(decode_number(&ask[0..32]), 12);
    assert_eq!(&ask[32..44], b"memory-query");
    assert_eq!(decode_number(&ask[44..76]), 4);
    assert_eq!(&ask[76..80], b"mem1");
}
