use log_server::request::content_frame;
use log_server::connect::{CConnect, CSubscribeInfo, ConnectionKeys, RequestKind};
use log_server::content::CContent;
use log_server::queues::{removeItemsFromSet, CQueues};
use log_server::request::CRequest;

fn req(mode: &str, identify: &str, name: &str, version: &str, no: &str, topic: &str, log_type: &str) -> CRequest {
    let mut r = CRequest::default();
    r.mode = mode.to_string();
    r.identify = identify.to_string();
    r.server_name = name.to_string();
    r.server_version = version.to_string();
    r.server_no = no.to_string();
    r.topic = topic.to_string();
    r.log_type = log_type.to_string();
    r
}

fn sub(id: &str, topic: &str, log_type: &str) -> CSubscribeInfo {
    CSubscribeInfo {
        conn_id: id.to_string(),
        sub_key: String::new(),
        topic: topic.to_string(),
        log_type: log_type.to_string(),
        server_name: String::new(),
        server_version: String::new(),
        server_no: String::new(),
    }
}

#[test]
fn join_key_concrete() {
    assert_eq!(CConnect::joinKey("cfgs", "v2.0", "1"), "cfgs-v2.0-1");
    assert_eq!(CConnect::joinKey("", "", ""), "--");
}

#[test]
fn classify_all_kinds() {
    let k = |m: &str, i: &str| CConnect::classify(&req(m, i, "", "", "", "", ""));
    assert!(matches!(k("connect", "publish"), RequestKind::ConnectPublisher));
    assert!(matches!(k("sending", "publish"), RequestKind::Publish));
    assert!(matches!(k("query-ack", "publish"), RequestKind::QueryAck));
    assert!(matches!(k("query", "queryer"), RequestKind::Query));
    assert!(matches!(k("connect", "subscribe"), RequestKind::ConnectSubscriber));
    assert!(matches!(k("connect", "queryer"), RequestKind::ConnectQueryer));
    assert!(matches!(k("sending", "subscribe"), RequestKind::Ignore));
    assert!(matches!(k("", ""), RequestKind::Ignore));
}

#[test]
fn is_send_filters() {
    assert!(CConnect::isSend(&sub("a", "", ""), "/x", "error"));
    assert!(CConnect::isSend(&sub("a", "/x", ""), "/x", "error"));
    assert!(!CConnect::isSend(&sub("a", "/y", ""), "/x", "error"));
    assert!(CConnect::isSend(&sub("a", "", "error"), "/x", "error"));
    assert!(!CConnect::isSend(&sub("a", "", "message"), "/x", "error"));
    assert!(CConnect::isSend(&sub("a", "/x", "error"), "/x", "error"));
    assert!(!CConnect::isSend(&sub("a", "/x", "message"), "/x", "error"));
    assert!(!CConnect::isSend(&sub("a", "/y", "error"), "/x", "error"));
}

#[test]
fn remove_items_from_set_first_match_only() {
    let mut q = vec![sub("a", "", ""), sub("b", "", ""), sub("a", "", ""), sub("c", "", "")];
    removeItemsFromSet(&vec!["a".to_string(), "z".to_string(), "c".to_string()], &mut q);
    let ids: Vec<&str> = q.iter().map(|s| s.conn_id.as_str()).collect();
    assert_eq!(ids, vec!["b", "a"]);
}

#[test]
fn queues_register_and_remove() {
    let mut q: CQueues<CSubscribeInfo> = CQueues::new();
    q.register("k1".to_string(), sub("a", "", ""));
    q.register("k2".to_string(), sub("b", "", ""));
    q.register("k1".to_string(), sub("c", "", ""));
    assert_eq!(q.len(), 2);
    assert_eq!(q.key_at(1), "k2");
    assert_eq!(q.queue_at(0).len(), 2);
    assert_eq!(q.ids_of("k1"), Some(vec!["a".to_string(), "c".to_string()]));
    assert_eq!(q.ids_of("k3"), None);
    q.remove_connection("a");
    assert_eq!(q.ids_of("k1"), Some(vec!["c".to_string()]));
    q.remove_key("k1");
    assert_eq!(q.ids_of("k1"), None);
    assert_eq!(q.ids_of("k2"), Some(vec!["b".to_string()]));
}

#[test]
fn subscriber_register_then_close_leaves_empty_queue() {
    let mut c = CConnect::new(2);
    let mut keys = ConnectionKeys::new();
    let kind = c.handleRequest(&req("connect", "subscribe", "cfgs", "v2.0", "1", "", ""), "id-1", &mut keys);
    assert!(matches!(kind, RequestKind::ConnectSubscriber));
    assert_eq!(keys.consumer, "cfgs-v2.0-1");
    assert_eq!(c.subscribes.ids_of("cfgs-v2.0-1"), Some(vec!["id-1".to_string()]));
    c.closeConnection(&keys, "id-1");
    assert_eq!(c.subscribes.ids_of("cfgs-v2.0-1"), Some(vec![]));
}

#[test]
fn publisher_close_drops_its_key() {
    let mut c = CConnect::new(1);
    let mut k1 = ConnectionKeys::new();
    let mut k2 = ConnectionKeys::new();
    c.handleRequest(&req("connect", "publish", "s", "1", "1", "", ""), "p1", &mut k1);
    c.handleRequest(&req("connect", "publish", "s", "1", "1", "", ""), "p2", &mut k2);
    let t = c.handleQuery("s", "1", "1").expect("publishers registered");
    assert_eq!(t.key, "s-1-1");
    assert_eq!(t.ids, vec!["p1".to_string(), "p2".to_string()]);
    c.closeConnection(&k1, "p1");
    assert!(c.handleQuery("s", "1", "1").is_none());
}

#[test]
fn queryer_close_and_query_ack_targets() {
    let mut c = CConnect::new(1);
    let mut k = ConnectionKeys::new();
    assert!(c.handleQueryAck("s", "1", "1").is_none());
    c.handleRequest(&req("connect", "queryer", "s", "1", "1", "", ""), "q1", &mut k);
    assert_eq!(k.queryer, "s-1-1");
    let t = c.handleQueryAck("s", "1", "1").expect("queryer registered");
    assert_eq!(t.ids, vec!["q1".to_string()]);
    c.closeConnection(&k, "q1");
    assert_eq!(c.handleQueryAck("s", "1", "1").map(|t| t.ids), Some(vec![]));
    let resp = CConnect::queryResult("mem1", "42");
    assert_eq!(resp.mode, "query-result");
    assert_eq!(resp.keyword, "mem1");
    assert_eq!(resp.data, "42");
}

#[test]
fn non_connect_requests_change_nothing() {
    let mut c = CConnect::new(1);
    let mut k = ConnectionKeys::new();
    let kind = c.handleRequest(&req("sending", "publish", "s", "1", "1", "", ""), "p", &mut k);
    assert!(matches!(kind, RequestKind::Publish));
    assert_eq!(k.publisher, "");
    assert!(c.handleQuery("s", "1", "1").is_none());
}

#[test]
fn publish_plan_deliveries_and_writes() {
    let mut c = CConnect::new(1);
    let mut ka = ConnectionKeys::new();
    let mut kb = ConnectionKeys::new();
    let mut kc = ConnectionKeys::new();
    c.handleRequest(&req("connect", "subscribe", "s", "1", "1", "/get", ""), "a", &mut ka);
    c.handleRequest(&req("connect", "subscribe", "s", "1", "1", "", ""), "b", &mut kb);
    c.handleRequest(&req("connect", "subscribe", "t", "1", "1", "", ""), "c", &mut kc);
    let plan = c.publishPlan("s-1-1", "message", "file", "/put", "line".to_string());
    assert_eq!(plan.content, "line");
    assert_eq!(plan.writes.len(), 2);
    assert_eq!(plan.writes[0].path, "s-1-1");
    assert_eq!(plan.writes[0].log_type, "message");
    assert_eq!(plan.writes[1].log_type, "full");
    let d: Vec<(String, String, bool)> =
        plan.deliveries.iter().map(|d| (d.queue_key.clone(), d.conn_id.clone(), d.full)).collect();
    assert_eq!(
        d,
        vec![("s-1-1".to_string(), "a".to_string(), false), ("s-1-1".to_string(), "b".to_string(), true)]
    );
    let none = c.publishPlan("s-1-1", "message", "none", "/get", "line".to_string());
    assert!(none.writes.is_empty());
    assert!(none.deliveries[0].full);
}

#[test]
fn handle_publish_builds_stamped_line() {
    let c = CConnect::new(1);
    let plan = c.handlePublish("s", "1", "1", "hello", "message", "file", "/get", false);
    assert!(plan.content.starts_with("[message] ["));
    assert!(plan.content.ends_with("] [/get] hello\n"));
    assert_eq!(plan.writes[0].path, "s-1-1");
    let win = c.handlePublish("s", "1", "1", "hello", "message", "none", "/get", true);
    assert!(win.content.ends_with("hello\r\n"));
}

#[test]
fn content_full_at_concrete() {
    let c = CContent::new();
    assert_eq!(c.full_at("error", "2024-01-31 13:05:09", "/t", "x"), "[error] [2024-01-31 13:05:09] [/t] x");
    let line = c.full("root", "message", "/t", "y");
    assert!(line.starts_with("[message] ["));
    assert!(line.ends_with("] [/t] y"));
    // The stamp has the shape of the date-time pattern.
    let stamp = &line["[message] [".len()..line.len() - "] [/t] y".len()];
    assert_eq!(stamp.len(), 19);
}

#[test]
fn delivery_frames_and_failures() {
    assert_eq!(CConnect::deliveryFrame("line\n", true), content_frame("line\n"));
    assert_eq!(CConnect::deliveryFrame("line\n", false), content_frame("\n"));
    let mut c = CConnect::new(1);
    let mut ka = ConnectionKeys::new();
    let mut kb = ConnectionKeys::new();
    c.handleRequest(&req("connect", "subscribe", "s", "1", "1", "", ""), "a", &mut ka);
    c.handleRequest(&req("connect", "subscribe", "s", "1", "1", "", ""), "b", &mut kb);
    let plan = c.publishPlan("s-1-1", "message", "none", "", "x".to_string());
    assert_eq!(plan.deliveries.len(), 2);
    c.dropFailedDeliveries(&plan.deliveries, &vec![false, true]);
    assert_eq!(c.subscribes.ids_of("s-1-1"), Some(vec!["b".to_string()]));
}
