//! The server's bookkeeping of its connections and the decisions it takes on
//! each request: who is registered under which key, who receives a published
//! line and in which form, whom a query goes to, and what a closed connection
//! leaves behind.
use vstd::prelude::*;
use vstd::string::StringExecFns;
use vstd::string::StrSliceExecFns;
use crate::content::{CContent, full_line};
use crate::clock::is_date_time_text;
use crate::queues::{
    CQueues, IRemove, remove_first, remove_ids, ids_in, string_views, with_registered,
    without_connection,
};
use crate::request::{CRequest, CResponse, RESPONSE_MODE_QUERY_RESULT, content_frame, utf8_fields};
use crate::codec::frame;
use crate::storage::CFile;
use crate::text::{str_eq, starts_with, is_prefix};

verus! {

pub const REQUEST_MODE_CONNECT: &'static str = "connect";
pub const REQUEST_MODE_SENDING: &'static str = "sending";
pub const REQUEST_MODE_QUERY: &'static str = "query";
pub const REQUEST_MODE_QUERY_ACK: &'static str = "query-ack";
pub const REQUEST_IDENTIFY_PUBLISH: &'static str = "publish";
pub const REQUEST_IDENTIFY_SUBSCRIBE: &'static str = "subscribe";
pub const REQUEST_IDENTIFY_QUERYER: &'static str = "queryer";
pub const STORAGE_MODE_NONE: &'static str = "none";
pub const STORAGE_MODE_FILE: &'static str = "file";
pub const LOG_TYPE_MESSAGE: &'static str = "message";
pub const LOG_TYPE_ERROR: &'static str = "error";
/// The log type under which every stored line is also written.
pub const LOG_TYPE_FULL: &'static str = "full";

/// A subscriber: where it is connected and which lines it asked for.
pub struct CSubscribeInfo {
    pub conn_id: String,
    pub sub_key: String,
    pub topic: String,
    pub log_type: String,
    pub server_name: String,
    pub server_version: String,
    pub server_no: String,
}

/// A connected publisher.
pub struct CPublishInfo {
    pub conn_id: String,
}

/// A connected queryer.
pub struct CQueryInfo {
    pub conn_id: String,
}

impl IRemove for CSubscribeInfo {
    open spec fn spec_id(&self) -> Seq<char> {
        self.conn_id@
    }

    fn id(&self) -> (r: &str) {
        self.conn_id.as_str()
    }
}

impl IRemove for CPublishInfo {
    open spec fn spec_id(&self) -> Seq<char> {
        self.conn_id@
    }

    fn id(&self) -> (r: &str) {
        self.conn_id.as_str()
    }
}

impl IRemove for CQueryInfo {
    open spec fn spec_id(&self) -> Seq<char> {
        self.conn_id@
    }

    fn id(&self) -> (r: &str) {
        self.conn_id.as_str()
    }
}

/// The keys a connection registered under, as publisher, as subscriber and
/// as queryer; empty where it did not register in that role.
pub struct ConnectionKeys {
    pub publisher: String,
    pub consumer: String,
    pub queryer: String,
}

impl ConnectionKeys {
    /// A connection that has not registered yet.
    pub fn new() -> (res: ConnectionKeys)
        ensures
            res.publisher@.len() == 0,
            res.consumer@.len() == 0,
            res.queryer@.len() == 0,
    {
        ConnectionKeys { publisher: String::new(), consumer: String::new(), queryer: String::new() }
    }
}

/// What a request asks of the server.
pub enum RequestKind {
    /// A publisher connects.
    ConnectPublisher,
    /// A publisher sends a log line.
    Publish,
    /// A publisher answers a memory query.
    QueryAck,
    /// A queryer asks the publishers of a key for their memory.
    Query,
    /// A subscriber connects.
    ConnectSubscriber,
    /// A queryer connects.
    ConnectQueryer,
    /// Nothing the server handles.
    Ignore,
}

/// The kind of a request with this mode and identity.
pub open spec fn request_kind(mode: Seq<char>, identify: Seq<char>) -> RequestKind {
    if mode == REQUEST_MODE_CONNECT@ && identify == REQUEST_IDENTIFY_PUBLISH@ {
        RequestKind::ConnectPublisher
    } else if mode == REQUEST_MODE_SENDING@ && identify == REQUEST_IDENTIFY_PUBLISH@ {
        RequestKind::Publish
    } else if mode == REQUEST_MODE_QUERY_ACK@ && identify == REQUEST_IDENTIFY_PUBLISH@ {
        RequestKind::QueryAck
    } else if mode == REQUEST_MODE_QUERY@ && identify == REQUEST_IDENTIFY_QUERYER@ {
        RequestKind::Query
    } else if mode == REQUEST_MODE_CONNECT@ && identify == REQUEST_IDENTIFY_SUBSCRIBE@ {
        RequestKind::ConnectSubscriber
    } else if mode == REQUEST_MODE_CONNECT@ && identify == REQUEST_IDENTIFY_QUERYER@ {
        RequestKind::ConnectQueryer
    } else {
        RequestKind::Ignore
    }
}

/// The key of a server: `<name>-<version>-<no>`.
pub open spec fn join_key(name: Seq<char>, version: Seq<char>, no: Seq<char>) -> Seq<char> {
    name + seq!['-'] + version + seq!['-'] + no
}

/// Whether a subscriber that asked for `sub_topic` and `sub_log_type` gets a
/// line of `log_type` on `topic` in full: an empty choice takes everything,
/// any other must match.
pub open spec fn should_deliver(
    sub_topic: Seq<char>,
    sub_log_type: Seq<char>,
    topic: Seq<char>,
    log_type: Seq<char>,
) -> bool {
    (sub_topic.len() == 0 || sub_topic == topic) && (sub_log_type.len() == 0 || sub_log_type
        == log_type)
}

/// A line to send to one subscriber: the full line, or only a line break
/// that keeps the connection alive.
pub struct Delivery {
    pub queue_key: String,
    pub conn_id: String,
    pub full: bool,
}

/// A line to store: under the server key `path`, with this log type.
pub struct StorageWrite {
    pub path: String,
    pub log_type: String,
}

/// What to do with a published line.
pub struct PublishPlan {
    pub content: String,
    pub writes: Vec<StorageWrite>,
    pub deliveries: Vec<Delivery>,
}

/// The connections a message goes to: the queue key and the ids queued
/// under it.
pub struct Targets {
    pub key: String,
    pub ids: Vec<String>,
}

/// The sends of a published line to the subscribers of one queue.
pub open spec fn queue_deliveries(
    queue_key: Seq<char>,
    subs: Seq<CSubscribeInfo>,
    topic: Seq<char>,
    log_type: Seq<char>,
) -> Seq<(Seq<char>, Seq<char>, bool)> {
    subs.map_values(
        |s: CSubscribeInfo| (queue_key, s.conn_id@, should_deliver(s.topic@, s.log_type@, topic, log_type)),
    )
}

/// The sends of a line published under `key`: to every subscriber of every
/// queue whose key begins `key`, queue by queue, in queue order.
pub open spec fn deliveries_for(
    pairs: Seq<(Seq<char>, Seq<CSubscribeInfo>)>,
    key: Seq<char>,
    topic: Seq<char>,
    log_type: Seq<char>,
) -> Seq<(Seq<char>, Seq<char>, bool)>
    decreases pairs.len(),
{
    if pairs.len() == 0 {
        Seq::empty()
    } else {
        deliveries_for(pairs.drop_last(), key, topic, log_type) + if is_prefix(pairs.last().0, key) {
            queue_deliveries(pairs.last().0, pairs.last().1, topic, log_type)
        } else {
            Seq::empty()
        }
    }
}

/// The plain values of some deliveries.
pub open spec fn deliveries_view(d: Seq<Delivery>) -> Seq<(Seq<char>, Seq<char>, bool)> {
    d.map_values(|x: Delivery| (x.queue_key@, x.conn_id@, x.full))
}

/// The plain values of some storage writes.
pub open spec fn writes_view(w: Seq<StorageWrite>) -> Seq<(Seq<char>, Seq<char>)> {
    w.map_values(|x: StorageWrite| (x.path@, x.log_type@))
}

/// The writes of a line of `log_type` published under `key`: with file
/// storage, once under its log type and once under the full log.
pub open spec fn writes_for(
    key: Seq<char>,
    log_type: Seq<char>,
    storage_mode: Seq<char>,
) -> Seq<(Seq<char>, Seq<char>)> {
    if storage_mode == STORAGE_MODE_FILE@ {
        seq![(key, log_type), (key, LOG_TYPE_FULL@)]
    } else {
        Seq::empty()
    }
}

/// The server: who is connected under which key, and how lines are stored
/// and written.
pub struct CConnect {
    pub subscribes: CQueues<CSubscribeInfo>,
    pub publishs: CQueues<CPublishInfo>,
    pub queryers: CQueues<CQueryInfo>,
    pub queue_thread_max: usize,
    pub storage_file: CFile,
    pub content: CContent,
}

impl CConnect {
    /// A server with no connections, whose line work runs on
    /// `queueThreadMax` threads.
    #[allow(non_snake_case)]
    pub fn new(queueThreadMax: usize) -> (res: CConnect)
        requires
            queueThreadMax > 0,
        ensures
            res.subscribes.queues() == Map::<Seq<char>, Seq<CSubscribeInfo>>::empty(),
            res.publishs.queues() == Map::<Seq<char>, Seq<CPublishInfo>>::empty(),
            res.queryers.queues() == Map::<Seq<char>, Seq<CQueryInfo>>::empty(),
            res.queue_thread_max == queueThreadMax,
    {
        CConnect {
            subscribes: CQueues::new(),
            publishs: CQueues::new(),
            queryers: CQueues::new(),
            queue_thread_max: queueThreadMax,
            storage_file: CFile::new(),
            content: CContent::new(),
        }
    }

    /// The key of a server: `<name>-<version>-<no>`.
    #[allow(non_snake_case)]
    pub fn joinKey(serverName: &str, serverVersion: &str, serverNo: &str) -> (key: String)
        ensures
            key@ == join_key(serverName@, serverVersion@, serverNo@),
    {
        let mut key = String::new();
        key.append(serverName);
        key.append("-");
        key.append(serverVersion);
        key.append("-");
        key.append(serverNo);
        proof {
            reveal_strlit("-");
            assert(key@ =~= join_key(serverName@, serverVersion@, serverNo@));
        }
        key
    }

    /// The kind of a request.
    pub fn classify(request: &CRequest) -> (res: RequestKind)
        ensures
            res == request_kind(request.mode@, request.identify@),
    {
        let mode = request.mode.as_str();
        let identify = request.identify.as_str();
        if str_eq(mode, REQUEST_MODE_CONNECT) && str_eq(identify, REQUEST_IDENTIFY_PUBLISH) {
            RequestKind::ConnectPublisher
        } else if str_eq(mode, REQUEST_MODE_SENDING) && str_eq(identify, REQUEST_IDENTIFY_PUBLISH) {
            RequestKind::Publish
        } else if str_eq(mode, REQUEST_MODE_QUERY_ACK) && str_eq(identify, REQUEST_IDENTIFY_PUBLISH) {
            RequestKind::QueryAck
        } else if str_eq(mode, REQUEST_MODE_QUERY) && str_eq(identify, REQUEST_IDENTIFY_QUERYER) {
            RequestKind::Query
        } else if str_eq(mode, REQUEST_MODE_CONNECT) && str_eq(identify, REQUEST_IDENTIFY_SUBSCRIBE) {
            RequestKind::ConnectSubscriber
        } else if str_eq(mode, REQUEST_MODE_CONNECT) && str_eq(identify, REQUEST_IDENTIFY_QUERYER) {
            RequestKind::ConnectQueryer
        } else {
            RequestKind::Ignore
        }
    }

    /// Whether a subscriber gets a line of `logType` on `topic` in full
    /// rather than as a bare line break.
    #[allow(non_snake_case)]
    pub fn isSend(sub: &CSubscribeInfo, topic: &str, logType: &str) -> (res: bool)
        ensures
            res == should_deliver(sub.topic@, sub.log_type@, topic@, logType@),
            sub.topic@.len() > 0 && sub.topic@ != topic@ ==> !res,
            sub.log_type@.len() > 0 && sub.log_type@ != logType@ ==> !res,
            (sub.topic@.len() == 0 || sub.topic@ == topic@) && (sub.log_type@.len() == 0
                || sub.log_type@ == logType@) ==> res,
    {
        let sub_topic = sub.topic.as_str();
        let sub_log_type = sub.log_type.as_str();
        let topic_empty = sub_topic.unicode_len() == 0;
        let log_type_empty = sub_log_type.unicode_len() == 0;
        if (!topic_empty && log_type_empty) && !str_eq(topic, sub_topic) {
            false
        } else if (!log_type_empty && topic_empty) && !str_eq(logType, sub_log_type) {
            false
        } else if (!log_type_empty && !topic_empty) && (!str_eq(logType, sub_log_type) || !str_eq(
            topic,
            sub_topic,
        )) {
            false
        } else {
            true
        }
    }
}

impl CConnect {
    /// Takes in one request of connection `connId`: registers a connecting
    /// publisher, subscriber or queryer under its server key and notes that
    /// key in `keys`; other requests change nothing here. Returns the kind of
    /// the request, which says what else is to be done with it.
    #[allow(non_snake_case)]
    pub fn handleRequest(&mut self, request: &CRequest, connId: &str, keys: &mut ConnectionKeys) -> (res: RequestKind)
        ensures
            res == request_kind(request.mode@, request.identify@),
            ({
                let key = join_key(request.server_name@, request.server_version@, request.server_no@);
                match res {
                    RequestKind::ConnectPublisher => {
                        &&& exists|p: CPublishInfo|
                            #![trigger with_registered(old(self).publishs.queues(), key, p)]
                            p.conn_id@ == connId@ && final(self).publishs.queues()
                                == with_registered(old(self).publishs.queues(), key, p)
                        &&& final(self).subscribes == old(self).subscribes
                        &&& final(self).queryers == old(self).queryers
                        &&& final(keys).publisher@ == key
                        &&& final(keys).consumer == old(keys).consumer
                        &&& final(keys).queryer == old(keys).queryer
                    },
                    RequestKind::ConnectSubscriber => {
                        &&& exists|s: CSubscribeInfo|
                            #![trigger with_registered(old(self).subscribes.queues(), key, s)]
                            s.conn_id@ == connId@ && s.sub_key@ == key && s.topic@ == request.topic@
                                && s.log_type@ == request.log_type@ && s.server_name@
                                == request.server_name@ && s.server_version@
                                == request.server_version@ && s.server_no@ == request.server_no@
                                && final(self).subscribes.queues() == with_registered(
                                old(self).subscribes.queues(),
                                key,
                                s,
                            )
                        &&& final(self).publishs == old(self).publishs
                        &&& final(self).queryers == old(self).queryers
                        &&& final(keys).consumer@ == key
                        &&& final(keys).publisher == old(keys).publisher
                        &&& final(keys).queryer == old(keys).queryer
                    },
                    RequestKind::ConnectQueryer => {
                        &&& exists|q: CQueryInfo|
                            #![trigger with_registered(old(self).queryers.queues(), key, q)]
                            q.conn_id@ == connId@ && final(self).queryers.queues()
                                == with_registered(old(self).queryers.queues(), key, q)
                        &&& final(self).subscribes == old(self).subscribes
                        &&& final(self).publishs == old(self).publishs
                        &&& final(keys).queryer@ == key
                        &&& final(keys).publisher == old(keys).publisher
                        &&& final(keys).consumer == old(keys).consumer
                    },
                    _ => *final(self) == *old(self) && *final(keys) == *old(keys),
                }
            }),
    {
        let kind = Self::classify(request);
        match kind {
            RequestKind::ConnectPublisher => {
                let key = Self::joinKey(
                    request.server_name.as_str(),
                    request.server_version.as_str(),
                    request.server_no.as_str(),
                );
                let pu = CPublishInfo { conn_id: String::from_str(connId) };
                let ghost p = pu;
                self.publishs.register(key.clone(), pu);
                keys.publisher = key;
                assert(with_registered(old(self).publishs.queues(), keys.publisher@, p) == self.publishs.queues());
            },
            RequestKind::ConnectSubscriber => {
                let key = Self::joinKey(
                    request.server_name.as_str(),
                    request.server_version.as_str(),
                    request.server_no.as_str(),
                );
                let sub = CSubscribeInfo {
                    conn_id: String::from_str(connId),
                    sub_key: key.clone(),
                    topic: request.topic.clone(),
                    log_type: request.log_type.clone(),
                    server_name: request.server_name.clone(),
                    server_version: request.server_version.clone(),
                    server_no: request.server_no.clone(),
                };
                let ghost s = sub;
                self.subscribes.register(key.clone(), sub);
                keys.consumer = key;
                assert(with_registered(old(self).subscribes.queues(), keys.consumer@, s) == self.subscribes.queues());
            },
            RequestKind::ConnectQueryer => {
                let key = Self::joinKey(
                    request.server_name.as_str(),
                    request.server_version.as_str(),
                    request.server_no.as_str(),
                );
                let queryer = CQueryInfo { conn_id: String::from_str(connId) };
                let ghost q = queryer;
                self.queryers.register(key.clone(), queryer);
                keys.queryer = key;
                assert(with_registered(old(self).queryers.queues(), keys.queryer@, q) == self.queryers.queues());
            },
            _ => {},
        }
        kind
    }
}

/// The end of a stored line: `\r\n` on Windows, `\n` elsewhere.
pub open spec fn line_end(windows: bool) -> Seq<char> {
    if windows {
        seq!['\r', '\n']
    } else {
        seq!['\n']
    }
}

impl CConnect {
    /// What to do with the line `content` published under `key`: the writes
    /// to storage, and one send to each subscriber of each queue whose key
    /// begins `key` (the full line where the subscriber's choice of topic and
    /// log type lets it through, else a bare line break).
    #[allow(non_snake_case)]
    pub fn publishPlan(&self, key: &str, logType: &str, storageMode: &str, topic: &str, content: String) -> (res: PublishPlan)
        ensures
            res.content@ == content@,
            writes_view(res.writes@) == writes_for(key@, logType@, storageMode@),
            deliveries_view(res.deliveries@) == deliveries_for(self.subscribes.pairs(), key@, topic@, logType@),
    {
        let mut writes: Vec<StorageWrite> = Vec::new();
        if str_eq(storageMode, STORAGE_MODE_FILE) {
            writes.push(StorageWrite { path: String::from_str(key), log_type: String::from_str(logType) });
            writes.push(StorageWrite { path: String::from_str(key), log_type: String::from_str(LOG_TYPE_FULL) });
            assert(writes_view(writes@) =~= writes_for(key@, logType@, storageMode@));
        } else {
            assert(writes_view(writes@) =~= writes_for(key@, logType@, storageMode@));
        }
        let mut deliveries: Vec<Delivery> = Vec::new();
        let ghost pairs = self.subscribes.pairs();
        let mut i: usize = 0;
        while i < self.subscribes.len()
            invariant
                i <= self.subscribes.pairs().len(),
                pairs == self.subscribes.pairs(),
                deliveries_view(deliveries@) == deliveries_for(pairs.subrange(0, i as int), key@, topic@, logType@),
            decreases self.subscribes.pairs().len() - i,
        {
            let ghost before = deliveries_view(deliveries@);
            let k = self.subscribes.key_at(i);
            let subs = self.subscribes.queue_at(i);
            proof {
                assert(pairs[i as int] == (k@, subs@));
                assert(pairs.subrange(0, i + 1).drop_last() =~= pairs.subrange(0, i as int));
                assert(pairs.subrange(0, i + 1).last() == pairs[i as int]);
            }
            if starts_with(key, k.as_str()) {
                let mut j: usize = 0;
                while j < subs.len()
                    invariant
                        j <= subs@.len(),
                        deliveries_view(deliveries@) == before + queue_deliveries(k@, subs@.subrange(0, j as int), topic@, logType@),
                    decreases subs@.len() - j,
                {
                    let sub = &subs[j];
                    let full = Self::isSend(sub, topic, logType);
                    let ghost prev = deliveries@;
                    deliveries.push(Delivery { queue_key: k.clone(), conn_id: sub.conn_id.clone(), full });
                    proof {
                        let q = queue_deliveries(k@, subs@.subrange(0, j + 1), topic@, logType@);
                        let q0 = queue_deliveries(k@, subs@.subrange(0, j as int), topic@, logType@);
                        assert(subs@.subrange(0, j + 1) =~= subs@.subrange(0, j as int).push(subs@[j as int]));
                        assert(q =~= q0.push((k@, subs@[j as int].conn_id@, full)));
                        assert(deliveries_view(deliveries@) =~= deliveries_view(prev).push((k@, sub.conn_id@, full)));
                    }
                    j = j + 1;
                }
                assert(subs@.subrange(0, subs@.len() as int) =~= subs@);
            } else {
                assert(before + Seq::<(Seq<char>, Seq<char>, bool)>::empty() =~= before);
            }
            i = i + 1;
        }
        assert(pairs.subrange(0, pairs.len() as int) =~= pairs);
        PublishPlan { content, writes, deliveries }
    }

    /// Takes in a line published by server `serverName`-`serverVersion`-
    /// `serverNo`: the line is the data and a line end, written out with its
    /// log type, the local time now and its topic; what to do with it is
    /// `publishPlan`'s answer for the server's key.
    #[allow(non_snake_case)]
    pub fn handlePublish(
        &self,
        serverName: &str,
        serverVersion: &str,
        serverNo: &str,
        data: &str,
        logType: &str,
        storageMode: &str,
        topic: &str,
        windows: bool,
    ) -> (res: PublishPlan)
        ensures
            exists|time: Seq<char>|
                is_date_time_text(time) && res.content@ == full_line(logType@, time, topic@, data@ + line_end(windows)),
            writes_view(res.writes@) == writes_for(join_key(serverName@, serverVersion@, serverNo@), logType@, storageMode@),
            deliveries_view(res.deliveries@) == deliveries_for(
                self.subscribes.pairs(),
                join_key(serverName@, serverVersion@, serverNo@),
                topic@,
                logType@,
            ),
    {
        let key = Self::joinKey(serverName, serverVersion, serverNo);
        let mut line = String::from_str(data);
        if windows {
            line.append("\r\n");
            proof { reveal_strlit("\r\n"); }
        } else {
            line.append("\n");
            proof { reveal_strlit("\n"); }
        }
        assert(line@ =~= data@ + line_end(windows));
        let content = self.content.full(key.as_str(), logType, topic, line.as_str());
        self.publishPlan(key.as_str(), logType, storageMode, topic, content)
    }

    /// The publishers to ask for their memory on behalf of a queryer: the
    /// publishers under the server's key, or `None` where none registered.
    #[allow(non_snake_case)]
    pub fn handleQuery(&self, serverName: &str, serverVersion: &str, serverNo: &str) -> (res: Option<Targets>)
        ensures
            ({
                let key = join_key(serverName@, serverVersion@, serverNo@);
                match res {
                    Some(t) => t.key@ == key && self.publishs.queues().contains_key(key)
                        && string_views(t.ids@) == ids_in(self.publishs.queues()[key]),
                    None => !self.publishs.queues().contains_key(key),
                }
            }),
    {
        let key = Self::joinKey(serverName, serverVersion, serverNo);
        match self.publishs.ids_of(key.as_str()) {
            Some(ids) => Some(Targets { key, ids }),
            None => None,
        }
    }

    /// The queryers to send a publisher's answer to: the queryers under the
    /// server's key, or `None` where none registered.
    #[allow(non_snake_case)]
    pub fn handleQueryAck(&self, serverName: &str, serverVersion: &str, serverNo: &str) -> (res: Option<Targets>)
        ensures
            ({
                let key = join_key(serverName@, serverVersion@, serverNo@);
                match res {
                    Some(t) => t.key@ == key && self.queryers.queues().contains_key(key)
                        && string_views(t.ids@) == ids_in(self.queryers.queues()[key]),
                    None => !self.queryers.queues().contains_key(key),
                }
            }),
    {
        let key = Self::joinKey(serverName, serverVersion, serverNo);
        match self.queryers.ids_of(key.as_str()) {
            Some(ids) => Some(Targets { key, ids }),
            None => None,
        }
    }

    /// The answer a queryer receives: a query result with the publisher's
    /// keyword and data.
    #[allow(non_snake_case)]
    pub fn queryResult(keyword: &str, data: &str) -> (res: CResponse)
        ensures
            res.mode@ == RESPONSE_MODE_QUERY_RESULT@,
            res.keyword@ == keyword@,
            res.data@ == data@,
    {
        CResponse {
            mode: String::from_str(RESPONSE_MODE_QUERY_RESULT),
            keyword: String::from_str(keyword),
            data: String::from_str(data),
        }
    }

    /// Drops the subscribers of queue `key` whose sends failed.
    #[allow(non_snake_case)]
    pub fn removeSubscribers(&mut self, key: &str, rmIds: &Vec<String>)
        ensures
            final(self).subscribes.queues() == if old(self).subscribes.queues().contains_key(key@) {
                old(self).subscribes.queues().insert(key@, remove_ids(old(self).subscribes.queues()[key@], string_views(rmIds@)))
            } else {
                old(self).subscribes.queues()
            },
            final(self).publishs == old(self).publishs,
            final(self).queryers == old(self).queryers,
    {
        self.subscribes.remove_items(key, rmIds);
    }

    /// Drops the publishers of queue `key` that could not be asked.
    #[allow(non_snake_case)]
    pub fn removePublishers(&mut self, key: &str, rmIds: &Vec<String>)
        ensures
            final(self).publishs.queues() == if old(self).publishs.queues().contains_key(key@) {
                old(self).publishs.queues().insert(key@, remove_ids(old(self).publishs.queues()[key@], string_views(rmIds@)))
            } else {
                old(self).publishs.queues()
            },
            final(self).subscribes == old(self).subscribes,
            final(self).queryers == old(self).queryers,
    {
        self.publishs.remove_items(key, rmIds);
    }

    /// Drops the queryers of queue `key` that could not be answered.
    #[allow(non_snake_case)]
    pub fn removeQueryers(&mut self, key: &str, rmIds: &Vec<String>)
        ensures
            final(self).queryers.queues() == if old(self).queryers.queues().contains_key(key@) {
                old(self).queryers.queues().insert(key@, remove_ids(old(self).queryers.queues()[key@], string_views(rmIds@)))
            } else {
                old(self).queryers.queues()
            },
            final(self).subscribes == old(self).subscribes,
            final(self).publishs == old(self).publishs,
    {
        self.queryers.remove_items(key, rmIds);
    }

    /// Forgets connection `connId` once it has closed: a publisher takes the
    /// whole queue of its key with it; otherwise a queryer, else a
    /// subscriber, leaves each queue of its kind (its first entry there).
    #[allow(non_snake_case)]
    pub fn closeConnection(&mut self, keys: &ConnectionKeys, connId: &str)
        ensures
            keys.publisher@.len() != 0 ==> final(self).publishs.queues() == old(self).publishs.queues().remove(keys.publisher@)
                && final(self).subscribes == old(self).subscribes && final(self).queryers == old(self).queryers,
            keys.publisher@.len() == 0 && keys.queryer@.len() != 0 ==> {
                &&& final(self).queryers.queues() == without_connection(old(self).queryers.queues(), connId@)
                &&& final(self).subscribes == old(self).subscribes
                &&& final(self).publishs == old(self).publishs
            },
            keys.publisher@.len() == 0 && keys.queryer@.len() == 0 && keys.consumer@.len() != 0 ==> {
                &&& final(self).subscribes.queues() == without_connection(old(self).subscribes.queues(), connId@)
                &&& final(self).queryers == old(self).queryers
                &&& final(self).publishs == old(self).publishs
            },
            keys.publisher@.len() == 0 && keys.queryer@.len() == 0 && keys.consumer@.len() == 0 ==> *final(self) == *old(self),
    {
        if keys.publisher.as_str().unicode_len() != 0 {
            self.publishs.remove_key(keys.publisher.as_str());
        } else if keys.queryer.as_str().unicode_len() != 0 {
            self.queryers.remove_connection(connId);
        } else if keys.consumer.as_str().unicode_len() != 0 {
            self.subscribes.remove_connection(connId);
        }
    }
}

/// The send to subscriber `j` of queue `i` of a line of `log_type` on `topic`.
pub open spec fn delivery_to(
    pairs: Seq<(Seq<char>, Seq<CSubscribeInfo>)>,
    i: int,
    j: int,
    topic: Seq<char>,
    log_type: Seq<char>,
) -> (Seq<char>, Seq<char>, bool) {
    (
        pairs[i].0,
        pairs[i].1[j].conn_id@,
        should_deliver(pairs[i].1[j].topic@, pairs[i].1[j].log_type@, topic, log_type),
    )
}

/// A line published under `key` is sent to every subscriber of every queue
/// whose key begins `key`, in full exactly where the subscriber's choice of
/// topic and log type lets it through; and it is sent to no one else.
pub proof fn lemma_deliveries_reach_exactly_the_subscribers(
    pairs: Seq<(Seq<char>, Seq<CSubscribeInfo>)>,
    key: Seq<char>,
    topic: Seq<char>,
    log_type: Seq<char>,
)
    ensures
        forall|i: int, j: int|
            0 <= i < pairs.len() && is_prefix(pairs[i].0, key) && 0 <= j < pairs[i].1.len()
                ==> deliveries_for(pairs, key, topic, log_type).contains(
                #[trigger] delivery_to(pairs, i, j, topic, log_type),
            ),
        forall|d: (Seq<char>, Seq<char>, bool)|
            #[trigger] deliveries_for(pairs, key, topic, log_type).contains(d) ==> exists|i: int, j: int|
                0 <= i < pairs.len() && is_prefix(pairs[i].0, key) && 0 <= j < pairs[i].1.len() && d
                    == #[trigger] delivery_to(pairs, i, j, topic, log_type),
    decreases pairs.len(),
{
    if pairs.len() > 0 {
        let init = pairs.drop_last();
        lemma_deliveries_reach_exactly_the_subscribers(init, key, topic, log_type);
        let last = pairs.last();
        let n = pairs.len() - 1;
        let head = deliveries_for(init, key, topic, log_type);
        let tail = if is_prefix(last.0, key) {
            queue_deliveries(last.0, last.1, topic, log_type)
        } else {
            Seq::empty()
        };
        let all = deliveries_for(pairs, key, topic, log_type);
        assert(all == head + tail);
        assert forall|i: int, j: int|
            0 <= i < pairs.len() && is_prefix(pairs[i].0, key) && 0 <= j < pairs[i].1.len()
                implies all.contains(#[trigger] delivery_to(pairs, i, j, topic, log_type)) by {
            if i < n {
                assert(init[i] == pairs[i]);
                assert(delivery_to(init, i, j, topic, log_type) == delivery_to(pairs, i, j, topic, log_type));
                let k = choose|k: int| 0 <= k < head.len() && head[k] == delivery_to(init, i, j, topic, log_type);
                assert(all[k] == head[k]);
            } else {
                assert(tail[j] == delivery_to(pairs, i, j, topic, log_type));
                assert(all[head.len() + j] == tail[j]);
            }
        }
        assert forall|d: (Seq<char>, Seq<char>, bool)| #[trigger] all.contains(d) implies exists|i: int, j: int|
            0 <= i < pairs.len() && is_prefix(pairs[i].0, key) && 0 <= j < pairs[i].1.len() && d
                == #[trigger] delivery_to(pairs, i, j, topic, log_type) by {
            let k = choose|k: int| 0 <= k < all.len() && all[k] == d;
            if k < head.len() {
                assert(head[k] == d);
                assert(head.contains(d));
                let (i, j) = choose|i: int, j: int|
                    0 <= i < init.len() && is_prefix(init[i].0, key) && 0 <= j < init[i].1.len() && d
                        == #[trigger] delivery_to(init, i, j, topic, log_type);
                assert(init[i] == pairs[i]);
                assert(d == delivery_to(pairs, i, j, topic, log_type));
            } else {
                let j = k - head.len();
                assert(tail[j] == d);
                assert(d == delivery_to(pairs, n, j, topic, log_type));
            }
        }
    }
}

/// What a subscriber is sent of a line: the line itself, or a bare line
/// break that keeps the connection alive.
pub open spec fn delivered_text(content: Seq<char>, full: bool) -> Seq<char> {
    if full {
        content
    } else {
        seq!['\n']
    }
}

/// `m` after the connection `id` left the queue under `key` (its first entry
/// there), where there is such a queue.
pub open spec fn without_in_queue(
    m: Map<Seq<char>, Seq<CSubscribeInfo>>,
    key: Seq<char>,
    id: Seq<char>,
) -> Map<Seq<char>, Seq<CSubscribeInfo>> {
    if m.contains_key(key) {
        m.insert(key, remove_first(m[key], id))
    } else {
        m
    }
}

/// The subscriber queues `m` after the first `n` sends of a published line,
/// whose outcomes `sent` gives: each subscriber whose send failed leaves its
/// queue, in the order of the sends.
pub open spec fn after_failures(
    m: Map<Seq<char>, Seq<CSubscribeInfo>>,
    deliveries: Seq<(Seq<char>, Seq<char>, bool)>,
    sent: Seq<bool>,
    n: nat,
) -> Map<Seq<char>, Seq<CSubscribeInfo>>
    decreases n,
{
    if n == 0 {
        m
    } else {
        let prev = after_failures(m, deliveries, sent, (n - 1) as nat);
        if sent[n - 1] {
            prev
        } else {
            without_in_queue(prev, deliveries[n - 1].0, deliveries[n - 1].1)
        }
    }
}

impl CConnect {
    /// The bytes sent to a subscriber for the line `content`: the framed line
    /// where the subscriber gets it in full, else a framed line break.
    #[allow(non_snake_case)]
    pub fn deliveryFrame(content: &str, full: bool) -> (res: Vec<u8>)
        ensures
            res@ == frame(utf8_fields(seq![delivered_text(content@, full)])),
    {
        if full {
            content_frame(content)
        } else {
            let line_break = "\n";
            proof {
                reveal_strlit("\n");
                assert(line_break@ =~= seq!['\n']);
            }
            content_frame(line_break)
        }
    }

    /// Drops, in the order of `deliveries`, each subscriber whose send failed
    /// (`sent[i]` false) from the queue it was sent to.
    #[allow(non_snake_case)]
    pub fn dropFailedDeliveries(&mut self, deliveries: &Vec<Delivery>, sent: &Vec<bool>)
        requires
            sent@.len() == deliveries@.len(),
        ensures
            final(self).subscribes.queues() == after_failures(
                old(self).subscribes.queues(),
                deliveries_view(deliveries@),
                sent@,
                deliveries@.len(),
            ),
            final(self).publishs == old(self).publishs,
            final(self).queryers == old(self).queryers,
    {
        let ghost start = self.subscribes.queues();
        let ghost dv = deliveries_view(deliveries@);
        let mut i: usize = 0;
        while i < deliveries.len()
            invariant
                i <= deliveries@.len(),
                sent@.len() == deliveries@.len(),
                dv == deliveries_view(deliveries@),
                self.subscribes.queues() == after_failures(start, dv, sent@, i as nat),
                self.publishs == old(self).publishs,
                self.queryers == old(self).queryers,
            decreases deliveries@.len() - i,
        {
            if !sent[i] {
                let d = &deliveries[i];
                let ids = vec![d.conn_id.clone()];
                let ghost before = self.subscribes.queues();
                self.removeSubscribers(d.queue_key.as_str(), &ids);
                proof {
                    assert(dv[i as int] == (d.queue_key@, d.conn_id@, d.full));
                    let one = string_views(ids@);
                    assert(one =~= seq![d.conn_id@]);
                    assert(one.drop_last() =~= Seq::<Seq<char>>::empty());
                    if before.contains_key(d.queue_key@) {
                        assert(remove_ids(before[d.queue_key@], one) == remove_first(
                            remove_ids(before[d.queue_key@], Seq::<Seq<char>>::empty()),
                            d.conn_id@,
                        ));
                    }
                }
            }
            i = i + 1;
        }
    }
}

/// The subscriber filter: a subscriber that chose a topic gets a line in
/// full only when the line's topic is that topic, and one that chose a log
/// type only when the line's log type is that type; an empty choice lets
/// every line through, and no other choice or line field is a wildcard (an
/// empty topic on the line matches only an empty choice).
pub proof fn lemma_delivery_filter(
    sub_topic: Seq<char>,
    sub_log_type: Seq<char>,
    topic: Seq<char>,
    log_type: Seq<char>,
)
    ensures
        sub_topic.len() > 0 && sub_topic != topic ==> !should_deliver(sub_topic, sub_log_type, topic, log_type),
        sub_log_type.len() > 0 && sub_log_type != log_type ==> !should_deliver(sub_topic, sub_log_type, topic, log_type),
        sub_topic.len() > 0 && topic.len() == 0 ==> !should_deliver(sub_topic, sub_log_type, topic, log_type),
        sub_log_type.len() > 0 && log_type.len() == 0 ==> !should_deliver(sub_topic, sub_log_type, topic, log_type),
        (sub_topic.len() == 0 || sub_topic == topic) && (sub_log_type.len() == 0 || sub_log_type == log_type)
            ==> should_deliver(sub_topic, sub_log_type, topic, log_type),
{
}

} // verus!
