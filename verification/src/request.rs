//! The messages of the protocol and how they are framed and read back.
//!
//! A request is ten text fields; the server reads it block by block: a 32-byte
//! length prefix (even block index), then that many bytes of field text (odd
//! block index). A response, a memory query and a log line are framed the same
//! way with fewer fields.
use vstd::prelude::*;
use vstd::utf8::{encode_utf8, encode_utf8_valid_utf8, encode_utf8_decode_utf8};
use crate::codec::{
    bits_value, frame, fields_fit, fields_from, field_at, append_field, decode_number,
    lemma_frame_roundtrip, lemma_prefix_value_bound,
};
use crate::text::{text_or_empty, text_from_bytes};

verus! {

/// A request sent to the server by a publisher, a subscriber or a queryer.
pub struct CRequest {
    pub mode: String,
    pub identify: String,
    pub server_name: String,
    pub server_version: String,
    pub server_no: String,
    pub topic: String,
    pub data: String,
    pub storage_mode: String,
    pub log_type: String,
    pub keyword: String,
}

/// The answer to a memory query, sent to queryers.
pub struct CResponse {
    pub mode: String,
    pub keyword: String,
    pub data: String,
}

/// A publisher's answer to a memory query.
pub struct CQueryAck {
    pub keyword: String,
    pub data: String,
}

/// A log line as a subscriber receives it.
pub struct CContentFrame {
    pub data: String,
}

/// The block index of a request's last field.
pub const REQUEST_LAST_INDEX: u64 = 19;

/// The fields of a request in wire order.
pub open spec fn request_fields(r: &CRequest) -> Seq<Seq<char>> {
    seq![
        r.mode@, r.identify@, r.server_name@, r.server_version@, r.server_no@, r.topic@,
        r.data@, r.storage_mode@, r.log_type@, r.keyword@,
    ]
}

/// The UTF-8 bytes of each text.
pub open spec fn utf8_fields(texts: Seq<Seq<char>>) -> Seq<Seq<u8>> {
    texts.map_values(|t: Seq<char>| encode_utf8(t))
}

/// How each field of a frame reads as text.
pub open spec fn texts_of(fields: Seq<Seq<u8>>) -> Seq<Seq<char>> {
    fields.map_values(|f: Seq<u8>| text_or_empty(f))
}

/// The bytes that a request is sent as.
pub open spec fn request_bytes(r: &CRequest) -> Seq<u8> {
    frame(utf8_fields(request_fields(r)))
}

/// What the first `count` fields at the start of `bytes` read as, and how many
/// bytes they take, if the bytes begin with that many whole fields.
pub open spec fn read_texts(bytes: Seq<u8>, count: nat) -> Option<(Seq<Seq<char>>, int)> {
    match fields_from(bytes, count) {
        Some((fs, n)) => Some((texts_of(fs), n)),
        None => None,
    }
}

/// The request with every field empty.
pub fn empty_request() -> (r: CRequest)
    ensures
        request_fields(&r) == Seq::new(10, |i: int| Seq::<char>::empty()),
{
    let r = CRequest {
        mode: String::new(),
        identify: String::new(),
        server_name: String::new(),
        server_version: String::new(),
        server_no: String::new(),
        topic: String::new(),
        data: String::new(),
        storage_mode: String::new(),
        log_type: String::new(),
        keyword: String::new(),
    };
    assert(request_fields(&r) =~= Seq::new(10, |i: int| Seq::<char>::empty()));
    r
}

impl Default for CRequest {
    fn default() -> (r: CRequest)
        ensures
            request_fields(&r) == Seq::new(10, |i: int| Seq::<char>::empty()),
    {
        empty_request()
    }
}

/// Handles one block of a request as the server reads it. An even `index`
/// is a length prefix: the result asks for that many bytes next. An odd
/// `index` is the text of field `index / 2`, stored in `request`; after the
/// last field the result says that the request is complete, else it asks for
/// the next 32-byte prefix.
pub fn decode_request(index: u64, buf: Vec<u8>, request: &mut CRequest) -> (res: (bool, u64))
    requires
        index % 2 == 0 ==> buf@.len() <= 64 && bits_value(buf@) <= u64::MAX,
    ensures
        index % 2 == 0 ==> res == (true, bits_value(buf@) as u64) && *final(request) == *old(request),
        index % 2 == 1 && index <= REQUEST_LAST_INDEX ==> request_fields(final(request))
            == request_fields(old(request)).update((index / 2) as int, text_or_empty(buf@)),
        index % 2 == 1 && index > REQUEST_LAST_INDEX ==> *final(request) == *old(request),
        index % 2 == 1 ==> res == (if index == REQUEST_LAST_INDEX { (false, 0u64) } else { (true, 32u64) }),
        index == 1 ==> final(request).mode@ == text_or_empty(buf@),
        index == 3 ==> final(request).identify@ == text_or_empty(buf@),
        index == 5 ==> final(request).server_name@ == text_or_empty(buf@),
        index == 7 ==> final(request).server_version@ == text_or_empty(buf@)
            && final(request).server_no == old(request).server_no,
        index == 9 ==> final(request).server_no@ == text_or_empty(buf@)
            && final(request).server_version == old(request).server_version,
        index == 11 ==> final(request).topic@ == text_or_empty(buf@),
        index == 13 ==> final(request).data@ == text_or_empty(buf@),
        index == 15 ==> final(request).storage_mode@ == text_or_empty(buf@),
        index == 17 ==> final(request).log_type@ == text_or_empty(buf@),
        index == 19 ==> final(request).keyword@ == text_or_empty(buf@),
{
    if index % 2 == 0 {
        let number = decode_number(buf.as_slice());
        return (true, number);
    }
    if index == 1 {
        request.mode = text_from_bytes(buf);
    } else if index == 3 {
        request.identify = text_from_bytes(buf);
    } else if index == 5 {
        request.server_name = text_from_bytes(buf);
    } else if index == 7 {
        request.server_version = text_from_bytes(buf);
    } else if index == 9 {
        request.server_no = text_from_bytes(buf);
    } else if index == 11 {
        request.topic = text_from_bytes(buf);
    } else if index == 13 {
        request.data = text_from_bytes(buf);
    } else if index == 15 {
        request.storage_mode = text_from_bytes(buf);
    } else if index == 17 {
        request.log_type = text_from_bytes(buf);
    } else if index == 19 {
        request.keyword = text_from_bytes(buf);
    }
    proof {
        if index <= REQUEST_LAST_INDEX {
            assert(request_fields(request) =~= request_fields(old(request)).update(
                (index / 2) as int,
                text_or_empty(buf@),
            ));
        }
    }
    if index == REQUEST_LAST_INDEX {
        return (false, 0);
    }
    (true, 32)
}

/// Handles one block of a log line as a subscriber reads it: block 0 is the
/// length prefix, block 1 the line, after which the line is complete.
pub fn decode_content(index: u64, buf: Vec<u8>, content: &mut CContentFrame) -> (res: (bool, u32))
    requires
        index % 2 == 0 ==> buf@.len() <= 32 && bits_value(buf@) <= u32::MAX,
    ensures
        index % 2 == 0 ==> res == (true, bits_value(buf@) as u32) && *final(content) == *old(content),
        index == 1 ==> final(content).data@ == text_or_empty(buf@) && res == (false, 0u32),
        index % 2 == 1 && index != 1 ==> *final(content) == *old(content) && res == (true, 32u32),
{
    if index % 2 == 0 {
        let number = decode_number(buf.as_slice());
        return (true, number as u32);
    }
    if index == 1 {
        content.data = text_from_bytes(buf);
        return (false, 0);
    }
    (true, 32)
}

/// The fields of a response in wire order.
pub open spec fn response_fields(r: &CResponse) -> Seq<Seq<char>> {
    seq![r.mode@, r.keyword@, r.data@]
}

/// Handles one block of a response as a queryer reads it: even blocks are
/// length prefixes; block 1, 3 and 5 are the mode, the keyword and the data,
/// after which the response is complete.
pub fn decode_response(index: u64, buf: Vec<u8>, response: &mut CResponse) -> (res: (bool, u64))
    requires
        index % 2 == 0 ==> buf@.len() <= 64 && bits_value(buf@) <= u64::MAX,
    ensures
        index % 2 == 0 ==> res == (true, bits_value(buf@) as u64) && *final(response) == *old(response),
        index % 2 == 1 && index <= 5 ==> response_fields(final(response))
            == response_fields(old(response)).update((index / 2) as int, text_or_empty(buf@)),
        index % 2 == 1 && index > 5 ==> *final(response) == *old(response),
        index % 2 == 1 ==> res == (if index == 5 { (false, 0u64) } else { (true, 32u64) }),
{
    if index % 2 == 0 {
        let number = decode_number(buf.as_slice());
        return (true, number);
    }
    if index == 1 {
        response.mode = text_from_bytes(buf);
    } else if index == 3 {
        response.keyword = text_from_bytes(buf);
    } else if index == 5 {
        response.data = text_from_bytes(buf);
    }
    proof {
        if index <= 5 {
            assert(response_fields(response) =~= response_fields(old(response)).update(
                (index / 2) as int,
                text_or_empty(buf@),
            ));
        }
    }
    if index == 5 {
        return (false, 0);
    }
    (true, 32)
}

/// Copies `bytes[from..to]`.
fn copy_range(bytes: &[u8], from: usize, to: usize) -> (res: Vec<u8>)
    requires
        from <= to <= bytes@.len(),
    ensures
        res@ == bytes@.subrange(from as int, to as int),
{
    let mut v: Vec<u8> = Vec::new();
    let mut i = from;
    while i < to
        invariant
            from <= i <= to,
            to <= bytes@.len(),
            v@ == bytes@.subrange(from as int, i as int),
        decreases to - i,
    {
        v.push(bytes[i]);
        i = i + 1;
        assert(v@ =~= bytes@.subrange(from as int, i as int));
    }
    v
}

proof fn lemma_fields_from_none_grows(bytes: Seq<u8>, count: nat, more: nat)
    requires
        fields_from(bytes, count) is None,
        count <= more,
    ensures
        fields_from(bytes, more) is None,
    decreases more - count,
{
    if count < more {
        lemma_fields_from_none_grows(bytes, count, (more - 1) as nat);
    }
}

/// Where a reader of length-prefixed blocks stands: the index of the next
/// block, and how many bytes it takes.
pub struct BlockReader {
    pub index: u64,
    pub need: u64,
}

/// The size of a length prefix.
pub const PREFIX_LEN: u64 = 32;

impl BlockReader {
    /// A reader at the start of a message: block 0, a 32-byte prefix.
    pub fn new() -> (res: BlockReader)
        ensures
            res.index == 0,
            res.need == PREFIX_LEN,
    {
        BlockReader { index: 0, need: PREFIX_LEN }
    }

    /// Moves on after the block at `index` was handled and answered
    /// `(more, next)`: to the next block of `next` bytes while the message
    /// goes on, else back to the start of the next message.
    pub fn advance(&mut self, more: bool, next: u64)
        requires
            more ==> old(self).index < u64::MAX,
        ensures
            more ==> final(self).index == old(self).index + 1 && final(self).need == next,
            !more ==> final(self).index == 0 && final(self).need == PREFIX_LEN,
    {
        if more {
            self.index = self.index + 1;
            self.need = next;
        } else {
            self.index = 0;
            self.need = PREFIX_LEN;
        }
    }
}

/// Reads one request from the start of `bytes` the way the server does: a
/// `BlockReader` says which block comes next and how long it is, and
/// `decode_request` handles each block, until it says the request is
/// complete. The result is the request and the number of bytes it took, or
/// `None` where `bytes` do not begin with a whole request.
pub fn parse_request(bytes: &[u8]) -> (res: Option<(CRequest, usize)>)
    ensures
        match read_texts(bytes@, 10) {
            Some((texts, n)) => res matches Some((r, m)) && request_fields(&r) == texts && m == n,
            None => res is None,
        },
{
    let mut request = empty_request();
    let mut reader = BlockReader::new();
    let mut pos: usize = 0;
    let ghost mut k: int = 0;
    let ghost mut fs: Seq<Seq<u8>> = Seq::empty();
    loop
        invariant
            0 <= k < 10,
            reader.index == 2 * k,
            reader.need == PREFIX_LEN,
            pos <= bytes@.len(),
            fields_from(bytes@, k as nat) == Some((fs, pos as int)),
            fs.len() == k,
            request_fields(&request).len() == 10,
            forall|j: int| 0 <= j < k ==> #[trigger] request_fields(&request)[j] == text_or_empty(fs[j]),
            forall|j: int| k <= j < 10 ==> #[trigger] request_fields(&request)[j] == Seq::<char>::empty(),
        decreases 10 - k,
    {
        if ((bytes.len() - pos) as u64) < reader.need {
            proof {
                assert(field_at(bytes@, pos as int) is None);
                lemma_fields_from_none_grows(bytes@, (k + 1) as nat, 10);
            }
            return None;
        }
        let prefix_end = pos + reader.need as usize;
        let prefix = copy_range(bytes, pos, prefix_end);
        proof { lemma_prefix_value_bound(prefix@); }
        let (more, n) = decode_request(reader.index, prefix, &mut request);
        reader.advance(more, n);
        let start = prefix_end;
        if reader.need > (bytes.len() - start) as u64 {
            proof {
                assert(field_at(bytes@, pos as int) is None);
                lemma_fields_from_none_grows(bytes@, (k + 1) as nat, 10);
            }
            return None;
        }
        let end = start + reader.need as usize;
        let text = copy_range(bytes, start, end);
        let ghost f = text@;
        let ghost old_fields = request_fields(&request);
        let (more_text, n_text) = decode_request(reader.index, text, &mut request);
        proof {
            assert(field_at(bytes@, pos as int) == Some((f, end as int)));
            fs = fs.push(f);
            assert(request_fields(&request) == old_fields.update(k, text_or_empty(f)));
        }
        pos = end;
        if !more_text {
            proof {
                assert(k == 9);
                assert(texts_of(fs) =~= request_fields(&request));
            }
            return Some((request, pos));
        }
        reader.advance(more_text, n_text);
        proof { k = k + 1; }
    }
}

/// Reads one log line from the start of `bytes` the way a subscriber does,
/// block by block through `decode_content`: the line and the number of bytes
/// it took, or `None` where `bytes` do not begin with a whole line whose
/// length fits in 32 bits.
pub fn parse_content(bytes: &[u8]) -> (res: Option<(CContentFrame, usize)>)
    ensures
        match fields_from(bytes@, 1) {
            Some((fs, n)) => if fs[0].len() <= u32::MAX {
                res matches Some((c, m)) && c.data@ == text_or_empty(fs[0]) && m == n
            } else {
                res is None
            },
            None => res is None,
        },
{
    let mut content = CContentFrame { data: String::new() };
    if bytes.len() < 32 {
        return None;
    }
    let prefix = copy_range(bytes, 0, 32);
    proof {
        lemma_prefix_value_bound(prefix@);
        assert(fields_from(bytes@, 0) == Some((Seq::<Seq<u8>>::empty(), 0int)));
    }
    let number = decode_number(prefix.as_slice());
    if number > u32::MAX as u64 {
        return None;
    }
    let (_, n) = decode_content(0, prefix, &mut content);
    if n as usize > bytes.len() - 32 {
        return None;
    }
    let end = 32 + n as usize;
    let text = copy_range(bytes, 32, end);
    let ghost f = text@;
    decode_content(1, text, &mut content);
    proof {
        assert(field_at(bytes@, 0) == Some((f, end as int)));
        assert(Seq::<Seq<u8>>::empty().push(f)[0] == f);
    }
    Some((content, end))
}

/// Appends the UTF-8 bytes of `text` as one field.
fn append_text_field(buf: &mut Vec<u8>, text: &str)
    ensures
        final(buf)@ == old(buf)@ + frame(seq![encode_utf8(text@)]),
{
    append_field(buf, text.as_bytes());
    proof {
        let one = seq![encode_utf8(text@)];
        assert(one.drop_last() =~= Seq::<Seq<u8>>::empty());
        assert(frame(Seq::<Seq<u8>>::empty()) =~= Seq::<u8>::empty());
        assert(one.last() == encode_utf8(text@));
        assert(frame(one) =~= crate::codec::field_bytes(encode_utf8(text@)));
    }
}

proof fn lemma_frame_push(fields: Seq<Seq<u8>>, f: Seq<u8>)
    ensures
        frame(fields.push(f)) == frame(fields) + frame(seq![f]),
{
    assert(fields.push(f).drop_last() =~= fields);
    assert(seq![f].drop_last() =~= Seq::<Seq<u8>>::empty());
    assert(frame(Seq::<Seq<u8>>::empty()) + crate::codec::field_bytes(f) =~= crate::codec::field_bytes(f));
}

/// Builds a frame of the given texts, in order.
pub fn texts_frame(texts: &Vec<&str>) -> (res: Vec<u8>)
    ensures
        res@ == frame(utf8_fields(texts@.map_values(|t: &str| t@))),
{
    let mut buf: Vec<u8> = Vec::new();
    let mut i: usize = 0;
    let ghost all = texts@.map_values(|t: &str| t@);
    while i < texts.len()
        invariant
            i <= texts@.len(),
            all == texts@.map_values(|t: &str| t@),
            buf@ == frame(utf8_fields(all.subrange(0, i as int))),
        decreases texts@.len() - i,
    {
        append_text_field(&mut buf, texts[i]);
        proof {
            let before = utf8_fields(all.subrange(0, i as int));
            lemma_frame_push(before, encode_utf8(texts@[i as int]@));
            assert(utf8_fields(all.subrange(0, i + 1)) =~= before.push(encode_utf8(texts@[i as int]@)));
        }
        i = i + 1;
    }
    assert(all.subrange(0, texts@.len() as int) =~= all);
    buf
}

/// The bytes a request is sent as: its ten fields in wire order.
pub fn request_frame(request: &CRequest) -> (res: Vec<u8>)
    ensures
        res@ == request_bytes(request),
{
    let texts = vec![
        request.mode.as_str(),
        request.identify.as_str(),
        request.server_name.as_str(),
        request.server_version.as_str(),
        request.server_no.as_str(),
        request.topic.as_str(),
        request.data.as_str(),
        request.storage_mode.as_str(),
        request.log_type.as_str(),
        request.keyword.as_str(),
    ];
    let res = texts_frame(&texts);
    assert(texts@.map_values(|t: &str| t@) =~= request_fields(request));
    res
}

/// The bytes a publisher sends a request as: the first nine fields of a
/// request, without the keyword (the publisher's requests have
/// none).
pub fn publisher_request_frame(request: &CRequest) -> (res: Vec<u8>)
    ensures
        res@ == frame(utf8_fields(request_fields(request).take(9))),
{
    let texts = vec![
        request.mode.as_str(),
        request.identify.as_str(),
        request.server_name.as_str(),
        request.server_version.as_str(),
        request.server_no.as_str(),
        request.topic.as_str(),
        request.data.as_str(),
        request.storage_mode.as_str(),
        request.log_type.as_str(),
    ];
    let res = texts_frame(&texts);
    assert(texts@.map_values(|t: &str| t@) =~= request_fields(request).take(9));
    res
}

/// The mode of the answer to a memory query.
pub const RESPONSE_MODE_QUERY_RESULT: &'static str = "query-result";

/// The mode of a memory query sent to publishers.
pub const ASK_MODE_MEMORY_QUERY: &'static str = "memory-query";

/// The bytes a response is sent as: mode, keyword, data.
pub fn response_frame(response: &CResponse) -> (res: Vec<u8>)
    ensures
        res@ == frame(utf8_fields(seq![response.mode@, response.keyword@, response.data@])),
{
    let texts = vec![response.mode.as_str(), response.keyword.as_str(), response.data.as_str()];
    let res = texts_frame(&texts);
    assert(texts@.map_values(|t: &str| t@) =~= seq![response.mode@, response.keyword@, response.data@]);
    res
}

/// The bytes a memory query is sent to a publisher as: the memory-query mode,
/// then the keyword.
pub fn ask_query_frame(keyword: &str) -> (res: Vec<u8>)
    ensures
        res@ == frame(utf8_fields(seq![ASK_MODE_MEMORY_QUERY@, keyword@])),
{
    let texts = vec![ASK_MODE_MEMORY_QUERY, keyword];
    let res = texts_frame(&texts);
    assert(texts@.map_values(|t: &str| t@) =~= seq![ASK_MODE_MEMORY_QUERY@, keyword@]);
    res
}

/// The bytes a log line is sent to a subscriber as: the line as one field.
pub fn content_frame(content: &str) -> (res: Vec<u8>)
    ensures
        res@ == frame(utf8_fields(seq![content@])),
{
    let texts = vec![content];
    let res = texts_frame(&texts);
    assert(texts@.map_values(|t: &str| t@) =~= seq![content@]);
    res
}

/// Text written as UTF-8 reads back as the same text.
pub proof fn lemma_utf8_texts_roundtrip(texts: Seq<Seq<char>>)
    ensures
        texts_of(utf8_fields(texts)) == texts,
{
    assert forall|k: int| 0 <= k < texts.len() implies #[trigger] texts_of(utf8_fields(texts))[k]
        == texts[k] by {
        encode_utf8_valid_utf8(texts[k]);
        encode_utf8_decode_utf8(texts[k]);
    }
    assert(texts_of(utf8_fields(texts)) =~= texts);
}

/// Every text of `texts` takes at most `u32::MAX` bytes in UTF-8.
pub open spec fn texts_fit(texts: Seq<Seq<char>>) -> bool {
    forall|k: int| 0 <= k < texts.len() ==> encode_utf8(#[trigger] texts[k]).len() <= u32::MAX
}

/// A frame of texts reads back as those texts, whatever bytes follow it,
/// provided each text's UTF-8 length fits in the 32-bit length prefix.
pub proof fn lemma_texts_frame_roundtrip(texts: Seq<Seq<char>>, rest: Seq<u8>)
    requires
        texts_fit(texts),
    ensures
        read_texts(frame(utf8_fields(texts)) + rest, texts.len())
            == Some((texts, frame(utf8_fields(texts)).len() as int)),
{
    let fs = utf8_fields(texts);
    assert(fields_fit(fs)) by {
        assert forall|k: int| 0 <= k < fs.len() implies (#[trigger] fs[k]).len() <= u32::MAX by {
            assert(encode_utf8(texts[k]).len() <= u32::MAX);
        }
    }
    lemma_frame_roundtrip(fs, rest);
    lemma_utf8_texts_roundtrip(texts);
}

/// What the server reads from the bytes of a request is that request, field
/// for field, and it reads exactly those bytes, whatever follows; provided no
/// field is longer than `u32::MAX` bytes.
pub proof fn lemma_request_roundtrip(r: &CRequest, rest: Seq<u8>)
    requires
        texts_fit(request_fields(r)),
    ensures
        read_texts(request_bytes(r) + rest, 10) == Some((request_fields(r), request_bytes(r).len() as int)),
{
    lemma_texts_frame_roundtrip(request_fields(r), rest);
}

/// What a subscriber reads from the bytes of a log line is that line.
pub proof fn lemma_content_roundtrip(content: Seq<char>, rest: Seq<u8>)
    requires
        encode_utf8(content).len() <= u32::MAX,
    ensures
        read_texts(frame(utf8_fields(seq![content])) + rest, 1)
            == Some((seq![content], frame(utf8_fields(seq![content])).len() as int)),
{
    assert(texts_fit(seq![content]));
    lemma_texts_frame_roundtrip(seq![content], rest);
}

/// The fields of a request go on the wire in a fixed order: mode, identify,
/// server name, server version, server no, topic, data, storage mode, log
/// type, keyword. Reading the bytes of a request gives each named field back
/// at its place, whatever follows, provided no field is longer than
/// `u32::MAX` bytes: so the 4th field read is the server version and the 5th
/// the server no.
pub proof fn lemma_request_wire_order(r: &CRequest, rest: Seq<u8>)
    requires
        texts_fit(request_fields(r)),
    ensures
        read_texts(request_bytes(r) + rest, 10) matches Some((t, n)) && t.len() == 10 && t[0] == r.mode@
            && t[1] == r.identify@ && t[2] == r.server_name@ && t[3] == r.server_version@ && t[4]
            == r.server_no@ && t[5] == r.topic@ && t[6] == r.data@ && t[7] == r.storage_mode@ && t[8]
            == r.log_type@ && t[9] == r.keyword@ && n == request_bytes(r).len(),
{
    lemma_request_roundtrip(r, rest);
}

/// A publisher's request carries, in order, its mode, identify, server name,
/// server version, server no, topic, data, storage mode and log type.
pub proof fn lemma_publisher_wire_order(r: &CRequest, rest: Seq<u8>)
    requires
        texts_fit(request_fields(r).take(9)),
    ensures
        read_texts(frame(utf8_fields(request_fields(r).take(9))) + rest, 9) matches Some((t, n)) && t.len()
            == 9 && t[0] == r.mode@ && t[1] == r.identify@ && t[2] == r.server_name@ && t[3]
            == r.server_version@ && t[4] == r.server_no@ && t[5] == r.topic@ && t[6] == r.data@
            && t[7] == r.storage_mode@ && t[8] == r.log_type@,
{
    lemma_texts_frame_roundtrip(request_fields(r).take(9), rest);
}

} // verus!
