//! How a published log line is written out.
use vstd::prelude::*;
use vstd::string::StringExecFns;
use crate::clock::{now_date_time, is_date_time_text};

verus! {

/// Builds the text of stored and delivered log lines.
pub struct CContent {}

/// The line `[<content type>] [<time>] [<topic>] <content>`.
pub open spec fn full_line(
    content_type: Seq<char>,
    time: Seq<char>,
    topic: Seq<char>,
    content: Seq<char>,
) -> Seq<char> {
    seq!['['] + content_type + seq![']', ' ', '['] + time + seq![']', ' ', '['] + topic + seq![
        ']',
        ' ',
    ] + content
}

impl CContent {
    /// A line builder.
    pub fn new() -> (res: CContent) {
        CContent {}
    }

    /// The local time now, as it stands in a line.
    pub fn now(&self) -> (res: String)
        ensures
            is_date_time_text(res@),
    {
        now_date_time()
    }

    /// The line for `content` of type `contentType` on `topic`, stamped with
    /// `time`.
    #[allow(non_snake_case)]
    pub fn full_at(&self, contentType: &str, time: &str, topic: &str, content: &str) -> (res: String)
        ensures
            res@ == full_line(contentType@, time@, topic@, content@),
    {
        let mut result = String::new();
        result.append("[");
        result.append(contentType);
        result.append("] [");
        result.append(time);
        result.append("] [");
        result.append(topic);
        result.append("] ");
        result.append(content);
        proof {
            reveal_strlit("[");
            reveal_strlit("] [");
            reveal_strlit("] ");
            assert(result@ =~= full_line(contentType@, time@, topic@, content@));
        }
        result
    }

    /// The line for `content` of type `contentType` on `topic`, stamped with
    /// the local time now. `root` is not part of the line.
    #[allow(non_snake_case)]
    pub fn full(&self, root: &str, contentType: &str, topic: &str, content: &str) -> (res: String)
        ensures
            exists|time: Seq<char>|
                is_date_time_text(time) && res@ == full_line(contentType@, time, topic@, content@),
    {
        let time = self.now();
        let res = self.full_at(contentType, time.as_str(), topic, content);
        assert(is_date_time_text(time@) && res@ == full_line(contentType@, time@, topic@, content@));
        res
    }
}

} // verus!
