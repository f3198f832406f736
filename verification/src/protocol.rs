//! What crosses the connection: the request frame for one asset path,
//! and the classification of inbound text messages.
//!
//! The connection delivers plain text with no correlation identifier.
//! A message whose first character is `{` carries a node subtree (the
//! caller decodes it), one that begins with `ERROR` reports a failure,
//! and anything else is informational.

use vstd::prelude::*;
use vstd::string::StrSliceExecFns;
use vstd::string::StringExecFns;

use crate::path::AssetPath;
use crate::text::{seq_starts_with, str_starts_with};

verus! {

/// What kind of message arrived on the connection.
#[derive(Debug, Clone, Copy, PartialEq, Eq)]
pub enum InboundKind {
    /// The message carries an encoded node subtree.
    NodePayload,
    /// The message reports an error for the outstanding request.
    ErrorText,
    /// The message is informational and answers nothing.
    InfoText,
}

/// How an inbound text is classified: a leading `{` marks an encoded
/// node, a leading `ERROR` marks a failure report, anything else is
/// informational.
pub open spec fn spec_classify(t: Seq<char>) -> InboundKind {
    if t.len() > 0 && t[0] == '{' {
        InboundKind::NodePayload
    } else if seq_starts_with(t, "ERROR"@) {
        InboundKind::ErrorText
    } else {
        InboundKind::InfoText
    }
}

/// Classifies one inbound text message.
pub fn classify_text(t: &str) -> (r: InboundKind)
    ensures
        r == spec_classify(t@),
{
    if t.unicode_len() > 0 && t.get_char(0) == '{' {
        InboundKind::NodePayload
    } else if str_starts_with(t, "ERROR") {
        InboundKind::ErrorText
    } else {
        InboundKind::InfoText
    }
}

/// An error report without its leading marker: `ERROR: ` or `ERROR`
/// is stripped, anything else is kept whole.
pub open spec fn remote_text(t: Seq<char>) -> Seq<char> {
    if seq_starts_with(t, "ERROR: "@) {
        t.skip("ERROR: "@.len() as int)
    } else if seq_starts_with(t, "ERROR"@) {
        t.skip("ERROR"@.len() as int)
    } else {
        t
    }
}

/// Strips the error marker from an inbound error report.
pub fn strip_error_marker(t: &str) -> (r: String)
    ensures
        r@ == remote_text(t@),
{
    let long_marker = "ERROR: ";
    let short_marker = "ERROR";
    if str_starts_with(t, long_marker) {
        let cut = long_marker.unicode_len();
        t.substring_char(cut, t.unicode_len()).to_owned()
    } else if str_starts_with(t, short_marker) {
        let cut = short_marker.unicode_len();
        t.substring_char(cut, t.unicode_len()).to_owned()
    } else {
        t.to_owned()
    }
}

/// The segments of `p` joined with `/` between them.
pub open spec fn join_path(p: Seq<Seq<char>>) -> Seq<char>
    decreases p.len(),
{
    if p.len() == 0 {
        Seq::empty()
    } else if p.len() == 1 {
        p[0]
    } else {
        join_path(p.drop_last()) + "/"@ + p.last()
    }
}

/// The request frame for one path: a single object with the joined
/// path under the key `path`.
pub open spec fn request_wire(p: Seq<Seq<char>>) -> Seq<char> {
    "{\"path\":\""@ + join_path(p) + "\"}"@
}

/// Joins the segments of `path` with `/` between them.
pub fn join_segments(path: &AssetPath) -> (r: String)
    ensures
        r@ == join_path(path@),
{
    let n: usize = path.len();
    let mut out = String::new();
    let mut i: usize = 0;
    while i < n
        invariant
            i <= n,
            n == path@.len(),
            out@ == join_path(path@.take(i as int)),
        decreases n - i,
    {
        if i > 0 {
            out.append("/");
        }
        out.append(path.segment(i).as_str());
        proof {
            assert(path@.take(i + 1).drop_last() =~= path@.take(i as int));
            assert(path@.take(i + 1).last() == path@[i as int]);
            if i == 0 {
                assert(out@ =~= join_path(path@.take(i + 1)));
            } else {
                assert(out@ =~= join_path(path@.take(i + 1)));
            }
        }
        i += 1;
    }
    proof {
        assert(path@.take(n as int) =~= path@);
    }
    out
}

/// Builds the request frame that asks the remote side for the node at
/// `path`.
pub fn encode_request(path: &AssetPath) -> (r: String)
    ensures
        r@ == request_wire(path@),
{
    let mut out = String::from_str("{\"path\":\"");
    let joined = join_segments(path);
    out.append(joined.as_str());
    out.append("\"}");
    proof {
        assert(out@ =~= request_wire(path@));
    }
    out
}

} // verus!
