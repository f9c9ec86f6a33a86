//! The JSON writer that re-serializes one record, from json_event_parser.
use vstd::prelude::*;
use json_event_parser::{JsonEvent, WriterJsonSerializer};
use crate::token::Token;

verus! {

/// A JSON writer into an in-memory buffer. Verus sees only the tokens
/// offered to it (`written_tokens`).
#[verifier::external_body]
pub struct RecordWriter {
    inner: WriterJsonSerializer<Vec<u8>>,
}

/// Every token offered to a writer since it was made, in order, whether it
/// accepted it or not.
pub uninterp spec fn written_tokens(w: RecordWriter) -> Seq<Token>;

/// The text that a fresh `WriterJsonSerializer` holds after being offered
/// `tokens`, one by one.
pub uninterp spec fn json_text(tokens: Seq<Token>) -> Seq<u8>;

/// One entry of the writer's stack of open values.
pub enum Frame {
    /// An array with no element yet.
    OpenArray,
    /// An array with at least one element.
    ContinuationArray,
    /// An object with no member yet.
    OpenObject,
    /// An object with at least one member.
    ContinuationObject,
    /// A key was written; its value is expected.
    ObjectValue,
}

/// The frame belongs to an object.
pub open spec fn is_object_frame(f: Frame) -> bool {
    f is OpenObject || f is ContinuationObject
}

/// The writer's state before a value: a value is refused where a key is
/// expected, and where a complete top-level value was already written.
pub open spec fn before_value(st: Seq<Frame>, written: bool) -> Option<(Seq<Frame>, bool)> {
    if st.len() == 0 {
        if written { None } else { Some((st, true)) }
    } else {
        match st.last() {
            Frame::OpenArray | Frame::ContinuationArray => Some((st.drop_last().push(Frame::ContinuationArray), written)),
            Frame::ObjectValue => Some((st.drop_last(), written)),
            _ => None,
        }
    }
}

/// The writer's state after it is offered `t`, or `None` where it refuses
/// `t`.
pub open spec fn offer(st: Seq<Frame>, written: bool, t: Token) -> Option<(Seq<Frame>, bool)> {
    match t {
        Token::StartArray => match before_value(st, written) {
            Some((s2, w2)) => Some((s2.push(Frame::OpenArray), w2)),
            None => None,
        },
        Token::StartObject => match before_value(st, written) {
            Some((s2, w2)) => Some((s2.push(Frame::OpenObject), w2)),
            None => None,
        },
        Token::EndArray => if st.len() > 0 && (st.last() is OpenArray || st.last() is ContinuationArray) {
            Some((st.drop_last(), written))
        } else {
            None
        },
        Token::EndObject => if st.len() > 0 && is_object_frame(st.last()) {
            Some((st.drop_last(), written))
        } else {
            None
        },
        Token::ObjectKey(_) => if st.len() > 0 && is_object_frame(st.last()) {
            Some((st.drop_last().push(Frame::ContinuationObject).push(Frame::ObjectValue), written))
        } else {
            None
        },
        Token::Eof => None,
        _ => before_value(st, written),
    }
}

/// The state of a fresh writer after `toks`, or `None` where it refuses
/// one of them.
pub open spec fn writer_state(toks: Seq<Token>) -> Option<(Seq<Frame>, bool)>
    decreases toks.len(),
{
    if toks.len() == 0 {
        Some((Seq::empty(), false))
    } else {
        match writer_state(toks.drop_last()) {
            Some((st, w)) => offer(st, w, toks.last()),
            None => None,
        }
    }
}

/// A writer accepts every token of `toks`.
pub open spec fn json_prefix(toks: Seq<Token>) -> bool {
    writer_state(toks) is Some
}

/// `toks` is one complete JSON value as the writer takes it: every token
/// accepted, every array and object closed.
pub open spec fn json_value(toks: Seq<Token>) -> bool {
    writer_state(toks) matches Some((st, w)) && st.len() == 0 && w
}

/// Relies on `WriterJsonSerializer::new`: a fresh writer over an empty
/// buffer has accepted nothing.
#[verifier::external_body]
pub(crate) fn new_writer() -> (w: RecordWriter)
    ensures
        written_tokens(w) == Seq::<Token>::empty(),
{
    RecordWriter { inner: WriterJsonSerializer::new(Vec::new()) }
}

/// Relies on `WriterJsonSerializer::serialize_event`: the token is offered;
/// a writer that has accepted everything so far accepts it exactly as
/// `offer` says (writing into a `Vec` does not fail).
#[verifier::external_body]
pub(crate) fn write_token(w: &mut RecordWriter, t: &Token) -> (r: bool)
    ensures
        written_tokens(*final(w)) == written_tokens(*old(w)).push(*t),
        json_prefix(written_tokens(*old(w))) ==> r == json_prefix(written_tokens(*old(w)).push(*t)),
{
    w.inner.serialize_event(match t {
        Token::StartObject => JsonEvent::StartObject,
        Token::EndObject => JsonEvent::EndObject,
        Token::StartArray => JsonEvent::StartArray,
        Token::EndArray => JsonEvent::EndArray,
        Token::ObjectKey(k) => JsonEvent::ObjectKey(k.as_str().into()),
        Token::String(s) => JsonEvent::String(s.as_str().into()),
        Token::Number(n) => JsonEvent::Number(n.as_str().into()),
        Token::Boolean(b) => JsonEvent::Boolean(*b),
        Token::Null => JsonEvent::Null,
        Token::Eof => JsonEvent::Eof,
    }).is_ok()
}

/// Relies on `WriterJsonSerializer::finish`: it hands back the buffer,
/// which holds the text of the tokens offered; after tokens that were all
/// accepted it does so exactly when they form one complete value.
#[verifier::external_body]
pub(crate) fn finish_writer(w: RecordWriter) -> (r: Option<Vec<u8>>)
    ensures
        r matches Some(b) ==> b@ == json_text(written_tokens(w)),
        json_prefix(written_tokens(w)) ==> (r is Some <==> json_value(written_tokens(w))),
{
    w.inner.finish().ok()
}

} // verus!
