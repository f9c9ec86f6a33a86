//! How the writer's stack follows the object depth of a record.
use vstd::prelude::*;
use crate::machine::{next, Feed, Phase};
use crate::token::Token;
use crate::writer::{is_object_frame, json_prefix, json_value, offer, before_value, writer_state, Frame};

verus! {

/// The number of object frames on a writer's stack.
pub open spec fn object_frames(st: Seq<Frame>) -> int
    decreases st.len(),
{
    if st.len() == 0 {
        0
    } else {
        object_frames(st.drop_last()) + if is_object_frame(st.last()) { 1int } else { 0int }
    }
}

/// A writer offered the part `cur` of a record, read to object depth `d`,
/// has that record's object at the bottom of its stack and `d` object
/// frames in all.
pub open spec fn writer_tracks(cur: Seq<Token>, d: u64) -> bool {
    &&& d == 0 ==> cur.len() == 0
    &&& d > 0 ==> (writer_state(cur) matches Some((st, w)) && w && st.len() >= 1
        && is_object_frame(st[0]) && object_frames(st) == d)
}

proof fn lemma_frames_push(st: Seq<Frame>, f: Frame)
    ensures
        object_frames(st.push(f)) == object_frames(st) + if is_object_frame(f) { 1int } else { 0int },
{
    assert(st.push(f).drop_last() =~= st);
}

/// A token of a record that the writer accepts keeps `writer_tracks`, and
/// the record's last token leaves one complete value.
pub proof fn lemma_tracks_step(cur: Seq<Token>, d: u64, t: Token)
    requires
        writer_tracks(cur, d),
        next(Phase::InRecord { depth: d }, t).1 == Ok::<Feed, crate::machine::SplitError>(Feed::Member)
            || next(Phase::InRecord { depth: d }, t).1 == Ok::<Feed, crate::machine::SplitError>(Feed::RecordEnd),
        json_prefix(cur.push(t)),
    ensures
        next(Phase::InRecord { depth: d }, t).1 == Ok::<Feed, crate::machine::SplitError>(Feed::Member) ==> (
            next(Phase::InRecord { depth: d }, t).0 matches Phase::InRecord { depth }
            && writer_tracks(cur.push(t), depth)),
        next(Phase::InRecord { depth: d }, t).1 == Ok::<Feed, crate::machine::SplitError>(Feed::RecordEnd)
            ==> json_value(cur.push(t)),
{
    let nc = cur.push(t);
    assert(nc.drop_last() =~= cur);
    if d == 0 {
        assert(cur =~= Seq::<Token>::empty());
        assert(writer_state(cur) == Some((Seq::<Frame>::empty(), false)));
        let st1 = Seq::<Frame>::empty().push(Frame::OpenObject);
        assert(writer_state(nc) == Some((st1, true)));
        lemma_frames_push(Seq::<Frame>::empty(), Frame::OpenObject);
        assert(st1[0] == Frame::OpenObject);
    } else {
        let (st, w) = writer_state(cur).unwrap();
        let n = st.len();
        assert(writer_state(nc) == offer(st, w, t));
        let top = st.last();
        let rest = st.drop_last();
        assert(object_frames(st) == object_frames(rest) + if is_object_frame(top) { 1int } else { 0int });
        if n == 1 {
            assert(rest.len() == 0);
            assert(top == st[0]);
        } else {
            assert(rest[0] == st[0]);
        }
        match t {
            Token::StartObject | Token::StartArray => {
                let (s2, w2) = before_value(st, w).unwrap();
                assert(!is_object_frame(top));
                if top is ObjectValue {
                    assert(s2 == rest);
                } else {
                    assert(s2 == rest.push(Frame::ContinuationArray));
                    lemma_frames_push(rest, Frame::ContinuationArray);
                    assert(s2[0] == st[0]);
                }
                let f = if t is StartObject { Frame::OpenObject } else { Frame::OpenArray };
                assert(writer_state(nc) == Some((s2.push(f), w2)));
                lemma_frames_push(s2, f);
                assert(s2.push(f)[0] == s2[0]);
            },
            Token::EndObject => {
                assert(is_object_frame(top));
                assert(writer_state(nc) == Some((rest, w)));
                if d == 1 {
                    if n > 1 {
                        assert(object_frames(rest) >= 1) by {
                            lemma_first_frame(rest);
                        }
                    }
                }
            },
            Token::EndArray => {
                assert(writer_state(nc) == Some((rest, w)));
            },
            Token::ObjectKey(_) => {
                let s2 = rest.push(Frame::ContinuationObject).push(Frame::ObjectValue);
                assert(writer_state(nc) == Some((s2, w)));
                lemma_frames_push(rest, Frame::ContinuationObject);
                lemma_frames_push(rest.push(Frame::ContinuationObject), Frame::ObjectValue);
                if n == 1 {
                    assert(s2[0] == Frame::ContinuationObject);
                } else {
                    assert(s2[0] == st[0]);
                }
            },
            _ => {
                let (s2, w2) = before_value(st, w).unwrap();
                assert(writer_state(nc) == Some((s2, w2)));
                assert(!is_object_frame(top));
                if top is ObjectValue {
                    assert(s2 == rest);
                } else {
                    assert(s2 == rest.push(Frame::ContinuationArray));
                    lemma_frames_push(rest, Frame::ContinuationArray);
                    assert(s2[0] == st[0]);
                }
            },
        }
    }
}

/// A stack whose first frame is an object holds at least one object frame.
proof fn lemma_first_frame(st: Seq<Frame>)
    requires
        st.len() >= 1,
        is_object_frame(st[0]),
    ensures
        object_frames(st) >= 1,
    decreases st.len(),
{
    if st.len() > 1 {
        assert(st.drop_last()[0] == st[0]);
        lemma_first_frame(st.drop_last());
    } else {
        assert(st.drop_last().len() == 0);
        assert(object_frames(st.drop_last()) == 0);
        assert(st.last() == st[0]);
    }
}

} // verus!
