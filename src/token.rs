//! The structural units that a streaming JSON reader hands to the splitter.
use vstd::prelude::*;

verus! {

/// One event of a streaming JSON reader.
#[derive(Debug, PartialEq, Eq)]
pub enum Token {
    StartObject,
    EndObject,
    StartArray,
    EndArray,
    ObjectKey(String),
    String(String),
    Number(String),
    Boolean(bool),
    Null,
    Eof,
}

/// Net number of objects that `s` opens: `{` counts one up, `}` one down.
pub open spec fn object_depth(s: Seq<Token>) -> int
    decreases s.len(),
{
    if s.len() == 0 {
        0
    } else {
        let d = object_depth(s.drop_last());
        match s.last() {
            Token::StartObject => d + 1,
            Token::EndObject => d - 1,
            _ => d,
        }
    }
}

/// `r` is a complete record: it opens with `{`, stays inside that object
/// (at a depth the splitter can count) until its last token closes it,
/// and holds no end of input.
pub open spec fn is_record(r: Seq<Token>) -> bool {
    &&& r.len() >= 2
    &&& r[0] is StartObject
    &&& object_depth(r) == 0
    &&& forall|i: int| 1 <= i < r.len() ==> 0 < #[trigger] object_depth(r.take(i)) <= u64::MAX
    &&& forall|i: int| 0 <= i < r.len() ==> !(#[trigger] r[i] is Eof)
}

} // verus!
