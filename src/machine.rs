//! The state machine that finds where each record of the outer object
//! begins and ends.
use vstd::prelude::*;
use crate::token::Token;

verus! {

/// Where the splitter stands in the document.
#[derive(Debug, Clone, Copy, PartialEq, Eq, Structural)]
pub enum Phase {
    /// Nothing read yet: the outer `{` is expected.
    AwaitOuterStart,
    /// Inside the outer object: a key or the outer `}` is expected.
    AwaitEntry,
    /// Inside a record, `depth` objects deep (0 right after its key).
    InRecord { depth: u64 },
    /// The outer object is closed: only the end of input may follow.
    AwaitOuterEnd,
    /// The document ended cleanly.
    Done,
    /// An error was reported, or a token came after the end; nothing more
    /// is accepted.
    Failed,
}

/// What a token turned out to be.
#[derive(Debug, Clone, Copy, PartialEq, Eq, Structural)]
pub enum Feed {
    /// A token of the outer object: its `{`, a key, or its `}`.
    Outer,
    /// A token of the current record, which goes on.
    Member,
    /// The last token of the current record, which is now complete.
    RecordEnd,
    /// The end of input after the outer object.
    Finished,
}

/// Why a document is refused.
#[derive(Debug, Clone, Copy, PartialEq, Eq, Structural)]
pub enum SplitError {
    /// The top-level value is not an object.
    NotAnObject,
    /// Inside the outer object, a token other than a key or `}`.
    UnexpectedToken,
    /// A record's value does not begin with `{`.
    RecordNotObject,
    /// The input ended inside a record.
    TruncatedRecord,
    /// Something follows the outer object's `}`.
    TrailingContent,
    /// A record nests more objects than the depth counter can hold.
    TooDeep,
    /// A token was offered after the document ended or failed.
    Stopped,
    /// The JSON writer refused a record's tokens.
    Unencodable,
}

/// One transition: the next phase and the verdict on token `t`.
pub open spec fn next(p: Phase, t: Token) -> (Phase, Result<Feed, SplitError>) {
    match p {
        Phase::AwaitOuterStart => if t is StartObject {
            (Phase::AwaitEntry, Ok(Feed::Outer))
        } else {
            (Phase::Failed, Err(SplitError::NotAnObject))
        },
        Phase::AwaitEntry => if t is ObjectKey {
            (Phase::InRecord { depth: 0 }, Ok(Feed::Outer))
        } else if t is EndObject {
            (Phase::AwaitOuterEnd, Ok(Feed::Outer))
        } else {
            (Phase::Failed, Err(SplitError::UnexpectedToken))
        },
        Phase::InRecord { depth } => if depth == 0 && !(t is StartObject) {
            (Phase::Failed, Err(SplitError::RecordNotObject))
        } else if t is Eof {
            (Phase::Failed, Err(SplitError::TruncatedRecord))
        } else if t is StartObject {
            if depth == u64::MAX {
                (Phase::Failed, Err(SplitError::TooDeep))
            } else {
                (Phase::InRecord { depth: (depth + 1) as u64 }, Ok(Feed::Member))
            }
        } else if t is EndObject {
            if depth == 1 {
                (Phase::AwaitEntry, Ok(Feed::RecordEnd))
            } else {
                (Phase::InRecord { depth: (depth - 1) as u64 }, Ok(Feed::Member))
            }
        } else {
            (Phase::InRecord { depth }, Ok(Feed::Member))
        },
        Phase::AwaitOuterEnd => if t is Eof {
            (Phase::Done, Ok(Feed::Finished))
        } else {
            (Phase::Failed, Err(SplitError::TrailingContent))
        },
        Phase::Done | Phase::Failed => (Phase::Failed, Err(SplitError::Stopped)),
    }
}

/// One transition with the record being gathered: the next phase, the
/// tokens of the unfinished record, and the records completed by `t`.
pub open spec fn step(p: Phase, cur: Seq<Token>, t: Token) -> (Phase, Seq<Token>, Seq<Seq<Token>>) {
    let (q, f) = next(p, t);
    match f {
        Ok(Feed::Member) => (q, cur.push(t), Seq::empty()),
        Ok(Feed::RecordEnd) => (q, Seq::empty(), seq![cur.push(t)]),
        _ => (q, Seq::empty(), Seq::empty()),
    }
}

/// The whole run over `toks` from phase `p` with `cur` gathered: the final
/// phase, the unfinished record, and every record completed, in order.
pub open spec fn run(p: Phase, cur: Seq<Token>, toks: Seq<Token>) -> (Phase, Seq<Token>, Seq<Seq<Token>>)
    decreases toks.len(),
{
    if toks.len() == 0 {
        (p, cur, Seq::empty())
    } else {
        let (q, c, out) = step(p, cur, toks[0]);
        let (q2, c2, out2) = run(q, c, toks.drop_first());
        (q2, c2, out + out2)
    }
}

/// The record-boundary state machine, one token at a time.
pub struct Splitter {
    pub phase: Phase,
}

impl Splitter {
    /// A splitter that has read nothing yet.
    pub fn new() -> (s: Splitter)
        ensures
            s.phase == Phase::AwaitOuterStart,
    {
        Splitter { phase: Phase::AwaitOuterStart }
    }

    /// Takes the next token of the document and says what it was.
    pub fn feed(&mut self, t: &Token) -> (r: Result<Feed, SplitError>)
        ensures
            (final(self).phase, r) == next(old(self).phase, *t),
    {
        let (p, r) = match self.phase {
            Phase::AwaitOuterStart => match t {
                Token::StartObject => (Phase::AwaitEntry, Ok(Feed::Outer)),
                _ => (Phase::Failed, Err(SplitError::NotAnObject)),
            },
            Phase::AwaitEntry => match t {
                Token::ObjectKey(_) => (Phase::InRecord { depth: 0 }, Ok(Feed::Outer)),
                Token::EndObject => (Phase::AwaitOuterEnd, Ok(Feed::Outer)),
                _ => (Phase::Failed, Err(SplitError::UnexpectedToken)),
            },
            Phase::InRecord { depth } => match t {
                Token::StartObject => if depth == u64::MAX {
                    (Phase::Failed, Err(SplitError::TooDeep))
                } else {
                    (Phase::InRecord { depth: depth + 1 }, Ok(Feed::Member))
                },
                _ if depth == 0 => (Phase::Failed, Err(SplitError::RecordNotObject)),
                Token::Eof => (Phase::Failed, Err(SplitError::TruncatedRecord)),
                Token::EndObject => if depth == 1 {
                    (Phase::AwaitEntry, Ok(Feed::RecordEnd))
                } else {
                    (Phase::InRecord { depth: depth - 1 }, Ok(Feed::Member))
                },
                _ => (Phase::InRecord { depth }, Ok(Feed::Member)),
            },
            Phase::AwaitOuterEnd => match t {
                Token::Eof => (Phase::Done, Ok(Feed::Finished)),
                _ => (Phase::Failed, Err(SplitError::TrailingContent)),
            },
            Phase::Done | Phase::Failed => (Phase::Failed, Err(SplitError::Stopped)),
        };
        self.phase = p;
        r
    }
}

} // verus!
