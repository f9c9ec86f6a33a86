//! Turns a token stream into newline-terminated JSON lines, one per record.
use vstd::prelude::*;
use crate::machine::{next, run, step, Feed, Phase, SplitError, Splitter};
use crate::laws::{fail_closed, lemma_accepts_append, lemma_run_append, lemma_run_one, writer_accepts};
use crate::record_writer::{lemma_tracks_step, writer_tracks};
use crate::token::Token;
use crate::writer::{finish_writer, json_prefix, json_text, json_value, new_writer, write_token, written_tokens, RecordWriter};

verus! {

/// Ends the JSON text of a record with a newline; `None` (the writer
/// refused the record) becomes `Unencodable`.
pub fn terminate_line(encoded: Option<Vec<u8>>) -> (r: Result<Vec<u8>, SplitError>)
    ensures
        match encoded {
            Some(b) => r matches Ok(line) && line@ == b@.push(10u8),
            None => r == Err::<Vec<u8>, SplitError>(SplitError::Unencodable),
        },
{
    match encoded {
        Some(mut b) => {
            b.push(10u8);
            Ok(b)
        },
        None => Err(SplitError::Unencodable),
    }
}

/// The splitter together with the writer of the record being gathered.
pub struct LineSplitter {
    splitter: Splitter,
    writer: Option<RecordWriter>,
    record: Ghost<Seq<Token>>,
}

impl LineSplitter {
    /// Where the document stands.
    pub closed spec fn phase(&self) -> Phase {
        self.splitter.phase
    }

    /// The tokens of the unfinished record, in order.
    pub closed spec fn record(&self) -> Seq<Token> {
        self.record@
    }

    /// Inside a record the writer holds exactly the record's tokens, has
    /// accepted them all, and follows the record's depth.
    pub closed spec fn wf(&self) -> bool {
        &&& self.splitter.phase matches Phase::InRecord { depth } ==> (self.writer matches Some(w)
            && written_tokens(w) == self.record@ && json_prefix(self.record@)
            && writer_tracks(self.record@, depth))
        &&& !(self.splitter.phase is InRecord) ==> self.record@ == Seq::<Token>::empty()
    }

    /// A splitter at the start of a document.
    pub fn new() -> (s: LineSplitter)
        ensures
            s.wf(),
            s.phase() == Phase::AwaitOuterStart,
            s.record() == Seq::<Token>::empty(),
    {
        LineSplitter { splitter: Splitter::new(), writer: None, record: Ghost(Seq::empty()) }
    }

    /// The document ended cleanly: the outer object closed, then the input.
    pub fn is_finished(&self) -> (r: bool)
        ensures
            r == (self.phase() == Phase::Done),
    {
        self.splitter.phase == Phase::Done
    }

    /// Takes the next token. Returns the line of a record that `t` completes:
    /// its compact JSON text and a newline. A token that the splitter puts
    /// into a record fails with `Unencodable` exactly when the writer refuses
    /// it. Every error is final.
    pub fn push(&mut self, t: &Token) -> (r: Result<Option<Vec<u8>>, SplitError>)
        requires
            old(self).wf(),
        ensures
            final(self).wf(),
            ({
                let (q, c, out) = step(old(self).phase(), old(self).record(), *t);
                let f = next(old(self).phase(), *t).1;
                &&& f matches Err(e) ==> r == Err::<Option<Vec<u8>>, SplitError>(e)
                &&& (f == Ok::<Feed, SplitError>(Feed::Outer) || f == Ok::<Feed, SplitError>(Feed::Finished))
                    ==> r == Ok::<Option<Vec<u8>>, SplitError>(None)
                &&& match r {
                    Ok(None) => final(self).phase() == q && final(self).record() == c && out.len() == 0,
                    Ok(Some(line)) => final(self).phase() == q && final(self).record() == c
                        && out.len() == 1 && line@ == json_text(out[0]).push(10u8) && json_value(out[0]),
                    Err(e) => final(self).record() == Seq::<Token>::empty() && (
                        (f == Err::<Feed, SplitError>(e) && final(self).phase() == q)
                        || (e == SplitError::Unencodable && final(self).phase() == Phase::Failed
                            && (f == Ok::<Feed, SplitError>(Feed::Member)
                                || f == Ok::<Feed, SplitError>(Feed::RecordEnd))
                            && !json_prefix(old(self).record().push(*t)))),
                }
            }),
    {
        let f = self.splitter.feed(t);
        match f {
            Err(e) => {
                self.writer = None;
                self.record = Ghost(Seq::empty());
                Err(e)
            },
            Ok(Feed::Outer) => {
                if self.splitter.phase == (Phase::InRecord { depth: 0 }) {
                    self.writer = Some(new_writer());
                } else {
                    self.writer = None;
                }
                self.record = Ghost(Seq::empty());
                Ok(None)
            },
            Ok(Feed::Finished) => Ok(None),
            Ok(g) => {
                let mut w = self.writer.take().unwrap();
                let ghost before = self.record@;
                let ok = write_token(&mut w, t);
                proof {
                    if ok {
                        if let Phase::InRecord { depth } = old(self).splitter.phase {
                            lemma_tracks_step(before, depth, *t);
                        }
                    }
                }
                if !ok {
                    self.splitter.phase = Phase::Failed;
                    self.record = Ghost(Seq::empty());
                    return Err(SplitError::Unencodable);
                }
                if g == Feed::Member {
                    self.record = Ghost(before.push(*t));
                    self.writer = Some(w);
                    Ok(None)
                } else {
                    self.record = Ghost(Seq::empty());
                    match terminate_line(finish_writer(w)) {
                        Ok(line) => Ok(Some(line)),
                        Err(e) => {
                            self.splitter.phase = Phase::Failed;
                            Err(e)
                        },
                    }
                }
            },
        }
    }
}

/// The lines of `records`: the JSON text of each, and a newline.
pub open spec fn lines_of(lines: Seq<Vec<u8>>, records: Seq<Seq<Token>>) -> bool {
    &&& lines.len() == records.len()
    &&& forall|j: int| 0 <= j < records.len() ==> (#[trigger] lines[j])@ == json_text(records[j]).push(10u8)
        && json_value(records[j])
}

/// The run over `tokens` met no error before index `k`, produced `lines`
/// up to there, and stopped at `tokens[k]` with `e`: an error of the
/// splitter, or the writer's refusal of a token of a record.
pub open spec fn stopped_at(tokens: Seq<Token>, k: int, lines: Seq<Vec<u8>>, e: SplitError) -> bool {
    let (q, c, out) = run(Phase::AwaitOuterStart, Seq::empty(), tokens.take(k));
    let f = next(q, tokens[k]).1;
    &&& 0 <= k < tokens.len()
    &&& q != Phase::Failed
    &&& lines_of(lines, out)
    &&& (f == Err::<Feed, SplitError>(e) || (e == SplitError::Unencodable
        && (f == Ok::<Feed, SplitError>(Feed::Member) || f == Ok::<Feed, SplitError>(Feed::RecordEnd))
        && !json_prefix(c.push(tokens[k]))))
}

/// Splits a whole token sequence. Returns the lines produced, then either
/// whether the document ended cleanly, or the first error, which stopped
/// it; the lines before an error are kept.
pub fn split_tokens(tokens: &Vec<Token>) -> (r: (Vec<Vec<u8>>, Result<bool, SplitError>))
    ensures
        ({
            let (q, c, out) = run(Phase::AwaitOuterStart, Seq::empty(), tokens@);
            &&& r.1 matches Ok(finished) ==> q != Phase::Failed && finished == (q == Phase::Done)
                && lines_of(r.0@, out)
            &&& q != Phase::Failed && writer_accepts(Phase::AwaitOuterStart, Seq::empty(), tokens@)
                ==> r.1 is Ok
        }),
        r.1 is Err ==> exists|k: int| #[trigger] stopped_at(tokens@, k, r.0@, r.1->Err_0),
{
    let mut s = LineSplitter::new();
    let mut lines: Vec<Vec<u8>> = Vec::new();
    let mut i: usize = 0;
    let ghost start = Phase::AwaitOuterStart;
    let ghost none = Seq::<Token>::empty();
    assert(tokens@.take(0) =~= Seq::<Token>::empty());
    while i < tokens.len()
        invariant
            s.wf(),
            0 <= i <= tokens.len(),
            start == Phase::AwaitOuterStart,
            none == Seq::<Token>::empty(),
            ({
                let (q, c, out) = run(start, none, tokens@.take(i as int));
                &&& s.phase() == q
                &&& s.record() == c
                &&& q != Phase::Failed
                &&& lines_of(lines@, out)
            }),
        decreases tokens.len() - i,
    {
        let ghost before = run(start, none, tokens@.take(i as int));
        let ghost t = tokens@[i as int];
        proof {
            lemma_run_append(start, none, tokens@.take(i as int), seq![t]);
            lemma_run_one(before.0, before.1, t);
            assert(tokens@.take(i as int) + seq![t] =~= tokens@.take(i + 1));
        }
        match s.push(&tokens[i]) {
            Ok(None) => {
                assert(before.2 + Seq::<Seq<Token>>::empty() =~= before.2);
            },
            Ok(Some(line)) => {
                let ghost out = step(before.0, before.1, t).2;
                assert(before.2 + out =~= before.2.push(out[0]));
                lines.push(line);
            },
            Err(e) => {
                proof {
                    let rest = tokens@.subrange(i + 1, tokens@.len() as int);
                    assert(tokens@.take(i + 1) + rest =~= tokens@);
                    if next(before.0, t).1 is Err {
                        fail_closed(start, none, tokens@.take(i + 1), rest);
                    } else {
                        lemma_accepts_append(start, none, tokens@.take(i as int), seq![t]);
                        assert(seq![t].drop_first() =~= Seq::<Token>::empty());
                        lemma_accepts_append(start, none, tokens@.take(i + 1), rest);
                        assert(!writer_accepts(before.0, before.1, seq![t]));
                        assert(!writer_accepts(start, none, tokens@.take(i + 1)));
                        assert(!writer_accepts(start, none, tokens@));
                    }
                    assert(run(start, none, tokens@).0 == Phase::Failed || !writer_accepts(start, none, tokens@));
                }
                let res: (Vec<Vec<u8>>, Result<bool, SplitError>) = (lines, Err(e));
                assert(stopped_at(tokens@, i as int, res.0@, res.1->Err_0));
                return res;
            },
        }
        i += 1;
    }
    assert(tokens@.take(i as int) =~= tokens@);
    let finished = s.is_finished();
    (lines, Ok(finished))
}

} // verus!
