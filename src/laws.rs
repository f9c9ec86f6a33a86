//! What holds of whole runs of the splitter.
use vstd::prelude::*;
use crate::machine::{next, run, step, Feed, Phase, SplitError};
use crate::writer::{json_prefix, json_value};
use crate::token::{is_record, object_depth, Token};

verus! {

/// The tokens of the outer object's members: each key, then its record.
pub open spec fn members(keys: Seq<String>, records: Seq<Seq<Token>>) -> Seq<Token>
    recommends
        keys.len() == records.len(),
    decreases records.len(),
{
    if records.len() == 0 || keys.len() == 0 {
        Seq::empty()
    } else {
        members(keys.drop_last(), records.drop_last()) + seq![Token::ObjectKey(keys.last())]
            + records.last()
    }
}

/// A whole document: the outer object holding `records` under `keys`,
/// then the end of input.
pub open spec fn document(keys: Seq<String>, records: Seq<Seq<Token>>) -> Seq<Token> {
    seq![Token::StartObject] + members(keys, records) + seq![Token::EndObject, Token::Eof]
}

/// What the splitter keeps true between tokens: inside a record, `cur`
/// is the part of the record read so far, at depth `depth`.
pub open spec fn gathering(p: Phase, cur: Seq<Token>) -> bool {
    match p {
        Phase::InRecord { depth } => {
            &&& depth == 0 ==> cur.len() == 0
            &&& depth > 0 ==> {
                &&& cur.len() >= 1
                &&& cur[0] is StartObject
                &&& object_depth(cur) == depth
                &&& forall|i: int| 1 <= i <= cur.len() ==> 0 < #[trigger] object_depth(cur.take(i)) <= u64::MAX
                &&& forall|i: int| 0 <= i < cur.len() ==> !(#[trigger] cur[i] is Eof)
            }
        },
        _ => cur.len() == 0,
    }
}

/// Running over `a + b` is running over `a`, then over `b`.
pub proof fn lemma_run_append(p: Phase, cur: Seq<Token>, a: Seq<Token>, b: Seq<Token>)
    ensures
        ({
            let (q, c, out) = run(p, cur, a);
            let (q2, c2, out2) = run(q, c, b);
            run(p, cur, a + b) == (q2, c2, out + out2)
        }),
    decreases a.len(),
{
    if a.len() == 0 {
        assert(a + b =~= b);
        let (q, c, out) = run(p, cur, b);
        assert(Seq::<Seq<Token>>::empty() + out =~= out);
    } else {
        assert((a + b)[0] == a[0]);
        assert((a + b).drop_first() =~= a.drop_first() + b);
        let (q1, c1, o1) = step(p, cur, a[0]);
        lemma_run_append(q1, c1, a.drop_first(), b);
        let (qa, ca, oa) = run(q1, c1, a.drop_first());
        let (qb, cb, ob) = run(qa, ca, b);
        assert(o1 + (oa + ob) =~= (o1 + oa) + ob);
    }
}

/// A run over a single token is one step.
pub proof fn lemma_run_one(p: Phase, cur: Seq<Token>, t: Token)
    ensures
        run(p, cur, seq![t]) == step(p, cur, t),
{
    let (q, c, out) = step(p, cur, t);
    assert(seq![t].drop_first() =~= Seq::<Token>::empty());
    assert(run(q, c, Seq::<Token>::empty()) == (q, c, Seq::<Seq<Token>>::empty()));
    assert(out + Seq::<Seq<Token>>::empty() =~= out);
}

/// Once the splitter has failed it stays failed and completes nothing.
pub proof fn lemma_failed_stays(cur: Seq<Token>, toks: Seq<Token>)
    ensures
        run(Phase::Failed, cur, toks).0 == Phase::Failed,
        run(Phase::Failed, cur, toks).2 == Seq::<Seq<Token>>::empty(),
    decreases toks.len(),
{
    if toks.len() > 0 {
        lemma_failed_stays(Seq::empty(), toks.drop_first());
        assert(Seq::<Seq<Token>>::empty() + Seq::<Seq<Token>>::empty() =~= Seq::<Seq<Token>>::empty());
    }
}

/// Fail-closed: once a run has failed, no later input completes another
/// record, and the records completed before the failure stay as they were.
pub proof fn fail_closed(p: Phase, cur: Seq<Token>, before: Seq<Token>, after: Seq<Token>)
    requires
        run(p, cur, before).0 == Phase::Failed,
    ensures
        run(p, cur, before + after).0 == Phase::Failed,
        run(p, cur, before + after).2 == run(p, cur, before).2,
{
    lemma_run_append(p, cur, before, after);
    let (q, c, out) = run(p, cur, before);
    lemma_failed_stays(c, after);
    assert(out + Seq::<Seq<Token>>::empty() =~= out);
}

/// Reading the first `k` tokens of a record, short of its end, leaves the
/// splitter inside it, with those tokens gathered.
proof fn lemma_record_prefix(r: Seq<Token>, k: int)
    requires
        is_record(r),
        1 <= k < r.len(),
    ensures
        run(Phase::InRecord { depth: 0 }, Seq::empty(), r.take(k))
            == (Phase::InRecord { depth: object_depth(r.take(k)) as u64 }, r.take(k), Seq::<Seq<Token>>::empty()),
    decreases k,
{
    let p0 = Phase::InRecord { depth: 0 };
    if k == 1 {
        assert(r.take(1) =~= seq![r[0]]);
        assert(r.take(1).drop_last() =~= Seq::<Token>::empty());
        assert(object_depth(Seq::<Token>::empty()) == 0);
        assert(object_depth(r.take(1)) == 1);
        lemma_run_one(p0, Seq::empty(), r[0]);
        assert(Seq::<Token>::empty().push(r[0]) =~= r.take(1));
        assert(run(p0, Seq::empty(), r.take(1)) == (Phase::InRecord { depth: 1 }, r.take(1), Seq::<Seq<Token>>::empty()));
    } else {
        lemma_record_prefix(r, k - 1);
        let t = r[k - 1];
        assert(r.take(k) =~= r.take(k - 1) + seq![t]);
        assert(r.take(k).drop_last() =~= r.take(k - 1));
        let d = object_depth(r.take(k - 1));
        assert(0 < d <= u64::MAX);
        assert(0 < object_depth(r.take(k)) <= u64::MAX);
        assert(!(r[k - 1] is Eof));
        lemma_run_append(p0, Seq::empty(), r.take(k - 1), seq![t]);
        lemma_run_one(Phase::InRecord { depth: d as u64 }, r.take(k - 1), t);
        assert(r.take(k - 1).push(t) =~= r.take(k));
        assert(Seq::<Seq<Token>>::empty() + Seq::<Seq<Token>>::empty() =~= Seq::<Seq<Token>>::empty());
        assert(step(Phase::InRecord { depth: d as u64 }, r.take(k - 1), t)
            == (Phase::InRecord { depth: object_depth(r.take(k)) as u64 }, r.take(k), Seq::<Seq<Token>>::empty()));
    }
}

/// A complete record, read right after its key, is completed whole at its
/// last token and leaves the splitter ready for the next key.
pub proof fn lemma_record(r: Seq<Token>)
    requires
        is_record(r),
    ensures
        run(Phase::InRecord { depth: 0 }, Seq::empty(), r) == (Phase::AwaitEntry, Seq::<Token>::empty(), seq![r]),
{
    let p0 = Phase::InRecord { depth: 0 };
    let k = r.len() - 1;
    lemma_record_prefix(r, k);
    let t = r[k];
    assert(r =~= r.take(k) + seq![t]);
    assert(r.drop_last() =~= r.take(k));
    assert(r.take(r.len() as int) =~= r);
    let d = object_depth(r.take(k));
    assert(0 < d <= u64::MAX);
    lemma_run_append(p0, Seq::empty(), r.take(k), seq![t]);
    lemma_run_one(Phase::InRecord { depth: d as u64 }, r.take(k), t);
    assert(r.take(k).push(t) =~= r);
    assert(Seq::<Seq<Token>>::empty() + seq![r] =~= seq![r]);
}

/// Reading the members of the outer object completes their records, in
/// order, and leaves the splitter ready for another key.
pub proof fn lemma_members(keys: Seq<String>, records: Seq<Seq<Token>>)
    requires
        keys.len() == records.len(),
        forall|i: int| 0 <= i < records.len() ==> is_record(#[trigger] records[i]),
    ensures
        run(Phase::AwaitEntry, Seq::empty(), members(keys, records))
            == (Phase::AwaitEntry, Seq::<Token>::empty(), records),
    decreases records.len(),
{
    let e = Seq::<Token>::empty();
    if records.len() == 0 {
        assert(records =~= Seq::<Seq<Token>>::empty());
    } else {
        let ks = keys.drop_last();
        let rs = records.drop_last();
        let r = records.last();
        assert forall|i: int| 0 <= i < rs.len() implies is_record(#[trigger] rs[i]) by {
            assert(rs[i] == records[i]);
        }
        assert(is_record(records[records.len() - 1]));
        lemma_members(ks, rs);
        let head = members(ks, rs);
        let key = seq![Token::ObjectKey(keys.last())];
        assert(members(keys, records) == head + key + r);
        lemma_run_append(Phase::AwaitEntry, e, head + key, r);
        lemma_run_append(Phase::AwaitEntry, e, head, key);
        lemma_run_one(Phase::AwaitEntry, e, Token::ObjectKey(keys.last()));
        lemma_record(r);
        assert(rs + Seq::<Seq<Token>>::empty() =~= rs);
        assert(rs + seq![r] =~= records);
    }
}

/// A document whose members are all complete records splits into exactly
/// those records, in order, one per key, and ends cleanly.
pub proof fn split_document(keys: Seq<String>, records: Seq<Seq<Token>>)
    requires
        keys.len() == records.len(),
        forall|i: int| 0 <= i < records.len() ==> is_record(#[trigger] records[i]),
    ensures
        run(Phase::AwaitOuterStart, Seq::empty(), document(keys, records))
            == (Phase::Done, Seq::<Token>::empty(), records),
        run(Phase::AwaitOuterStart, Seq::empty(), document(keys, records)).2.len() == keys.len(),
{
    let e = Seq::<Token>::empty();
    let none = Seq::<Seq<Token>>::empty();
    let open = seq![Token::StartObject];
    let body = members(keys, records);
    let close = seq![Token::EndObject, Token::Eof];
    lemma_run_append(Phase::AwaitOuterStart, e, open + body, close);
    lemma_run_append(Phase::AwaitOuterStart, e, open, body);
    lemma_run_one(Phase::AwaitOuterStart, e, Token::StartObject);
    lemma_members(keys, records);
    assert(close == seq![Token::EndObject] + seq![Token::Eof]);
    lemma_run_append(Phase::AwaitEntry, e, seq![Token::EndObject], seq![Token::Eof]);
    lemma_run_one(Phase::AwaitEntry, e, Token::EndObject);
    lemma_run_one(Phase::AwaitOuterEnd, e, Token::Eof);
    assert(none + none =~= none);
    assert(none + records =~= records);
    assert(records + none =~= records);
}

/// The records of a document's first members are completed before
/// anything that follows them is read: whatever comes after (a malformed
/// record, trailing content) only adds to them.
pub proof fn records_before_rest(keys: Seq<String>, records: Seq<Seq<Token>>, rest: Seq<Token>)
    requires
        keys.len() == records.len(),
        forall|i: int| 0 <= i < records.len() ==> is_record(#[trigger] records[i]),
    ensures
        run(Phase::AwaitOuterStart, Seq::empty(), seq![Token::StartObject] + members(keys, records) + rest).2
            == records + run(Phase::AwaitEntry, Seq::empty(), rest).2,
{
    let e = Seq::<Token>::empty();
    let open = seq![Token::StartObject];
    let body = members(keys, records);
    lemma_run_append(Phase::AwaitOuterStart, e, open + body, rest);
    lemma_run_append(Phase::AwaitOuterStart, e, open, body);
    lemma_run_one(Phase::AwaitOuterStart, e, Token::StartObject);
    lemma_members(keys, records);
    assert(Seq::<Seq<Token>>::empty() + records =~= records);
}

/// One step keeps `gathering`, and what it completes is a record.
proof fn lemma_step_gathering(p: Phase, cur: Seq<Token>, t: Token)
    requires
        gathering(p, cur),
    ensures
        gathering(step(p, cur, t).0, step(p, cur, t).1),
        forall|j: int| 0 <= j < step(p, cur, t).2.len() ==> is_record(#[trigger] step(p, cur, t).2[j]),
{
    let (q, c, out) = step(p, cur, t);
    if let Phase::InRecord { depth } = p {
        if depth == 0 && t is StartObject {
            assert(c =~= seq![t]);
            assert(c.drop_last() =~= Seq::<Token>::empty());
            assert(object_depth(Seq::<Token>::empty()) == 0);
            assert(c.take(1) =~= c);
        } else if depth > 0 && !(t is Eof) {
            let n = cur.len() as int;
            let nc = cur.push(t);
            assert(nc.drop_last() =~= cur);
            assert(nc.take(n + 1) =~= nc);
            assert(cur.take(n) =~= cur);
            assert forall|i: int| 1 <= i <= n implies #[trigger] nc.take(i) =~= cur.take(i) by {}
            assert forall|i: int| 1 <= i <= n implies 0 < #[trigger] object_depth(nc.take(i)) <= u64::MAX by {
                assert(nc.take(i) =~= cur.take(i));
            }
            assert forall|i: int| 0 <= i < nc.len() implies !(#[trigger] nc[i] is Eof) by {
                if i < n {
                    assert(nc[i] == cur[i]);
                }
            }
            if t is EndObject && depth == 1 {
                assert(out =~= seq![nc]);
                assert forall|j: int| 0 <= j < out.len() implies is_record(#[trigger] out[j]) by {
                    assert(out[j] == nc);
                    assert forall|i: int| 1 <= i < nc.len() implies 0 < #[trigger] object_depth(nc.take(i)) <= u64::MAX by {
                        assert(nc.take(i) =~= cur.take(i));
                    }
                }
            }
        }
    }
}

/// From a state that keeps `gathering`, every record a run completes is a
/// complete record.
proof fn lemma_run_gathering(p: Phase, cur: Seq<Token>, toks: Seq<Token>)
    requires
        gathering(p, cur),
    ensures
        forall|j: int| 0 <= j < run(p, cur, toks).2.len() ==> is_record(#[trigger] run(p, cur, toks).2[j]),
    decreases toks.len(),
{
    if toks.len() > 0 {
        let (q, c, out) = step(p, cur, toks[0]);
        lemma_step_gathering(p, cur, toks[0]);
        lemma_run_gathering(q, c, toks.drop_first());
        let all = run(p, cur, toks).2;
        let rest = run(q, c, toks.drop_first()).2;
        assert(all == out + rest);
        assert forall|j: int| 0 <= j < all.len() implies is_record(#[trigger] all[j]) by {
            if j < out.len() {
                assert(all[j] == out[j]);
            } else {
                assert(all[j] == rest[j - out.len()]);
            }
        }
    }
}

/// Whatever the input, every record that the splitter completes opens with
/// `{`, is balanced, closes with the `}` that matches it, and holds no end
/// of input.
pub proof fn emitted_are_records(toks: Seq<Token>)
    ensures
        forall|j: int| 0 <= j < run(Phase::AwaitOuterStart, Seq::empty(), toks).2.len()
            ==> is_record(#[trigger] run(Phase::AwaitOuterStart, Seq::empty(), toks).2[j]),
{
    lemma_run_gathering(Phase::AwaitOuterStart, Seq::empty(), toks);
}

/// Re-splitting: the records completed from any input, put back under any
/// keys into a new document, split into the same records again; where
/// each is one JSON value (as every record with a line is), the writer
/// accepts the new document whole.
pub proof fn resplit(toks: Seq<Token>, keys: Seq<String>)
    requires
        keys.len() == run(Phase::AwaitOuterStart, Seq::empty(), toks).2.len(),
    ensures
        ({
            let records = run(Phase::AwaitOuterStart, Seq::empty(), toks).2;
            &&& run(Phase::AwaitOuterStart, Seq::empty(), document(keys, records))
                == (Phase::Done, Seq::<Token>::empty(), records)
            &&& (forall|j: int| 0 <= j < records.len() ==> json_value(#[trigger] records[j]))
                ==> writer_accepts(Phase::AwaitOuterStart, Seq::empty(), document(keys, records))
        }),
{
    let records = run(Phase::AwaitOuterStart, Seq::empty(), toks).2;
    emitted_are_records(toks);
    split_document(keys, records);
    if forall|j: int| 0 <= j < records.len() ==> json_value(#[trigger] records[j]) {
        document_accepted(keys, records);
    }
}

/// Along the run over `toks`, the writer accepts every token that the
/// splitter adds to a record.
pub open spec fn writer_accepts(p: Phase, cur: Seq<Token>, toks: Seq<Token>) -> bool
    decreases toks.len(),
{
    if toks.len() == 0 {
        true
    } else {
        let (q, c, out) = step(p, cur, toks[0]);
        let f = next(p, toks[0]).1;
        &&& (f == Ok::<Feed, SplitError>(Feed::Member) || f == Ok::<Feed, SplitError>(Feed::RecordEnd))
            ==> json_prefix(cur.push(toks[0]))
        &&& writer_accepts(q, c, toks.drop_first())
    }
}

/// `writer_accepts` over `a + b` is `writer_accepts` over `a`, then over
/// `b` from where `a` left the splitter.
pub proof fn lemma_accepts_append(p: Phase, cur: Seq<Token>, a: Seq<Token>, b: Seq<Token>)
    ensures
        writer_accepts(p, cur, a + b) == (writer_accepts(p, cur, a)
            && writer_accepts(run(p, cur, a).0, run(p, cur, a).1, b)),
    decreases a.len(),
{
    if a.len() == 0 {
        assert(a + b =~= b);
    } else {
        assert((a + b)[0] == a[0]);
        assert((a + b).drop_first() =~= a.drop_first() + b);
        let (q1, c1, o1) = step(p, cur, a[0]);
        lemma_accepts_append(q1, c1, a.drop_first(), b);
    }
}

/// What the writer accepts, it accepted token by token: every prefix of an
/// accepted sequence is accepted.
pub proof fn lemma_prefix_accepted(s: Seq<Token>, k: int)
    requires
        json_prefix(s),
        0 <= k <= s.len(),
    ensures
        json_prefix(s.take(k)),
    decreases s.len() - k,
{
    if k < s.len() {
        lemma_prefix_accepted(s, k + 1);
        assert(s.take(k + 1).drop_last() =~= s.take(k));
    } else {
        assert(s.take(k) =~= s);
    }
}

proof fn lemma_accepts_one(p: Phase, cur: Seq<Token>, t: Token)
    ensures
        writer_accepts(p, cur, seq![t]) == ((next(p, t).1 == Ok::<Feed, SplitError>(Feed::Member)
            || next(p, t).1 == Ok::<Feed, SplitError>(Feed::RecordEnd)) ==> json_prefix(cur.push(t))),
{
    let (q, c, out) = step(p, cur, t);
    assert(seq![t].drop_first() =~= Seq::<Token>::empty());
    assert(writer_accepts(q, c, Seq::<Token>::empty()));
}

/// A complete record that is one JSON value is accepted by the writer all
/// along.
proof fn lemma_record_accepted(r: Seq<Token>, k: int)
    requires
        is_record(r),
        json_prefix(r),
        1 <= k <= r.len(),
    ensures
        writer_accepts(Phase::InRecord { depth: 0 }, Seq::empty(), r.take(k)),
    decreases k,
{
    let p0 = Phase::InRecord { depth: 0 };
    lemma_prefix_accepted(r, k);
    if k == 1 {
        assert(r.take(1) =~= seq![r[0]]);
        lemma_accepts_one(p0, Seq::empty(), r[0]);
        assert(Seq::<Token>::empty().push(r[0]) =~= r.take(1));
    } else {
        lemma_record_accepted(r, k - 1);
        lemma_record_prefix(r, k - 1);
        let t = r[k - 1];
        assert(r.take(k) =~= r.take(k - 1) + seq![t]);
        lemma_accepts_append(p0, Seq::empty(), r.take(k - 1), seq![t]);
        let d = object_depth(r.take(k - 1));
        lemma_accepts_one(Phase::InRecord { depth: d as u64 }, r.take(k - 1), t);
        assert(r.take(k - 1).push(t) =~= r.take(k));
    }
}

proof fn lemma_members_accepted(keys: Seq<String>, records: Seq<Seq<Token>>)
    requires
        keys.len() == records.len(),
        forall|i: int| 0 <= i < records.len() ==> is_record(#[trigger] records[i]),
        forall|i: int| 0 <= i < records.len() ==> json_value(#[trigger] records[i]),
    ensures
        writer_accepts(Phase::AwaitEntry, Seq::empty(), members(keys, records)),
    decreases records.len(),
{
    let e = Seq::<Token>::empty();
    if records.len() > 0 {
        let ks = keys.drop_last();
        let rs = records.drop_last();
        let r = records.last();
        assert forall|i: int| 0 <= i < rs.len() implies is_record(#[trigger] rs[i]) && json_value(rs[i]) by {
            assert(rs[i] == records[i]);
        }
        assert(is_record(records[records.len() - 1]) && json_value(records[records.len() - 1]));
        lemma_members_accepted(ks, rs);
        lemma_members(ks, rs);
        let head = members(ks, rs);
        let kt = Token::ObjectKey(keys.last());
        let key = seq![kt];
        lemma_accepts_append(Phase::AwaitEntry, e, head + key, r);
        lemma_accepts_append(Phase::AwaitEntry, e, head, key);
        lemma_run_append(Phase::AwaitEntry, e, head, key);
        lemma_run_one(Phase::AwaitEntry, e, kt);
        lemma_accepts_one(Phase::AwaitEntry, e, kt);
        lemma_record_accepted(r, r.len() as int);
        assert(r.take(r.len() as int) =~= r);
    }
}

/// A document whose members are complete records, each one JSON value,
/// has every token of its records accepted by the writer: with
/// `split_document`, splitting it succeeds and yields one line per key.
pub proof fn document_accepted(keys: Seq<String>, records: Seq<Seq<Token>>)
    requires
        keys.len() == records.len(),
        forall|i: int| 0 <= i < records.len() ==> is_record(#[trigger] records[i]),
        forall|i: int| 0 <= i < records.len() ==> json_value(#[trigger] records[i]),
    ensures
        writer_accepts(Phase::AwaitOuterStart, Seq::empty(), document(keys, records)),
{
    let e = Seq::<Token>::empty();
    let open = seq![Token::StartObject];
    let body = members(keys, records);
    let close = seq![Token::EndObject, Token::Eof];
    lemma_accepts_append(Phase::AwaitOuterStart, e, open + body, close);
    lemma_accepts_append(Phase::AwaitOuterStart, e, open, body);
    lemma_accepts_one(Phase::AwaitOuterStart, e, Token::StartObject);
    lemma_run_append(Phase::AwaitOuterStart, e, open, body);
    lemma_run_one(Phase::AwaitOuterStart, e, Token::StartObject);
    lemma_members_accepted(keys, records);
    lemma_members(keys, records);
    assert(close == seq![Token::EndObject] + seq![Token::Eof]);
    lemma_accepts_append(Phase::AwaitEntry, e, seq![Token::EndObject], seq![Token::Eof]);
    lemma_accepts_one(Phase::AwaitEntry, e, Token::EndObject);
    lemma_run_one(Phase::AwaitEntry, e, Token::EndObject);
    lemma_accepts_one(Phase::AwaitOuterEnd, e, Token::Eof);
}

} // verus!
