//! General properties of the tokenizer model, proved once and for all:
//! quoted contents round-trip, terminator equivalences, blank-record
//! filtering, agreement of the streaming and collecting drivers, and
//! determinism of a session.

use vstd::prelude::*;

use crate::model::{
    batches_model, collect_model, process_model, record_blank, run_bytes, stream_model,
    terminator_step, DialectModel, RunState, StateModel, CR, LF,
};

verus! {

/// One piece of quoted field content: either a plain byte, or a byte that
/// is written behind the escape character.  A plain byte may not be the
/// quote or the escape character; an escaped byte may be anything.
pub open spec fn toks_ok(toks: Seq<(bool, u8)>, d: DialectModel) -> bool {
    forall|i: int|
        0 <= i < toks.len() ==> ((#[trigger] toks[i]).0 || (toks[i].1 != d.quote && toks[i].1
            != d.escape))
}

/// The raw bytes that write the given content: escaped bytes carry the
/// escape character in front.
pub open spec fn render_toks(toks: Seq<(bool, u8)>, d: DialectModel) -> Seq<u8>
    decreases toks.len(),
{
    if toks.len() == 0 {
        seq![]
    } else {
        (if toks[0].0 {
            seq![d.escape, toks[0].1]
        } else {
            seq![toks[0].1]
        }) + render_toks(toks.skip(1), d)
    }
}

/// The field value the content stands for: each token contributes its byte.
pub open spec fn tok_values(toks: Seq<(bool, u8)>) -> Seq<u8>
    decreases toks.len(),
{
    if toks.len() == 0 {
        seq![]
    } else {
        seq![toks[0].1] + tok_values(toks.skip(1))
    }
}

/// Inside quotes, scanning the rendered content appends exactly the token
/// values to the pending field: delimiters and terminators among them are
/// literal, and an escaped quote does not close the field.
proof fn lemma_quoted_content(d: DialectModel, toks: Seq<(bool, u8)>, rest: Seq<u8>, st: RunState)
    requires
        st.in_quotes,
        !st.escaped,
        toks_ok(toks, d),
    ensures
        run_bytes(d, render_toks(toks, d) + rest, st) == run_bytes(
            d,
            rest,
            (RunState { field: st.field + tok_values(toks), ..st }),
        ),
    decreases toks.len(),
{
    if toks.len() == 0 {
        assert(render_toks(toks, d) + rest =~= rest);
        assert(st.field + tok_values(toks) =~= st.field);
        assert((RunState { field: st.field + tok_values(toks), ..st }) =~= st);
    } else {
        let b = toks[0].1;
        let s = render_toks(toks, d) + rest;
        if toks[0].0 {
            // escape byte, then the literal byte
            let s1 = render_toks(toks.skip(1), d) + rest;
            assert(s[0] == d.escape);
            assert(s.skip(1) =~= seq![b] + s1);
            assert((seq![b] + s1)[0] == b);
            assert((seq![b] + s1).skip(1) =~= s1);
            let st1 = RunState { escaped: true, ..st };
            let st2 = RunState { field: st.field.push(b), escaped: false, ..st };
            assert(run_bytes(d, s, st) == run_bytes(d, seq![b] + s1, st1));
            assert(run_bytes(d, seq![b] + s1, st1) == run_bytes(d, s1, st2));
            lemma_quoted_content(d, toks.skip(1), rest, st2);
            assert(st.field.push(b) + tok_values(toks.skip(1)) =~= st.field + tok_values(toks));
        } else {
            let s1 = render_toks(toks.skip(1), d) + rest;
            assert(s[0] == b);
            assert(s.skip(1) =~= s1);
            assert(b != d.escape && b != d.quote);
            let st2 = RunState { field: st.field.push(b), ..st };
            assert(run_bytes(d, s, st) == run_bytes(d, s1, st2));
            lemma_quoted_content(d, toks.skip(1), rest, st2);
            assert(st.field.push(b) + tok_values(toks.skip(1)) =~= st.field + tok_values(toks));
        }
    }
}

/// A quoted field whose content may hold the delimiter, terminator bytes,
/// and escaped quotes comes back as one single field holding exactly the
/// unescaped content.
pub proof fn lemma_quoted_field_round_trip(d: DialectModel, toks: Seq<(bool, u8)>)
    requires
        toks_ok(toks, d),
        d.quote != d.escape,
        LF != d.quote && LF != d.escape && LF != d.delimiter,
        !record_blank(seq![tok_values(toks)]),
    ensures
        process_model(
            d,
            StateModel::initial(),
            seq![d.quote] + render_toks(toks, d) + seq![d.quote, LF],
        ).0 == seq![seq![tok_values(toks)]],
        process_model(
            d,
            StateModel::initial(),
            seq![d.quote] + render_toks(toks, d) + seq![d.quote, LF],
        ).1 == StateModel::initial(),
{
    let s = seq![d.quote] + render_toks(toks, d) + seq![d.quote, LF];
    let st0 = RunState {
        out: seq![],
        rec: seq![],
        field: seq![],
        in_quotes: false,
        escaped: false,
    };
    assert(s[0] == d.quote);
    assert(s.skip(1) =~= render_toks(toks, d) + seq![d.quote, LF]);
    let st1 = RunState { in_quotes: true, ..st0 };
    assert(run_bytes(d, s, st0) == run_bytes(d, render_toks(toks, d) + seq![d.quote, LF], st1));
    lemma_quoted_content(d, toks, seq![d.quote, LF], st1);
    let v = tok_values(toks);
    let st2 = RunState { field: st1.field + v, ..st1 };
    assert(st2.field =~= v);
    assert(seq![d.quote, LF][0] == d.quote);
    assert(seq![d.quote, LF].skip(1) =~= seq![LF]);
    let st3 = RunState { in_quotes: false, ..st2 };
    assert(run_bytes(d, seq![d.quote, LF], st2) == run_bytes(d, seq![LF], st3));
    assert(seq![LF].skip(1) =~= Seq::<u8>::empty());
    let st4 = terminator_step(st3);
    assert(st3.rec.push(st3.field) =~= seq![v]);
    assert(run_bytes(d, seq![LF], st3) == run_bytes(d, Seq::<u8>::empty(), st4));
    assert(st4.out =~= seq![seq![v]]);
    assert(process_model(d, StateModel::initial(), s).0 =~= seq![seq![v]]);
    assert(process_model(d, StateModel::initial(), s).1 =~= StateModel::initial());
}

/// Outside quotes, a carriage-return / line-feed pair terminates a record
/// exactly as a lone line feed does.
pub proof fn lemma_crlf_equiv(d: DialectModel, st: RunState, rest: Seq<u8>)
    requires
        !st.in_quotes,
        !st.escaped,
        CR != d.delimiter && CR != d.quote && CR != d.escape,
        LF != d.delimiter && LF != d.quote && LF != d.escape,
    ensures
        run_bytes(d, seq![CR, LF] + rest, st) == run_bytes(d, seq![LF] + rest, st),
{
    let s1 = seq![CR, LF] + rest;
    let s2 = seq![LF] + rest;
    let st1 = terminator_step(st);
    assert(s1[0] == CR && s1.len() > 1 && s1[1] == LF);
    assert(s1.skip(2) =~= rest);
    assert(run_bytes(d, s1, st) == run_bytes(d, rest, st1));
    assert(s2[0] == LF);
    assert(s2.skip(1) =~= rest);
    assert(run_bytes(d, s2, st) == run_bytes(d, rest, st1));
}

/// Inside quotes, a terminator byte is field content: it does not end the
/// record.
pub proof fn lemma_quoted_terminator_literal(d: DialectModel, st: RunState, b: u8, rest: Seq<u8>)
    requires
        st.in_quotes,
        !st.escaped,
        b == CR || b == LF,
        b != d.quote && b != d.escape,
    ensures
        run_bytes(d, seq![b] + rest, st) == run_bytes(
            d,
            rest,
            (RunState { field: st.field.push(b), ..st }),
        ),
{
    let s = seq![b] + rest;
    assert(s[0] == b);
    assert(s.skip(1) =~= rest);
}

/// At a record terminator, a blank record is dropped and a non-blank one is
/// emitted whole: its fields keep their order and count, the pending field
/// (empty or not) standing last.
pub proof fn lemma_terminator_filters_blank(st: RunState)
    requires
        st.field.len() > 0 || st.rec.len() > 0,
    ensures
        record_blank(st.rec.push(st.field)) ==> terminator_step(st).out == st.out,
        !record_blank(st.rec.push(st.field)) ==> terminator_step(st).out == st.out.push(
            st.rec.push(st.field),
        ),
        terminator_step(st).rec == Seq::<Seq<u8>>::empty(),
        terminator_step(st).field == Seq::<u8>::empty(),
{
    if record_blank(st.rec.push(st.field)) {
        assert(terminator_step(st).rec =~= Seq::<Seq<u8>>::empty());
        assert(terminator_step(st).field =~= Seq::<u8>::empty());
    } else {
        assert(terminator_step(st).rec =~= Seq::<Seq<u8>>::empty());
        assert(terminator_step(st).field =~= Seq::<u8>::empty());
    }
}

/// Prepending one element to a sequence of sequences prepends it to the
/// flattening.
proof fn lemma_flatten_prepend<A>(b: Seq<A>, rest: Seq<Seq<A>>)
    ensures
        (seq![b] + rest).flatten() == b + rest.flatten(),
{
    let s = seq![b] + rest;
    assert(s.len() > 0);
    assert(s.first() == b);
    assert(s.drop_first() =~= rest);
}

/// One chunk's batches flatten to exactly that chunk's records.
proof fn lemma_batches_flatten(out: Seq<Seq<Seq<u8>>>, hp: bool)
    ensures
        batches_model(out, hp).flatten() == out,
{
    if hp && out.len() > 0 {
        if out.len() > 1 {
            lemma_flatten_prepend(out.skip(1), Seq::<Seq<Seq<Seq<u8>>>>::empty());
            assert(seq![out.skip(1)] + Seq::<Seq<Seq<Seq<u8>>>>::empty() =~= seq![out.skip(1)]);
            lemma_flatten_prepend(seq![out[0]], seq![out.skip(1)]);
            assert(batches_model(out, hp) =~= seq![seq![out[0]]] + seq![out.skip(1)]);
            assert(Seq::<Seq<Seq<Seq<u8>>>>::empty().flatten() =~= Seq::<Seq<Seq<u8>>>::empty());
            assert(batches_model(out, hp).flatten() =~= out);
        } else {
            lemma_flatten_prepend(seq![out[0]], Seq::<Seq<Seq<Seq<u8>>>>::empty());
            assert(batches_model(out, hp) =~= seq![seq![out[0]]] + Seq::<
                Seq<Seq<Seq<u8>>>,
            >::empty());
            assert(Seq::<Seq<Seq<Seq<u8>>>>::empty().flatten() =~= Seq::<Seq<Seq<u8>>>::empty());
            assert(batches_model(out, hp).flatten() =~= out);
        }
    } else if out.len() > 0 {
        lemma_flatten_prepend(out, Seq::<Seq<Seq<Seq<u8>>>>::empty());
        assert(batches_model(out, hp) =~= seq![out] + Seq::<Seq<Seq<Seq<u8>>>>::empty());
        assert(batches_model(out, hp).flatten() =~= out);
    } else {
        assert(batches_model(out, hp).flatten() =~= out);
    }
}

/// Streaming and collecting agree: over any chunks, from any shared state,
/// the records of all streamed batches, in order, are exactly the collected
/// table.
pub proof fn lemma_stream_matches_collect(
    d: DialectModel,
    st: StateModel,
    hp: bool,
    chunks: Seq<Seq<u8>>,
)
    ensures
        stream_model(d, st, hp, chunks).flatten() == collect_model(d, st, chunks).0,
    decreases chunks.len(),
{
    if chunks.len() == 0 {
    } else {
        let (out, st1) = process_model(d, st, chunks[0]);
        let bs = batches_model(out, hp);
        let rest = stream_model(d, st1, hp && out.len() == 0, chunks.skip(1));
        lemma_stream_matches_collect(d, st1, hp && out.len() == 0, chunks.skip(1));
        lemma_batches_flatten(out, hp);
        lemma_flatten_concat_local(bs, rest);
        assert(stream_model(d, st, hp, chunks) == bs + rest);
        assert((bs + rest).flatten() =~= out + collect_model(d, st1, chunks.skip(1)).0);
    }
}

/// Flattening distributes over concatenation.
proof fn lemma_flatten_concat_local<A>(a: Seq<Seq<A>>, b: Seq<Seq<A>>)
    ensures
        (a + b).flatten() == a.flatten() + b.flatten(),
    decreases a.len(),
{
    if a.len() == 0 {
        assert(a + b =~= b);
        assert(a.flatten() + b.flatten() =~= b.flatten());
    } else {
        lemma_flatten_concat_local(a.drop_first(), b);
        assert((a + b).drop_first() =~= a.drop_first() + b);
        assert((a + b).len() > 0);
        assert((a + b).first() == a.first());
        assert((a + b).flatten() == a.first() + (a.drop_first() + b).flatten());
        assert(a.first() + (a.drop_first().flatten() + b.flatten()) =~= (a.first()
            + a.drop_first().flatten()) + b.flatten());
    }
}

/// While the header is owed, a chunk that yields no records leaves it owed:
/// blank lines ahead of the data do not consume the header.
pub proof fn lemma_header_waits_for_records(d: DialectModel, st: StateModel, chunks: Seq<Seq<u8>>)
    requires
        chunks.len() > 0,
        process_model(d, st, chunks[0]).0.len() == 0,
    ensures
        stream_model(d, st, true, chunks) == stream_model(
            d,
            process_model(d, st, chunks[0]).1,
            true,
            chunks.skip(1),
        ),
{
    let (out, st1) = process_model(d, st, chunks[0]);
    assert(batches_model(out, true) =~= Seq::<Seq<Seq<Seq<u8>>>>::empty());
    assert(batches_model(out, true) + stream_model(d, st1, true, chunks.skip(1)) =~= stream_model(
        d,
        st1,
        true,
        chunks.skip(1),
    ));
}

/// The first chunk that yields records while the header is owed hands the
/// first record out alone; from then on the header flag is down for good,
/// so no later record is ever split off as a header.
pub proof fn lemma_header_consumed_once(d: DialectModel, st: StateModel, chunks: Seq<Seq<u8>>)
    requires
        chunks.len() > 0,
        process_model(d, st, chunks[0]).0.len() > 0,
    ensures
        ({
            let (out, st1) = process_model(d, st, chunks[0]);
            stream_model(d, st, true, chunks) == batches_model(out, true) + stream_model(
                d,
                st1,
                false,
                chunks.skip(1),
            ) && batches_model(out, true)[0] == seq![out[0]]
        }),
{
}

/// Once the header flag is down it stays down: every batch of the rest of
/// the session is the whole record sequence of some chunk, never a record
/// split off as a header.
pub proof fn lemma_batches_whole_after_header(d: DialectModel, st: StateModel, chunks: Seq<Seq<u8>>)
    ensures
        forall|j: int|
            0 <= j < stream_model(d, st, false, chunks).len() ==> exists|k: int|
                0 <= k < chunks.len() && #[trigger] stream_model(d, st, false, chunks)[j]
                    == process_model(d, collect_model(d, st, chunks.take(k)).1, chunks[k]).0,
    decreases chunks.len(),
{
    if chunks.len() == 0 {
    } else {
        let (out, st1) = process_model(d, st, chunks[0]);
        let bm = batches_model(out, false);
        let rest = stream_model(d, st1, false, chunks.skip(1));
        lemma_batches_whole_after_header(d, st1, chunks.skip(1));
        assert(stream_model(d, st, false, chunks) == bm + rest);
        assert(chunks.take(0) =~= Seq::<Seq<u8>>::empty());
        assert(collect_model(d, st, chunks.take(0)).1 == st);
        assert forall|j: int| 0 <= j < stream_model(d, st, false, chunks).len() implies exists|
            k: int,
        |
            0 <= k < chunks.len() && #[trigger] stream_model(d, st, false, chunks)[j]
                == process_model(d, collect_model(d, st, chunks.take(k)).1, chunks[k]).0 by {
            if j < bm.len() {
                assert(bm[j] == out);
                assert(stream_model(d, st, false, chunks)[j] == process_model(
                    d,
                    collect_model(d, st, chunks.take(0)).1,
                    chunks[0],
                ).0);
            } else {
                let jr = j - bm.len();
                assert(rest[jr] == stream_model(d, st1, false, chunks.skip(1))[jr]);
                let k0 = choose|k0: int|
                    0 <= k0 < chunks.skip(1).len() && #[trigger] stream_model(
                        d,
                        st1,
                        false,
                        chunks.skip(1),
                    )[jr] == process_model(
                        d,
                        collect_model(d, st1, chunks.skip(1).take(k0)).1,
                        chunks.skip(1)[k0],
                    ).0;
                assert(chunks.take(k0 + 1)[0] == chunks[0]);
                assert(chunks.take(k0 + 1).skip(1) =~= chunks.skip(1).take(k0));
                assert(collect_model(d, st, chunks.take(k0 + 1)).1 == collect_model(
                    d,
                    st1,
                    chunks.skip(1).take(k0),
                ).1);
                assert(chunks.skip(1)[k0] == chunks[k0 + 1]);
                assert(stream_model(d, st, false, chunks)[j] == process_model(
                    d,
                    collect_model(d, st, chunks.take(k0 + 1)).1,
                    chunks[k0 + 1],
                ).0);
            }
        }
    }
}

/// A session is a function of its input: the same dialect and the same
/// chunks give the same table and the same batches, however often they are
/// run.
pub proof fn lemma_sessions_deterministic(
    d: DialectModel,
    hp: bool,
    chunks1: Seq<Seq<u8>>,
    chunks2: Seq<Seq<u8>>,
)
    requires
        chunks1 == chunks2,
    ensures
        collect_model(d, StateModel::initial(), chunks1) == collect_model(
            d,
            StateModel::initial(),
            chunks2,
        ),
        stream_model(d, StateModel::initial(), hp, chunks1) == stream_model(
            d,
            StateModel::initial(),
            hp,
            chunks2,
        ),
{
}

} // verus!
