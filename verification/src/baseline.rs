//! The baseline equivalence: on input free of quote and escape characters,
//! the tokenizer agrees with a naive split by delimiter and terminator,
//! with blank records dropped.

use vstd::prelude::*;

use crate::model::{
    process_model, record_blank, run_bytes, terminator_step, DialectModel, RunState, StateModel,
    CR, LF,
};

verus! {

/// The byte is a record terminator.
pub open spec fn is_term(b: u8) -> bool {
    b == LF || b == CR
}

/// The input holds neither the quote nor the escape character.
pub open spec fn clean_input(s: Seq<u8>, d: DialectModel) -> bool {
    forall|i: int| 0 <= i < s.len() ==> (#[trigger] s[i]) != d.quote && s[i] != d.escape
}

/// Bytes that can sit inside one pending field of clean input: no control
/// byte of any kind.
pub open spec fn clean_field(f: Seq<u8>, d: DialectModel) -> bool {
    forall|i: int|
        0 <= i < f.len() ==> (#[trigger] f[i]) != d.delimiter && !is_term(f[i]) && f[i] != d.quote
            && f[i] != d.escape
}

/// A line split at every delimiter: the naive field split.
pub open spec fn split_fields(l: Seq<u8>, delim: u8) -> Seq<Seq<u8>>
    decreases l.len(),
{
    if l.len() == 0 {
        seq![seq![]]
    } else if l[0] == delim {
        seq![seq![]] + split_fields(l.skip(1), delim)
    } else {
        let rest = split_fields(l.skip(1), delim);
        seq![seq![l[0]] + rest[0]] + rest.skip(1)
    }
}

/// A byte stream split at every terminator (a carriage-return / line-feed
/// pair counting once): the terminated lines, and the unterminated tail.
pub open spec fn split_lines(s: Seq<u8>) -> (Seq<Seq<u8>>, Seq<u8>)
    decreases s.len(),
{
    if s.len() == 0 {
        (seq![], seq![])
    } else if s[0] == CR && s.len() > 1 && s[1] == LF {
        let r = split_lines(s.skip(2));
        (seq![seq![]] + r.0, r.1)
    } else if is_term(s[0]) {
        let r = split_lines(s.skip(1));
        (seq![seq![]] + r.0, r.1)
    } else {
        let r = split_lines(s.skip(1));
        if r.0.len() > 0 {
            (seq![seq![s[0]] + r.0[0]] + r.0.skip(1), r.1)
        } else {
            (seq![], seq![s[0]] + r.1)
        }
    }
}

/// What becomes of one completed record: dropped when blank, kept whole
/// otherwise.
pub open spec fn emit_of(rc: Seq<Seq<u8>>) -> Seq<Seq<Seq<u8>>> {
    if record_blank(rc) {
        seq![]
    } else {
        seq![rc]
    }
}

/// The record a line completes, joined with what was already pending: the
/// pending fields, then the pending bytes continued by the line, split.
pub open spec fn rec_of(rec0: Seq<Seq<u8>>, f0: Seq<u8>, l: Seq<u8>, delim: u8) -> Seq<Seq<u8>> {
    rec0 + split_fields(f0 + l, delim)
}

/// The records that a run of terminated lines yields, the first joined with
/// the pending state.
pub open spec fn recs_from(
    rec0: Seq<Seq<u8>>,
    f0: Seq<u8>,
    ls: Seq<Seq<u8>>,
    delim: u8,
) -> Seq<Seq<Seq<u8>>>
    decreases ls.len(),
{
    if ls.len() == 0 {
        seq![]
    } else {
        emit_of(rec_of(rec0, f0, ls[0], delim)) + recs_from(seq![], seq![], ls.skip(1), delim)
    }
}

/// The record the unterminated tail yields at the end of the chunk: an
/// empty pending field is not kept, and a blank record is not emitted.
pub open spec fn tail_records(t: Seq<u8>, delim: u8) -> Seq<Seq<Seq<u8>>> {
    if t.len() == 0 {
        seq![]
    } else {
        let fs0 = split_fields(t, delim);
        let fs = if fs0.last().len() == 0 {
            fs0.drop_last()
        } else {
            fs0
        };
        if record_blank(fs) {
            seq![]
        } else {
            seq![fs]
        }
    }
}

/// The naive reading of a whole chunk: each terminated line a record, the
/// tail flushed, blank records dropped.
pub open spec fn naive_records(s: Seq<u8>, delim: u8) -> Seq<Seq<Seq<u8>>> {
    let (ls, t) = split_lines(s);
    recs_from(seq![], seq![], ls, delim) + tail_records(t, delim)
}

/// A naive field split always yields at least one field.
proof fn lemma_split_fields_nonempty(l: Seq<u8>, delim: u8)
    ensures
        split_fields(l, delim).len() >= 1,
    decreases l.len(),
{
    if l.len() == 0 {
    } else if l[0] == delim {
        lemma_split_fields_nonempty(l.skip(1), delim);
    } else {
        lemma_split_fields_nonempty(l.skip(1), delim);
    }
}

/// A stretch of bytes without a delimiter is one single field.
proof fn lemma_split_fields_single(f: Seq<u8>, d: DialectModel)
    requires
        clean_field(f, d),
    ensures
        split_fields(f, d.delimiter) == seq![f],
    decreases f.len(),
{
    if f.len() == 0 {
        assert(split_fields(f, d.delimiter) =~~= seq![f]);
    } else {
        assert(f[0] != d.delimiter);
        lemma_split_fields_single(f.skip(1), d);
        let rest = split_fields(f.skip(1), d.delimiter);
        assert(rest == seq![f.skip(1)]);
        assert(seq![f[0]] + rest[0] =~= f);
        assert(rest.skip(1) =~= Seq::<Seq<u8>>::empty());
        assert(split_fields(f, d.delimiter) =~= seq![f]);
    }
}

/// Splitting a field, a delimiter, and a remainder: the field stands first,
/// the remainder splits on its own.
proof fn lemma_split_fields_delim(f: Seq<u8>, rest: Seq<u8>, d: DialectModel)
    requires
        clean_field(f, d),
    ensures
        split_fields(f + seq![d.delimiter] + rest, d.delimiter) == seq![f] + split_fields(
            rest,
            d.delimiter,
        ),
    decreases f.len(),
{
    let s = f + seq![d.delimiter] + rest;
    if f.len() == 0 {
        assert(s =~= seq![d.delimiter] + rest);
        assert((seq![d.delimiter] + rest)[0] == d.delimiter);
        assert((seq![d.delimiter] + rest).skip(1) =~= rest);
        assert(split_fields(s, d.delimiter) == seq![seq![]] + split_fields(rest, d.delimiter));
        assert(f =~= Seq::<u8>::empty());
        assert(seq![f] =~= seq![Seq::<u8>::empty()]);
    } else {
        assert(s[0] == f[0]);
        assert(s[0] != d.delimiter);
        assert(s.skip(1) =~= f.skip(1) + seq![d.delimiter] + rest);
        lemma_split_fields_delim(f.skip(1), rest, d);
        let r1 = split_fields(f.skip(1) + seq![d.delimiter] + rest, d.delimiter);
        assert(r1 == seq![f.skip(1)] + split_fields(rest, d.delimiter));
        assert(r1[0] == f.skip(1));
        assert(seq![s[0]] + r1[0] =~= f);
        assert(r1.skip(1) =~= split_fields(rest, d.delimiter));
        assert(split_fields(s, d.delimiter) =~= seq![f] + split_fields(rest, d.delimiter));
    }
}

/// The empty record's single empty field is blank: it decodes to nothing.
proof fn lemma_empty_field_blank()
    ensures
        record_blank(seq![Seq::<u8>::empty()]),
{
    assert(vstd::utf8::valid_utf8(Seq::<u8>::empty()));
    assert(vstd::utf8::decode_utf8(Seq::<u8>::empty()) =~= Seq::<char>::empty());
    assert(crate::model::blank_field(Seq::<u8>::empty()));
}

/// The generalized baseline claim: from a pending record, pending field,
/// and flags down, a clean byte stretch runs to exactly the naive lines.
proof fn lemma_run_baseline(
    d: DialectModel,
    s: Seq<u8>,
    out0: Seq<Seq<Seq<u8>>>,
    rec0: Seq<Seq<u8>>,
    f0: Seq<u8>,
)
    requires
        clean_input(s, d),
        clean_field(f0, d),
        !is_term(d.delimiter),
    ensures
        ({
            let r = run_bytes(
                d,
                s,
                RunState { out: out0, rec: rec0, field: f0, in_quotes: false, escaped: false },
            );
            let (ls, t) = split_lines(s);
            let rb = if ls.len() > 0 {
                Seq::<Seq<u8>>::empty()
            } else {
                rec0
            };
            let fb = if ls.len() > 0 {
                Seq::<u8>::empty()
            } else {
                f0
            };
            let fs = split_fields(fb + t, d.delimiter);
            &&& r.out == out0 + recs_from(rec0, f0, ls, d.delimiter)
            &&& r.rec == rb + fs.drop_last()
            &&& r.field == fs.last()
            &&& !r.in_quotes
            &&& !r.escaped
        }),
    decreases s.len(),
{
    let st = RunState { out: out0, rec: rec0, field: f0, in_quotes: false, escaped: false };
    let r = run_bytes(d, s, st);
    let (ls, t) = split_lines(s);
    if s.len() == 0 {
        lemma_split_fields_single(f0, d);
        assert(f0 + t =~= f0);
        assert(r.out =~= out0 + recs_from(rec0, f0, ls, d.delimiter));
        assert(seq![f0].drop_last() =~= Seq::<Seq<u8>>::empty());
        assert(r.rec =~= rec0 + seq![f0].drop_last());
    } else {
        let b = s[0];
        assert(b != d.quote && b != d.escape);
        if b == d.delimiter && !is_term(b) {
            let st1 = RunState { rec: rec0.push(f0), field: seq![], ..st };
            assert(run_bytes(d, s, st) == run_bytes(d, s.skip(1), st1));
            assert(clean_input(s.skip(1), d)) by {
                assert(forall|i: int|
                    0 <= i < s.skip(1).len() ==> #[trigger] s.skip(1)[i] == s[i + 1]);
            }
            assert(clean_field(Seq::<u8>::empty(), d));
            lemma_run_baseline(d, s.skip(1), out0, rec0.push(f0), seq![]);
            let rr = split_lines(s.skip(1));
            if rr.0.len() > 0 {
                assert(ls == seq![seq![b] + rr.0[0]] + rr.0.skip(1));
                assert(t == rr.1);
                // the first record joins: delimiter splits the pending field off
                lemma_split_fields_delim(f0, rr.0[0], d);
                assert(f0 + ls[0] =~= f0 + seq![d.delimiter] + rr.0[0]);
                assert(Seq::<u8>::empty() + rr.0[0] =~= rr.0[0]);
                assert(rec_of(rec0, f0, ls[0], d.delimiter) =~= rec_of(
                    rec0.push(f0),
                    seq![],
                    rr.0[0],
                    d.delimiter,
                ));
                assert(ls.skip(1) =~= rr.0.skip(1));
                assert(recs_from(rec0, f0, ls, d.delimiter) == emit_of(
                    rec_of(rec0, f0, ls[0], d.delimiter),
                ) + recs_from(seq![], seq![], ls.skip(1), d.delimiter));
                assert(recs_from(rec0.push(f0), seq![], rr.0, d.delimiter) == emit_of(
                    rec_of(rec0.push(f0), seq![], rr.0[0], d.delimiter),
                ) + recs_from(seq![], seq![], rr.0.skip(1), d.delimiter));
                assert(r.out =~= out0 + recs_from(rec0, f0, ls, d.delimiter));
            } else {
                assert(ls == Seq::<Seq<u8>>::empty());
                assert(t == seq![b] + rr.1);
                lemma_split_fields_delim(f0, rr.1, d);
                let fsr = split_fields(Seq::<u8>::empty() + rr.1, d.delimiter);
                assert(Seq::<u8>::empty() + rr.1 =~= rr.1);
                assert(f0 + t =~= f0 + seq![d.delimiter] + rr.1);
                let fs = split_fields(f0 + t, d.delimiter);
                assert(fs == seq![f0] + split_fields(rr.1, d.delimiter));
                lemma_split_fields_nonempty(rr.1, d.delimiter);
                assert(fs.drop_last() =~= seq![f0] + fsr.drop_last());
                assert(fs.last() == fsr.last());
                assert(r.rec =~= rec0 + fs.drop_last());
                assert(r.out =~= out0 + recs_from(rec0, f0, ls, d.delimiter));
            }
        } else if is_term(b) {
            let st1 = terminator_step(st);
            assert(st1.in_quotes == false && st1.escaped == false);
            let rc = rec0.push(f0);
            // the terminator completes exactly the naive record of the
            // pending state and the empty line ending here
            lemma_split_fields_single(f0, d);
            assert(f0 + Seq::<u8>::empty() =~= f0);
            assert(rec_of(rec0, f0, seq![], d.delimiter) =~= rc);
            if f0.len() > 0 || rec0.len() > 0 {
                assert(st1.rec =~= Seq::<Seq<u8>>::empty());
                assert(st1.field =~= Seq::<u8>::empty());
                if record_blank(rc) {
                    assert(st1.out == out0);
                    assert(emit_of(rc) =~= Seq::<Seq<Seq<u8>>>::empty());
                } else {
                    assert(st1.out == out0.push(rc));
                }
            } else {
                assert(rc =~= seq![Seq::<u8>::empty()]);
                lemma_empty_field_blank();
                assert(record_blank(rc));
                assert(st1 == st);
                assert(st1.rec =~= Seq::<Seq<u8>>::empty());
                assert(st1.field =~= Seq::<u8>::empty());
                assert(emit_of(rc) =~= Seq::<Seq<Seq<u8>>>::empty());
            }
            let tail = if b == CR && s.len() > 1 && s[1] == LF {
                s.skip(2)
            } else {
                s.skip(1)
            };
            assert(run_bytes(d, s, st) == run_bytes(d, tail, st1));
            assert(clean_input(tail, d)) by {
                assert(forall|i: int| 0 <= i < tail.len() ==> tail[i] == s[i + s.len()
                    - tail.len()]);
            }
            let st1r = RunState {
                out: st1.out,
                rec: Seq::<Seq<u8>>::empty(),
                field: Seq::<u8>::empty(),
                in_quotes: false,
                escaped: false,
            };
            assert(st1 =~= st1r);
            lemma_run_baseline(d, tail, st1.out, Seq::<Seq<u8>>::empty(), Seq::<u8>::empty());
            let rr = split_lines(tail);
            assert(ls == seq![Seq::<u8>::empty()] + rr.0);
            assert(t == rr.1);
            assert(ls[0] =~= Seq::<u8>::empty());
            assert(ls.skip(1) =~= rr.0);
            assert(recs_from(rec0, f0, ls, d.delimiter) == emit_of(rc) + recs_from(
                seq![],
                seq![],
                rr.0,
                d.delimiter,
            ));
            assert(st1.out + recs_from(seq![], seq![], rr.0, d.delimiter) =~= out0 + (emit_of(rc)
                + recs_from(seq![], seq![], rr.0, d.delimiter)));
            assert(r.out =~= out0 + recs_from(rec0, f0, ls, d.delimiter));
            if rr.0.len() > 0 {
            } else {
                assert(Seq::<u8>::empty() + t =~= t);
            }
            assert(r.rec =~= Seq::<Seq<u8>>::empty() + split_fields(
                Seq::<u8>::empty() + t,
                d.delimiter,
            ).drop_last());
        } else {
            // a plain content byte joins the pending field
            let st1 = RunState { field: f0.push(b), ..st };
            assert(run_bytes(d, s, st) == run_bytes(d, s.skip(1), st1));
            assert(clean_input(s.skip(1), d)) by {
                assert(forall|i: int|
                    0 <= i < s.skip(1).len() ==> #[trigger] s.skip(1)[i] == s[i + 1]);
            }
            assert(clean_field(f0.push(b), d)) by {
                assert(forall|i: int|
                    0 <= i < f0.push(b).len() ==> #[trigger] f0.push(b)[i] == (if i < f0.len() {
                        f0[i]
                    } else {
                        b
                    }));
            }
            lemma_run_baseline(d, s.skip(1), out0, rec0, f0.push(b));
            let rr = split_lines(s.skip(1));
            if rr.0.len() > 0 {
                assert(ls == seq![seq![b] + rr.0[0]] + rr.0.skip(1));
                assert(t == rr.1);
                assert(f0.push(b) + rr.0[0] =~= f0 + ls[0]);
                assert(rec_of(rec0, f0, ls[0], d.delimiter) == rec_of(
                    rec0,
                    f0.push(b),
                    rr.0[0],
                    d.delimiter,
                ));
                assert(ls.skip(1) =~= rr.0.skip(1));
                assert(recs_from(rec0, f0, ls, d.delimiter) == emit_of(
                    rec_of(rec0, f0, ls[0], d.delimiter),
                ) + recs_from(seq![], seq![], ls.skip(1), d.delimiter));
                assert(r.out =~= out0 + recs_from(rec0, f0, ls, d.delimiter));
            } else {
                assert(ls == Seq::<Seq<u8>>::empty());
                assert(t == seq![b] + rr.1);
                assert(f0.push(b) + rr.1 =~= f0 + t);
                assert(r.out =~= out0 + recs_from(rec0, f0, ls, d.delimiter));
            }
        }
    }
}

/// On input holding no quote and no escape character, the parser is the
/// naive split: records split at terminators, fields split at delimiters,
/// blank records dropped, an empty trailing field at the end of input not
/// counted.
pub proof fn lemma_baseline_split(d: DialectModel, s: Seq<u8>)
    requires
        clean_input(s, d),
        !is_term(d.delimiter),
    ensures
        process_model(d, StateModel::initial(), s).0 == naive_records(s, d.delimiter),
{
    lemma_run_baseline(d, s, seq![], seq![], seq![]);
    let r = run_bytes(
        d,
        s,
        RunState {
            out: seq![],
            rec: seq![],
            field: seq![],
            in_quotes: false,
            escaped: false,
        },
    );
    let (ls, t) = split_lines(s);
    assert(Seq::<u8>::empty() + t =~= t);
    let fs0 = split_fields(t, d.delimiter);
    lemma_split_fields_nonempty(t, d.delimiter);
    assert(r.rec =~= fs0.drop_last());
    assert(r.field == fs0.last());
    assert(r.out =~= recs_from(seq![], seq![], ls, d.delimiter));
    if t.len() == 0 {
        lemma_split_fields_single(Seq::<u8>::empty(), d);
        assert(fs0 == seq![Seq::<u8>::empty()]);
        assert(r.field.len() == 0 && r.rec.len() == 0);
        assert(tail_records(t, d.delimiter) =~= Seq::<Seq<Seq<u8>>>::empty());
        assert(process_model(d, StateModel::initial(), s).0 =~= naive_records(s, d.delimiter));
    } else {
        // the tail is not empty, so something is pending
        assert(fs0.len() > 1 || fs0[0].len() > 0) by {
            if t[0] == d.delimiter {
                lemma_split_fields_nonempty(t.skip(1), d.delimiter);
            }
        }
        assert(r.field.len() > 0 || r.rec.len() > 0) by {
            if fs0.len() > 1 {
                assert(r.rec.len() == fs0.len() - 1 >= 1);
            } else {
                assert(fs0.last() == fs0[0]);
            }
        }
        let fs = if fs0.last().len() == 0 {
            fs0.drop_last()
        } else {
            fs0
        };
        if fs0.last().len() == 0 {
            assert(r.field.len() == 0);
            assert(fs =~= r.rec);
        } else {
            assert(r.rec.push(r.field) =~= fs);
        }
        if record_blank(fs) {
            assert(tail_records(t, d.delimiter) =~= Seq::<Seq<Seq<u8>>>::empty());
            assert(process_model(d, StateModel::initial(), s).0 =~= r.out);
            assert(r.out + tail_records(t, d.delimiter) =~= r.out);
        } else {
            assert(tail_records(t, d.delimiter) =~= seq![fs]);
            assert(process_model(d, StateModel::initial(), s).0 =~= r.out.push(fs));
            assert(r.out + tail_records(t, d.delimiter) =~= r.out.push(fs));
        }
        assert(process_model(d, StateModel::initial(), s).0 =~= naive_records(s, d.delimiter));
    }
}

/// One terminated line of clean bytes: dropped whole when every field is
/// blank, kept whole otherwise, fields in order with empty fields counted.
pub proof fn lemma_single_line(d: DialectModel, l: Seq<u8>)
    requires
        clean_input(l, d),
        forall|i: int| 0 <= i < l.len() ==> !is_term(#[trigger] l[i]),
        !is_term(d.delimiter),
        LF != d.quote && LF != d.escape,
    ensures
        process_model(d, StateModel::initial(), l + seq![LF]).0 == emit_of(
            split_fields(l, d.delimiter),
        ),
{
    let s = l + seq![LF];
    assert(clean_input(s, d)) by {
        assert(forall|i: int| 0 <= i < l.len() ==> s[i] == #[trigger] l[i]);
        assert(s[l.len() as int] == LF);
    }
    lemma_baseline_split(d, s);
    lemma_split_lines_single(l);
    let (ls, t) = split_lines(s);
    assert(ls == seq![l] && t =~= Seq::<u8>::empty());
    assert(ls[0] == l);
    assert(ls.skip(1) =~= Seq::<Seq<u8>>::empty());
    assert(Seq::<u8>::empty() + l =~= l);
    assert(rec_of(seq![], seq![], l, d.delimiter) =~= split_fields(l, d.delimiter));
    assert(recs_from(seq![], seq![], ls, d.delimiter) == emit_of(
        rec_of(seq![], seq![], ls[0], d.delimiter),
    ) + recs_from(seq![], seq![], ls.skip(1), d.delimiter));
    assert(recs_from(seq![], seq![], ls.skip(1), d.delimiter) =~= Seq::<Seq<Seq<u8>>>::empty());
    assert(emit_of(rec_of(seq![], seq![], l, d.delimiter)) == emit_of(
        split_fields(l, d.delimiter),
    ));
    assert(recs_from(seq![], seq![], ls, d.delimiter) =~= emit_of(split_fields(l, d.delimiter)));
    assert(naive_records(s, d.delimiter) =~= emit_of(split_fields(l, d.delimiter)));
}

/// A terminator-free line followed by one line feed splits as that line,
/// with nothing left over.
proof fn lemma_split_lines_single(l: Seq<u8>)
    requires
        forall|i: int| 0 <= i < l.len() ==> !is_term(#[trigger] l[i]),
    ensures
        split_lines(l + seq![LF]).0 == seq![l],
        split_lines(l + seq![LF]).1 == Seq::<u8>::empty(),
    decreases l.len(),
{
    let s = l + seq![LF];
    if l.len() == 0 {
        assert(l =~= Seq::<u8>::empty());
        assert(s =~= seq![LF]);
        assert(s[0] == LF);
        assert(s.skip(1) =~= Seq::<u8>::empty());
        assert(split_lines(s).0 == seq![seq![]] + split_lines(s.skip(1)).0);
        assert(split_lines(s.skip(1)).0 =~= Seq::<Seq<u8>>::empty());
        assert(split_lines(s).0 =~= seq![l]);
        assert(split_lines(s).1 =~= Seq::<u8>::empty());
    } else {
        assert(s[0] == l[0]);
        assert(!is_term(s[0]));
        assert(s.skip(1) =~= l.skip(1) + seq![LF]);
        assert(forall|i: int| 0 <= i < l.skip(1).len() ==> #[trigger] l.skip(1)[i] == l[i + 1]);
        lemma_split_lines_single(l.skip(1));
        let rr = split_lines(l.skip(1) + seq![LF]);
        assert(rr.0 == seq![l.skip(1)]);
        assert(rr.0.len() > 0);
        assert(seq![s[0]] + rr.0[0] =~= l);
        assert(rr.0.skip(1) =~= Seq::<Seq<u8>>::empty());
        assert(split_lines(s).0 =~= seq![l]);
        assert(split_lines(s).1 =~= Seq::<u8>::empty());
    }
}

} // verus!
