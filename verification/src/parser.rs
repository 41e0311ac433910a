//! The dialect configuration, the persisted parser state, and the chunk
//! processor: the per-byte state machine that turns byte chunks into records.

use vstd::prelude::*;
use vstd::slice::slice_index_get;
use vstd::string::StrSliceExecFns;
use vstd::utf8::{decode_utf8, valid_utf8};

use crate::model::{
    all_white, blank_field, decode_record, decode_records, process_model,
    record_blank, record_blank_chars, record_ok, run_bytes, start_run, terminator_step, out_ok,
    DialectModel, RunState, StateModel, CR, LF,
};
use crate::trusted::{bytes_to_string, char_is_white, is_white};

verus! {

/// The default delimiter, a comma.
pub const DEFAULT_DELIMITER: u8 = 44;

/// The default quote character, a double quote.
pub const DEFAULT_QUOTE: u8 = 34;

/// The default escape character, a backslash.
pub const DEFAULT_ESCAPE: u8 = 92;

/// Why a parsing session ended early.
#[derive(Clone, Copy, Debug, PartialEq, Eq, Structural)]
pub enum CsvError {
    /// The byte source could not be opened.
    SourceOpen,
    /// The byte source failed while being read.
    SourceRead,
    /// An emitted field's accumulated bytes are not valid UTF-8.
    Encoding,
}

/// Construction parameters; every member defaults when absent.
#[derive(Clone, Copy, Debug)]
pub struct ParserOptions {
    pub delimiter: Option<u8>,
    pub quote: Option<u8>,
    pub escape: Option<u8>,
    pub has_headers: Option<bool>,
    pub chunk_size: Option<u32>,
    pub buffer_capacity: Option<u32>,
}

/// The immutable dialect one parser instance works with.
#[derive(Clone, Copy, Debug)]
pub struct Parser {
    pub delimiter: u8,
    pub quote: u8,
    pub escape: u8,
    pub has_headers: bool,
    pub chunk_size: usize,
    pub buffer_capacity: usize,
}

/// The tokenizer state persisted across chunk boundaries.
pub struct ParserState {
    pub current_record: Vec<Vec<u8>>,
    pub in_quotes: bool,
    pub escaped: bool,
}

impl View for ParserState {
    type V = StateModel;

    open spec fn view(&self) -> StateModel {
        StateModel {
            rec: self.current_record.deep_view(),
            in_quotes: self.in_quotes,
            escaped: self.escaped,
        }
    }
}

impl ParserState {
    /// A fresh state, as at the start of a session.
    pub fn new() -> (st: ParserState)
        ensures
            st@ == StateModel::initial(),
    {
        let st = ParserState { current_record: Vec::new(), in_quotes: false, escaped: false };
        proof {
            assert(st.current_record.deep_view() =~= Seq::<Seq<u8>>::empty());
        }
        st
    }
}

/// A `Vec<u8>`'s deep view is its view.
pub broadcast proof fn lemma_bytes_deep_view(v: Vec<u8>)
    ensures
        #[trigger] v.deep_view() == v@,
{
    assert(v.deep_view() =~= v@);
}

/// A vector's deep view has one entry per element.
pub broadcast proof fn lemma_deep_view_len<T: DeepView>(v: Vec<T>)
    ensures
        #[trigger] v.deep_view().len() == v@.len(),
{
}

/// A vector's deep view is the element-wise deep view.
pub broadcast proof fn lemma_deep_view_index<T: DeepView>(v: Vec<T>, j: int)
    requires
        0 <= j < v@.len(),
    ensures
        #[trigger] v.deep_view()[j] == v@[j].deep_view(),
{
}

/// A record with a field that is not valid UTF-8 is not blank.
proof fn lemma_invalid_not_blank(r: Seq<Seq<u8>>, j: int)
    requires
        0 <= j < r.len(),
        !valid_utf8(r[j]),
    ensures
        !record_blank(r),
{
    assert(!blank_field(r[j]));
}

/// For a record whose fields all decode, blankness of the raw bytes and of
/// the decoded strings agree.
proof fn lemma_blank_decoded(rb: Seq<Seq<u8>>, rs: Seq<Seq<char>>)
    requires
        record_ok(rb),
        rs == decode_record(rb),
    ensures
        record_blank(rb) == record_blank_chars(rs),
{
    assert(rs.len() == rb.len());
    assert forall|i: int| 0 <= i < rb.len() implies (blank_field(#[trigger] rb[i]) <==> all_white(
        rs[i],
    )) by {
        assert(rs[i] == decode_utf8(rb[i]));
        assert(valid_utf8(rb[i]));
    }
}

/// Whatever bytes remain to be scanned, the records already emitted stay in
/// place: `run_bytes` only appends to `out`.
proof fn lemma_run_out_prefix(d: DialectModel, s: Seq<u8>, st: RunState)
    ensures
        run_bytes(d, s, st).out.len() >= st.out.len(),
        forall|k: int|
            0 <= k < st.out.len() ==> run_bytes(d, s, st).out[k] == #[trigger] st.out[k],
    decreases s.len(),
{
    if s.len() == 0 {
    } else {
        let b = s[0];
        if st.escaped {
            lemma_run_out_prefix(d, s.skip(1), RunState { field: st.field.push(b), escaped: false, ..st });
        } else if b == d.escape {
            lemma_run_out_prefix(d, s.skip(1), RunState { escaped: true, ..st });
        } else if b == d.quote {
            lemma_run_out_prefix(d, s.skip(1), RunState { in_quotes: !st.in_quotes, ..st });
        } else if b == d.delimiter && !st.in_quotes {
            lemma_run_out_prefix(
                d,
                s.skip(1),
                RunState { rec: st.rec.push(st.field), field: seq![], ..st },
            );
        } else if (b == LF || b == CR) && !st.in_quotes {
            let st1 = terminator_step(st);
            if b == CR && s.len() > 1 && s[1] == LF {
                lemma_run_out_prefix(d, s.skip(2), st1);
            } else {
                lemma_run_out_prefix(d, s.skip(1), st1);
            }
            assert forall|k: int| 0 <= k < st.out.len() implies run_bytes(d, s, st).out[k]
                == #[trigger] st.out[k] by {
                assert(st1.out[k] == st.out[k]);
            }
        } else {
            lemma_run_out_prefix(d, s.skip(1), RunState { field: st.field.push(b), ..st });
        }
    }
}

/// All characters of the string are whitespace.
fn string_all_white(s: &String) -> (r: bool)
    ensures
        r == all_white(s@),
{
    let n = s.as_str().unicode_len();
    let mut k: usize = 0;
    while k < n
        invariant
            n == s@.len(),
            k <= n,
            forall|j: int| 0 <= j < k ==> is_white(#[trigger] s@[j]),
        decreases n - k,
    {
        let c = s.as_str().get_char(k);
        if !char_is_white(c) {
            proof {
                assert(!is_white(s@[k as int]));
            }
            return false;
        }
        k += 1;
    }
    true
}

/// Whether every field of the record trims to the empty string: such a
/// record is dropped instead of being emitted.
pub fn is_record_empty(record: &Vec<String>) -> (r: bool)
    ensures
        r == record_blank_chars(record.deep_view()),
{
    let mut i: usize = 0;
    while i < record.len()
        invariant
            i <= record@.len(),
            forall|j: int| 0 <= j < i ==> all_white(#[trigger] record.deep_view()[j]),
        decreases record@.len() - i,
    {
        if !string_all_white(&record[i]) {
            proof {
                assert(!all_white(record.deep_view()[i as int]));
            }
            return false;
        }
        i += 1;
    }
    true
}

/// Decode every field of a completed record, or report that one of them is
/// not valid UTF-8.
fn decode_fields(rec: &Vec<Vec<u8>>) -> (r: Option<Vec<String>>)
    ensures
        r is Some <==> record_ok(rec.deep_view()),
        r matches Some(strs) ==> strs.deep_view() == decode_record(rec.deep_view()),
{
    broadcast use lemma_bytes_deep_view, lemma_deep_view_len, lemma_deep_view_index;

    let mut strs: Vec<String> = Vec::new();
    let mut i: usize = 0;
    while i < rec.len()
        invariant
            i <= rec@.len(),
            strs@.len() == i,
            forall|j: int| 0 <= j < i ==> valid_utf8(#[trigger] rec.deep_view()[j]),
            forall|j: int|
                0 <= j < i ==> strs.deep_view()[j] == decode_utf8(#[trigger] rec.deep_view()[j]),
        decreases rec@.len() - i,
    {
        let fi: &Vec<u8> = &rec[i];
        proof {
            assert(rec.deep_view()[i as int] == rec@[i as int].deep_view());
            assert(rec@[i as int].deep_view() == rec@[i as int]@);
            assert(fi@ == rec.deep_view()[i as int]);
        }
        match bytes_to_string(fi) {
            None => {
                proof {
                    assert(!valid_utf8(rec.deep_view()[i as int]));
                }
                return None;
            },
            Some(s) => {
                strs.push(s);
            },
        }
        i += 1;
    }
    proof {
        assert(strs.deep_view() =~= decode_record(rec.deep_view()));
    }
    Some(strs)
}

impl Parser {
    /// The dialect bytes the model works with.
    pub open spec fn dialect(self) -> DialectModel {
        DialectModel { delimiter: self.delimiter, quote: self.quote, escape: self.escape }
    }

    /// Build a dialect from options, defaulting every absent member:
    /// `,` / `"` / `\`, headers on, 1 MiB chunks, 8 KiB buffer.
    pub fn new(options: &ParserOptions) -> (p: Parser)
        ensures
            p.delimiter == options.delimiter.unwrap_or(DEFAULT_DELIMITER),
            p.quote == options.quote.unwrap_or(DEFAULT_QUOTE),
            p.escape == options.escape.unwrap_or(DEFAULT_ESCAPE),
            p.has_headers == options.has_headers.unwrap_or(true),
            p.chunk_size == options.chunk_size.unwrap_or(1048576) as usize,
            p.buffer_capacity == options.buffer_capacity.unwrap_or(8192) as usize,
    {
        Parser {
            delimiter: options.delimiter.unwrap_or(DEFAULT_DELIMITER),
            quote: options.quote.unwrap_or(DEFAULT_QUOTE),
            escape: options.escape.unwrap_or(DEFAULT_ESCAPE),
            has_headers: options.has_headers.unwrap_or(true),
            chunk_size: options.chunk_size.unwrap_or(1048576) as usize,
            buffer_capacity: options.buffer_capacity.unwrap_or(8192) as usize,
        }
    }

    /// Scan one chunk of bytes, carrying `state` across calls.
    ///
    /// On success the returned records are exactly what the model emits for
    /// this chunk, decoded, and the state is the model's next state.  The
    /// call fails exactly when some emitted record holds a field that is not
    /// valid UTF-8; the state is then unspecified and the session should be
    /// treated as aborted.
    pub fn process_chunk(&self, chunk: &[u8], state: &mut ParserState) -> (r: Result<
        Vec<Vec<String>>,
        CsvError,
    >)
        ensures
            ({
                let (out, st2) = process_model(self.dialect(), old(state)@, chunk@);
                &&& (r is Ok <==> out_ok(out))
                &&& (r matches Ok(recs) ==> recs.deep_view() == decode_records(out)
                    && final(state)@ == st2)
                &&& (r matches Err(e) ==> e == CsvError::Encoding)
            }),
    {
        broadcast use lemma_bytes_deep_view, lemma_deep_view_len, lemma_deep_view_index;

        let ghost d = self.dialect();
        let ghost st0 = old(state)@;
        let ghost total = run_bytes(d, chunk@, start_run(st0));
        let mut records: Vec<Vec<String>> = Vec::new();
        let mut field: Vec<u8> = Vec::new();
        let ghost mut out_b: Seq<Seq<Seq<u8>>> = seq![];
        let mut i: usize = 0;
        proof {
            assert(chunk@.skip(0) =~= chunk@);
            assert(field@ =~= Seq::<u8>::empty());
        }
        while i < chunk.len()
            invariant
                i <= chunk@.len(),
                d == self.dialect(),
                st0 == old(state)@,
                total == run_bytes(d, chunk@, start_run(st0)),
                run_bytes(
                    d,
                    chunk@.skip(i as int),
                    RunState {
                        out: out_b,
                        rec: state.current_record.deep_view(),
                        field: field@,
                        in_quotes: state.in_quotes,
                        escaped: state.escaped,
                    },
                ) == total,
                out_ok(out_b),
                records@.len() == out_b.len(),
                forall|k: int|
                    0 <= k < out_b.len() ==> records.deep_view()[k] == decode_record(
                        #[trigger] out_b[k],
                    ),
            decreases chunk@.len() - i,
        {
            broadcast use lemma_bytes_deep_view, lemma_deep_view_len, lemma_deep_view_index;

            let ghost pre = RunState {
                out: out_b,
                rec: state.current_record.deep_view(),
                field: field@,
                in_quotes: state.in_quotes,
                escaped: state.escaped,
            };
            let ghost srem = chunk@.skip(i as int);
            proof {
                assert(srem[0] == chunk@[i as int]);
                assert(srem.skip(1) =~= chunk@.skip(i as int + 1));
            }
            let byte = *slice_index_get(chunk, i);
            if state.escaped {
                field.push(byte);
                state.escaped = false;
                i += 1;
            } else if byte == self.escape {
                state.escaped = true;
                i += 1;
            } else if byte == self.quote {
                state.in_quotes = !state.in_quotes;
                i += 1;
            } else if byte == self.delimiter && !state.in_quotes {
                let f = field;
                field = Vec::new();
                state.current_record.push(f);
                proof {
                    assert(state.current_record.deep_view() =~= pre.rec.push(pre.field));
                    assert(field@ =~= Seq::<u8>::empty());
                }
                i += 1;
            } else if (byte == LF || byte == CR) && !state.in_quotes {
                let ghost st1 = terminator_step(pre);
                if field.len() > 0 || state.current_record.len() > 0 {
                    let f = field;
                    field = Vec::new();
                    state.current_record.push(f);
                    let ghost rec1 = pre.rec.push(pre.field);
                    proof {
                        assert(state.current_record.deep_view() =~= rec1);
                        assert(field@ =~= Seq::<u8>::empty());
                    }
                    match decode_fields(&state.current_record) {
                        None => {
                            proof {
                                assert(!record_ok(rec1));
                                let j = choose|j: int|
                                    0 <= j < rec1.len() && !valid_utf8(#[trigger] rec1[j]);
                                lemma_invalid_not_blank(rec1, j);
                                assert(st1.out == pre.out.push(rec1));
                                let srem2 = if byte == CR && srem.len() > 1 && srem[1] == LF {
                                    srem.skip(2)
                                } else {
                                    srem.skip(1)
                                };
                                assert(run_bytes(d, srem, pre) == run_bytes(d, srem2, st1));
                                lemma_run_out_prefix(d, srem2, st1);
                                assert(total.out[pre.out.len() as int] == st1.out[pre.out.len() as int]);
                                assert(total.out[pre.out.len() as int] == rec1);
                                let (out, st2) = process_model(d, st0, chunk@);
                                assert(out.len() >= total.out.len());
                                assert(out[pre.out.len() as int] == rec1);
                                assert(!record_ok(out[pre.out.len() as int]));
                                assert(!out_ok(out));
                            }
                            return Err(CsvError::Encoding);
                        },
                        Some(strs) => {
                            let ghost strs_dv = strs.deep_view();
                            proof {
                                lemma_blank_decoded(rec1, strs_dv);
                            }
                            let blank = is_record_empty(&strs);
                            if !blank {
                                let ghost out_b0 = out_b;
                                records.push(strs);
                                state.current_record = Vec::new();
                                proof {
                                    out_b = out_b.push(rec1);
                                    assert(state.current_record.deep_view() =~= Seq::<
                                        Seq<u8>,
                                    >::empty());
                                    assert forall|k: int|
                                        0 <= k < out_b.len() implies records.deep_view()[k]
                                        == decode_record(#[trigger] out_b[k]) by {
                                        if k == out_b.len() - 1 {
                                            assert(records@[k].deep_view() == strs_dv);
                                        } else {
                                            assert(out_b[k] == out_b0[k]);
                                        }
                                    }
                                }
                            } else {
                                state.current_record = Vec::new();
                                proof {
                                    assert(state.current_record.deep_view() =~= Seq::<
                                        Seq<u8>,
                                    >::empty());
                                }
                            }
                        },
                    }
                }
                if byte == CR && i + 1 < chunk.len() && *slice_index_get(chunk, i + 1) == LF {
                    proof {
                        assert(srem.skip(2) =~= chunk@.skip(i as int + 2));
                        assert(srem.len() > 1 && srem[1] == LF);
                    }
                    i += 2;
                } else {
                    i += 1;
                }
            } else {
                field.push(byte);
                i += 1;
            }
        }
        proof {
            assert(chunk@.skip(i as int) =~= Seq::<u8>::empty());
        }
        let ghost rfin = RunState {
            out: out_b,
            rec: state.current_record.deep_view(),
            field: field@,
            in_quotes: state.in_quotes,
            escaped: state.escaped,
        };
        proof {
            assert(total == rfin);
        }
        if field.len() > 0 || state.current_record.len() > 0 {
            let pushed_field = field.len() > 0;
            if pushed_field {
                let f = field;
                state.current_record.push(f);
            }
            let ghost rec1 = if pushed_field {
                rfin.rec.push(rfin.field)
            } else {
                rfin.rec
            };
            proof {
                assert(state.current_record.deep_view() =~= rec1);
            }
            match decode_fields(&state.current_record) {
                None => {
                    proof {
                        let j = choose|j: int|
                            0 <= j < rec1.len() && !valid_utf8(#[trigger] rec1[j]);
                        lemma_invalid_not_blank(rec1, j);
                        let (out, st2) = process_model(d, st0, chunk@);
                        assert(out[out_b.len() as int] == rec1);
                        assert(!out_ok(out));
                    }
                    return Err(CsvError::Encoding);
                },
                Some(strs) => {
                    let ghost strs_dv = strs.deep_view();
                    proof {
                        lemma_blank_decoded(rec1, strs_dv);
                    }
                    let blank = is_record_empty(&strs);
                    if !blank {
                        let ghost out_b0 = out_b;
                        records.push(strs);
                        state.current_record = Vec::new();
                        proof {
                            out_b = out_b.push(rec1);
                            assert(state.current_record.deep_view() =~= Seq::<Seq<u8>>::empty());
                            assert forall|k: int|
                                0 <= k < out_b.len() implies records.deep_view()[k]
                                == decode_record(#[trigger] out_b[k]) by {
                                if k == out_b.len() - 1 {
                                    assert(records@[k].deep_view() == strs_dv);
                                } else {
                                    assert(out_b[k] == out_b0[k]);
                                }
                            }
                        }
                    }
                },
            }
        }
        proof {
            let (out, st2) = process_model(d, st0, chunk@);
            assert(out == out_b);
            assert(records.deep_view() =~= decode_records(out_b));
            assert(state@ =~= st2);
        }
        Ok(records)
    }
}

} // verus!
