//! Driving the chunk processor over a whole byte source: the streaming
//! session that hands out result batches, and the full collector that
//! gathers every record into one table.

use vstd::prelude::*;

use crate::model::{
    batches_model, collect_model, decode_record, decode_records, out_ok, process_model,
    record_ok, StateModel,
};
use crate::parser::{
    lemma_bytes_deep_view, lemma_deep_view_index, lemma_deep_view_len, CsvError, Parser,
    ParserOptions, ParserState,
};

verus! {

/// One batch handed to a consumer: some records, and whether the session is
/// complete.  The completion batch is emitted exactly once and carries no
/// records.
#[derive(Debug)]
pub struct ParseResult {
    pub records: Vec<Vec<String>>,
    pub is_complete: bool,
}

/// The batch holds exactly the decoded records `m`, and is not the
/// completion signal.
pub open spec fn batch_matches(b: ParseResult, m: Seq<Seq<Seq<u8>>>) -> bool {
    b.records.deep_view() == decode_records(m) && !b.is_complete
}

/// The batches hold exactly the decoded records of the model's batches.
pub open spec fn batches_match(bs: Seq<ParseResult>, ms: Seq<Seq<Seq<Seq<u8>>>>) -> bool {
    bs.len() == ms.len() && (forall|i: int|
        0 <= i < ms.len() ==> batch_matches(bs[i], #[trigger] ms[i]))
}

/// One streaming run over one byte source: owns the tokenizer state and
/// remembers whether the header record is still owed.
pub struct StreamSession {
    pub parser: Parser,
    pub state: ParserState,
    pub headers_pending: bool,
}

impl StreamSession {
    /// Feed the next chunk and take the batches it yields: a header-only
    /// batch first if the header was still owed and a record arrived, then
    /// the remaining records, if any, as one batch.
    ///
    /// Fails exactly when the chunk processor fails; the session is then
    /// aborted and no further batches are owed.
    pub fn push_chunk(&mut self, chunk: &[u8]) -> (r: Result<Vec<ParseResult>, CsvError>)
        ensures
            ({
                let (out, st1) = process_model(
                    old(self).parser.dialect(),
                    old(self).state@,
                    chunk@,
                );
                &&& (r is Ok <==> out_ok(out))
                &&& (r matches Ok(batches) ==> {
                    &&& final(self).parser == old(self).parser
                    &&& final(self).state@ == st1
                    &&& final(self).headers_pending == (old(self).headers_pending && out.len()
                        == 0)
                    &&& batches_match(batches@, batches_model(out, old(self).headers_pending))
                })
                &&& (r matches Err(e) ==> e == CsvError::Encoding)
            }),
    {
        broadcast use lemma_bytes_deep_view, lemma_deep_view_len, lemma_deep_view_index;

        let ghost d = self.parser.dialect();
        let ghost out_spec = process_model(d, self.state@, chunk@).0;
        let r = self.parser.process_chunk(chunk, &mut self.state);
        match r {
            Err(e) => {
                proof {
                    assert(!out_ok(out_spec));
                }
                Err(e)
            },
            Ok(mut recs) => {
                let ghost recs_dv = recs.deep_view();
                proof {
                    assert(recs_dv == decode_records(out_spec));
                    assert(recs_dv.len() == out_spec.len());
                    assert(recs@.len() == recs_dv.len());
                    assert(forall|k: int|
                        0 <= k < out_spec.len() ==> recs_dv[k] == decode_record(
                            #[trigger] out_spec[k],
                        ));
                }
                let mut batches: Vec<ParseResult> = Vec::new();
                if self.headers_pending && recs.len() > 0 {
                    let ghost recs0 = recs@;
                    let header = recs.remove(0);
                    let ghost header_dv = header.deep_view();
                    let mut hv: Vec<Vec<String>> = Vec::new();
                    hv.push(header);
                    let ghost hv_dv = hv.deep_view();
                    proof {
                        assert(header_dv == recs_dv[0]);
                        assert(hv_dv =~= seq![header_dv]);
                        assert(hv_dv =~= decode_records(seq![out_spec[0]]));
                    }
                    batches.push(ParseResult { records: hv, is_complete: false });
                    self.headers_pending = false;
                    if recs.len() > 0 {
                        let ghost rest_dv = recs.deep_view();
                        proof {
                            assert(recs@ =~= recs0.skip(1));
                            assert forall|k: int| 0 <= k < recs@.len() implies rest_dv[k]
                                == decode_records(out_spec.skip(1))[k] by {
                                assert(recs@[k] == recs0[k + 1]);
                                assert(recs_dv[k + 1] == decode_record(out_spec[k + 1]));
                            }
                            assert(rest_dv =~= decode_records(out_spec.skip(1)));
                        }
                        batches.push(ParseResult { records: recs, is_complete: false });
                        proof {
                            assert(batches@.len() == 2);
                            assert(batches_match(
                                batches@,
                                batches_model(out_spec, old(self).headers_pending),
                            ));
                        }
                    } else {
                        proof {
                            assert(out_spec.len() == 1);
                            assert(batches_match(
                                batches@,
                                batches_model(out_spec, old(self).headers_pending),
                            ));
                        }
                    }
                } else if recs.len() > 0 {
                    batches.push(ParseResult { records: recs, is_complete: false });
                    proof {
                        assert(batches_match(
                            batches@,
                            batches_model(out_spec, old(self).headers_pending),
                        ));
                    }
                }
                Ok(batches)
            },
        }
    }

    /// The terminal batch: no records, completion signalled.  Emitted once,
    /// when the byte source is exhausted; consuming the session ends it.
    pub fn finish(self) -> (r: ParseResult)
        ensures
            r.records@.len() == 0,
            r.is_complete,
    {
        ParseResult { records: Vec::new(), is_complete: true }
    }
}

/// A parser instance: an immutable dialect shared by every session and by
/// the full collector.
pub struct CsvParser {
    pub inner: Parser,
}

impl CsvParser {
    /// Build a parser, defaulting every absent option.
    pub fn new(options: Option<ParserOptions>) -> (p: CsvParser)
        ensures
            options matches Some(o) ==> p.inner.delimiter == o.delimiter.unwrap_or(
                crate::parser::DEFAULT_DELIMITER,
            ) && p.inner.quote == o.quote.unwrap_or(crate::parser::DEFAULT_QUOTE)
                && p.inner.escape == o.escape.unwrap_or(crate::parser::DEFAULT_ESCAPE)
                && p.inner.has_headers == o.has_headers.unwrap_or(true) && p.inner.chunk_size
                == o.chunk_size.unwrap_or(1048576) as usize && p.inner.buffer_capacity
                == o.buffer_capacity.unwrap_or(8192) as usize,
            options is None ==> p.inner.delimiter == crate::parser::DEFAULT_DELIMITER
                && p.inner.quote == crate::parser::DEFAULT_QUOTE && p.inner.escape
                == crate::parser::DEFAULT_ESCAPE && p.inner.has_headers == true
                && p.inner.chunk_size == 1048576 && p.inner.buffer_capacity == 8192,
    {
        let options = match options {
            Some(o) => o,
            None => ParserOptions {
                delimiter: None,
                quote: None,
                escape: None,
                has_headers: None,
                chunk_size: None,
                buffer_capacity: None,
            },
        };
        CsvParser { inner: Parser::new(&options) }
    }

    /// Begin a streaming session: fresh state, header still owed when the
    /// dialect asks for headers.
    pub fn start_session(&self) -> (s: StreamSession)
        ensures
            s.parser == self.inner,
            s.state@ == StateModel::initial(),
            s.headers_pending == self.inner.has_headers,
    {
        StreamSession {
            parser: self.inner,
            state: ParserState::new(),
            headers_pending: self.inner.has_headers,
        }
    }

    /// Run a whole sequence of chunks and gather every record, header row
    /// included, into one table in input order.
    ///
    /// Fails exactly when some emitted record holds a field that is not
    /// valid UTF-8.
    pub fn parse_chunks(&self, chunks: &Vec<Vec<u8>>) -> (r: Result<Vec<Vec<String>>, CsvError>)
        ensures
            ({
                let (out, st) = collect_model(
                    self.inner.dialect(),
                    StateModel::initial(),
                    chunks.deep_view(),
                );
                &&& (r is Ok <==> out_ok(out))
                &&& (r matches Ok(table) ==> table.deep_view() == decode_records(out))
                &&& (r matches Err(e) ==> e == CsvError::Encoding)
            }),
    {
        broadcast use lemma_bytes_deep_view, lemma_deep_view_len, lemma_deep_view_index;

        let ghost d = self.inner.dialect();
        let ghost cdv = chunks.deep_view();
        let ghost tout = collect_model(d, StateModel::initial(), cdv).0;
        let ghost tst = collect_model(d, StateModel::initial(), cdv).1;
        let mut state = ParserState::new();
        let mut all_records: Vec<Vec<String>> = Vec::new();
        let mut is_first_chunk = true;
        let ghost mut acc: Seq<Seq<Seq<u8>>> = seq![];
        let mut k: usize = 0;
        proof {
            assert(cdv.skip(0) =~= cdv);
            assert(acc + collect_model(d, state@, cdv).0 =~= collect_model(d, state@, cdv).0);
        }
        while k < chunks.len()
            invariant
                k <= chunks@.len(),
                d == self.inner.dialect(),
                cdv == chunks.deep_view(),
                tout == collect_model(d, StateModel::initial(), cdv).0,
                tst == collect_model(d, StateModel::initial(), cdv).1,
                tout == acc + collect_model(d, state@, cdv.skip(k as int)).0,
                tst == collect_model(d, state@, cdv.skip(k as int)).1,
                out_ok(acc),
                all_records@.len() == acc.len(),
                forall|j: int|
                    0 <= j < acc.len() ==> all_records.deep_view()[j] == decode_record(
                        #[trigger] acc[j],
                    ),
            decreases chunks@.len() - k,
        {
            broadcast use lemma_bytes_deep_view, lemma_deep_view_len, lemma_deep_view_index;

            let ghost pre_st = state@;
            let ghost srem = cdv.skip(k as int);
            let ghost out_k = process_model(d, pre_st, cdv[k as int]).0;
            let ghost st_k1 = process_model(d, pre_st, cdv[k as int]).1;
            proof {
                assert(srem[0] == cdv[k as int]);
                assert(srem.skip(1) =~= cdv.skip(k as int + 1));
                assert(collect_model(d, pre_st, srem).0 == out_k + collect_model(
                    d,
                    st_k1,
                    srem.skip(1),
                ).0);
            }
            let chunk_k: &Vec<u8> = &chunks[k];
            proof {
                assert(chunk_k@ == cdv[k as int]);
            }
            let mut recs = match self.inner.process_chunk(chunk_k.as_slice(), &mut state) {
                Err(e) => {
                    proof {
                        let j = choose|j: int|
                            0 <= j < out_k.len() && !record_ok(#[trigger] out_k[j]);
                        assert(tout[acc.len() + j] == out_k[j]);
                        assert(!out_ok(tout));
                    }
                    return Err(e);
                },
                Ok(v) => v,
            };
            let ghost recs0 = recs@;
            let ghost recs_dv = recs.deep_view();
            let ghost all0 = all_records@;
            proof {
                assert(recs_dv == decode_records(out_k));
                assert(recs_dv.len() == out_k.len());
                assert(recs0.len() == recs_dv.len());
                assert(forall|j: int|
                    0 <= j < out_k.len() ==> recs_dv[j] == decode_record(#[trigger] out_k[j]));
            }
            if is_first_chunk && self.inner.has_headers && recs.len() > 0 {
                let header = recs.remove(0);
                all_records.push(header);
                is_first_chunk = false;
            }
            all_records.append(&mut recs);
            proof {
                assert(all_records@ =~= all0 + recs0);
                acc = acc + out_k;
                assert forall|j: int| 0 <= j < acc.len() implies all_records.deep_view()[j]
                    == decode_record(#[trigger] acc[j]) by {
                    if j < all0.len() {
                        assert(all_records@[j] == all0[j]);
                    } else {
                        assert(all_records@[j] == recs0[j - all0.len()]);
                        assert(recs_dv[j - all0.len()] == decode_record(out_k[j - all0.len()]));
                        assert(acc[j] == out_k[j - all0.len()]);
                    }
                }
            }
            k += 1;
        }
        proof {
            assert(cdv.skip(k as int) =~= Seq::<Seq<u8>>::empty());
            assert(tout =~= acc);
            assert(all_records.deep_view() =~= decode_records(tout));
        }
        Ok(all_records)
    }
}

} // verus!
