//! Mathematical model of the tokenizer: a pure transition system over byte
//! sequences.  Every executable contract is stated against these functions.
//!
//! Field contents are modelled as raw byte sequences; a field becomes a
//! character sequence (`decode_utf8`) only when a record is emitted.

use vstd::prelude::*;
use vstd::utf8::{decode_utf8, valid_utf8};

use crate::trusted::is_white;

verus! {

/// Line-feed byte, a record terminator outside quotes.
pub const LF: u8 = 10;

/// Carriage-return byte, a record terminator outside quotes; a following
/// line feed is consumed together with it.
pub const CR: u8 = 13;

/// The three control bytes of a dialect, as the model sees them.
pub ghost struct DialectModel {
    pub delimiter: u8,
    pub quote: u8,
    pub escape: u8,
}

/// The tokenizer state that persists between chunks: the completed fields of
/// the record under construction, and the quote / escape flags.
#[verifier::ext_equal]
pub ghost struct StateModel {
    pub rec: Seq<Seq<u8>>,
    pub in_quotes: bool,
    pub escaped: bool,
}

impl StateModel {
    /// The state at the start of a session: nothing pending.
    pub open spec fn initial() -> StateModel {
        StateModel { rec: seq![], in_quotes: false, escaped: false }
    }
}

/// The full state while scanning one chunk: emitted records, pending record,
/// pending field bytes, and the two flags.
#[verifier::ext_equal]
pub ghost struct RunState {
    pub out: Seq<Seq<Seq<u8>>>,
    pub rec: Seq<Seq<u8>>,
    pub field: Seq<u8>,
    pub in_quotes: bool,
    pub escaped: bool,
}

/// All characters of `cs` are whitespace.
pub open spec fn all_white(cs: Seq<char>) -> bool {
    forall|i: int| 0 <= i < cs.len() ==> is_white(#[trigger] cs[i])
}

/// A field is blank when it decodes as UTF-8 and every character is
/// whitespace (it trims to the empty string).
pub open spec fn blank_field(f: Seq<u8>) -> bool {
    valid_utf8(f) && all_white(decode_utf8(f))
}

/// A record is blank when every field is blank.  Blank records are dropped.
pub open spec fn record_blank(r: Seq<Seq<u8>>) -> bool {
    forall|i: int| 0 <= i < r.len() ==> blank_field(#[trigger] r[i])
}

/// Blankness of a record already decoded to characters.
pub open spec fn record_blank_chars(rs: Seq<Seq<char>>) -> bool {
    forall|i: int| 0 <= i < rs.len() ==> all_white(#[trigger] rs[i])
}

/// Every field of the record decodes as UTF-8.
pub open spec fn record_ok(r: Seq<Seq<u8>>) -> bool {
    forall|j: int| 0 <= j < r.len() ==> valid_utf8(#[trigger] r[j])
}

/// Every field of every record decodes as UTF-8: the condition under which
/// chunk processing succeeds.
pub open spec fn out_ok(out: Seq<Seq<Seq<u8>>>) -> bool {
    forall|i: int| 0 <= i < out.len() ==> record_ok(#[trigger] out[i])
}

/// The character contents of one record's fields.
pub open spec fn decode_record(r: Seq<Seq<u8>>) -> Seq<Seq<char>> {
    r.map_values(|f: Seq<u8>| decode_utf8(f))
}

/// The character contents of a sequence of records.
pub open spec fn decode_records(out: Seq<Seq<Seq<u8>>>) -> Seq<Seq<Seq<char>>> {
    out.map_values(|r: Seq<Seq<u8>>| decode_record(r))
}

/// What a record terminator does: if a field or the record is pending, the
/// field (empty or not) joins the record, which is then emitted unless blank;
/// either way the pending state is cleared.
pub open spec fn terminator_step(st: RunState) -> RunState {
    if st.field.len() > 0 || st.rec.len() > 0 {
        let rec1 = st.rec.push(st.field);
        if record_blank(rec1) {
            RunState { rec: seq![], field: seq![], ..st }
        } else {
            RunState { out: st.out.push(rec1), rec: seq![], field: seq![], ..st }
        }
    } else {
        st
    }
}

/// The per-byte transition system over the remaining bytes of a chunk.
/// Priority order: a byte after an escape is literal; then the escape
/// character arms the flag; then a quote toggles the quote flag; then a
/// delimiter outside quotes completes the field; then a terminator outside
/// quotes completes the record (a line feed right after a carriage return is
/// consumed with it); any other byte is field content.
pub open spec fn run_bytes(d: DialectModel, s: Seq<u8>, st: RunState) -> RunState
    decreases s.len(),
{
    if s.len() == 0 {
        st
    } else {
        let b = s[0];
        if st.escaped {
            run_bytes(d, s.skip(1), RunState { field: st.field.push(b), escaped: false, ..st })
        } else if b == d.escape {
            run_bytes(d, s.skip(1), RunState { escaped: true, ..st })
        } else if b == d.quote {
            run_bytes(d, s.skip(1), RunState { in_quotes: !st.in_quotes, ..st })
        } else if b == d.delimiter && !st.in_quotes {
            run_bytes(d, s.skip(1), RunState { rec: st.rec.push(st.field), field: seq![], ..st })
        } else if (b == LF || b == CR) && !st.in_quotes {
            let st1 = terminator_step(st);
            if b == CR && s.len() > 1 && s[1] == LF {
                run_bytes(d, s.skip(2), st1)
            } else {
                run_bytes(d, s.skip(1), st1)
            }
        } else {
            run_bytes(d, s.skip(1), RunState { field: st.field.push(b), ..st })
        }
    }
}

/// The flush at the end of a chunk: any pending bytes are treated as a record
/// boundary.  A pending field joins the record (an empty one does not); a
/// non-blank record is emitted, a blank one stays pending.
pub open spec fn chunk_finish(st: RunState) -> (Seq<Seq<Seq<u8>>>, Seq<Seq<u8>>) {
    if st.field.len() > 0 || st.rec.len() > 0 {
        let rec1 = if st.field.len() > 0 {
            st.rec.push(st.field)
        } else {
            st.rec
        };
        if record_blank(rec1) {
            (st.out, rec1)
        } else {
            (st.out.push(rec1), seq![])
        }
    } else {
        (st.out, st.rec)
    }
}

/// The scanning state at the start of a chunk, from the persisted state.
pub open spec fn start_run(st: StateModel) -> RunState {
    RunState {
        out: seq![],
        rec: st.rec,
        field: seq![],
        in_quotes: st.in_quotes,
        escaped: st.escaped,
    }
}

/// One whole chunk: scan every byte, then flush.  Returns the records the
/// chunk emits and the state handed to the next chunk.
pub open spec fn process_model(d: DialectModel, st: StateModel, chunk: Seq<u8>) -> (
    Seq<Seq<Seq<u8>>>,
    StateModel,
) {
    let r = run_bytes(d, chunk, start_run(st));
    let (out, rec) = chunk_finish(r);
    (out, StateModel { rec, in_quotes: r.in_quotes, escaped: r.escaped })
}

/// A whole sequence of chunks from a given state: the records of all chunks
/// in order, and the final state.
pub open spec fn collect_model(d: DialectModel, st: StateModel, chunks: Seq<Seq<u8>>) -> (
    Seq<Seq<Seq<u8>>>,
    StateModel,
)
    decreases chunks.len(),
{
    if chunks.len() == 0 {
        (seq![], st)
    } else {
        let (out1, st1) = process_model(d, st, chunks[0]);
        let (out2, st2) = collect_model(d, st1, chunks.skip(1));
        (out1 + out2, st2)
    }
}

/// How one chunk's records are split into batches by the streaming driver:
/// while the header is pending, the first record of the first non-empty
/// result goes out alone as the header batch.
pub open spec fn batches_model(out: Seq<Seq<Seq<u8>>>, headers_pending: bool) -> Seq<
    Seq<Seq<Seq<u8>>>,
> {
    if headers_pending && out.len() > 0 {
        if out.len() > 1 {
            seq![seq![out[0]], out.skip(1)]
        } else {
            seq![seq![out[0]]]
        }
    } else if out.len() > 0 {
        seq![out]
    } else {
        seq![]
    }
}

/// The whole streaming session over a sequence of chunks: the batches each
/// chunk yields, with the header flag threaded through.  The completion
/// batch is not part of this sequence; it follows once the source is
/// exhausted.
pub open spec fn stream_model(
    d: DialectModel,
    st: StateModel,
    headers_pending: bool,
    chunks: Seq<Seq<u8>>,
) -> Seq<Seq<Seq<Seq<u8>>>>
    decreases chunks.len(),
{
    if chunks.len() == 0 {
        seq![]
    } else {
        let (out, st1) = process_model(d, st, chunks[0]);
        batches_model(out, headers_pending) + stream_model(
            d,
            st1,
            headers_pending && out.len() == 0,
            chunks.skip(1),
        )
    }
}

} // verus!
