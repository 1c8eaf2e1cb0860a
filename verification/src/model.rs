//! The mathematical model of the codec: the code table shared (conceptually)
//! by encoder and decoder, the two stepping relations, and the code framing.
//!
//! The dictionary of the algorithm is a bidirectional mapping between byte
//! sequences and 16-bit codes.  It is modelled here as a `Seq<Seq<u8>>`: the
//! entry stored at index `i` is the byte sequence assigned code `i`.  The
//! encoder looks entries up by value, the decoder by index; codes are assigned
//! in insertion order, so a new entry always receives the current length of
//! the table as its code.

use vstd::prelude::*;

verus! {

/// Ceiling of the code space: once the next assignable code reaches this
/// value, neither side inserts any further entry.
pub const MAX_CODE: u16 = 65535;

/// The initial table: code `i` maps to the single byte `i`, for `0 <= i < 256`.
pub open spec fn init_table() -> Seq<Seq<u8>> {
    Seq::new(256, |i: int| seq![i as u8])
}

/// Whether `s` is one of the entries of `table` (a dictionary key, in the
/// encoder's direction of the mapping).
pub open spec fn table_contains(table: Seq<Seq<u8>>, s: Seq<u8>) -> bool {
    exists|i: int| 0 <= i < table.len() && table[i] == s
}

/// The code assigned to entry `s`: the index at which it is stored.
/// Meaningful only when `table_contains(table, s)`; entries are never
/// duplicated, so the index is then unique.
pub open spec fn code_of(table: Seq<Seq<u8>>, s: Seq<u8>) -> int {
    choose|i: int| 0 <= i < table.len() && table[i] == s
}

/// The shape every encoder table keeps: it starts from the 256 single-byte
/// entries, never exceeds the code ceiling, holds no empty entry and no entry
/// twice, and every longer entry extends another entry by one byte.
pub open spec fn enc_table_wf(t: Seq<Seq<u8>>) -> bool {
    &&& 256 <= t.len() <= MAX_CODE
    &&& (forall|i: int| 0 <= i < 256 ==> t[i] == seq![i as u8])
    &&& (forall|i: int| 0 <= i < t.len() ==> (#[trigger] t[i]).len() > 0)
    &&& (forall|i: int, j: int|
        0 <= i < t.len() && 0 <= j < t.len() && i != j ==> t[i] != t[j])
    &&& (forall|i: int|
        0 <= i < t.len() && (#[trigger] t[i]).len() >= 2 ==> table_contains(t, t[i].drop_last()))
}

/// Encoder state between input bytes: the table built so far and the current
/// longest matched prefix.
pub struct EncState {
    pub table: Seq<Seq<u8>>,
    pub prev: Seq<u8>,
}

/// Encoder state before any input byte has been consumed.
pub open spec fn enc_init() -> EncState {
    EncState { table: init_table(), prev: Seq::empty() }
}

/// One encoder step on input byte `c`: extend the match if the extended
/// prefix is a known entry, otherwise emit the code of the current match,
/// learn the extended prefix (below the ceiling), and restart from `c`.
pub open spec fn enc_step(st: EncState, c: u8) -> (EncState, Seq<u16>) {
    let cand = st.prev.push(c);
    if table_contains(st.table, cand) {
        (EncState { table: st.table, prev: cand }, Seq::empty())
    } else {
        let code = code_of(st.table, st.prev) as u16;
        let table = if st.table.len() < MAX_CODE {
            st.table.push(cand)
        } else {
            st.table
        };
        (EncState { table, prev: seq![c] }, seq![code])
    }
}

/// The codes emitted while encoding `rest` from state `st`, including the
/// final flush of the pending match once the input is exhausted.
pub open spec fn enc_emit(st: EncState, rest: Seq<u8>) -> Seq<u16>
    decreases rest.len(),
{
    if rest.len() == 0 {
        if st.prev.len() > 0 {
            seq![code_of(st.table, st.prev) as u16]
        } else {
            Seq::empty()
        }
    } else {
        let (st2, emitted) = enc_step(st, rest[0]);
        emitted + enc_emit(st2, rest.drop_first())
    }
}

/// The code sequence produced by compressing `input`.
pub open spec fn compress_codes(input: Seq<u8>) -> Seq<u16> {
    enc_emit(enc_init(), input)
}

/// Decoder state between codes: the table rebuilt so far, the previously
/// decoded entry, and the bytes produced so far.
pub struct DecState {
    pub table: Seq<Seq<u8>>,
    pub prev: Seq<u8>,
    pub out: Seq<u8>,
}

/// The common tail of a decoder step once `entry` has been resolved: append
/// it to the output, learn `prev` extended by `entry`'s first byte (below the
/// ceiling), and remember `entry` as the new `prev`.
pub open spec fn dec_extend(st: DecState, entry: Seq<u8>) -> DecState {
    DecState {
        table: if st.table.len() < MAX_CODE {
            st.table.push(st.prev.push(entry[0]))
        } else {
            st.table
        },
        prev: entry,
        out: st.out + entry,
    }
}

/// One decoder step on code `cur`: a known code resolves to its entry, the
/// next assignable code resolves to the deferred entry `prev + prev[0]`, and
/// anything beyond that is a malformed stream, reported with the code itself.
pub open spec fn dec_step(st: DecState, cur: u16) -> Result<DecState, u16> {
    if (cur as int) < st.table.len() {
        Ok(dec_extend(st, st.table[cur as int]))
    } else if cur as int == st.table.len() {
        Ok(dec_extend(st, st.prev.push(st.prev[0])))
    } else {
        Err(cur)
    }
}

/// The decoder run over a code sequence, one step per code; the first
/// malformed code aborts the run.
pub open spec fn dec_run(st: DecState, codes: Seq<u16>) -> Result<DecState, u16>
    decreases codes.len(),
{
    if codes.len() == 0 {
        Ok(st)
    } else {
        match dec_step(st, codes[0]) {
            Ok(st2) => dec_run(st2, codes.drop_first()),
            Err(c) => Err(c),
        }
    }
}

/// The bytes reconstructed from a whole code sequence, or the offending code.
/// The first code must name an initial single-byte entry: no learned entry
/// can exist yet, and the deferred-entry rule has no previous entry to build
/// on, so a first code of 256 or more is malformed.
pub open spec fn decode_codes(codes: Seq<u16>) -> Result<Seq<u8>, u16> {
    if codes.len() == 0 {
        Ok(Seq::empty())
    } else if codes[0] >= 256 {
        Err(codes[0])
    } else {
        let entry = init_table()[codes[0] as int];
        match dec_run(
            DecState { table: init_table(), prev: entry, out: entry },
            codes.drop_first(),
        ) {
            Ok(st) => Ok(st.out),
            Err(c) => Err(c),
        }
    }
}

/// The 16-bit code read big-endian from two bytes.
pub open spec fn word_of(hi: u8, lo: u8) -> u16 {
    ((hi as int) * 256 + (lo as int)) as u16
}

/// The codes read from a byte stream, two bytes per code, big-endian.
/// Meaningful only for streams of even length.
pub open spec fn parse_codes(bytes: Seq<u8>) -> Seq<u16>
    decreases bytes.len(),
{
    if bytes.len() < 2 {
        Seq::empty()
    } else {
        seq![word_of(bytes[0], bytes[1])] + parse_codes(bytes.skip(2))
    }
}

/// Big-endian framing of one 16-bit code.
pub open spec fn be_bytes(code: u16) -> Seq<u8> {
    seq![(code / 256) as u8, (code % 256) as u8]
}

/// Big-endian framing of a whole code sequence.
pub open spec fn code_bytes(codes: Seq<u16>) -> Seq<u8>
    decreases codes.len(),
{
    if codes.len() == 0 {
        Seq::empty()
    } else {
        be_bytes(codes[0]) + code_bytes(codes.drop_first())
    }
}

/// The compressed byte stream for `input`: its codes, framed big-endian.
pub open spec fn compress_bytes(input: Seq<u8>) -> Seq<u8> {
    code_bytes(compress_codes(input))
}

} // verus!
