//! Proofs about the model: the byte framing of code streams, how decoder
//! runs compose, and the laws relating compression and decompression.

use vstd::prelude::*;

use crate::model::{
    be_bytes, code_bytes, code_of, compress_bytes, compress_codes, dec_extend, dec_run, dec_step,
    decode_codes, enc_emit, enc_init, enc_step, enc_table_wf, init_table, parse_codes,
    table_contains, word_of, DecState, EncState, MAX_CODE,
};

verus! {

/// The initial table is a well-formed encoder table.
pub proof fn lemma_init_table_wf()
    ensures
        enc_table_wf(init_table()),
{
    let t = init_table();
    assert forall|i: int, j: int|
        0 <= i < t.len() && 0 <= j < t.len() && i != j implies t[i] != t[j] by {
        assert(t[i][0] == i as u8 && t[j][0] == j as u8);
    };
    assert(enc_table_wf(t));
}

/// Pushing the same byte sequence is injective: equal results come from
/// equal sequences and equal pushed bytes.
pub proof fn lemma_push_inj(a: Seq<u8>, x: u8, b: Seq<u8>, y: u8)
    requires
        a.push(x) == b.push(y),
    ensures
        a == b,
        x == y,
{
    assert(a.push(x).len() == a.len() + 1 && b.push(y).len() == b.len() + 1);
    assert(a.len() == b.len());
    assert(a.push(x)[a.len() as int] == x && b.push(y)[b.len() as int] == y);
    assert forall|m: int| 0 <= m < a.len() implies a[m] == b[m] by {
        assert(a.push(x)[m] == a[m] && b.push(y)[m] == b[m]);
    };
    assert(a =~= b);
}

/// In a table without duplicate entries, an entry's code is the one index
/// where the entry is stored.
pub proof fn lemma_code_of_unique(t: Seq<Seq<u8>>, s: Seq<u8>, i: int)
    requires
        forall|a: int, b: int| 0 <= a < t.len() && 0 <= b < t.len() && a != b ==> t[a] != t[b],
        0 <= i < t.len(),
        t[i] == s,
    ensures
        table_contains(t, s),
        code_of(t, s) == i,
{
    assert(table_contains(t, s));
    let j = code_of(t, s);
    assert(0 <= j < t.len() && t[j] == s);
}

/// Framed output always holds exactly two bytes per code.
pub proof fn lemma_code_bytes_len(codes: Seq<u16>)
    ensures
        code_bytes(codes).len() == 2 * codes.len(),
    decreases codes.len(),
{
    if codes.len() > 0 {
        lemma_code_bytes_len(codes.drop_first());
    }
}

/// Framing one more code appends its two big-endian bytes.
pub proof fn lemma_code_bytes_snoc(codes: Seq<u16>, c: u16)
    ensures
        code_bytes(codes.push(c)) == code_bytes(codes) + be_bytes(c),
    decreases codes.len(),
{
    if codes.len() == 0 {
        reveal_with_fuel(code_bytes, 3);
        assert(codes.push(c).drop_first() =~= Seq::<u16>::empty());
        assert(codes.push(c)[0] == c);
        assert(code_bytes(codes.push(c)) =~= code_bytes(codes) + be_bytes(c));
    } else {
        assert(codes.push(c).drop_first() =~= codes.drop_first().push(c));
        lemma_code_bytes_snoc(codes.drop_first(), c);
        assert(code_bytes(codes.push(c)) =~= code_bytes(codes) + be_bytes(c));
    }
}

/// The two big-endian bytes of a code read back as that code.
pub proof fn lemma_word_be(c: u16)
    ensures
        be_bytes(c).len() == 2,
        word_of(be_bytes(c)[0], be_bytes(c)[1]) == c,
{
    let ci = c as int;
    assert(0 <= ci / 256 <= 255 && 0 <= ci % 256 <= 255 && (ci / 256) * 256 + ci % 256 == ci)
        by (nonlinear_arith)
        requires 0 <= ci <= 65535;
}

/// Reading codes back out of a framed code stream restores the codes.
pub proof fn lemma_parse_code_bytes(codes: Seq<u16>)
    ensures
        parse_codes(code_bytes(codes)) == codes,
    decreases codes.len(),
{
    if codes.len() == 0 {
        assert(parse_codes(code_bytes(codes)) =~= codes);
    } else {
        let c = codes[0];
        let bytes = code_bytes(codes);
        lemma_word_be(c);
        lemma_code_bytes_len(codes);
        assert(bytes[0] == be_bytes(c)[0] && bytes[1] == be_bytes(c)[1]);
        assert(bytes.skip(2) =~= code_bytes(codes.drop_first()));
        lemma_parse_code_bytes(codes.drop_first());
        assert(parse_codes(bytes) =~= codes);
    }
}

/// A byte stream of even length parses to one code per byte pair.
pub proof fn lemma_parse_codes_len(bytes: Seq<u8>)
    requires
        bytes.len() % 2 == 0,
    ensures
        2 * parse_codes(bytes).len() == bytes.len(),
    decreases bytes.len(),
{
    if bytes.len() >= 2 {
        lemma_parse_codes_len(bytes.skip(2));
    }
}

/// The code at position `k` is read from the byte pair at position `2k`.
pub proof fn lemma_parse_codes_index(bytes: Seq<u8>, k: int)
    requires
        bytes.len() % 2 == 0,
        0 <= k,
        2 * k + 1 < bytes.len(),
    ensures
        parse_codes(bytes)[k] == word_of(bytes[2 * k], bytes[2 * k + 1]),
    decreases k,
{
    lemma_parse_codes_len(bytes);
    if k > 0 {
        lemma_parse_codes_index(bytes.skip(2), k - 1);
        assert(bytes.skip(2)[2 * (k - 1)] == bytes[2 * k]);
        assert(bytes.skip(2)[2 * (k - 1) + 1] == bytes[2 * k + 1]);
    }
}

/// A decoder run over a single code is one decoder step.
pub proof fn lemma_dec_run_one(st: DecState, c: u16)
    ensures
        dec_run(st, seq![c]) == dec_step(st, c),
{
    reveal_with_fuel(dec_run, 2);
    assert(seq![c].drop_first() =~= Seq::<u16>::empty());
    assert(seq![c][0] == c);
}

/// How the decoder, having consumed every code the encoder has emitted so
/// far, trails the encoder mid-run: its table keeps the initial single-byte
/// entries and no empty entry, and the encoder's table is exactly one entry
/// ahead — the pending entry built from the decoder's last output and the
/// first byte of the encoder's current match — except once the ceiling
/// freezes both tables, when they coincide.
pub open spec fn sim_inv(e: EncState, d: DecState) -> bool {
    &&& 256 <= d.table.len() <= MAX_CODE
    &&& (forall|i: int| 0 <= i < 256 ==> d.table[i] == seq![i as u8])
    &&& (forall|i: int| 0 <= i < d.table.len() ==> (#[trigger] d.table[i]).len() > 0)
    &&& d.prev.len() > 0
    &&& e.prev.len() > 0
    &&& table_contains(e.table, e.prev)
    &&& e.table == (if d.table.len() < MAX_CODE {
        d.table.push(d.prev.push(e.prev[0]))
    } else {
        d.table
    })
}

/// When the encoder emits the code of its current match, the decoder that
/// trails it resolves that code to exactly the match — through a table
/// lookup, or through the deferred-entry rule when the code names the one
/// entry the decoder has not materialised yet — and its table catches up
/// with the encoder's.
proof fn lemma_emit_resolves(e: EncState, d: DecState)
    requires
        sim_inv(e, d),
    ensures
        dec_step(d, code_of(e.table, e.prev) as u16) == Ok::<DecState, u16>(DecState {
            table: e.table,
            prev: e.prev,
            out: d.out + e.prev,
        }),
{
    let idx = code_of(e.table, e.prev);
    assert(0 <= idx < e.table.len() && e.table[idx] == e.prev);
    let code = idx as u16;
    assert(e.table.len() <= d.table.len() + 1);
    assert((code as int) == idx);
    if d.table.len() < MAX_CODE {
        assert(e.table == d.table.push(d.prev.push(e.prev[0])));
        if idx < d.table.len() {
            assert(d.table[idx] == e.prev);
        } else {
            assert(idx == d.table.len());
            assert(e.table[idx] == d.prev.push(e.prev[0]));
            assert(e.prev == d.prev.push(e.prev[0]));
            assert(e.prev[0] == d.prev[0]);
            assert(d.prev.push(d.prev[0]) == e.prev);
        }
        assert(dec_extend(d, e.prev).table == e.table);
    } else {
        assert(e.table == d.table);
        assert(idx < d.table.len());
        assert(d.table[idx] == e.prev);
        assert(dec_extend(d, e.prev).table == e.table);
    }
    assert(dec_step(d, code) == Ok::<DecState, u16>(dec_extend(d, e.prev)));
}

/// The simulation: a decoder trailing the encoder decodes everything the
/// encoder will still emit — for the remaining input and the final flush —
/// back to exactly the pending match followed by that remaining input.
pub proof fn lemma_sim(e: EncState, d: DecState, rest: Seq<u8>)
    requires
        sim_inv(e, d),
    ensures
        dec_run(d, enc_emit(e, rest)) is Ok,
        dec_run(d, enc_emit(e, rest))->Ok_0.out == d.out + e.prev + rest,
    decreases rest.len(),
{
    if rest.len() == 0 {
        let code = code_of(e.table, e.prev) as u16;
        assert(enc_emit(e, rest) =~= seq![code]);
        lemma_emit_resolves(e, d);
        lemma_dec_run_one(d, code);
        assert(d.out + e.prev + rest =~= d.out + e.prev);
    } else {
        let c = rest[0];
        let cand = e.prev.push(c);
        assert(rest.drop_first().len() == rest.len() - 1);
        if table_contains(e.table, cand) {
            let e2 = EncState { table: e.table, prev: cand };
            assert(enc_step(e, c) == (e2, Seq::<u16>::empty()));
            assert(enc_emit(e, rest) == Seq::<u16>::empty() + enc_emit(e2, rest.drop_first()));
            assert(enc_emit(e, rest) =~= enc_emit(e2, rest.drop_first()));
            assert(cand[0] == e.prev[0]);
            assert(sim_inv(e2, d));
            lemma_sim(e2, d, rest.drop_first());
            assert(d.out + cand + rest.drop_first() =~= d.out + e.prev + rest);
        } else {
            let code = code_of(e.table, e.prev) as u16;
            let e2 = EncState {
                table: if e.table.len() < MAX_CODE {
                    e.table.push(cand)
                } else {
                    e.table
                },
                prev: seq![c],
            };
            assert(enc_step(e, c) == (e2, seq![code]));
            assert(enc_emit(e, rest) == seq![code] + enc_emit(e2, rest.drop_first()));
            lemma_emit_resolves(e, d);
            let d2 = DecState { table: e.table, prev: e.prev, out: d.out + e.prev };
            assert(dec_step(d, code) == Ok::<DecState, u16>(d2));
            // The new pair of states trails in the same way.
            assert forall|i: int| 0 <= i < 256 implies d2.table[i] == seq![i as u8] by {
                if d.table.len() < MAX_CODE {
                    assert(e.table[i] == d.table[i]);
                }
            };
            assert forall|i: int|
                0 <= i < d2.table.len() implies (#[trigger] d2.table[i]).len() > 0 by {
                if d.table.len() < MAX_CODE && i == d.table.len() {
                    assert(e.table[i] == d.prev.push(e.prev[0]));
                }
            };
            assert(256 <= d2.table.len() <= MAX_CODE);
            assert(e2.table[c as int] == seq![c]);
            assert(table_contains(e2.table, seq![c]));
            assert(e2.prev[0] == c);
            assert(d2.prev.push(c) == cand);
            assert(sim_inv(e2, d2));
            lemma_sim(e2, d2, rest.drop_first());
            lemma_dec_run_append(d, seq![code], enc_emit(e2, rest.drop_first()));
            lemma_dec_run_one(d, code);
            assert(seq![code] + enc_emit(e2, rest.drop_first()) =~= enc_emit(e, rest));
            assert(d2.out + e2.prev + rest.drop_first() =~= d.out + e.prev + rest);
        }
    }
}

/// A decoder run over concatenated code sequences is the composition of the
/// two runs, with an error in the first part aborting the whole run.
pub proof fn lemma_dec_run_append(st: DecState, a: Seq<u16>, b: Seq<u16>)
    ensures
        dec_run(st, a + b) == (match dec_run(st, a) {
            Ok(mid) => dec_run(mid, b),
            Err(c) => Err::<DecState, u16>(c),
        }),
    decreases a.len(),
{
    if a.len() == 0 {
        assert(a + b =~= b);
    } else {
        assert((a + b)[0] == a[0]);
        match dec_step(st, a[0]) {
            Ok(st2) => {
                assert((a + b).drop_first() =~= a.drop_first() + b);
                lemma_dec_run_append(st2, a.drop_first(), b);
            },
            Err(_) => {},
        }
    }
}

/// The round-trip law at the code level: decoding the code sequence that
/// compression produces restores the input, for every byte sequence.
pub proof fn lemma_round_trip(input: Seq<u8>)
    ensures
        decode_codes(compress_codes(input)) == Ok::<Seq<u8>, u16>(input),
{
    lemma_init_table_wf();
    let e0 = enc_init();
    if input.len() == 0 {
        assert(enc_emit(e0, input) =~= Seq::<u16>::empty());
        assert(input =~= Seq::<u8>::empty());
    } else {
        let b0 = input[0];
        let cand0 = Seq::<u8>::empty().push(b0);
        assert(cand0 =~= seq![b0]);
        assert(init_table()[b0 as int] == seq![b0]);
        assert(table_contains(e0.table, cand0));
        let e1 = EncState { table: init_table(), prev: cand0 };
        assert(enc_step(e0, b0) == (e1, Seq::<u16>::empty()));
        assert(input.drop_first().len() == input.len() - 1);
        let codes = compress_codes(input);
        assert(codes == Seq::<u16>::empty() + enc_emit(e1, input.drop_first()));
        assert(codes =~= enc_emit(e1, input.drop_first()));
        let idx = code_of(init_table(), cand0);
        assert(0 <= idx < 256 && init_table()[idx] == cand0);
        let code = idx as u16;
        if input.len() == 1 {
            assert(enc_emit(e1, input.drop_first()) =~= seq![code]);
            assert(codes[0] == code && (code as int) == idx);
            let entry = init_table()[codes[0] as int];
            assert(entry == cand0);
            let dstart = DecState { table: init_table(), prev: entry, out: entry };
            assert(codes.drop_first() =~= Seq::<u16>::empty());
            assert(dec_run(dstart, codes.drop_first()) == Ok::<DecState, u16>(dstart));
            assert(decode_codes(codes) == Ok::<Seq<u8>, u16>(entry));
            assert(entry =~= input);
        } else {
            let c1 = input[1];
            let cand1 = cand0.push(c1);
            assert(cand1.len() == 2);
            assert forall|i: int| 0 <= i < 256 implies init_table()[i] != cand1 by {
                assert(init_table()[i].len() == 1);
            };
            assert(!table_contains(init_table(), cand1));
            assert(init_table().len() < MAX_CODE);
            let e2 = EncState { table: init_table().push(cand1), prev: seq![c1] };
            assert(enc_step(e1, c1) == (e2, seq![code]));
            assert(input.drop_first()[0] == c1);
            assert(input.drop_first().drop_first() =~= input.skip(2));
            assert(enc_emit(e1, input.drop_first()) == seq![code] + enc_emit(e2, input.skip(2)));
            assert(codes[0] == code && (code as int) == idx);
            assert(codes.len() > 0 && (codes[0] as int) < 256);
            let entry = init_table()[codes[0] as int];
            assert(entry == cand0);
            let dstart = DecState { table: init_table(), prev: entry, out: entry };
            assert(codes.drop_first() =~= enc_emit(e2, input.skip(2)));
            assert(e2.prev[0] == c1);
            assert(dstart.prev.push(c1) == cand1);
            assert(e2.table == dstart.table.push(dstart.prev.push(e2.prev[0])));
            assert(e2.table[c1 as int] == seq![c1]);
            assert(table_contains(e2.table, e2.prev));
            assert(sim_inv(e2, dstart));
            lemma_sim(e2, dstart, input.skip(2));
            let df = dec_run(dstart, enc_emit(e2, input.skip(2)))->Ok_0;
            assert(df.out == cand0 + seq![c1] + input.skip(2));
            assert(cand0 + seq![c1] + input.skip(2) =~= input);
            assert(decode_codes(codes) == Ok::<Seq<u8>, u16>(df.out));
        }
    }
}

/// The round-trip law at the byte level: the compressed stream always holds
/// whole codes, and parsing and decoding it restores the input exactly.
pub proof fn lemma_round_trip_bytes(input: Seq<u8>)
    ensures
        compress_bytes(input).len() % 2 == 0,
        decode_codes(parse_codes(compress_bytes(input))) == Ok::<Seq<u8>, u16>(input),
{
    lemma_code_bytes_len(compress_codes(input));
    lemma_parse_code_bytes(compress_codes(input));
    lemma_round_trip(input);
}

/// Corruption is detected, never decoded past: wherever the decoder has
/// advanced without error, a next code strictly greater than the next
/// assignable code (the current table length) aborts the whole decode with
/// exactly that code.  A first code outside the initial entries fails the
/// same way.
pub proof fn lemma_corruption_detected(codes: Seq<u16>, k: int, st: DecState)
    requires
        0 < codes.len(),
        ({
            let first = codes[0];
            let rest = codes.drop_first();
            first < 256 && 0 <= k < rest.len() && dec_run(
                DecState {
                    table: init_table(),
                    prev: init_table()[first as int],
                    out: init_table()[first as int],
                },
                rest.take(k),
            ) == Ok::<DecState, u16>(st) && (rest[k] as int) > st.table.len()
        }),
    ensures
        decode_codes(codes) == Err::<Seq<u8>, u16>(codes[k + 1]),
{
    let first = codes[0];
    let rest = codes.drop_first();
    let start = DecState {
        table: init_table(),
        prev: init_table()[first as int],
        out: init_table()[first as int],
    };
    assert(rest[k] == codes[k + 1]);
    assert(dec_step(st, rest[k]) == Err::<DecState, u16>(rest[k]));
    lemma_dec_run_append(start, rest.take(k), seq![rest[k]]);
    lemma_dec_run_one(st, rest[k]);
    assert(rest.take(k) + seq![rest[k]] =~= rest.take(k + 1));
    assert(dec_run(start, rest.take(k + 1)) == Err::<DecState, u16>(rest[k]));
    lemma_dec_run_append(start, rest.take(k + 1), rest.skip(k + 1));
    assert(rest.take(k + 1) + rest.skip(k + 1) =~= rest);
    assert(dec_run(start, rest) == Err::<DecState, u16>(rest[k]));
}

/// A first code outside the initial single-byte entries is malformed.
pub proof fn lemma_bad_first_code(codes: Seq<u16>)
    requires
        0 < codes.len(),
        codes[0] >= 256,
    ensures
        decode_codes(codes) == Err::<Seq<u8>, u16>(codes[0]),
{
}

/// Determinism: any two results that compression can produce for the same
/// input are byte-identical.
pub proof fn lemma_compress_deterministic(input: Seq<u8>, r1: Seq<u8>, r2: Seq<u8>)
    requires
        r1 == compress_bytes(input),
        r2 == compress_bytes(input),
    ensures
        r1 == r2,
{
}

} // verus!
