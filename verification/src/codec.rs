//! The executable codec: `compress` and `decompress` over in-memory byte
//! buffers, proved to produce exactly what the model prescribes.

use vstd::prelude::*;

use std::collections::HashMap;

use crate::laws::{
    lemma_code_bytes_len, lemma_code_bytes_snoc, lemma_code_of_unique, lemma_dec_run_append,
    lemma_dec_run_one, lemma_init_table_wf, lemma_parse_codes_index, lemma_parse_codes_len,
    lemma_push_inj,
};
use crate::model::{
    code_bytes, code_of, compress_bytes, compress_codes, dec_run, dec_step, decode_codes,
    enc_emit, enc_init, enc_step, enc_table_wf, init_table, parse_codes, table_contains, word_of,
    DecState, EncState, MAX_CODE,
};

verus! {

broadcast use vstd::std_specs::hash::group_hash_axioms;

/// The key under which the encoder's lookup structure files the dictionary
/// entry that extends the entry with code `p` by the byte `x`.
pub open spec fn pkey(p: u16, x: u8) -> u32 {
    ((p as int) * 256 + (x as int)) as u32
}

/// Distinct (code, byte) pairs get distinct keys.
pub proof fn lemma_pkey_inj(p1: u16, x1: u8, p2: u16, x2: u8)
    requires
        pkey(p1, x1) == pkey(p2, x2),
    ensures
        p1 == p2,
        x1 == x2,
{
    assert((p1 as int) * 256 + (x1 as int) == (p2 as int) * 256 + (x2 as int));
    assert((p1 as int) * 256 + (x1 as int) == (p2 as int) * 256 + (x2 as int) ==> p1 == p2 && x1
        == x2) by (nonlinear_arith);
}

/// How the encoder's lookup map mirrors the model table `t`: the map holds
/// `pkey(p, x)` exactly when the entry `t[p] + [x]` is in the table, and then
/// maps it to that entry's code; and it holds no key beyond the rows of `t`.
pub open spec fn map_glue(m: Map<u32, u16>, t: Seq<Seq<u8>>) -> bool {
    &&& (forall|p: u16, x: u8|
        (p as int) < t.len() ==> (#[trigger] m.contains_key(pkey(p, x)) <==> table_contains(
            t,
            t[p as int].push(x),
        )))
    &&& (forall|p: u16, x: u8|
        (p as int) < t.len() && #[trigger] m.contains_key(pkey(p, x)) ==> (m[pkey(p, x)] as int)
            < t.len() && t[m[pkey(p, x)] as int] == t[p as int].push(x))
    &&& (forall|key: u32| #[trigger] m.contains_key(key) ==> (key as int) < t.len() * 256)
}

/// The empty map mirrors the initial table, which holds no two-byte entry.
pub proof fn lemma_glue_init()
    ensures
        map_glue(Map::empty(), init_table()),
{
    let t = init_table();
    assert forall|p: u16, x: u8| (p as int) < t.len() implies !table_contains(
        t,
        t[p as int].push(x),
    ) by {
        assert(t[p as int].push(x).len() == 2);
        assert forall|i: int| 0 <= i < t.len() implies t[i] != t[p as int].push(x) by {
            assert(t[i].len() == 1);
        };
    };
}

/// Learning one new entry preserves the table shape and the map mirror:
/// extending entry `p` by byte `x`, when that extension is not yet in the
/// table, appends it as the next row and files it under `pkey(p, x)`.
pub proof fn lemma_learn_entry(t: Seq<Seq<u8>>, m: Map<u32, u16>, p: u16, x: u8)
    requires
        enc_table_wf(t),
        map_glue(m, t),
        (p as int) < t.len(),
        t.len() < MAX_CODE,
        !table_contains(t, t[p as int].push(x)),
    ensures
        enc_table_wf(t.push(t[p as int].push(x))),
        map_glue(m.insert(pkey(p, x), (t.len() as u16)), t.push(t[p as int].push(x))),
{
    let cand = t[p as int].push(x);
    let t2 = t.push(cand);
    let m2 = m.insert(pkey(p, x), t.len() as u16);
    let n = t.len() as int;

    // Shape of the extended table.
    assert forall|i: int, j: int|
        0 <= i < t2.len() && 0 <= j < t2.len() && i != j implies t2[i] != t2[j] by {
        if i == n && t2[j] == cand {
            assert(table_contains(t, cand));
        } else if j == n && t2[i] == cand {
            assert(table_contains(t, cand));
        }
    };
    assert forall|i: int|
        0 <= i < t2.len() && (#[trigger] t2[i]).len() >= 2 implies table_contains(
        t2,
        t2[i].drop_last(),
    ) by {
        if i < n {
            assert(table_contains(t, t[i].drop_last()));
            let w = choose|w: int| 0 <= w < t.len() && t[w] == t[i].drop_last();
            assert(t2[w] == t[i].drop_last());
        } else {
            assert(cand.drop_last() =~= t[p as int]);
            assert(t2[p as int] == cand.drop_last());
        }
    };
    assert(enc_table_wf(t2));

    // No key reaches past the rows of the extended table.
    assert forall|key: u32| #[trigger] m2.contains_key(key) implies (key as int) < t2.len()
        * 256 by {
        if key == pkey(p, x) {
            assert((p as int) * 256 + (x as int) < (n + 1) * 256) by (nonlinear_arith)
                requires (p as int) < n + 1 && (x as int) < 256;
        } else {
            assert((key as int) < n * 256);
            assert(n * 256 < (n + 1) * 256) by (nonlinear_arith)
                requires n >= 0;
        }
    };

    // The mirror itself, row by row.
    assert forall|q: u16, y: u8| (q as int) < t2.len() implies (#[trigger] m2.contains_key(
        pkey(q, y),
    ) <==> table_contains(t2, t2[q as int].push(y))) by {
        let qi = q as int;
        if qi == n {
            // The new row: its extensions are not in the table yet, and its
            // keys are past every key the map holds.
            assert((pkey(q, y) as int) >= n * 256) by (nonlinear_arith)
                requires (q as int) == n && n >= 0;
            if m.contains_key(pkey(q, y)) {
                assert((pkey(q, y) as int) < n * 256);
            }
            if pkey(q, y) == pkey(p, x) {
                lemma_pkey_inj(q, y, p, x);
                assert((p as int) < n);
            }
            assert(!m2.contains_key(pkey(q, y)));
            if table_contains(t2, t2[qi].push(y)) {
                let w = choose|w: int| 0 <= w < t2.len() && t2[w] == cand.push(y);
                assert(cand.push(y).len() == cand.len() + 1);
                if w < n {
                    // An old entry equal to cand + [y] would put cand itself
                    // in the old table, by prefix closure.
                    assert(t[w].len() >= 2);
                    assert(table_contains(t, t[w].drop_last()));
                    assert(t[w].drop_last() =~= cand);
                } else {
                    assert(t2[w] == cand);
                }
            }
        } else if q == p && y == x {
            assert(t2[n] == cand);
            assert(table_contains(t2, t2[qi].push(y)));
        } else {
            if pkey(q, y) == pkey(p, x) {
                lemma_pkey_inj(q, y, p, x);
            }
            assert(m2.contains_key(pkey(q, y)) <==> m.contains_key(pkey(q, y)));
            if m.contains_key(pkey(q, y)) {
                let w = m[pkey(q, y)] as int;
                assert(t2[w] == t[qi].push(y));
                assert(table_contains(t2, t2[qi].push(y)));
            }
            if table_contains(t2, t2[qi].push(y)) {
                let w = choose|w: int| 0 <= w < t2.len() && t2[w] == t[qi].push(y);
                if w == n {
                    lemma_push_inj(t[qi], y, t[p as int], x);
                }
                assert(table_contains(t, t[qi].push(y)));
            }
        }
    };
    assert forall|q: u16, y: u8|
        (q as int) < t2.len() && #[trigger] m2.contains_key(pkey(q, y)) implies (m2[pkey(q, y)]
        as int) < t2.len() && t2[m2[pkey(q, y)] as int] == t2[q as int].push(y) by {
        let qi = q as int;
        if q == p && y == x {
            assert(m2[pkey(p, x)] == t.len() as u16);
            assert(t2[n] == cand);
        } else {
            if pkey(q, y) == pkey(p, x) {
                lemma_pkey_inj(q, y, p, x);
            }
            assert(m2[pkey(q, y)] == m[pkey(q, y)]);
            if qi == n {
                assert((pkey(q, y) as int) >= n * 256) by (nonlinear_arith)
                    requires (q as int) == n && n >= 0;
                assert((pkey(q, y) as int) < n * 256);
            } else {
                assert((m[pkey(q, y)] as int) < t.len());
            }
        }
    };
}

/// Why a decode call failed.
#[derive(Clone, Copy, Debug, PartialEq, Eq)]
pub enum LzwError {
    /// The input byte length is odd: it cannot be a stream of 16-bit codes.
    TruncatedStream,
    /// A code that is neither a dictionary entry nor the next assignable
    /// code was encountered; the offending code value is carried along.
    BadCode(u16),
}

/// The byte sequences held by a table of owned buffers.
pub open spec fn entries(t: Seq<Vec<u8>>) -> Seq<Seq<u8>> {
    Seq::new(t.len(), |i: int| t[i]@)
}

/// Copies a byte buffer.
fn copy_bytes(src: &Vec<u8>) -> (r: Vec<u8>)
    ensures
        r@ == src@,
{
    let mut r: Vec<u8> = Vec::new();
    let mut j: usize = 0;
    while j < src.len()
        invariant
            j <= src.len(),
            r@ == src@.take(j as int),
        decreases src.len() - j,
    {
        r.push(src[j]);
        assert(r@ =~= src@.take(j + 1));
        j += 1;
    }
    assert(src@.take(src@.len() as int) =~= src@);
    r
}

/// Appends the bytes of `src` to `dst`.
fn push_bytes(dst: &mut Vec<u8>, src: &Vec<u8>)
    ensures
        final(dst)@ == old(dst)@ + src@,
{
    let mut j: usize = 0;
    while j < src.len()
        invariant
            j <= src.len(),
            dst@ == old(dst)@ + src@.take(j as int),
        decreases src.len() - j,
    {
        dst.push(src[j]);
        assert(old(dst)@ + src@.take(j as int) + seq![src@[j as int]] =~= old(dst)@ + src@.take(
            j + 1,
        ));
        j += 1;
    }
    assert(old(dst)@ + src@.take(src@.len() as int) =~= old(dst)@ + src@);
}

/// Compresses `input`: a single greedy longest-match pass over the bytes,
/// emitting one 16-bit big-endian code per resolved match.
///
/// The result is exactly the framed code sequence of the model — a function
/// of the input bytes alone — and always holds whole codes, so its length is
/// even.  Empty input gives empty output.
pub fn compress(input: &Vec<u8>) -> (r: Vec<u8>)
    ensures
        r@ == compress_bytes(input@),
        r@.len() % 2 == 0,
{
    let mut map: HashMap<u32, u16> = HashMap::new();
    let mut next: u16 = 256;
    let mut has_prev: bool = false;
    let mut prev_code: u16 = 0;
    let mut out: Vec<u8> = Vec::new();
    let ghost mut e = enc_init();
    let ghost mut emitted: Seq<u16> = Seq::empty();
    proof {
        lemma_init_table_wf();
        lemma_glue_init();
        assert(input@.skip(0) =~= input@);
        assert(Seq::<u16>::empty() + compress_codes(input@) =~= compress_codes(input@));
    }
    let mut i: usize = 0;
    while i < input.len()
        invariant
            i <= input.len(),
            enc_table_wf(e.table),
            next as int == e.table.len(),
            map_glue(map@, e.table),
            has_prev <==> e.prev.len() > 0,
            !has_prev ==> i == 0 && e == enc_init(),
            has_prev ==> (prev_code as int) < e.table.len() && e.table[prev_code as int]
                == e.prev,
            out@ == code_bytes(emitted),
            compress_codes(input@) == emitted + enc_emit(e, input@.skip(i as int)),
        decreases input@.len() - i,
    {
        let c = input[i];
        let ghost e_old = e;
        let ghost emitted_old = emitted;
        let ghost rest_old = input@.skip(i as int);
        proof {
            assert(rest_old.len() > 0);
            assert(rest_old[0] == input@[i as int]);
            assert(rest_old.drop_first() =~= input@.skip(i as int + 1));
        }
        if !has_prev {
            has_prev = true;
            prev_code = c as u16;
            proof {
                let cand = e.prev.push(c);
                assert(cand =~= seq![c]);
                assert(e.table[c as int] == seq![c]);
                assert(table_contains(e.table, cand));
                e = EncState { table: e.table, prev: cand };
                assert(enc_step(e_old, c) == (e, Seq::<u16>::empty()));
                assert(enc_emit(e_old, rest_old) == Seq::<u16>::empty() + enc_emit(
                    e,
                    rest_old.drop_first(),
                ));
                assert(Seq::<u16>::empty() + enc_emit(e, rest_old.drop_first()) =~= enc_emit(
                    e,
                    rest_old.drop_first(),
                ));
            }
        } else {
            let ghost cand = e.prev.push(c);
            let ghost pc = prev_code;
            let key: u32 = (prev_code as u32) * 256 + (c as u32);
            proof {
                assert(key == pkey(prev_code, c));
            }
            let hit = map.get(&key);
            if hit.is_some() {
                let code = *hit.unwrap();
                proof {
                    assert(map@.contains_key(pkey(pc, c)));
                    assert(table_contains(e.table, cand));
                    assert((code as int) < e.table.len() && e.table[code as int] == cand);
                    e = EncState { table: e.table, prev: cand };
                    assert(enc_step(e_old, c) == (e, Seq::<u16>::empty()));
                    assert(enc_emit(e_old, rest_old) == Seq::<u16>::empty() + enc_emit(
                        e,
                        rest_old.drop_first(),
                    ));
                    assert(Seq::<u16>::empty() + enc_emit(e, rest_old.drop_first()) =~= enc_emit(
                        e,
                        rest_old.drop_first(),
                    ));
                }
                prev_code = code;
            } else {
                proof {
                    assert(!map@.contains_key(pkey(pc, c)));
                    assert(!table_contains(e.table, cand));
                    lemma_code_of_unique(e.table, e.prev, pc as int);
                    assert(0 <= (pc as int) / 256 < 256 && 0 <= (pc as int) % 256 < 256)
                        by (nonlinear_arith)
                        requires 0 <= pc as int <= 65535;
                    lemma_code_bytes_snoc(emitted, pc);
                }
                out.push((prev_code / 256) as u8);
                out.push((prev_code % 256) as u8);
                proof {
                    emitted = emitted.push(pc);
                    assert(out@ =~= code_bytes(emitted));
                }
                if next < MAX_CODE {
                    proof {
                        lemma_learn_entry(e.table, map@, pc, c);
                    }
                    map.insert(key, next);
                    next = next + 1;
                    proof {
                        e = EncState { table: e_old.table.push(cand), prev: seq![c] };
                    }
                } else {
                    proof {
                        e = EncState { table: e_old.table, prev: seq![c] };
                    }
                }
                prev_code = c as u16;
                proof {
                    assert(code_of(e_old.table, e_old.prev) == pc as int);
                    assert(enc_step(e_old, c) == (e, seq![pc]));
                    assert(enc_emit(e_old, rest_old) == seq![pc] + enc_emit(
                        e,
                        rest_old.drop_first(),
                    ));
                    assert(emitted_old + (seq![pc] + enc_emit(e, input@.skip(i as int + 1)))
                        =~= emitted + enc_emit(e, input@.skip(i as int + 1)));
                    assert(e.table[c as int] == seq![c]);
                    assert(e.prev =~= seq![c]);
                }
            }
        }
        i += 1;
    }
    if has_prev {
        proof {
            lemma_code_of_unique(e.table, e.prev, prev_code as int);
            assert(0 <= (prev_code as int) / 256 < 256 && 0 <= (prev_code as int) % 256 < 256)
                by (nonlinear_arith)
                requires 0 <= prev_code as int <= 65535;
            lemma_code_bytes_snoc(emitted, prev_code);
        }
        let ghost pc = prev_code;
        out.push((prev_code / 256) as u8);
        out.push((prev_code % 256) as u8);
        proof {
            assert(input@.skip(input@.len() as int) =~= Seq::<u8>::empty());
            assert(enc_emit(e, Seq::empty()) == seq![pc]);
            emitted = emitted.push(pc);
            assert(compress_codes(input@) =~= emitted);
            assert(out@ =~= code_bytes(emitted));
        }
    } else {
        proof {
            assert(input@.len() == 0);
            assert(input@.skip(0) =~= Seq::<u8>::empty());
            assert(enc_emit(e, Seq::<u8>::empty()) =~= Seq::<u16>::empty());
            assert(compress_codes(input@) =~= emitted);
        }
    }
    proof {
        lemma_code_bytes_len(emitted);
    }
    out
}

/// Decodes a stream of 16-bit big-endian codes back into the bytes a
/// compatible encoder consumed to produce it.
///
/// The stream must consist of whole 16-bit big-endian codes: an odd byte
/// length is rejected up front.  Decoding then fails exactly on the first
/// code that is neither an entry of the dictionary built so far nor the next
/// assignable code, and the error carries that code.  An empty stream
/// decodes to an empty buffer.
pub fn decompress(input: &Vec<u8>) -> (r: Result<Vec<u8>, LzwError>)
    ensures
        input@.len() % 2 != 0 ==> (r matches Err(LzwError::TruncatedStream)),
        input@.len() % 2 == 0 ==> (match decode_codes(parse_codes(input@)) {
            Ok(b) => r matches Ok(v) && v@ == b,
            Err(c) => r matches Err(e) && e == (LzwError::BadCode(c)),
        }),
{
    if input.len() % 2 != 0 {
        return Err(LzwError::TruncatedStream);
    }
    if input.len() == 0 {
        assert(decode_codes(parse_codes(input@)) == Ok::<Seq<u8>, u16>(Seq::empty()));
        let empty: Vec<u8> = Vec::new();
        assert(empty@ =~= Seq::<u8>::empty());
        return Ok(empty);
    }
    let ghost codes = parse_codes(input@);
    proof {
        lemma_parse_codes_len(input@);
        lemma_parse_codes_index(input@, 0);
    }
    let first: u16 = (input[0] as u16) * 256 + (input[1] as u16);
    assert(first == codes[0]);
    if first >= 256 {
        return Err(LzwError::BadCode(first));
    }

    // The 256 initial single-byte entries.
    let mut table: Vec<Vec<u8>> = Vec::new();
    let mut b: usize = 0;
    while b < 256
        invariant
            b <= 256,
            table@.len() == b,
            forall|i: int| 0 <= i < b ==> #[trigger] table@[i]@ == seq![i as u8],
        decreases 256 - b,
    {
        let mut single: Vec<u8> = Vec::new();
        single.push(b as u8);
        table.push(single);
        b += 1;
    }
    assert(entries(table@) =~= init_table());

    let ghost start = DecState {
        table: init_table(),
        prev: init_table()[first as int],
        out: init_table()[first as int],
    };
    let mut out = copy_bytes(&table[first as usize]);
    let mut prev = copy_bytes(&out);
    assert(out@ == init_table()[first as int]);

    let ghost rest = codes.drop_first();
    let ghost mut k: int = 0;
    let mut idx: usize = 2;
    while idx < input.len()
        invariant
            input@.len() % 2 == 0,
            2 <= input@.len(),
            codes == parse_codes(input@),
            2 * codes.len() == input@.len(),
            codes[0] == first,
            first < 256,
            rest == codes.drop_first(),
            start == (DecState {
                table: init_table(),
                prev: init_table()[first as int],
                out: init_table()[first as int],
            }),
            0 <= k <= rest.len(),
            idx == 2 + 2 * k,
            idx <= input@.len(),
            256 <= table@.len() <= MAX_CODE,
            forall|i: int| 0 <= i < table@.len() ==> #[trigger] table@[i]@.len() > 0,
            prev@.len() > 0,
            (dec_run(start, rest.take(k)) == Ok::<DecState, u16>(DecState {
                table: entries(table@),
                prev: prev@,
                out: out@,
            })),
        decreases input@.len() - idx,
    {
        let ghost st_cur = DecState { table: entries(table@), prev: prev@, out: out@ };
        let hi = input[idx];
        let lo = input[idx + 1];
        let cur: u16 = (hi as u16) * 256 + (lo as u16);
        proof {
            lemma_parse_codes_index(input@, k + 1);
            assert(rest[k] == codes[k + 1]);
            assert(cur == word_of(input@[2 * (k + 1)], input@[2 * (k + 1) + 1]));
            assert(cur == rest[k]);
            assert(rest.take(k + 1) =~= rest.take(k).push(rest[k]));
            lemma_dec_run_append(start, rest.take(k), seq![rest[k]]);
            assert(rest.take(k) + seq![rest[k]] =~= rest.take(k + 1));
            lemma_dec_run_one(st_cur, rest[k]);
        }
        let entry: Vec<u8>;
        if (cur as usize) < table.len() {
            entry = copy_bytes(&table[cur as usize]);
            assert(entry@ == entries(table@)[cur as int]);
        } else if (cur as usize) == table.len() {
            let p0 = prev[0];
            let mut deferred = copy_bytes(&prev);
            deferred.push(p0);
            entry = deferred;
            assert(entry@ =~= prev@.push(prev@[0]));
        } else {
            proof {
                assert(dec_step(st_cur, cur) == Err::<DecState, u16>(cur));
                assert(dec_run(start, rest.take(k + 1)) == Err::<DecState, u16>(cur));
                lemma_dec_run_append(start, rest.take(k + 1), rest.skip(k + 1));
                assert(rest.take(k + 1) + rest.skip(k + 1) =~= rest);
                assert(dec_run(start, rest) == Err::<DecState, u16>(cur));
                assert(decode_codes(codes) == Err::<Seq<u8>, u16>(cur));
            }
            return Err(LzwError::BadCode(cur));
        }
        assert(entry@.len() > 0);
        let e0 = entry[0];
        let mut cand = copy_bytes(&prev);
        cand.push(e0);
        if table.len() < MAX_CODE as usize {
            let ghost old_table = table@;
            table.push(cand);
            assert(entries(table@) =~= entries(old_table).push(prev@.push(entry@[0])));
        }
        push_bytes(&mut out, &entry);
        prev = entry;
        proof {
            k = k + 1;
            assert(dec_run(start, rest.take(k)) == Ok::<DecState, u16>(DecState {
                table: entries(table@),
                prev: prev@,
                out: out@,
            }));
        }
        idx += 2;
    }
    proof {
        assert(k == rest.len());
        assert(rest.take(k) =~= rest);
        assert(decode_codes(codes) == Ok::<Seq<u8>, u16>(out@));
    }
    Ok(out)
}

} // verus!
