//! Laws of the codec, chiefly the round trip: decoding the rendered text of
//! a well-formed value yields the value back.

use vstd::prelude::*;
use vstd::utf8::{
    decode_utf8, encode_scalar, encode_utf8, is_ascii_chars, is_ascii_chars_encode_utf8,
    is_scalar,
};

use crate::json::model::{
    add_consumed, bits_of_number, dedup_first, digit_run_end, enc_items, enc_pair, enc_pairs,
    enc_val, is_digit, is_number_cont, is_number_start, is_number_token, is_sign, key_in,
    lemma_dedup_keys, lex_exponent, lex_number, lexc_exponent, lexc_number, scan_string, sp_elem,
    sp_items, sp_null, sp_pair, sp_pairs, text_of_number, JVal, POut,
};

verus! {

/// A character the serializer can emit inside a string literal such that the
/// parser reads it back verbatim: not a quote, not a backslash, and not a
/// control character.
pub open spec fn clean_char(c: char) -> bool {
    c != '"' && c != '\\' && c as u32 >= 0x20
}

pub open spec fn clean_chars(cs: Seq<char>) -> bool {
    forall|i: int| 0 <= i < cs.len() ==> clean_char(#[trigger] cs[i])
}

/// The rendered text of the number parses back to the same bits and is one
/// complete token. This holds of every finite float, as the contract of the
/// rendering relied upon states; an infinity renders as text outside the
/// numeric grammar, so values carrying such bits are left out.
pub open spec fn num_roundtrips(b: u64) -> bool {
    &&& is_number_token(encode_utf8(text_of_number(b)))
    &&& bits_of_number(encode_utf8(text_of_number(b))) == b
}

/// The value round-trips: every string and key is clean, every number's
/// rendering parses back, and every object's keys are distinct.
pub open spec fn rt_ok(v: JVal) -> bool
    decreases v,
{
    match v {
        JVal::Null => true,
        JVal::Num(b) => num_roundtrips(b),
        JVal::Str(cs) => clean_chars(cs),
        JVal::Arr(vs) => forall|i: int| 0 <= i < vs.len() ==> rt_ok(#[trigger] vs[i]),
        JVal::Obj(ps) => (forall|i: int|
            0 <= i < ps.len() ==> clean_chars((#[trigger] ps[i]).0) && rt_ok(ps[i].1)) && (forall|
            i: int,
            j: int,
        |
            0 <= i < j < ps.len() ==> ps[i].0 != ps[j].0),
    }
}

/// The bytes a value's rendering occupies on the wire.
pub open spec fn enc_bytes(v: JVal) -> Seq<u8> {
    encode_utf8(enc_val(v))
}

// ---------------------------------------------------------------------------
// UTF-8 groundwork
// ---------------------------------------------------------------------------
pub proof fn lemma_encode_utf8_concat(a: Seq<char>, b: Seq<char>)
    ensures
        encode_utf8(a + b) == encode_utf8(a) + encode_utf8(b),
    decreases a.len(),
{
    if a.len() == 0 {
        assert(a + b =~= b);
        assert(encode_utf8(a) + encode_utf8(b) =~= encode_utf8(b));
    } else {
        lemma_encode_utf8_concat(a.drop_first(), b);
        assert((a + b).drop_first() =~= a.drop_first() + b);
        assert((a + b)[0] == a[0]);
        assert(encode_utf8(a + b) =~= encode_utf8(a) + encode_utf8(b));
    }
}

/// A single ASCII character encodes as its own byte.
proof fn lemma_encode_ascii_char(c: char)
    requires
        c as u32 <= 0x7F,
    ensures
        encode_utf8(seq![c]) == seq![c as u8],
{
    let cs = seq![c];
    assert(is_ascii_chars(cs));
    is_ascii_chars_encode_utf8(cs);
    assert(encode_utf8(cs) =~= seq![c as u8]);
}

/// Every byte of the encoding of a non-ASCII scalar is at least 0x80.
proof fn lemma_scalar_bytes_high(v: u32)
    requires
        is_scalar(v),
        v > 0x7F,
    ensures
        forall|i: int|
            0 <= i < encode_scalar(v).len() ==> #[trigger] encode_scalar(v)[i] >= 0x80,
{
    assert((0xC0u8 | ((v >> 6) & 0x1F) as u8) >= 0x80) by (bit_vector);
    assert((0xE0u8 | ((v >> 12) & 0x0F) as u8) >= 0x80) by (bit_vector);
    assert((0xF0u8 | ((v >> 18) & 0x7) as u8) >= 0x80) by (bit_vector);
    assert((0x80u8 | (v & 0x3F) as u8) >= 0x80) by (bit_vector);
    assert((0x80u8 | ((v >> 6) & 0x3F) as u8) >= 0x80) by (bit_vector);
    assert((0x80u8 | ((v >> 12) & 0x3F) as u8) >= 0x80) by (bit_vector);
}

/// No byte of the encoding of a clean character sequence is a quote or a
/// backslash.
proof fn lemma_clean_encoding(cs: Seq<char>)
    requires
        clean_chars(cs),
    ensures
        forall|i: int|
            0 <= i < encode_utf8(cs).len() ==> #[trigger] encode_utf8(cs)[i] != 0x22u8
                && encode_utf8(cs)[i] != 0x5cu8,
    decreases cs.len(),
{
    if cs.len() > 0 {
        let c = cs[0];
        let v = c as u32;
        assert(clean_char(c));
        vstd::utf8::char_is_scalar(c);
        if v <= 0x7F {
            assert(encode_scalar(v) =~= seq![(v & 0x7F) as u8]);
            assert((v & 0x7F) == v) by (bit_vector)
                requires
                    v <= 0x7F,
            ;
            assert(v != 0x22 && v != 0x5c) by {
                vstd::utf8::char_u32_cast(c, v);
                vstd::utf8::char_u32_cast('"', '"' as u32);
                vstd::utf8::char_u32_cast('\\', '\\' as u32);
            }
            assert((v & 0x7F) as u8 != 0x22u8 && (v & 0x7F) as u8 != 0x5cu8);
        } else {
            lemma_scalar_bytes_high(v);
        }
        assert(clean_chars(cs.drop_first()));
        lemma_clean_encoding(cs.drop_first());
        assert(encode_utf8(cs) == encode_scalar(v) + encode_utf8(cs.drop_first()));
        assert forall|i: int|
            0 <= i < encode_utf8(cs).len() implies #[trigger] encode_utf8(cs)[i] != 0x22u8
            && encode_utf8(cs)[i] != 0x5cu8 by {
            if i < encode_scalar(v).len() {
                assert(encode_utf8(cs)[i] == encode_scalar(v)[i]);
            } else {
                assert(encode_utf8(cs)[i] == encode_utf8(cs.drop_first())[i - encode_scalar(
                    v,
                ).len()]);
            }
        }
    }
}

/// Scanning clean content bytes followed by a closing quote yields exactly
/// those bytes.
proof fn lemma_scan_clean(bs: Seq<u8>, rest: Seq<u8>, acc: Seq<u8>)
    requires
        forall|i: int| 0 <= i < bs.len() ==> #[trigger] bs[i] != 0x22u8 && bs[i] != 0x5cu8,
    ensures
        scan_string(bs + seq![0x22u8] + rest, acc) == POut::<Seq<u8>>::Found(
            acc + bs,
            (bs.len() + 1) as nat,
        ),
    decreases bs.len(),
{
    let t = bs + seq![0x22u8] + rest;
    if bs.len() == 0 {
        assert(t[0] == 0x22u8);
        assert(acc + bs =~= acc);
    } else {
        assert(t[0] == bs[0]);
        assert(t[0] != 0x22u8 && t[0] != 0x5cu8);
        lemma_scan_clean(bs.drop_first(), rest, acc.push(bs[0]));
        assert(t.skip(1) =~= bs.drop_first() + seq![0x22u8] + rest);
        assert(acc.push(bs[0]) + bs.drop_first() =~= acc + bs);
        assert(scan_string(t, acc) == add_consumed(
            scan_string(t.skip(1), acc.push(t[0])),
            1nat,
        ));
    }
}


/// Law: keys are unique. Whatever pairs the source text held, the stored
/// mapping that survives the duplicate-discarding parse never holds two
/// pairs with one key.
pub proof fn lemma_dedup_first_unique(ps: Seq<(Seq<char>, JVal)>)
    ensures
        forall|i: int, j: int|
            0 <= i < j < dedup_first(ps).len() ==> dedup_first(ps)[i].0 != dedup_first(ps)[j].0,
    decreases ps.len(),
{
    if ps.len() > 0 {
        let front = ps.drop_last();
        let last = ps.last();
        lemma_dedup_first_unique(front);
        lemma_dedup_keys(front, last.0);
        if !key_in(front, last.0) {
            let d = dedup_first(front).push(last);
            assert(dedup_first(ps) == d);
            assert forall|i: int, j: int| 0 <= i < j < d.len() implies d[i].0 != d[j].0 by {
                if j == d.len() - 1 {
                    assert(d[i] == dedup_first(front)[i]);
                    if dedup_first(front)[i].0 == last.0 {
                        assert(key_in(dedup_first(front), last.0));
                    }
                } else {
                    assert(d[i] == dedup_first(front)[i]);
                    assert(d[j] == dedup_first(front)[j]);
                }
            }
        }
    }
}

/// Discarding later duplicates changes nothing when all keys are distinct.
pub proof fn lemma_dedup_distinct(ps: Seq<(Seq<char>, JVal)>)
    requires
        forall|i: int, j: int| 0 <= i < j < ps.len() ==> ps[i].0 != ps[j].0,
    ensures
        dedup_first(ps) == ps,
    decreases ps.len(),
{
    if ps.len() > 0 {
        let front = ps.drop_last();
        lemma_dedup_distinct(front);
        assert(!key_in(front, ps.last().0)) by {
            if key_in(front, ps.last().0) {
                let j = choose|j: int| 0 <= j < front.len() && front[j].0 == ps.last().0;
                assert(ps[j].0 == ps[ps.len() - 1].0);
            }
        }
        assert(front.push(ps.last()) =~= ps);
    }
}

// ---------------------------------------------------------------------------
// Numeric tokens survive extension by a non-continuing byte
// ---------------------------------------------------------------------------
proof fn lemma_digit_run_concat(a: Seq<u8>, b: Seq<u8>, i: int)
    requires
        0 <= i <= a.len(),
    ensures
        i <= digit_run_end(a, i) <= a.len(),
        digit_run_end(a, i) < a.len() ==> digit_run_end(a + b, i) == digit_run_end(a, i),
        (digit_run_end(a, i) == a.len() && (b.len() == 0 || !is_digit(b[0])))
            ==> digit_run_end(a + b, i) == a.len(),
    decreases a.len() - i,
{
    if i < a.len() && is_digit(a[i]) {
        assert((a + b)[i] == a[i]);
        lemma_digit_run_concat(a, b, i + 1);
    } else {
        if i < a.len() {
            assert((a + b)[i] == a[i]);
        } else if b.len() > 0 {
            assert((a + b)[i] == b[0]);
        }
    }
}

/// A numeric token is not empty and begins with a sign, a digit or a dot.
proof fn lemma_token_start(tk: Seq<u8>)
    requires
        is_number_token(tk),
    ensures
        tk.len() > 0,
        is_number_start(tk[0]),
{
    if tk.len() == 0 {
        assert(lexc_number(tk) is None);
    }
    let i0: int = if is_sign(tk[0]) {
        1
    } else {
        0
    };
    if !is_number_start(tk[0]) {
        assert(i0 == 0);
        assert(lexc_number(tk) is None);
    }
}

/// The exponent part: when the complete tokenizer finds an exponent running
/// to the end of the token, the streaming tokenizer finds the same end on
/// the extended input.
proof fn lemma_exp_extension(tk: Seq<u8>, tail: Seq<u8>, fe: int)
    requires
        0 <= fe < tk.len(),
        lexc_exponent(tk, fe) == Some(tk.len() as int),
        tail.len() > 0,
        !is_number_cont(tail[0]),
    ensures
        lex_exponent(tk + tail, fe) == POut::<()>::Found((), tk.len() as nat),
{
    let s = tk + tail;
    let L = tk.len() as int;
    assert(s[fe] == tk[fe]);
    if tk[fe] == 0x65u8 || tk[fe] == 0x45u8 {
        let es: int = if fe + 1 < L && is_sign(tk[fe + 1]) {
            fe + 2
        } else {
            fe + 1
        };
        if !(es < L && is_digit(tk[es])) {
            assert(lexc_exponent(tk, fe) == Some(fe));
        }
        assert(es < L && is_digit(tk[es]));
        assert(digit_run_end(tk, es) == L);
        lemma_digit_run_concat(tk, tail, es);
        assert(digit_run_end(s, es) == L);
        assert(fe + 1 < s.len());
        assert(s[fe + 1] == tk[fe + 1]);
        assert(s[es] == tk[es]);
        assert(lex_exponent(s, fe) == POut::<()>::Found((), L as nat));
    } else {
        assert(lexc_exponent(tk, fe) == Some(fe));
        assert(fe == L);
        assert(false);
    }
}

/// A complete numeric token followed by a byte that cannot extend a number
/// is found whole by the streaming tokenizer.
proof fn lemma_lex_extension(tk: Seq<u8>, tail: Seq<u8>)
    requires
        is_number_token(tk),
        tail.len() > 0,
        !is_number_cont(tail[0]),
    ensures
        lex_number(tk + tail) == POut::<()>::Found((), tk.len() as nat),
{
    let s = tk + tail;
    let L = tk.len() as int;
    lemma_token_start(tk);
    assert(s[0] == tk[0]);
    assert(s[L] == tail[0]);
    let i0: int = if is_sign(tk[0]) {
        1
    } else {
        0
    };
    if i0 >= L {
        assert(lexc_number(tk) is None);
    }
    assert(i0 < L);
    assert(s[i0] == tk[i0]);
    if is_digit(tk[i0]) {
        lemma_digit_run_concat(tk, tail, i0);
        let i1 = digit_run_end(tk, i0);
        if i1 >= L {
            assert(lexc_number(tk) == Some(i1));
            assert(i1 == L);
            assert(digit_run_end(s, i0) == L);
            assert(lex_exponent(s, L) == POut::<()>::Found((), L as nat));
        } else {
            assert(digit_run_end(s, i0) == i1);
            assert(s[i1] == tk[i1]);
            if tk[i1] == 0x2eu8 {
                if i1 + 1 < L && is_digit(tk[i1 + 1]) {
                    let f = digit_run_end(tk, i1 + 1);
                    lemma_digit_run_concat(tk, tail, i1 + 1);
                    assert(s[i1 + 1] == tk[i1 + 1]);
                    if f >= L {
                        assert(lexc_number(tk) == Some(f));
                        assert(f == L);
                        assert(digit_run_end(s, i1 + 1) == L);
                        assert(lex_exponent(s, L) == POut::<()>::Found((), L as nat));
                    } else {
                        assert(digit_run_end(s, i1 + 1) == f);
                        assert(lexc_number(tk) == lexc_exponent(tk, f));
                        lemma_exp_extension(tk, tail, f);
                    }
                } else {
                    let f = i1 + 1;
                    if f >= L {
                        assert(lexc_number(tk) == Some(f));
                        assert(f == L);
                        assert(!is_digit(s[i1 + 1]));
                        assert(lex_exponent(s, L) == POut::<()>::Found((), L as nat));
                    } else {
                        assert(s[i1 + 1] == tk[i1 + 1]);
                        assert(!is_digit(s[i1 + 1]));
                        assert(lexc_number(tk) == lexc_exponent(tk, f));
                        lemma_exp_extension(tk, tail, f);
                    }
                }
            } else {
                assert(lexc_number(tk) == lexc_exponent(tk, i1));
                lemma_exp_extension(tk, tail, i1);
            }
        }
    } else {
        assert(tk[i0] == 0x2eu8);
        if !(i0 + 1 < L && is_digit(tk[i0 + 1])) {
            assert(lexc_number(tk) is None);
        }
        assert(i0 + 1 < L && is_digit(tk[i0 + 1]));
        assert(s[i0 + 1] == tk[i0 + 1]);
        let f = digit_run_end(tk, i0 + 1);
        lemma_digit_run_concat(tk, tail, i0 + 1);
        if f >= L {
            assert(lexc_number(tk) == Some(f));
            assert(f == L);
            assert(digit_run_end(s, i0 + 1) == L);
            assert(lex_exponent(s, L) == POut::<()>::Found((), L as nat));
        } else {
            assert(digit_run_end(s, i0 + 1) == f);
            assert(lexc_number(tk) == lexc_exponent(tk, f));
            lemma_exp_extension(tk, tail, f);
        }
    }
}

// ---------------------------------------------------------------------------
// The round trip
// ---------------------------------------------------------------------------
/// The first byte of a rendering is a production's leading byte: never a
/// closing bracket, brace, comma or colon.
proof fn lemma_first_byte(v: JVal)
    requires
        rt_ok(v),
    ensures
        enc_bytes(v).len() > 0,
        enc_bytes(v)[0] == 0x6eu8 || is_number_start(enc_bytes(v)[0]) || enc_bytes(v)[0]
            == 0x22u8 || enc_bytes(v)[0] == 0x5bu8 || enc_bytes(v)[0] == 0x7bu8,
{
    match v {
        JVal::Null => {
            let cs = seq!['n', 'u', 'l', 'l'];
            assert(is_ascii_chars(cs));
            is_ascii_chars_encode_utf8(cs);
            assert(enc_bytes(v)[0] == 'n' as u8);
        },
        JVal::Num(b) => {
            lemma_token_start(encode_utf8(text_of_number(b)));
        },
        JVal::Str(cs) => {
            lemma_encode_utf8_concat(seq!['"'], cs + seq!['"']);
            lemma_encode_ascii_char('"');
            assert(enc_val(v) =~= seq!['"'] + (cs + seq!['"']));
            assert(enc_bytes(v)[0] == '"' as u8);
        },
        JVal::Arr(vs) => {
            lemma_encode_utf8_concat(seq!['['], enc_items(vs) + seq![']']);
            lemma_encode_ascii_char('[');
            assert(enc_val(v) =~= seq!['['] + (enc_items(vs) + seq![']']));
            assert(enc_bytes(v)[0] == '[' as u8);
        },
        JVal::Obj(ps) => {
            lemma_encode_utf8_concat(seq!['{'], enc_pairs(ps) + seq!['}']);
            lemma_encode_ascii_char('{');
            assert(enc_val(v) =~= seq!['{'] + (enc_pairs(ps) + seq!['}']));
            assert(enc_bytes(v)[0] == '{' as u8);
        },
    }
}

/// Law: the round trip. Decoding the rendered text of a well-formed value
/// yields exactly that value back and consumes exactly its rendering. The
/// decoder is streaming, so a bare numeric rendering is only certainly over
/// when a byte follows it; the byte after the rendering may be anything that
/// cannot extend a numeric token, a space for instance.
#[verifier::rlimit(100)]
pub proof fn lemma_round_trip(v: JVal, tail: Seq<u8>)
    requires
        rt_ok(v),
        tail.len() > 0,
        !is_number_cont(tail[0]),
    ensures
        sp_elem(enc_bytes(v) + tail) == POut::<JVal>::Found(v, enc_bytes(v).len() as nat),
    decreases v,
{
    let s = enc_bytes(v) + tail;
    lemma_first_byte(v);
    assert(s[0] == enc_bytes(v)[0]);
    match v {
        JVal::Null => {
            let cs = seq!['n', 'u', 'l', 'l'];
            assert(is_ascii_chars(cs));
            is_ascii_chars_encode_utf8(cs);
            assert(enc_bytes(v).len() == 4);
            assert(s.subrange(0, 4) =~= seq![0x6eu8, 0x75u8, 0x6cu8, 0x6cu8]);
            assert(sp_null(s) == POut::<JVal>::Found(JVal::Null, 4nat));
        },
        JVal::Num(b) => {
            let tk = encode_utf8(text_of_number(b));
            lemma_lex_extension(tk, tail);
            assert(s.subrange(0, tk.len() as int) =~= tk);
            assert(!(s[0] == 0x6eu8));
            assert(sp_elem(s) == POut::<JVal>::Found(JVal::Num(b), tk.len() as nat));
        },
        JVal::Str(cs) => {
            lemma_encode_utf8_concat(seq!['"'], cs + seq!['"']);
            lemma_encode_utf8_concat(cs, seq!['"']);
            lemma_encode_ascii_char('"');
            let bs = encode_utf8(cs);
            assert(enc_val(v) =~= seq!['"'] + (cs + seq!['"']));
            assert(enc_bytes(v) =~= seq![0x22u8] + bs + seq![0x22u8]);
            lemma_clean_encoding(cs);
            assert(s.skip(1) =~= bs + seq![0x22u8] + tail);
            lemma_scan_clean(bs, tail, Seq::<u8>::empty());
            assert(Seq::<u8>::empty() + bs =~= bs);
            vstd::utf8::encode_utf8_valid_utf8(cs);
            vstd::utf8::encode_utf8_decode_utf8(cs);
            assert(scan_string(s.skip(1), Seq::<u8>::empty()) == POut::<Seq<u8>>::Found(
                bs,
                (bs.len() + 1) as nat,
            ));
            assert(enc_bytes(v).len() == bs.len() + 2);
            assert(sp_elem(s) == POut::<JVal>::Found(JVal::Str(cs), (bs.len() + 2) as nat));
        },
        JVal::Arr(vs) => {
            lemma_encode_utf8_concat(seq!['['], enc_items(vs) + seq![']']);
            lemma_encode_utf8_concat(enc_items(vs), seq![']']);
            lemma_encode_ascii_char('[');
            lemma_encode_ascii_char(']');
            let es = encode_utf8(enc_items(vs));
            assert(enc_val(v) =~= seq!['['] + (enc_items(vs) + seq![']']));
            assert(enc_bytes(v) =~= seq![0x5bu8] + es + seq![0x5du8]);
            if vs.len() == 0 {
                assert(enc_items(vs) == Seq::<char>::empty());
                assert(es =~= Seq::<u8>::empty());
                assert(s[1] == 0x5du8);
                assert(s.len() >= 2);
                assert(sp_elem(s) == POut::<JVal>::Found(JVal::Arr(vs), 2nat));
            } else {
                assert(rt_ok(vs[0]));
                lemma_first_byte(vs[0]);
                assert(enc_items(vs) =~= enc_val(vs[0]) + (if vs.len() == 1 {
                    Seq::<char>::empty()
                } else {
                    seq![','] + enc_items(vs.drop_first())
                }));
                lemma_encode_utf8_concat(
                    enc_val(vs[0]),
                    if vs.len() == 1 {
                        Seq::<char>::empty()
                    } else {
                        seq![','] + enc_items(vs.drop_first())
                    },
                );
                assert(es[0] == enc_bytes(vs[0])[0]);
                assert(s[1] == es[0]);
                assert(s[1] != 0x5du8);
                assert(s.skip(1) =~= es + seq![0x5du8] + tail);
                lemma_parse_items(vs, tail, Seq::<JVal>::empty());
                assert(Seq::<JVal>::empty() + vs =~= vs);
                assert(sp_items(s.skip(1), Seq::<JVal>::empty()) == POut::<Seq<JVal>>::Found(
                    vs,
                    (es.len() + 1) as nat,
                ));
                assert(enc_bytes(v).len() == es.len() + 2);
                assert(sp_elem(s) == POut::<JVal>::Found(JVal::Arr(vs), (es.len() + 2) as nat));
            }
        },
        JVal::Obj(ps) => {
            lemma_encode_utf8_concat(seq!['{'], enc_pairs(ps) + seq!['}']);
            lemma_encode_utf8_concat(enc_pairs(ps), seq!['}']);
            lemma_encode_ascii_char('{');
            lemma_encode_ascii_char('}');
            let es = encode_utf8(enc_pairs(ps));
            assert(enc_val(v) =~= seq!['{'] + (enc_pairs(ps) + seq!['}']));
            assert(enc_bytes(v) =~= seq![0x7bu8] + es + seq![0x7du8]);
            if ps.len() == 0 {
                assert(enc_pairs(ps) == Seq::<char>::empty());
                assert(es =~= Seq::<u8>::empty());
                assert(s[1] == 0x7du8);
                assert(sp_elem(s) == POut::<JVal>::Found(JVal::Obj(ps), 2nat));
            } else {
                assert(clean_chars(ps[0].0) && rt_ok(ps[0].1));
                assert(enc_pairs(ps) =~= enc_pair(ps[0]) + (if ps.len() == 1 {
                    Seq::<char>::empty()
                } else {
                    seq![','] + enc_pairs(ps.drop_first())
                }));
                lemma_encode_utf8_concat(
                    enc_pair(ps[0]),
                    if ps.len() == 1 {
                        Seq::<char>::empty()
                    } else {
                        seq![','] + enc_pairs(ps.drop_first())
                    },
                );
                lemma_encode_utf8_concat(seq!['"'], ps[0].0 + seq!['"', ':'] + enc_val(ps[0].1));
                lemma_encode_ascii_char('"');
                assert(enc_pair(ps[0]) =~= seq!['"'] + (ps[0].0 + seq!['"', ':'] + enc_val(
                    ps[0].1,
                )));
                assert(encode_utf8(enc_pair(ps[0]))[0] == 0x22u8);
                assert(es[0] == 0x22u8);
                assert(s[1] == 0x22u8);
                assert(s[1] != 0x7du8);
                assert(s.skip(1) =~= es + seq![0x7du8] + tail);
                lemma_parse_pairs(ps, tail, Seq::<(Seq<char>, JVal)>::empty());
                assert(Seq::<(Seq<char>, JVal)>::empty() + ps =~= ps);
                assert(sp_pairs(s.skip(1), Seq::<(Seq<char>, JVal)>::empty()) == POut::<
                    Seq<(Seq<char>, JVal)>,
                >::Found(ps, (es.len() + 1) as nat));
                lemma_dedup_distinct(ps);
                assert(enc_bytes(v).len() == es.len() + 2);
                assert(sp_elem(s) == POut::<JVal>::Found(JVal::Obj(ps), (es.len() + 2) as nat));
            }
        },
    }
}

/// The elements of a non-empty array: parsing the rendered, comma-joined
/// elements followed by the closing bracket collects exactly those elements.
proof fn lemma_parse_items(vs: Seq<JVal>, tail2: Seq<u8>, acc: Seq<JVal>)
    requires
        vs.len() >= 1,
        forall|i: int| 0 <= i < vs.len() ==> rt_ok(#[trigger] vs[i]),
    ensures
        sp_items(encode_utf8(enc_items(vs)) + seq![0x5du8] + tail2, acc) == POut::<
            Seq<JVal>,
        >::Found(acc + vs, (encode_utf8(enc_items(vs)).len() + 1) as nat),
    decreases vs,
{
    let es = encode_utf8(enc_items(vs));
    let t = es + seq![0x5du8] + tail2;
    let b0 = enc_bytes(vs[0]);
    if vs.len() == 1 {
        assert(enc_items(vs) == enc_val(vs[0]));
        let tl = seq![0x5du8] + tail2;
        assert(t =~= b0 + tl);
        lemma_round_trip(vs[0], tl);
        assert(sp_elem(t) == POut::<JVal>::Found(vs[0], b0.len() as nat));
        assert(t[b0.len() as int] == 0x5du8);
        assert(b0.len() < t.len());
        assert(acc.push(vs[0]) =~= acc + vs);
        assert(sp_items(t, acc) == POut::<Seq<JVal>>::Found(acc + vs, (b0.len() + 1) as nat));
    } else {
        let rest = vs.drop_first();
        assert(enc_items(vs) == enc_val(vs[0]) + seq![','] + enc_items(rest));
        lemma_encode_utf8_concat(enc_val(vs[0]) + seq![','], enc_items(rest));
        lemma_encode_utf8_concat(enc_val(vs[0]), seq![',']);
        lemma_encode_ascii_char(',');
        let es2 = encode_utf8(enc_items(rest));
        assert((enc_val(vs[0]) + seq![',']) + enc_items(rest) =~= enc_items(vs));
        assert(es =~= b0 + seq![0x2cu8] + es2);
        let tl = seq![0x2cu8] + es2 + seq![0x5du8] + tail2;
        assert(t =~= b0 + tl);
        lemma_round_trip(vs[0], tl);
        assert(sp_elem(t) == POut::<JVal>::Found(vs[0], b0.len() as nat));
        let n0 = b0.len() as int;
        assert(t[n0] == 0x2cu8);
        assert(n0 < t.len());
        assert(t.skip(n0 + 1) =~= es2 + seq![0x5du8] + tail2);
        assert(forall|i: int| 0 <= i < rest.len() ==> rt_ok(#[trigger] rest[i]));
        lemma_parse_items(rest, tail2, acc.push(vs[0]));
        assert(acc.push(vs[0]) + rest =~= acc + vs);
        assert(sp_items(t, acc) == add_consumed(
            sp_items(t.skip(n0 + 1), acc.push(vs[0])),
            (n0 + 1) as nat,
        ));
        assert(es.len() == n0 + 1 + es2.len());
        assert(sp_items(t, acc) == POut::<Seq<JVal>>::Found(acc + vs, (es.len() + 1) as nat));
    }
}

/// The pairs of a non-empty object: parsing the rendered, comma-joined pairs
/// followed by the closing brace collects exactly those pairs.
#[verifier::rlimit(100)]
proof fn lemma_parse_pairs(ps: Seq<(Seq<char>, JVal)>, tail2: Seq<u8>, acc: Seq<(Seq<char>, JVal)>)
    requires
        ps.len() >= 1,
        forall|i: int|
            0 <= i < ps.len() ==> clean_chars((#[trigger] ps[i]).0) && rt_ok(ps[i].1),
    ensures
        sp_pairs(encode_utf8(enc_pairs(ps)) + seq![0x7du8] + tail2, acc) == POut::<
            Seq<(Seq<char>, JVal)>,
        >::Found(acc + ps, (encode_utf8(enc_pairs(ps)).len() + 1) as nat),
    decreases ps,
{
    let es = encode_utf8(enc_pairs(ps));
    let t = es + seq![0x7du8] + tail2;
    let p = ps[0];
    let pb = encode_utf8(enc_pair(p));
    // decompose the pair's rendering
    lemma_encode_utf8_concat(seq!['"'], p.0 + seq!['"', ':'] + enc_val(p.1));
    lemma_encode_utf8_concat(p.0, seq!['"', ':'] + enc_val(p.1));
    lemma_encode_utf8_concat(seq!['"', ':'], enc_val(p.1));
    lemma_encode_ascii_char('"');
    let kb = encode_utf8(p.0);
    let vb = enc_bytes(p.1);
    assert(is_ascii_chars(seq!['"', ':']));
    is_ascii_chars_encode_utf8(seq!['"', ':']);
    assert(encode_utf8(seq!['"', ':']) =~= seq![0x22u8, 0x3au8]);
    assert(enc_pair(p) =~= seq!['"'] + (p.0 + (seq!['"', ':'] + enc_val(p.1))));
    assert(p.0 + (seq!['"', ':'] + enc_val(p.1)) =~= p.0 + seq!['"', ':'] + enc_val(p.1));
    assert(pb =~= seq![0x22u8] + kb + seq![0x22u8, 0x3au8] + vb);
    let tl_pair: Seq<u8> = if ps.len() == 1 {
        seq![0x7du8] + tail2
    } else {
        seq![0x2cu8] + encode_utf8(enc_pairs(ps.drop_first())) + seq![0x7du8] + tail2
    };
    if ps.len() == 1 {
        assert(enc_pairs(ps) == enc_pair(p));
        assert(t =~= pb + tl_pair);
    } else {
        assert(enc_pairs(ps) == enc_pair(p) + seq![','] + enc_pairs(ps.drop_first()));
        lemma_encode_utf8_concat(enc_pair(p) + seq![','], enc_pairs(ps.drop_first()));
        lemma_encode_utf8_concat(enc_pair(p), seq![',']);
        lemma_encode_ascii_char(',');
        assert((enc_pair(p) + seq![',']) + enc_pairs(ps.drop_first()) =~= enc_pairs(ps));
        assert(es =~= pb + seq![0x2cu8] + encode_utf8(enc_pairs(ps.drop_first())));
        assert(t =~= pb + tl_pair);
    }
    // parse the pair at the front of t
    let u = pb + tl_pair;
    assert(clean_chars(p.0) && rt_ok(p.1));
    assert(u[0] == 0x22u8);
    lemma_clean_encoding(p.0);
    assert(u.skip(1) =~= kb + seq![0x22u8] + (seq![0x3au8] + vb + tl_pair));
    lemma_scan_clean(kb, seq![0x3au8] + vb + tl_pair, Seq::<u8>::empty());
    assert(Seq::<u8>::empty() + kb =~= kb);
    vstd::utf8::encode_utf8_valid_utf8(p.0);
    vstd::utf8::encode_utf8_decode_utf8(p.0);
    let m = (kb.len() + 2) as int;
    assert(scan_string(u.skip(1), Seq::<u8>::empty()) == POut::<Seq<u8>>::Found(
        kb,
        (kb.len() + 1) as nat,
    ));
    assert(m < u.len());
    assert(u[m] == 0x3au8);
    assert(u.skip(m + 1) =~= vb + tl_pair);
    assert(tl_pair.len() > 0 && !is_number_cont(tl_pair[0]));
    lemma_round_trip(p.1, tl_pair);
    assert(sp_elem(u.skip(m + 1)) == POut::<JVal>::Found(p.1, vb.len() as nat));
    assert((decode_utf8(kb), p.1) == p);
    assert(sp_pair(u) == POut::<(Seq<char>, JVal)>::Found(p, (m + 1 + vb.len()) as nat));
    assert(pb.len() == m + 1 + vb.len());
    // and the list structure around it
    assert(t =~= u);
    let n0 = pb.len() as int;
    if ps.len() == 1 {
        assert(t[n0] == 0x7du8);
        assert(n0 < t.len());
        assert(acc.push(p) =~= acc + ps);
        assert(sp_pairs(t, acc) == POut::<Seq<(Seq<char>, JVal)>>::Found(
            acc + ps,
            (es.len() + 1) as nat,
        ));
    } else {
        let rest = ps.drop_first();
        let es2 = encode_utf8(enc_pairs(rest));
        assert(t[n0] == 0x2cu8);
        assert(n0 < t.len());
        assert(t.skip(n0 + 1) =~= es2 + seq![0x7du8] + tail2);
        assert(forall|i: int|
            0 <= i < rest.len() ==> clean_chars((#[trigger] rest[i]).0) && rt_ok(rest[i].1));
        lemma_parse_pairs(rest, tail2, acc.push(p));
        assert(acc.push(p) + rest =~= acc + ps);
        assert(sp_pairs(t, acc) == add_consumed(
            sp_pairs(t.skip(n0 + 1), acc.push(p)),
            (n0 + 1) as nat,
        ));
        assert(es.len() == n0 + 1 + es2.len());
        assert(sp_pairs(t, acc) == POut::<Seq<(Seq<char>, JVal)>>::Found(
            acc + ps,
            (es.len() + 1) as nat,
        ));
    }
}

/// Law: the round trip on a complete input. For a well-formed value that is
/// not a bare number, decoding exactly its rendering yields the value back
/// with nothing left over. (A bare numeric rendering at the very end of the
/// input stays incomplete under the streaming decoder, since more digits
/// could still arrive; see [`lemma_round_trip`] for that case.)
#[verifier::rlimit(100)]
pub proof fn lemma_round_trip_complete(v: JVal)
    requires
        rt_ok(v),
        !(v is Num),
    ensures
        sp_elem(enc_bytes(v)) == POut::<JVal>::Found(v, enc_bytes(v).len() as nat),
{
    let s = enc_bytes(v);
    lemma_first_byte(v);
    match v {
        JVal::Null => {
            let cs = seq!['n', 'u', 'l', 'l'];
            assert(is_ascii_chars(cs));
            is_ascii_chars_encode_utf8(cs);
            assert(s.subrange(0, 4) =~= seq![0x6eu8, 0x75u8, 0x6cu8, 0x6cu8]);
            assert(sp_null(s) == POut::<JVal>::Found(JVal::Null, 4nat));
        },
        JVal::Num(_) => {
            assert(false);  // ruled out by the precondition
        },
        JVal::Str(cs) => {
            lemma_encode_utf8_concat(seq!['"'], cs + seq!['"']);
            lemma_encode_utf8_concat(cs, seq!['"']);
            lemma_encode_ascii_char('"');
            let bs = encode_utf8(cs);
            assert(enc_val(v) =~= seq!['"'] + (cs + seq!['"']));
            assert(s =~= seq![0x22u8] + bs + seq![0x22u8]);
            lemma_clean_encoding(cs);
            assert(s.skip(1) =~= bs + seq![0x22u8] + Seq::<u8>::empty());
            lemma_scan_clean(bs, Seq::<u8>::empty(), Seq::<u8>::empty());
            assert(Seq::<u8>::empty() + bs =~= bs);
            vstd::utf8::encode_utf8_valid_utf8(cs);
            vstd::utf8::encode_utf8_decode_utf8(cs);
            assert(s.len() == bs.len() + 2);
            assert(sp_elem(s) == POut::<JVal>::Found(JVal::Str(cs), (bs.len() + 2) as nat));
        },
        JVal::Arr(vs) => {
            lemma_encode_utf8_concat(seq!['['], enc_items(vs) + seq![']']);
            lemma_encode_utf8_concat(enc_items(vs), seq![']']);
            lemma_encode_ascii_char('[');
            lemma_encode_ascii_char(']');
            let es = encode_utf8(enc_items(vs));
            assert(enc_val(v) =~= seq!['['] + (enc_items(vs) + seq![']']));
            assert(s =~= seq![0x5bu8] + es + seq![0x5du8]);
            if vs.len() == 0 {
                assert(enc_items(vs) == Seq::<char>::empty());
                assert(es =~= Seq::<u8>::empty());
                assert(s[1] == 0x5du8);
                assert(sp_elem(s) == POut::<JVal>::Found(JVal::Arr(vs), 2nat));
            } else {
                assert(rt_ok(vs[0]));
                lemma_first_byte(vs[0]);
                assert(enc_items(vs) =~= enc_val(vs[0]) + (if vs.len() == 1 {
                    Seq::<char>::empty()
                } else {
                    seq![','] + enc_items(vs.drop_first())
                }));
                lemma_encode_utf8_concat(
                    enc_val(vs[0]),
                    if vs.len() == 1 {
                        Seq::<char>::empty()
                    } else {
                        seq![','] + enc_items(vs.drop_first())
                    },
                );
                assert(es[0] == enc_bytes(vs[0])[0]);
                assert(s[1] == es[0]);
                assert(s[1] != 0x5du8);
                assert(s.skip(1) =~= es + seq![0x5du8] + Seq::<u8>::empty());
                lemma_parse_items(vs, Seq::<u8>::empty(), Seq::<JVal>::empty());
                assert(Seq::<JVal>::empty() + vs =~= vs);
                assert(s.len() == es.len() + 2);
                assert(sp_elem(s) == POut::<JVal>::Found(JVal::Arr(vs), (es.len() + 2) as nat));
            }
        },
        JVal::Obj(ps) => {
            lemma_encode_utf8_concat(seq!['{'], enc_pairs(ps) + seq!['}']);
            lemma_encode_utf8_concat(enc_pairs(ps), seq!['}']);
            lemma_encode_ascii_char('{');
            lemma_encode_ascii_char('}');
            let es = encode_utf8(enc_pairs(ps));
            assert(enc_val(v) =~= seq!['{'] + (enc_pairs(ps) + seq!['}']));
            assert(s =~= seq![0x7bu8] + es + seq![0x7du8]);
            if ps.len() == 0 {
                assert(enc_pairs(ps) == Seq::<char>::empty());
                assert(es =~= Seq::<u8>::empty());
                assert(s[1] == 0x7du8);
                assert(sp_elem(s) == POut::<JVal>::Found(JVal::Obj(ps), 2nat));
            } else {
                assert(clean_chars(ps[0].0) && rt_ok(ps[0].1));
                assert(enc_pairs(ps) =~= enc_pair(ps[0]) + (if ps.len() == 1 {
                    Seq::<char>::empty()
                } else {
                    seq![','] + enc_pairs(ps.drop_first())
                }));
                lemma_encode_utf8_concat(
                    enc_pair(ps[0]),
                    if ps.len() == 1 {
                        Seq::<char>::empty()
                    } else {
                        seq![','] + enc_pairs(ps.drop_first())
                    },
                );
                lemma_encode_utf8_concat(seq!['"'], ps[0].0 + seq!['"', ':'] + enc_val(ps[0].1));
                lemma_encode_ascii_char('"');
                assert(enc_pair(ps[0]) =~= seq!['"'] + (ps[0].0 + seq!['"', ':'] + enc_val(
                    ps[0].1,
                )));
                assert(encode_utf8(enc_pair(ps[0]))[0] == 0x22u8);
                assert(es[0] == 0x22u8);
                assert(s[1] == 0x22u8);
                assert(s[1] != 0x7du8);
                assert(s.skip(1) =~= es + seq![0x7du8] + Seq::<u8>::empty());
                lemma_parse_pairs(ps, Seq::<u8>::empty(), Seq::<(Seq<char>, JVal)>::empty());
                assert(Seq::<(Seq<char>, JVal)>::empty() + ps =~= ps);
                lemma_dedup_distinct(ps);
                assert(s.len() == es.len() + 2);
                assert(sp_elem(s) == POut::<JVal>::Found(JVal::Obj(ps), (es.len() + 2) as nat));
            }
        },
    }
}

} // verus!
