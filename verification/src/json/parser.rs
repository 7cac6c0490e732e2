//! The grammar parser: a recursive-descent decoder from a byte slice to one
//! [`JsonNode`], returning the unconsumed remainder. Each executable
//! production is verified against the corresponding spec production of
//! [`crate::json::model`].

use vstd::prelude::*;
use vstd::slice::slice_subrange;
use vstd::utf8::{encode_scalar, encode_utf8, is_scalar, valid_utf8};

use crate::json::model::{
    add_consumed, bits_of_number, dedup_first, digit_run_end, hex4_val, hex_val, is_digit,
    is_finite_bits, is_hex_digit, is_number_start, is_number_token, key_in, lemma_dedup_keys,
    lemma_dedup_push, lex_exponent, lex_number, simple_escape_bytes, scan_string, scan_unicode,
    sp_elem, sp_items, sp_null, sp_pair, sp_pairs, text_of_number, JVal, POut,
};
use crate::json::{
    items_view, lemma_items_view_push, lemma_pairs_view, lemma_pairs_view_push, pairs_view,
    JsonNode, NumberLit, ParseError,
};

verus! {

/// Relies on nom's `double` and on the standard rendering of its result.
/// `double` recognizes exactly this grammar's numeric tokens (optional sign,
/// digits with an optional fraction, where a bare leading dot is allowed,
/// and an optional complete exponent) and converts the recognized text with
/// the standard library's float parser; the bytes `start..end` are one whole
/// such token, so the recognizer consumes them all and the conversion
/// succeeds. The token text alone determines the bits, and the bits alone
/// determine the rendered text. The standard rendering of a finite value is
/// the shortest decimal text that the standard parser reads back as the same
/// value, and it never uses exponent notation, so that text is itself one
/// complete numeric token of this grammar and converting it recovers the
/// bits.
#[verifier::external_body]
fn number_value(input: &[u8], start: usize, end: usize) -> (r: (u64, String))
    requires
        start < end <= input@.len(),
        lex_number(input@.skip(start as int)) == POut::<()>::Found((), (end - start) as nat),
    ensures
        r.0 == bits_of_number(input@.subrange(start as int, end as int)),
        r.1@ == text_of_number(r.0),
        vstd::utf8::is_ascii_chars(r.1@),
        is_finite_bits(r.0) ==> is_number_token(encode_utf8(r.1@)),
        is_finite_bits(r.0) ==> bits_of_number(encode_utf8(r.1@)) == r.0,
{
    let token = &input[start..end];
    let (_rest, value) = nom::number::complete::double::<&[u8], nom::error::Error<&[u8]>>(token)
        .expect("a recognized numeric token parses as a float");
    (value.to_bits(), value.to_string())
}

/// Relies on `String::from_utf8`: it succeeds exactly when the bytes are
/// valid UTF-8, and the returned string holds exactly those bytes.
#[verifier::external_body]
fn string_from_utf8(bytes: Vec<u8>) -> (r: Option<String>)
    ensures
        r is Some <==> valid_utf8(bytes@),
        r matches Some(s) ==> encode_utf8(s@) == bytes@,
{
    String::from_utf8(bytes).ok()
}

// ---------------------------------------------------------------------------
// Numeric tokens
// ---------------------------------------------------------------------------
proof fn lemma_digit_run_bounds(s: Seq<u8>, i: int)
    requires
        0 <= i <= s.len(),
    ensures
        i <= digit_run_end(s, i) <= s.len(),
    decreases s.len() - i,
{
    if i < s.len() && is_digit(s[i]) {
        lemma_digit_run_bounds(s, i + 1);
    }
}

proof fn lemma_digit_run_skip(s: Seq<u8>, k: int, i: int)
    requires
        0 <= k <= i <= s.len(),
    ensures
        digit_run_end(s, i) == digit_run_end(s.skip(k), i - k) + k,
    decreases s.len() - i,
{
    if i < s.len() && is_digit(s[i]) {
        lemma_digit_run_skip(s, k, i + 1);
    }
}

/// Finds the end of the run of decimal digits that begins at `i`.
fn digits_end(input: &[u8], i: usize) -> (r: usize)
    requires
        i <= input@.len(),
    ensures
        i <= r <= input@.len(),
        r == digit_run_end(input@, i as int),
{
    let mut j = i;
    loop
        invariant
            i <= j <= input@.len(),
            digit_run_end(input@, i as int) == digit_run_end(input@, j as int),
        decreases input@.len() - j,
    {
        if j < input.len() {
            let b = input[j];
            if 0x30 <= b && b <= 0x39 {
                j = j + 1;
                continue ;
            }
        }
        return j;
    }
}

// ---------------------------------------------------------------------------
// String literals
// ---------------------------------------------------------------------------
proof fn lemma_add_add<T>(r: POut<T>, a: nat, b: nat)
    ensures
        add_consumed(add_consumed(r, a), b) == add_consumed(r, (a + b) as nat),
{
}

fn is_hex_byte(b: u8) -> (r: bool)
    ensures
        r == is_hex_digit(b),
{
    (0x30 <= b && b <= 0x39) || (0x41 <= b && b <= 0x46) || (0x61 <= b && b <= 0x66)
}

fn hex_digit_val(b: u8) -> (r: u32)
    requires
        is_hex_digit(b),
    ensures
        r == hex_val(b),
        r <= 15,
{
    if 0x30 <= b && b <= 0x39 {
        (b - 0x30) as u32
    } else if 0x41 <= b && b <= 0x46 {
        (b - 0x41 + 10) as u32
    } else {
        (b - 0x61 + 10) as u32
    }
}

/// Appends the UTF-8 encoding of one Unicode scalar value.
fn push_scalar_bytes(out: &mut Vec<u8>, v: u32)
    requires
        is_scalar(v),
    ensures
        final(out)@ == old(out)@ + encode_scalar(v),
{
    if v <= 0x7F {
        out.push((v & 0x7F) as u8);
        assert(out@ =~= old(out)@ + encode_scalar(v));
    } else if v <= 0x7FF {
        assert(((v >> 6) & 0x1F) <= 0x1F) by (bit_vector);
        assert((v & 0x3F) <= 0x3F) by (bit_vector);
        out.push(0xC0 | ((v >> 6) & 0x1F) as u8);
        out.push(0x80 | (v & 0x3F) as u8);
        assert(out@ =~= old(out)@ + encode_scalar(v));
    } else if v <= 0xFFFF {
        assert(((v >> 12) & 0x0F) <= 0x0F) by (bit_vector);
        assert(((v >> 6) & 0x3F) <= 0x3F) by (bit_vector);
        assert((v & 0x3F) <= 0x3F) by (bit_vector);
        out.push(0xE0 | ((v >> 12) & 0x0F) as u8);
        out.push(0x80 | ((v >> 6) & 0x3F) as u8);
        out.push(0x80 | (v & 0x3F) as u8);
        assert(out@ =~= old(out)@ + encode_scalar(v));
    } else {
        assert(((v >> 18) & 0x7) <= 0x7) by (bit_vector);
        assert(((v >> 12) & 0x3F) <= 0x3F) by (bit_vector);
        assert(((v >> 6) & 0x3F) <= 0x3F) by (bit_vector);
        assert((v & 0x3F) <= 0x3F) by (bit_vector);
        out.push(0xF0 | ((v >> 18) & 0x7) as u8);
        out.push(0x80 | ((v >> 12) & 0x3F) as u8);
        out.push(0x80 | ((v >> 6) & 0x3F) as u8);
        out.push(0x80 | (v & 0x3F) as u8);
        assert(out@ =~= old(out)@ + encode_scalar(v));
    }
}

/// Parses the string literal whose opening quote stands at `pos`: returns the
/// fully unescaped text and the position just past the closing quote. Content
/// bytes whose unescaped form is not valid UTF-8 cannot be carried by the
/// string type and are rejected as malformed.
#[verifier::loop_isolation(false)]
#[verifier::rlimit(60)]
fn p_string(input: &[u8], pos: usize) -> (r: Result<(String, usize), ParseError>)
    requires
        pos < input@.len(),
        input@[pos as int] == 0x22u8,
    ensures
        ({
            let sc = scan_string(input@.skip(pos as int + 1), Seq::<u8>::empty());
            match r {
                Ok((s, end)) => sc matches POut::Found(c, n) && valid_utf8(c) && encode_utf8(s@)
                    == c && end == pos + 1 + n && end <= input@.len(),
                Err(ParseError::Incomplete) => sc is Incomplete,
                Err(ParseError::Malformed) => sc is Malformed || (sc matches POut::Found(c, _)
                    && !valid_utf8(c)),
            }
        }),
{
    let len = input.len();
    let mut content: Vec<u8> = Vec::new();
    let mut cur = pos + 1;
    loop
        invariant
            pos + 1 <= cur <= len,
            scan_string(input@.skip(pos as int + 1), Seq::<u8>::empty()) == add_consumed(
                scan_string(input@.skip(cur as int), content@),
                (cur - (pos + 1)) as nat,
            ),
        decreases len - cur,
    {
        let ghost t = input@.skip(cur as int);
        if cur == len {
            return Err(ParseError::Incomplete);
        }
        let b = input[cur];
        let ghost c0 = content@;
        if b == 0x22 {
            proof {
                assert(scan_string(t, content@) == POut::<Seq<u8>>::Found(content@, 1nat));
            }
            let end = cur + 1;
            match string_from_utf8(content) {
                Some(s) => {
                    return Ok((s, end));
                },
                None => {
                    return Err(ParseError::Malformed);
                },
            }
        } else if b == 0x5c {
            if len - cur == 1 {
                return Err(ParseError::Incomplete);
            }
            let e = input[cur + 1];
            if e == 0x5c || e == 0x22 || e == 0x2f || e == 0x62 || e == 0x6e || e == 0x72 || e
                == 0x74 {
                if e == 0x62 {
                    content.push(0x00);
                    content.push(0x38);
                } else if e == 0x6e {
                    content.push(0x0a);
                } else if e == 0x72 {
                    content.push(0x0d);
                } else if e == 0x74 {
                    content.push(0x09);
                } else {
                    content.push(e);
                }
                proof {
                    assert(content@ =~= c0 + simple_escape_bytes(e));
                    assert(t.skip(2) =~= input@.skip(cur as int + 2));
                    assert(scan_string(t, c0) == add_consumed(
                        scan_string(input@.skip(cur as int + 2), content@),
                        2nat,
                    ));
                    lemma_add_add(
                        scan_string(input@.skip(cur as int + 2), content@),
                        2nat,
                        (cur - (pos + 1)) as nat,
                    );
                }
                cur = cur + 2;
            } else if e == 0x75 {
                let rem = len - cur;
                proof {
                    assert(scan_string(t, c0) == scan_unicode(t, c0));
                    assert(t.len() == input@.len() - cur);
                    if cur + 2 < input@.len() {
                        assert(t[2] == input@[cur as int + 2]);
                    }
                    if cur + 3 < input@.len() {
                        assert(t[3] == input@[cur as int + 3]);
                    }
                    if cur + 4 < input@.len() {
                        assert(t[4] == input@[cur as int + 4]);
                    }
                    if cur + 5 < input@.len() {
                        assert(t[5] == input@[cur as int + 5]);
                    }
                }
                if rem >= 3 && !is_hex_byte(input[cur + 2]) {
                    return Err(ParseError::Malformed);
                }
                if rem >= 4 && !is_hex_byte(input[cur + 3]) {
                    return Err(ParseError::Malformed);
                }
                if rem >= 5 && !is_hex_byte(input[cur + 4]) {
                    return Err(ParseError::Malformed);
                }
                if rem >= 6 && !is_hex_byte(input[cur + 5]) {
                    return Err(ParseError::Malformed);
                }
                if rem < 6 {
                    return Err(ParseError::Incomplete);
                }
                let v: u32 = hex_digit_val(input[cur + 2]) * 0x1000 + hex_digit_val(
                    input[cur + 3],
                ) * 0x100 + hex_digit_val(input[cur + 4]) * 0x10 + hex_digit_val(input[cur + 5]);
                proof {
                    assert(t.subrange(2, 6) =~= seq![
                        input@[cur as int + 2],
                        input@[cur as int + 3],
                        input@[cur as int + 4],
                        input@[cur as int + 5],
                    ]);
                    assert(hex4_val(t.subrange(2, 6)) == v);
                }
                if 0xD800 <= v && v <= 0xDFFF {
                    proof {
                        assert(!is_scalar(v));
                    }
                    return Err(ParseError::Malformed);
                }
                proof {
                    assert(is_scalar(v));
                }
                push_scalar_bytes(&mut content, v);
                proof {
                    assert(content@ =~= c0 + encode_scalar(v));
                    assert(t.skip(6) =~= input@.skip(cur as int + 6));
                    assert(scan_unicode(t, c0) == add_consumed(
                        scan_string(t.skip(6), c0 + encode_scalar(hex4_val(t.subrange(2, 6)))),
                        6nat,
                    ));
                    assert(scan_string(t, c0) == add_consumed(
                        scan_string(input@.skip(cur as int + 6), content@),
                        6nat,
                    ));
                    lemma_add_add(
                        scan_string(input@.skip(cur as int + 6), content@),
                        6nat,
                        (cur - (pos + 1)) as nat,
                    );
                }
                cur = cur + 6;
            } else {
                return Err(ParseError::Malformed);
            }
        } else {
            content.push(b);
            proof {
                assert(content@ =~= c0.push(b));
                assert(t.skip(1) =~= input@.skip(cur as int + 1));
                assert(scan_string(t, c0) == add_consumed(
                    scan_string(input@.skip(cur as int + 1), content@),
                    1nat,
                ));
                lemma_add_add(
                    scan_string(input@.skip(cur as int + 1), content@),
                    1nat,
                    (cur - (pos + 1)) as nat,
                );
            }
            cur = cur + 1;
        }
    }
}

/// Extracts the numeric token that ends at `end` and converts it. The caller
/// has established that the streaming tokenizer finds exactly this token.
fn number_token_value(input: &[u8], pos: usize, end: usize) -> (r: Result<
    (NumberLit, usize),
    ParseError,
>)
    requires
        pos < end <= input@.len(),
        lex_number(input@.skip(pos as int)) == POut::<()>::Found((), (end - pos) as nat),
    ensures
        ({
            let sp = lex_number(input@.skip(pos as int));
            match r {
                Ok((n, e)) => pos < e <= input@.len() && sp == POut::<()>::Found(
                    (),
                    (e - pos) as nat,
                ) && n.bits == bits_of_number(input@.subrange(pos as int, e as int)) && n.wf(),
                Err(_) => false,
            }
        }),
{
    let (bits, text) = number_value(input, pos, end);
    Ok((NumberLit { bits, text }, end))
}

/// Parses the optional exponent of a numeric token whose mantissa ends at
/// `fe`, finishing the token.
#[verifier::rlimit(60)]
fn p_exponent(input: &[u8], pos: usize, fe: usize) -> (r: Result<(NumberLit, usize), ParseError>)
    requires
        pos < fe < input@.len(),
        lex_number(input@.skip(pos as int)) == lex_exponent(
            input@.skip(pos as int),
            fe - pos,
        ),
    ensures
        ({
            let sp = lex_number(input@.skip(pos as int));
            match r {
                Ok((n, end)) => pos < end <= input@.len() && sp == POut::<()>::Found(
                    (),
                    (end - pos) as nat,
                ) && n.bits == bits_of_number(input@.subrange(pos as int, end as int)) && n.wf(),
                Err(ParseError::Incomplete) => sp is Incomplete,
                Err(ParseError::Malformed) => sp is Malformed,
            }
        }),
{
    let ghost s = input@.skip(pos as int);
    let len = input.len();
    let b = input[fe];
    if b == 0x65 || b == 0x45 {
        if len - fe == 1 {
            return Err(ParseError::Incomplete);
        }
        let b1 = input[fe + 1];
        let es: usize = if b1 == 0x2b || b1 == 0x2d {
            fe + 2
        } else {
            fe + 1
        };
        if es >= len {
            return Err(ParseError::Incomplete);
        }
        let b2 = input[es];
        if 0x30 <= b2 && b2 <= 0x39 {
            let k = digits_end(input, es);
            proof {
                lemma_digit_run_skip(input@, pos as int, es as int);
                lemma_digit_run_bounds(input@, es as int + 1);
                assert(digit_run_end(input@, es as int) == digit_run_end(input@, es as int + 1));
            }
            if k >= len {
                return Err(ParseError::Incomplete);
            }
            number_token_value(input, pos, k)
        } else {
            number_token_value(input, pos, fe)
        }
    } else {
        number_token_value(input, pos, fe)
    }
}

/// Parses the permissive numeric literal beginning at `pos`.
#[verifier::rlimit(60)]
fn p_number(input: &[u8], pos: usize) -> (r: Result<(NumberLit, usize), ParseError>)
    requires
        pos < input@.len(),
        is_number_start(input@[pos as int]),
    ensures
        ({
            let sp = lex_number(input@.skip(pos as int));
            match r {
                Ok((n, end)) => pos < end <= input@.len() && sp == POut::<()>::Found(
                    (),
                    (end - pos) as nat,
                ) && n.bits == bits_of_number(input@.subrange(pos as int, end as int)) && n.wf(),
                Err(ParseError::Incomplete) => sp is Incomplete,
                Err(ParseError::Malformed) => sp is Malformed,
            }
        }),
{
    let ghost s = input@.skip(pos as int);
    let len = input.len();
    let b = input[pos];
    let a0: usize = if b == 0x2b || b == 0x2d {
        pos + 1
    } else {
        pos
    };
    if a0 >= len {
        return Err(ParseError::Incomplete);
    }
    let b0 = input[a0];
    if 0x30 <= b0 && b0 <= 0x39 {
        let a1 = digits_end(input, a0);
        proof {
            lemma_digit_run_skip(input@, pos as int, a0 as int);
            lemma_digit_run_bounds(input@, a0 as int + 1);
            assert(digit_run_end(input@, a0 as int) == digit_run_end(input@, a0 as int + 1));
        }
        if a1 >= len {
            return Err(ParseError::Incomplete);
        }
        if input[a1] == 0x2e {
            if len - a1 == 1 {
                return Err(ParseError::Incomplete);
            }
            let b1 = input[a1 + 1];
            if 0x30 <= b1 && b1 <= 0x39 {
                let a2 = digits_end(input, a1 + 1);
                proof {
                    lemma_digit_run_skip(input@, pos as int, a1 as int + 1);
                    lemma_digit_run_bounds(input@, a1 as int + 2);
                    assert(digit_run_end(input@, a1 as int + 1) == digit_run_end(input@, a1 as int + 2));
                }
                if a2 >= len {
                    return Err(ParseError::Incomplete);
                }
                p_exponent(input, pos, a2)
            } else {
                p_exponent(input, pos, a1 + 1)
            }
        } else {
            p_exponent(input, pos, a1)
        }
    } else if b0 == 0x2e {
        if len - a0 == 1 {
            return Err(ParseError::Incomplete);
        }
        let b1 = input[a0 + 1];
        if 0x30 <= b1 && b1 <= 0x39 {
            let a2 = digits_end(input, a0 + 1);
            proof {
                lemma_digit_run_skip(input@, pos as int, a0 as int + 1);
                lemma_digit_run_bounds(input@, a0 as int + 2);
                assert(digit_run_end(input@, a0 as int + 1) == digit_run_end(input@, a0 as int + 2));
            }
            if a2 >= len {
                return Err(ParseError::Incomplete);
            }
            p_exponent(input, pos, a2)
        } else {
            Err(ParseError::Malformed)
        }
    } else {
        Err(ParseError::Malformed)
    }
}

// ---------------------------------------------------------------------------
// Objects: the first occurrence of a key wins
// ---------------------------------------------------------------------------
/// Whether the object built so far already holds the key.
#[verifier::loop_isolation(false)]
fn obj_has_key(pairs: &Vec<(String, JsonNode)>, key: &String) -> (r: bool)
    ensures
        r == key_in(pairs_view(pairs@), key@),
{
    let ghost pv = pairs_view(pairs@);
    proof {
        lemma_pairs_view(pairs@);
    }
    let mut i: usize = 0;
    while i < pairs.len()
        invariant
            i <= pairs@.len(),
            forall|j: int| 0 <= j < i ==> (#[trigger] pv[j]).0 != key@,
        decreases pairs@.len() - i,
    {
        let p = &pairs[i];
        if p.0 == *key {
            proof {
                assert(pv[i as int].0 == key@);
            }
            return true;
        }
        i = i + 1;
    }
    proof {
        if key_in(pv, key@) {
            let j = choose|j: int| 0 <= j < pv.len() && pv[j].0 == key@;
            assert(false);
        }
    }
    false
}

// ---------------------------------------------------------------------------
// The productions
// ---------------------------------------------------------------------------
/// Parses the literal `null` beginning at `pos`.
fn p_null(input: &[u8], pos: usize) -> (r: Result<usize, ParseError>)
    requires
        pos < input@.len(),
        input@[pos as int] == 0x6eu8,
    ensures
        ({
            let sp = sp_null(input@.skip(pos as int));
            match r {
                Ok(end) => end == pos + 4 && end <= input@.len() && sp == POut::<JVal>::Found(
                    JVal::Null,
                    4nat,
                ),
                Err(ParseError::Incomplete) => sp is Incomplete,
                Err(ParseError::Malformed) => sp is Malformed,
            }
        }),
{
    let ghost s = input@.skip(pos as int);
    let ghost lit: Seq<u8> = seq![0x6eu8, 0x75u8, 0x6cu8, 0x6cu8];
    let len = input.len();
    let avail = len - pos;
    if avail >= 2 && input[pos + 1] != 0x75 {
        proof {
            if s.len() >= 4 {
                assert(s.subrange(0, 4)[1] != lit[1]);
            } else {
                assert(s[1] != lit.subrange(0, s.len() as int)[1]);
            }
        }
        return Err(ParseError::Malformed);
    }
    if avail >= 3 && input[pos + 2] != 0x6c {
        proof {
            if s.len() >= 4 {
                assert(s.subrange(0, 4)[2] != lit[2]);
            } else {
                assert(s[2] != lit.subrange(0, s.len() as int)[2]);
            }
        }
        return Err(ParseError::Malformed);
    }
    if avail >= 4 && input[pos + 3] != 0x6c {
        proof {
            assert(s.subrange(0, 4)[3] != lit[3]);
        }
        return Err(ParseError::Malformed);
    }
    if avail < 4 {
        proof {
            assert(s =~= lit.subrange(0, s.len() as int));
        }
        return Err(ParseError::Incomplete);
    }
    proof {
        assert(s.subrange(0, 4) =~= lit);
    }
    Ok(pos + 4)
}

/// Parses the array whose opening bracket stands at `pos`.
#[verifier::loop_isolation(false)]
#[verifier::rlimit(100)]
fn p_array(input: &[u8], pos: usize) -> (r: Result<(JsonNode, usize), ParseError>)
    requires
        pos < input@.len(),
        input@[pos as int] == 0x5bu8,
    ensures
        ({
            let sp = sp_elem(input@.skip(pos as int));
            match r {
                Ok((v, end)) => pos < end <= input@.len() && sp == POut::<JVal>::Found(
                    v@,
                    (end - pos) as nat,
                ) && v.wf(),
                Err(ParseError::Incomplete) => sp is Incomplete,
                Err(ParseError::Malformed) => sp is Malformed,
            }
        }),
    decreases input@.len() - pos, 0int,
{
    let ghost s = input@.skip(pos as int);
    let len = input.len();
    let b = input[pos];
    proof {
        assert(s[0] == b);
    }
    {
    if len - pos == 1 {
        return Err(ParseError::Incomplete);
    }
    if input[pos + 1] == 0x5d {
        let node = JsonNode::Array(Vec::new());
        proof {
            assert(s[1] == 0x5du8);
            assert(node@ == JVal::Arr(Seq::<JVal>::empty()));
        }
        return Ok((node, pos + 2));
    }
    proof {
        assert(s[1] != 0x5du8);
        assert(s.skip(1) =~= input@.skip(pos as int + 1));
    }
    let mut items: Vec<JsonNode> = Vec::new();
    let ghost mut acc: Seq<JVal> = Seq::empty();
    let mut cur = pos + 1;
    loop
        invariant
            pos + 1 <= cur <= len,
            sp_items(input@.skip(pos as int + 1), Seq::<JVal>::empty()) == add_consumed(
                sp_items(input@.skip(cur as int), acc),
                (cur - (pos + 1)) as nat,
            ),
            items_view(items@) == acc,
            forall|j: int| 0 <= j < items@.len() ==> (#[trigger] items@[j]).wf(),
        decreases len - cur,
    {
        let ghost t = input@.skip(cur as int);
        let (v, vend) = match p_elem(input, cur) {
            Ok(x) => x,
            Err(e) => {
                return Err(e);
            },
        };
        let ghost n = (vend - cur) as nat;
        if vend == len {
            return Err(ParseError::Incomplete);
        }
        let b2 = input[vend];
        proof {
            assert(t[n as int] == b2);
        }
        if b2 == 0x2c {
            let ghost items0 = items@;
            items.push(v);
            proof {
                lemma_items_view_push(items0, v);
                assert(t.skip(n as int + 1) =~= input@.skip(vend as int + 1));
                assert(sp_items(t, acc) == add_consumed(
                    sp_items(input@.skip(vend as int + 1), acc.push(v@)),
                    (n + 1) as nat,
                ));
                lemma_add_add(
                    sp_items(input@.skip(vend as int + 1), acc.push(v@)),
                    (n + 1) as nat,
                    (cur - (pos + 1)) as nat,
                );
                acc = acc.push(v@);
            }
            cur = vend + 1;
        } else if b2 == 0x5d {
            let ghost items0 = items@;
            items.push(v);
            proof {
                lemma_items_view_push(items0, v);
                assert(sp_items(t, acc) == POut::<Seq<JVal>>::Found(acc.push(v@), (n + 1) as nat));
            }
            let node = JsonNode::Array(items);
            return Ok((node, vend + 1));
        } else {
            return Err(ParseError::Malformed);
        }
    }
}
}

/// Parses the object whose opening brace stands at `pos`.
#[verifier::loop_isolation(false)]
#[verifier::rlimit(100)]
fn p_object(input: &[u8], pos: usize) -> (r: Result<(JsonNode, usize), ParseError>)
    requires
        pos < input@.len(),
        input@[pos as int] == 0x7bu8,
    ensures
        ({
            let sp = sp_elem(input@.skip(pos as int));
            match r {
                Ok((v, end)) => pos < end <= input@.len() && sp == POut::<JVal>::Found(
                    v@,
                    (end - pos) as nat,
                ) && v.wf(),
                Err(ParseError::Incomplete) => sp is Incomplete,
                Err(ParseError::Malformed) => sp is Malformed,
            }
        }),
    decreases input@.len() - pos, 0int,
{
    let ghost s = input@.skip(pos as int);
    let len = input.len();
    let b = input[pos];
    proof {
        assert(s[0] == b);
    }
    {
    if len - pos == 1 {
        return Err(ParseError::Incomplete);
    }
    if input[pos + 1] == 0x7d {
        let node = JsonNode::Object(Vec::new());
        proof {
            assert(s[1] == 0x7du8);
            assert(node@ == JVal::Obj(Seq::<(Seq<char>, JVal)>::empty()));
        }
        return Ok((node, pos + 2));
    }
    proof {
        assert(s[1] != 0x7du8);
        assert(s.skip(1) =~= input@.skip(pos as int + 1));
    }
    let mut obj: Vec<(String, JsonNode)> = Vec::new();
    let ghost mut all_pairs: Seq<(Seq<char>, JVal)> = Seq::empty();
    let mut cur = pos + 1;
    loop
        invariant
            pos + 1 <= cur <= len,
            sp_pairs(input@.skip(pos as int + 1), Seq::<(Seq<char>, JVal)>::empty())
                == add_consumed(
                sp_pairs(input@.skip(cur as int), all_pairs),
                (cur - (pos + 1)) as nat,
            ),
            pairs_view(obj@) == dedup_first(all_pairs),
            forall|j: int| 0 <= j < obj@.len() ==> (#[trigger] obj@[j]).1.wf(),
        decreases len - cur,
    {
        let ghost t = input@.skip(cur as int);
        // one "key":value pair
        if cur == len {
            return Err(ParseError::Incomplete);
        }
        if input[cur] != 0x22 {
            return Err(ParseError::Malformed);
        }
        proof {
            assert(t[0] == input@[cur as int]);
            assert(t.skip(1) =~= input@.skip(cur as int + 1));
        }
        let (key, kend) = match p_string(input, cur) {
            Ok(x) => x,
            Err(e) => {
                return Err(e);
            },
        };
        let ghost m = (kend - cur) as nat;
        proof {
            vstd::utf8::encode_utf8_decode_utf8(key@);
        }
        if kend == len {
            return Err(ParseError::Incomplete);
        }
        let bc = input[kend];
        proof {
            assert(t[m as int] == bc);
        }
        if bc != 0x3a {
            return Err(ParseError::Malformed);
        }
        proof {
            assert(t.skip(m as int + 1) =~= input@.skip(kend as int + 1));
        }
        let (v, vend) = match p_elem(input, kend + 1) {
            Ok(x) => x,
            Err(e) => {
                return Err(e);
            },
        };
        let ghost p = (key@, v@);
        let ghost n = (vend - cur) as nat;
        proof {
            assert(sp_pair(t) == POut::<(Seq<char>, JVal)>::Found(p, n));
        }
        let ghost obj0 = obj@;
        let ghost all0 = all_pairs;
        if !obj_has_key(&obj, &key) {
            obj.push((key, v));
        }
        proof {
            lemma_dedup_push(all0, p);
            lemma_dedup_keys(all0, key@);
            if !key_in(all0, key@) {
                lemma_pairs_view_push(obj0, (key, v));
            }
            all_pairs = all0.push(p);
            assert(pairs_view(obj@) == dedup_first(all_pairs));
        }
        if vend == len {
            return Err(ParseError::Incomplete);
        }
        let b2 = input[vend];
        proof {
            assert(t[n as int] == b2);
        }
        if b2 == 0x2c {
            proof {
                assert(t.skip(n as int + 1) =~= input@.skip(vend as int + 1));
                assert(sp_pairs(t, all0) == add_consumed(
                    sp_pairs(input@.skip(vend as int + 1), all_pairs),
                    (n + 1) as nat,
                ));
                lemma_add_add(
                    sp_pairs(input@.skip(vend as int + 1), all_pairs),
                    (n + 1) as nat,
                    (cur - (pos + 1)) as nat,
                );
            }
            cur = vend + 1;
        } else if b2 == 0x7d {
            proof {
                assert(sp_pairs(t, all0) == POut::<Seq<(Seq<char>, JVal)>>::Found(
                    all0.push(p),
                    (n + 1) as nat,
                ));
            }
            let node = JsonNode::Object(obj);
            return Ok((node, vend + 1));
        } else {
            return Err(ParseError::Malformed);
        }
    }
}
}

/// Decodes one element beginning at `pos`: the entry production. Recursion
/// depth is bounded by the nesting depth of the input.
#[verifier::loop_isolation(false)]
#[verifier::rlimit(60)]
fn p_elem(input: &[u8], pos: usize) -> (r: Result<(JsonNode, usize), ParseError>)
    requires
        pos <= input@.len(),
    ensures
        ({
            let sp = sp_elem(input@.skip(pos as int));
            match r {
                Ok((v, end)) => pos < end <= input@.len() && sp == POut::<JVal>::Found(
                    v@,
                    (end - pos) as nat,
                ) && v.wf(),
                Err(ParseError::Incomplete) => sp is Incomplete,
                Err(ParseError::Malformed) => sp is Malformed,
            }
        }),
    decreases input@.len() - pos, 1int,
{
    let ghost s = input@.skip(pos as int);
    let len = input.len();
    if pos == len {
        return Err(ParseError::Incomplete);
    }
    let b = input[pos];
    proof {
        assert(s[0] == b);
    }
    if b == 0x6e {
        match p_null(input, pos) {
            Ok(end) => Ok((JsonNode::Null, end)),
            Err(e) => Err(e),
        }
    } else if b == 0x2b || b == 0x2d || b == 0x2e || (0x30 <= b && b <= 0x39) {
        match p_number(input, pos) {
            Ok((n, end)) => {
                proof {
                    assert(input@.subrange(pos as int, end as int) =~= s.subrange(
                        0,
                        end - pos as int,
                    ));
                }
                Ok((JsonNode::Number(n), end))
            },
            Err(e) => Err(e),
        }
    } else if b == 0x22 {
        match p_string(input, pos) {
            Ok((st, end)) => {
                proof {
                    assert(s.skip(1) =~= input@.skip(pos as int + 1));
                    vstd::utf8::encode_utf8_decode_utf8(st@);
                }
                Ok((JsonNode::String(st), end))
            },
            Err(e) => {
                proof {
                    assert(s.skip(1) =~= input@.skip(pos as int + 1));
                }
                Err(e)
            },
        }
    } else if b == 0x5b {
        p_array(input, pos)
    } else if b == 0x7b {
        p_object(input, pos)
    } else {
        Err(ParseError::Malformed)
    }
}

/// Decodes exactly one element from the front of `input`: on success returns
/// the unconsumed remainder and the decoded value; on failure says whether
/// the input is malformed or merely incomplete, so that an incremental
/// caller can buffer more bytes and retry from the same start position.
pub fn parse_json(input: &[u8]) -> (r: Result<(&[u8], JsonNode), ParseError>)
    ensures
        ({
            let sp = sp_elem(input@);
            match r {
                Ok((rest, node)) => sp matches POut::Found(v, n) && v == node@ && node.wf() && n
                    <= input@.len() && rest@ == input@.skip(n as int),
                Err(ParseError::Incomplete) => sp is Incomplete,
                Err(ParseError::Malformed) => sp is Malformed,
            }
        }),
{
    proof {
        assert(input@.skip(0) =~= input@);
    }
    match p_elem(input, 0) {
        Ok((node, end)) => {
            let rest = slice_subrange(input, end, input.len());
            proof {
                assert(input@.subrange(end as int, input@.len() as int) =~= input@.skip(
                    end as int,
                ));
            }
            Ok((rest, node))
        },
        Err(e) => Err(e),
    }
}

// ---------------------------------------------------------------------------
// Byte-level helpers
// ---------------------------------------------------------------------------
/// Concatenates the inner byte vectors in order into one flat vector.
#[verifier::loop_isolation(false)]
pub fn flatten(deep: Vec<Vec<u8>>) -> (r: Vec<u8>)
    ensures
        r@ == deep.deep_view().flatten(),
{
    let ghost dv = deep.deep_view();
    let mut flat: Vec<u8> = Vec::new();
    proof {
        assert(dv.take(0).flatten() =~= Seq::<u8>::empty());
    }
    let mut i: usize = 0;
    while i < deep.len()
        invariant
            i <= deep@.len(),
            dv == deep.deep_view(),
            dv.len() == deep@.len(),
            flat@ == dv.take(i as int).flatten(),
        decreases deep@.len() - i,
    {
        let inner = &deep[i];
        proof {
            assert(dv[i as int] =~= inner@);
        }
        let mut j: usize = 0;
        while j < inner.len()
            invariant
                j <= inner@.len(),
                flat@ == dv.take(i as int).flatten() + inner@.take(j as int),
            decreases inner@.len() - j,
        {
            flat.push(inner[j]);
            proof {
                assert(inner@.take(j as int).push(inner@[j as int]) =~= inner@.take(j as int + 1));
            }
            j = j + 1;
        }
        proof {
            assert(inner@.take(inner@.len() as int) =~= inner@);
            dv.take(i as int).lemma_flatten_push(dv[i as int]);
            assert(dv.take(i as int).push(dv[i as int]) =~= dv.take(i as int + 1));
        }
        i = i + 1;
    }
    proof {
        assert(dv.take(dv.len() as int) =~= dv);
    }
    flat
}

/// Decodes four hex digits as one code point and re-encodes it as UTF-8
/// bytes. The digits must be hex and the code point a Unicode scalar (not a
/// surrogate): any other input has no encoding to produce.
pub fn codepoint_from_hex(input: &[u8]) -> (r: Vec<u8>)
    requires
        input@.len() == 4,
        forall|i: int| 0 <= i < 4 ==> is_hex_digit(#[trigger] input@[i]),
        is_scalar(hex4_val(input@)),
    ensures
        r@ == encode_scalar(hex4_val(input@)),
{
    let v: u32 = hex_digit_val(input[0]) * 0x1000 + hex_digit_val(input[1]) * 0x100
        + hex_digit_val(input[2]) * 0x10 + hex_digit_val(input[3]);
    proof {
        assert(hex4_val(input@) == v);
    }
    let mut out: Vec<u8> = Vec::new();
    push_scalar_bytes(&mut out, v);
    proof {
        assert(out@ =~= encode_scalar(hex4_val(input@)));
    }
    out
}

} // verus!
