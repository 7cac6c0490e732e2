//! Mathematical model of the JSON grammar: the value tree, the streaming
//! tokenizer for numbers, and the recursive-descent productions, all as spec
//! functions over byte sequences.
//!
//! Each production reports one of three outcomes: a parsed item together with
//! the count of bytes it consumed, `Incomplete` (the input ended before a
//! verdict could be reached; more bytes might resolve it), or `Malformed`
//! (the bytes at the current position can never satisfy the grammar).

use vstd::prelude::*;
use vstd::utf8::{decode_utf8, encode_scalar, is_scalar, valid_utf8};

verus! {

/// A JSON value at the specification level. Numbers carry the bit pattern of
/// the 64-bit float they denote; strings are character sequences; objects are
/// key/value pairs in insertion order, with unique keys.
pub enum JVal {
    Null,
    Num(u64),
    Str(Seq<char>),
    Arr(Seq<JVal>),
    Obj(Seq<(Seq<char>, JVal)>),
}

/// Outcome of one production: a parsed item together with the number of bytes
/// consumed, or the incomplete/malformed verdict.
pub enum POut<T> {
    Found(T, nat),
    Incomplete,
    Malformed,
}

/// Shifts the consumed count of an outcome by `k`, for productions that have
/// already consumed `k` bytes before delegating to a sub-production.
pub open spec fn add_consumed<T>(r: POut<T>, k: nat) -> POut<T> {
    match r {
        POut::Found(x, n) => POut::Found(x, (n + k) as nat),
        POut::Incomplete => POut::Incomplete,
        POut::Malformed => POut::Malformed,
    }
}

/// The 64-bit float denoted by a numeric token, as its IEEE-754 bit pattern.
/// The token text alone determines the value; the conversion itself is done
/// by an outside routine and is not modelled further.
pub uninterp spec fn bits_of_number(t: Seq<u8>) -> u64;

/// The decimal text that the platform renders for the 64-bit float with the
/// given bit pattern. The bits alone determine the text.
pub uninterp spec fn text_of_number(bits: u64) -> Seq<char>;

/// The bit pattern denotes a finite float: its exponent field is not all
/// ones (which would mean an infinity or a not-a-number value).
pub open spec fn is_finite_bits(b: u64) -> bool {
    (b >> 52) & 0x7ff != 0x7ff
}

// ---------------------------------------------------------------------------
// Numeric tokens
// ---------------------------------------------------------------------------
pub open spec fn is_digit(b: u8) -> bool {
    0x30 <= b <= 0x39
}

pub open spec fn is_sign(b: u8) -> bool {
    b == 0x2bu8 || b == 0x2du8
}

/// Bytes on which the numeric production is chosen: a digit, a sign or a dot.
pub open spec fn is_number_start(b: u8) -> bool {
    is_digit(b) || is_sign(b) || b == 0x2eu8
}

/// Bytes that could extend a numeric token: digits, signs, dot and exponent
/// markers. A token followed by anything else is certainly over.
pub open spec fn is_number_cont(b: u8) -> bool {
    is_number_start(b) || b == 0x65u8 || b == 0x45u8
}

/// First position at or after `i` that is past the end or holds a non-digit.
pub open spec fn digit_run_end(s: Seq<u8>, i: int) -> int
    decreases s.len() - i,
{
    if i < 0 {
        i
    } else if i >= s.len() || !is_digit(s[i]) {
        i
    } else {
        digit_run_end(s, i + 1)
    }
}

/// Streaming tokenizer for the permissive numeric literal: optional sign,
/// digits with leading zeros allowed, an optional fraction (a bare leading
/// dot is allowed), an optional exponent. `Found((), n)` means the token is
/// the first `n` bytes. A token that reaches the end of the input is
/// `Incomplete`, since further bytes could extend it.
pub open spec fn lex_number(s: Seq<u8>) -> POut<()> {
    let i0: int = if s.len() > 0 && is_sign(s[0]) {
        1
    } else {
        0
    };
    if i0 >= s.len() {
        POut::Incomplete  // empty input or a lone sign
    } else if is_digit(s[i0]) {
        let i1 = digit_run_end(s, i0);
        if i1 >= s.len() {
            POut::Incomplete  // the digits ran to the end of the input
        } else if s[i1] == 0x2eu8 {
            if i1 + 1 >= s.len() {
                POut::Incomplete  // dot at the end; fraction digits may follow
            } else if is_digit(s[i1 + 1]) {
                let i2 = digit_run_end(s, i1 + 1);
                if i2 >= s.len() {
                    POut::Incomplete
                } else {
                    lex_exponent(s, i2)
                }
            } else {
                lex_exponent(s, i1 + 1)  // a dot with no fraction digits
            }
        } else {
            lex_exponent(s, i1)
        }
    } else if s[i0] == 0x2eu8 {
        if i0 + 1 >= s.len() {
            POut::Incomplete
        } else if is_digit(s[i0 + 1]) {
            let i2 = digit_run_end(s, i0 + 1);
            if i2 >= s.len() {
                POut::Incomplete
            } else {
                lex_exponent(s, i2)
            }
        } else {
            POut::Malformed  // a leading dot must be followed by a digit
        }
    } else {
        POut::Malformed
    }
}

/// Optional exponent of a numeric token whose mantissa ends at `fe`, with
/// `fe` strictly inside `s`. The token ends at `fe` unless a complete
/// exponent (`e` or `E`, an optional sign, digits) follows.
pub open spec fn lex_exponent(s: Seq<u8>, fe: int) -> POut<()>
    recommends
        0 <= fe < s.len(),
{
    if s[fe] == 0x65u8 || s[fe] == 0x45u8 {
        if fe + 1 >= s.len() {
            POut::Incomplete  // exponent marker at the end; digits may follow
        } else {
            let es: int = if is_sign(s[fe + 1]) {
                fe + 2
            } else {
                fe + 1
            };
            if es >= s.len() {
                POut::Incomplete  // exponent sign at the end
            } else if is_digit(s[es]) {
                let k = digit_run_end(s, es);
                if k >= s.len() {
                    POut::Incomplete
                } else {
                    POut::Found((), k as nat)
                }
            } else {
                POut::Found((), fe as nat)  // no exponent digits: token ends before the marker
            }
        }
    } else {
        POut::Found((), fe as nat)
    }
}

/// Tokenizer for a complete, self-contained numeric literal: like
/// [`lex_number`], but the end of the sequence terminates the token instead
/// of leaving it incomplete. `Some(n)` means the token is the first `n`
/// bytes.
pub open spec fn lexc_number(s: Seq<u8>) -> Option<int> {
    let i0: int = if s.len() > 0 && is_sign(s[0]) {
        1
    } else {
        0
    };
    if i0 >= s.len() {
        None
    } else if is_digit(s[i0]) {
        let i1 = digit_run_end(s, i0);
        if i1 >= s.len() {
            Some(i1)
        } else if s[i1] == 0x2eu8 {
            let f: int = if i1 + 1 < s.len() && is_digit(s[i1 + 1]) {
                digit_run_end(s, i1 + 1)
            } else {
                i1 + 1
            };
            if f >= s.len() {
                Some(f)
            } else {
                lexc_exponent(s, f)
            }
        } else {
            lexc_exponent(s, i1)
        }
    } else if s[i0] == 0x2eu8 {
        if i0 + 1 < s.len() && is_digit(s[i0 + 1]) {
            let f = digit_run_end(s, i0 + 1);
            if f >= s.len() {
                Some(f)
            } else {
                lexc_exponent(s, f)
            }
        } else {
            None
        }
    } else {
        None
    }
}

/// Optional exponent for [`lexc_number`], with `fe` strictly inside `s`.
pub open spec fn lexc_exponent(s: Seq<u8>, fe: int) -> Option<int>
    recommends
        0 <= fe < s.len(),
{
    if s[fe] == 0x65u8 || s[fe] == 0x45u8 {
        let es: int = if fe + 1 < s.len() && is_sign(s[fe + 1]) {
            fe + 2
        } else {
            fe + 1
        };
        if es < s.len() && is_digit(s[es]) {
            Some(digit_run_end(s, es))
        } else {
            Some(fe)
        }
    } else {
        Some(fe)
    }
}

/// The whole sequence is exactly one numeric token.
pub open spec fn is_number_token(t: Seq<u8>) -> bool {
    lexc_number(t) == Some(t.len() as int)
}

// ---------------------------------------------------------------------------
// String literals and escapes
// ---------------------------------------------------------------------------
/// The escape letters that form a two-character escape after a backslash.
pub open spec fn is_simple_escape(b: u8) -> bool {
    b == 0x5cu8 || b == 0x22u8 || b == 0x2fu8 || b == 0x62u8 || b == 0x6eu8 || b == 0x72u8
        || b == 0x74u8
}

/// The bytes that a two-character escape stands for. The backslash, quote and
/// slash escapes stand for themselves; `n`, `r` and `t` stand for the usual
/// control characters; `b` stands for the two characters NUL and `8`, a
/// deliberate oddity of this codec's grammar.
pub open spec fn simple_escape_bytes(b: u8) -> Seq<u8>
    recommends
        is_simple_escape(b),
{
    if b == 0x62u8 {
        seq![0x00u8, 0x38u8]
    } else if b == 0x6eu8 {
        seq![0x0au8]
    } else if b == 0x72u8 {
        seq![0x0du8]
    } else if b == 0x74u8 {
        seq![0x09u8]
    } else {
        seq![b]
    }
}

pub open spec fn is_hex_digit(b: u8) -> bool {
    is_digit(b) || (0x41 <= b <= 0x46) || (0x61 <= b <= 0x66)
}

pub open spec fn hex_val(b: u8) -> u32
    recommends
        is_hex_digit(b),
{
    if is_digit(b) {
        (b - 0x30) as u32
    } else if 0x41 <= b <= 0x46 {
        (b - 0x41 + 10) as u32
    } else {
        (b - 0x61 + 10) as u32
    }
}

/// The value of four hex digits, most significant first.
pub open spec fn hex4_val(h: Seq<u8>) -> u32
    recommends
        h.len() == 4,
{
    (hex_val(h[0]) * 0x1000 + hex_val(h[1]) * 0x100 + hex_val(h[2]) * 0x10 + hex_val(h[3])) as u32
}

/// Scans the inside of a string literal, positioned just after the opening
/// quote, accumulating unescaped content bytes into `acc`. `Found(c, n)`
/// means the content is `c` and `n` bytes were consumed, the closing quote
/// included. An input that ends inside the literal is `Incomplete`; an
/// unknown escape, a bad hex digit or a surrogate code point is `Malformed`.
pub open spec fn scan_string(t: Seq<u8>, acc: Seq<u8>) -> POut<Seq<u8>>
    decreases t.len(), 1int,
{
    if t.len() == 0 {
        POut::Incomplete
    } else if t[0] == 0x22u8 {
        POut::Found(acc, 1)
    } else if t[0] == 0x5cu8 {
        if t.len() == 1 {
            POut::Incomplete
        } else if is_simple_escape(t[1]) {
            add_consumed(scan_string(t.skip(2), acc + simple_escape_bytes(t[1])), 2)
        } else if t[1] == 0x75u8 {
            scan_unicode(t, acc)
        } else {
            POut::Malformed
        }
    } else {
        add_consumed(scan_string(t.skip(1), acc.push(t[0])), 1)
    }
}

/// Scans a six-character unicode escape at the front of `t` (`t` starts with
/// backslash-`u`), then continues with the rest of the literal. The four hex
/// digits are decoded as one code point and re-encoded as UTF-8 bytes in
/// place; a code point in the surrogate range cannot be carried by the
/// string type and is rejected as malformed.
pub open spec fn scan_unicode(t: Seq<u8>, acc: Seq<u8>) -> POut<Seq<u8>>
    decreases t.len(), 0int,
{
    if t.len() >= 3 && !is_hex_digit(t[2]) {
        POut::Malformed
    } else if t.len() >= 4 && !is_hex_digit(t[3]) {
        POut::Malformed
    } else if t.len() >= 5 && !is_hex_digit(t[4]) {
        POut::Malformed
    } else if t.len() >= 6 && !is_hex_digit(t[5]) {
        POut::Malformed
    } else if t.len() < 6 {
        POut::Incomplete
    } else {
        let v = hex4_val(t.subrange(2, 6));
        if !is_scalar(v) {
            POut::Malformed
        } else {
            add_consumed(scan_string(t.skip(6), acc + encode_scalar(v)), 6)
        }
    }
}

// ---------------------------------------------------------------------------
// Objects: the first occurrence of a key wins
// ---------------------------------------------------------------------------
pub open spec fn key_in(ps: Seq<(Seq<char>, JVal)>, k: Seq<char>) -> bool {
    exists|j: int| 0 <= j < ps.len() && ps[j].0 == k
}

/// Keeps, in order, each pair whose key has not occurred earlier in the
/// sequence: when the source text repeats a key, the first occurrence wins
/// and later ones are parsed but discarded.
pub open spec fn dedup_first(ps: Seq<(Seq<char>, JVal)>) -> Seq<(Seq<char>, JVal)>
    decreases ps.len(),
{
    if ps.len() == 0 {
        Seq::empty()
    } else {
        let front = dedup_first(ps.drop_last());
        if key_in(ps.drop_last(), ps.last().0) {
            front
        } else {
            front.push(ps.last())
        }
    }
}

pub proof fn lemma_key_in_push(xs: Seq<(Seq<char>, JVal)>, q: (Seq<char>, JVal), k: Seq<char>)
    ensures
        key_in(xs.push(q), k) == (key_in(xs, k) || q.0 == k),
{
    let ys = xs.push(q);
    if key_in(xs, k) {
        let j = choose|j: int| 0 <= j < xs.len() && xs[j].0 == k;
        assert(ys[j].0 == k);
        assert(key_in(ys, k));
    }
    if q.0 == k {
        assert(ys[xs.len() as int].0 == k);
        assert(key_in(ys, k));
    }
    if key_in(ys, k) {
        let j = choose|j: int| 0 <= j < ys.len() && ys[j].0 == k;
        if j < xs.len() {
            assert(xs[j].0 == k);
            assert(key_in(xs, k));
        } else {
            assert(q.0 == k);
        }
    }
}

pub proof fn lemma_dedup_push(ps: Seq<(Seq<char>, JVal)>, p: (Seq<char>, JVal))
    ensures
        dedup_first(ps.push(p)) == (if key_in(ps, p.0) {
            dedup_first(ps)
        } else {
            dedup_first(ps).push(p)
        }),
{
    assert(ps.push(p).drop_last() =~= ps);
    assert(ps.push(p).last() == p);
}

/// Discarding later duplicates keeps exactly the keys that occurred.
pub proof fn lemma_dedup_keys(ps: Seq<(Seq<char>, JVal)>, k: Seq<char>)
    ensures
        key_in(dedup_first(ps), k) == key_in(ps, k),
    decreases ps.len(),
{
    if ps.len() == 0 {
        assert(!key_in(dedup_first(ps), k));
        assert(!key_in(ps, k));
    } else {
        let front = ps.drop_last();
        let last = ps.last();
        lemma_dedup_keys(front, k);
        assert(front.push(last) =~= ps);
        lemma_key_in_push(front, last, k);
        if !key_in(front, last.0) {
            lemma_key_in_push(dedup_first(front), last, k);
        }
    }
}

// ---------------------------------------------------------------------------
// The productions
// ---------------------------------------------------------------------------
/// Decodes one element from the front of `s`: the entry production of the
/// grammar. Dispatches on the first byte; no two productions share a leading
/// byte, so the grammar is unambiguous.
pub open spec fn sp_elem(s: Seq<u8>) -> POut<JVal>
    decreases s.len(), 0int,
{
    if s.len() == 0 {
        POut::Incomplete
    } else if s[0] == 0x6eu8 {  // 'n': the null literal
        sp_null(s)
    } else if is_number_start(s[0]) {
        match lex_number(s) {
            POut::Found(u, n) => POut::Found(JVal::Num(bits_of_number(s.subrange(0, n as int))), n),
            POut::Incomplete => POut::Incomplete,
            POut::Malformed => POut::Malformed,
        }
    } else if s[0] == 0x22u8 {  // '"': a string literal
        match scan_string(s.skip(1), Seq::empty()) {
            POut::Found(content, n) => if valid_utf8(content) {
                POut::Found(JVal::Str(decode_utf8(content)), (n + 1) as nat)
            } else {
                POut::Malformed
            },
            POut::Incomplete => POut::Incomplete,
            POut::Malformed => POut::Malformed,
        }
    } else if s[0] == 0x5bu8 {  // '['
        if s.len() == 1 {
            POut::Incomplete
        } else if s[1] == 0x5du8 {
            POut::Found(JVal::Arr(Seq::empty()), 2)
        } else {
            match sp_items(s.skip(1), Seq::empty()) {
                POut::Found(vs, n) => POut::Found(JVal::Arr(vs), (n + 1) as nat),
                POut::Incomplete => POut::Incomplete,
                POut::Malformed => POut::Malformed,
            }
        }
    } else if s[0] == 0x7bu8 {  // '{'
        if s.len() == 1 {
            POut::Incomplete
        } else if s[1] == 0x7du8 {
            POut::Found(JVal::Obj(Seq::empty()), 2)
        } else {
            match sp_pairs(s.skip(1), Seq::empty()) {
                POut::Found(ps, n) => POut::Found(JVal::Obj(dedup_first(ps)), (n + 1) as nat),
                POut::Incomplete => POut::Incomplete,
                POut::Malformed => POut::Malformed,
            }
        }
    } else {
        POut::Malformed
    }
}

/// The literal `null`: a proper prefix of it at the end of the input is
/// incomplete, any mismatching byte is malformed.
pub open spec fn sp_null(s: Seq<u8>) -> POut<JVal> {
    let lit = seq![0x6eu8, 0x75u8, 0x6cu8, 0x6cu8];
    if s.len() >= 4 {
        if s.subrange(0, 4) == lit {
            POut::Found(JVal::Null, 4)
        } else {
            POut::Malformed
        }
    } else {
        if s == lit.subrange(0, s.len() as int) {
            POut::Incomplete
        } else {
            POut::Malformed
        }
    }
}

/// The elements of a non-empty array, `t` being positioned at the start of an
/// element. Consumes up to and including the closing bracket. A comma must
/// separate two elements; a comma or bracket must follow each element.
pub open spec fn sp_items(t: Seq<u8>, acc: Seq<JVal>) -> POut<Seq<JVal>>
    decreases t.len(), 2int,
{
    match sp_elem(t) {
        POut::Found(v, n) => {
            if n == t.len() {
                POut::Incomplete  // a comma or closing bracket must follow
            } else if n < t.len() && t[n as int] == 0x2cu8 {
                add_consumed(sp_items(t.skip(n as int + 1), acc.push(v)), (n + 1) as nat)
            } else if n < t.len() && t[n as int] == 0x5du8 {
                POut::Found(acc.push(v), (n + 1) as nat)
            } else {
                POut::Malformed
            }
        },
        POut::Incomplete => POut::Incomplete,
        POut::Malformed => POut::Malformed,
    }
}

/// One `"key":value` pair of an object, `t` being positioned at the key's
/// opening quote.
pub open spec fn sp_pair(t: Seq<u8>) -> POut<(Seq<char>, JVal)>
    decreases t.len(), 1int,
{
    if t.len() == 0 {
        POut::Incomplete
    } else if t[0] != 0x22u8 {
        POut::Malformed
    } else {
        match scan_string(t.skip(1), Seq::empty()) {
            POut::Found(content, m0) => {
                let m = m0 + 1;  // the opening quote
                if !valid_utf8(content) {
                    POut::Malformed
                } else if m >= t.len() {
                    POut::Incomplete  // a colon must follow
                } else if t[m as int] != 0x3au8 {
                    POut::Malformed
                } else {
                    match sp_elem(t.skip(m as int + 1)) {
                        POut::Found(v, k) => POut::Found(
                            (decode_utf8(content), v),
                            (m + 1 + k) as nat,
                        ),
                        POut::Incomplete => POut::Incomplete,
                        POut::Malformed => POut::Malformed,
                    }
                }
            },
            POut::Incomplete => POut::Incomplete,
            POut::Malformed => POut::Malformed,
        }
    }
}

/// The pairs of a non-empty object, `t` being positioned at the start of a
/// pair. Consumes up to and including the closing brace.
pub open spec fn sp_pairs(t: Seq<u8>, acc: Seq<(Seq<char>, JVal)>) -> POut<
    Seq<(Seq<char>, JVal)>,
>
    decreases t.len(), 2int,
{
    match sp_pair(t) {
        POut::Found(p, n) => {
            if n == t.len() {
                POut::Incomplete  // a comma or closing brace must follow
            } else if n < t.len() && t[n as int] == 0x2cu8 {
                add_consumed(sp_pairs(t.skip(n as int + 1), acc.push(p)), (n + 1) as nat)
            } else if n < t.len() && t[n as int] == 0x7du8 {
                POut::Found(acc.push(p), (n + 1) as nat)
            } else {
                POut::Malformed
            }
        },
        POut::Incomplete => POut::Incomplete,
        POut::Malformed => POut::Malformed,
    }
}

// ---------------------------------------------------------------------------
// The canonical compact rendering
// ---------------------------------------------------------------------------
/// The compact text of a value: no whitespace, no trailing commas, string
/// content emitted verbatim with no re-escaping.
pub open spec fn enc_val(v: JVal) -> Seq<char>
    decreases v,
{
    match v {
        JVal::Null => seq!['n', 'u', 'l', 'l'],
        JVal::Num(b) => text_of_number(b),
        JVal::Str(cs) => seq!['"'] + cs + seq!['"'],
        JVal::Arr(vs) => seq!['['] + enc_items(vs) + seq![']'],
        JVal::Obj(ps) => seq!['{'] + enc_pairs(ps) + seq!['}'],
    }
}

pub open spec fn enc_items(vs: Seq<JVal>) -> Seq<char>
    decreases vs,
{
    if vs.len() == 0 {
        Seq::empty()
    } else if vs.len() == 1 {
        enc_val(vs[0])
    } else {
        enc_val(vs[0]) + seq![','] + enc_items(vs.drop_first())
    }
}

pub open spec fn enc_pair(p: (Seq<char>, JVal)) -> Seq<char>
    decreases p,
{
    seq!['"'] + p.0 + seq!['"', ':'] + enc_val(p.1)
}

pub open spec fn enc_pairs(ps: Seq<(Seq<char>, JVal)>) -> Seq<char>
    decreases ps,
{
    if ps.len() == 0 {
        Seq::empty()
    } else if ps.len() == 1 {
        enc_pair(ps[0])
    } else {
        enc_pair(ps[0]) + seq![','] + enc_pairs(ps.drop_first())
    }
}

// ---------------------------------------------------------------------------
// Value equivalence
// ---------------------------------------------------------------------------
/// The two bit patterns of a floating-point zero.
pub open spec fn is_zero_bits(b: u64) -> bool {
    b == 0u64 || b == 0x8000_0000_0000_0000u64
}

/// Numbers compare by their bit patterns, except that the two zeros are
/// equal, as they are under floating-point comparison.
pub open spec fn num_eqv(a: u64, b: u64) -> bool {
    a == b || (is_zero_bits(a) && is_zero_bits(b))
}

/// Structural equivalence of values: arrays and objects compare element by
/// element in order, numbers by [`num_eqv`].
pub open spec fn eqv(a: JVal, b: JVal) -> bool
    decreases a,
{
    match (a, b) {
        (JVal::Null, JVal::Null) => true,
        (JVal::Num(x), JVal::Num(y)) => num_eqv(x, y),
        (JVal::Str(s), JVal::Str(t)) => s == t,
        (JVal::Arr(x), JVal::Arr(y)) => x.len() == y.len() && (forall|i: int|
            0 <= i < x.len() ==> eqv(#[trigger] x[i], y[i])),
        (JVal::Obj(p), JVal::Obj(q)) => p.len() == q.len() && (forall|i: int|
            0 <= i < p.len() ==> (#[trigger] p[i]).0 == q[i].0 && eqv(p[i].1, q[i].1)),
        _ => false,
    }
}

} // verus!
