//! The JSON value model: a tagged union of value kinds, its mathematical
//! view, and its canonical compact rendering.

pub mod model;
pub mod parser;
pub mod props;

use vstd::prelude::*;

use vstd::string::StringExecFns;

use crate::json::model::{
    enc_items, enc_pair, enc_pairs, enc_val, eqv, num_eqv, sp_elem, text_of_number, JVal, POut,
};
use crate::json::parser::parse_json;
use vstd::pervasive::unreached;
use vstd::utf8::encode_utf8;

verus! {

/// Outcome of a failed parse: the input at the current position can never
/// match the grammar (`Malformed`), or the input ended before a verdict could
/// be reached and more bytes might resolve it (`Incomplete`).
#[derive(Clone, Copy, Debug, PartialEq, Eq, Structural)]
pub enum ParseError {
    Incomplete,
    Malformed,
}

/// One number of the tree: the bit pattern of the 64-bit float it denotes,
/// together with the platform's decimal rendering of that float. The parser
/// fills both from the same conversion; a well-formed literal (see
/// [`JsonNode::wf`]) has `text` equal to the rendering that its `bits`
/// determine. Equality looks at the bits alone.
#[derive(Debug)]
pub struct NumberLit {
    pub bits: u64,
    pub text: String,
}

impl NumberLit {
    /// The cached rendering is the one the bits determine.
    pub open spec fn wf(&self) -> bool {
        self.text@ == text_of_number(self.bits)
    }
}

/// One JSON value. An object holds its pairs in insertion order and, when
/// built by the parser, never holds two pairs with the same key.
#[derive(Debug)]
pub enum JsonNode {
    Number(NumberLit),
    String(String),
    Array(Vec<JsonNode>),
    Object(Vec<(String, JsonNode)>),
    Null,
}

/// The model value of a node.
pub open spec fn jval_of(node: JsonNode) -> JVal
    decreases node,
{
    match node {
        JsonNode::Null => JVal::Null,
        JsonNode::Number(n) => JVal::Num(n.bits),
        JsonNode::String(s) => JVal::Str(s@),
        JsonNode::Array(items) => JVal::Arr(items_view(items@)),
        JsonNode::Object(pairs) => JVal::Obj(pairs_view(pairs@)),
    }
}

/// The model values of an array's elements, in order.
pub open spec fn items_view(s: Seq<JsonNode>) -> Seq<JVal>
    decreases s,
{
    if s.len() == 0 {
        Seq::empty()
    } else {
        items_view(s.drop_last()).push(jval_of(s.last()))
    }
}

/// The model pairs of an object, in order.
pub open spec fn pairs_view(s: Seq<(String, JsonNode)>) -> Seq<(Seq<char>, JVal)>
    decreases s,
{
    if s.len() == 0 {
        Seq::empty()
    } else {
        pairs_view(s.drop_last()).push((s.last().0@, jval_of(s.last().1)))
    }
}

pub proof fn lemma_items_view(s: Seq<JsonNode>)
    ensures
        items_view(s).len() == s.len(),
        forall|i: int| 0 <= i < s.len() ==> items_view(s)[i] == jval_of(#[trigger] s[i]),
    decreases s.len(),
{
    if s.len() > 0 {
        lemma_items_view(s.drop_last());
        assert forall|i: int| 0 <= i < s.len() implies items_view(s)[i] == jval_of(
            #[trigger] s[i],
        ) by {
            if i < s.len() - 1 {
                assert(items_view(s)[i] == items_view(s.drop_last())[i]);
                assert(s.drop_last()[i] == s[i]);
            } else {
                assert(items_view(s)[i] == jval_of(s.last()));
            }
        }
    }
}

pub proof fn lemma_pairs_view(s: Seq<(String, JsonNode)>)
    ensures
        pairs_view(s).len() == s.len(),
        forall|i: int|
            0 <= i < s.len() ==> pairs_view(s)[i] == ((#[trigger] s[i]).0@, jval_of(s[i].1)),
    decreases s.len(),
{
    if s.len() > 0 {
        lemma_pairs_view(s.drop_last());
        assert forall|i: int| 0 <= i < s.len() implies pairs_view(s)[i] == (
            (#[trigger] s[i]).0@,
            jval_of(s[i].1),
        ) by {
            if i < s.len() - 1 {
                assert(pairs_view(s)[i] == pairs_view(s.drop_last())[i]);
                assert(s.drop_last()[i] == s[i]);
            } else {
                assert(pairs_view(s)[i] == (s.last().0@, jval_of(s.last().1)));
            }
        }
    }
}

pub proof fn lemma_items_view_push(s: Seq<JsonNode>, n: JsonNode)
    ensures
        items_view(s.push(n)) == items_view(s).push(jval_of(n)),
{
    assert(s.push(n).drop_last() =~= s);
}

pub proof fn lemma_pairs_view_push(s: Seq<(String, JsonNode)>, p: (String, JsonNode))
    ensures
        pairs_view(s.push(p)) == pairs_view(s).push((p.0@, jval_of(p.1))),
{
    assert(s.push(p).drop_last() =~= s);
}

impl View for JsonNode {
    type V = JVal;

    open spec fn view(&self) -> JVal {
        jval_of(*self)
    }
}

impl DeepView for JsonNode {
    type V = JVal;

    open spec fn deep_view(&self) -> JVal {
        jval_of(*self)
    }
}

proof fn lemma_enc_items_snoc(vs: Seq<JVal>, v: JVal)
    requires
        vs.len() >= 1,
    ensures
        enc_items(vs.push(v)) == enc_items(vs) + seq![','] + enc_val(v),
    decreases vs.len(),
{
    let a = vs.push(v);
    assert(a[0] == vs[0]);
    assert(a.len() == vs.len() + 1);
    if vs.len() == 1 {
        assert(a.drop_first() =~= seq![v]);
        assert(enc_items(seq![v]) == enc_val(v));
        assert(enc_items(a) == enc_val(a[0]) + seq![','] + enc_items(a.drop_first()));
        assert(enc_items(vs) == enc_val(vs[0]));
        assert(enc_items(a) =~= enc_items(vs) + seq![','] + enc_val(v));
    } else {
        lemma_enc_items_snoc(vs.drop_first(), v);
        assert(a.drop_first() =~= vs.drop_first().push(v));
        assert(enc_items(a) == enc_val(a[0]) + seq![','] + enc_items(a.drop_first()));
        assert(enc_items(vs) == enc_val(vs[0]) + seq![','] + enc_items(vs.drop_first()));
        assert(enc_items(a) =~= enc_items(vs) + seq![','] + enc_val(v));
    }
}

proof fn lemma_enc_pairs_snoc(ps: Seq<(Seq<char>, JVal)>, p: (Seq<char>, JVal))
    requires
        ps.len() >= 1,
    ensures
        enc_pairs(ps.push(p)) == enc_pairs(ps) + seq![','] + enc_pair(p),
    decreases ps.len(),
{
    let a = ps.push(p);
    assert(a[0] == ps[0]);
    assert(a.len() == ps.len() + 1);
    if ps.len() == 1 {
        assert(a.drop_first() =~= seq![p]);
        assert(enc_pairs(seq![p]) == enc_pair(p));
        assert(enc_pairs(a) == enc_pair(a[0]) + seq![','] + enc_pairs(a.drop_first()));
        assert(enc_pairs(ps) == enc_pair(ps[0]));
        assert(enc_pairs(a) =~= enc_pairs(ps) + seq![','] + enc_pair(p));
    } else {
        lemma_enc_pairs_snoc(ps.drop_first(), p);
        assert(a.drop_first() =~= ps.drop_first().push(p));
        assert(enc_pairs(a) == enc_pair(a[0]) + seq![','] + enc_pairs(a.drop_first()));
        assert(enc_pairs(ps) == enc_pair(ps[0]) + seq![','] + enc_pairs(ps.drop_first()));
        assert(enc_pairs(a) =~= enc_pairs(ps) + seq![','] + enc_pair(p));
    }
}

impl JsonNode {
    /// Well-formedness of the tree: every number literal in it carries the
    /// rendering that its bits determine. The parser establishes this for
    /// every value it returns.
    pub open spec fn wf(&self) -> bool
        decreases self,
    {
        match self {
            JsonNode::Null => true,
            JsonNode::Number(n) => n.wf(),
            JsonNode::String(s) => true,
            JsonNode::Array(items) => forall|i: int|
                0 <= i < items@.len() ==> (#[trigger] items@[i]).wf(),
            JsonNode::Object(pairs) => forall|i: int|
                0 <= i < pairs@.len() ==> (#[trigger] pairs@[i]).1.wf(),
        }
    }


    /// Decodes one value from the front of the bytes. The buffer must hold a
    /// decodable element: on any other input this call would have to fail,
    /// and the failure is ruled out here; [`crate::json::parser::parse_json`]
    /// reports the incomplete/malformed distinction instead.
    pub fn from_bytes(buffer: &[u8]) -> (r: JsonNode)
        requires
            sp_elem(buffer@) is Found,
        ensures
            sp_elem(buffer@) matches POut::Found(v, n) && r@ == v,
            r.wf(),
    {
        match parse_json(buffer) {
            Ok((_rest, node)) => node,
            Err(_) => unreached(),
        }
    }

    /// Decodes one value from the front of the text's UTF-8 bytes.
    pub fn from_str(json: &str) -> (r: JsonNode)
        requires
            sp_elem(encode_utf8(json@)) is Found,
        ensures
            sp_elem(encode_utf8(json@)) matches POut::Found(v, n) && r@ == v,
            r.wf(),
    {
        JsonNode::from_bytes(json.as_bytes())
    }

    /// Structural equality of values: numbers compare by their bits with the
    /// two floating-point zeros identified, strings by their characters,
    /// arrays and objects element by element in order. The cached rendering
    /// of a number does not take part.
    #[verifier::loop_isolation(false)]
    pub fn deep_eq(&self, other: &JsonNode) -> (r: bool)
        ensures
            r == eqv(self@, other@),
        decreases *self,
    {
        match (self, other) {
            (JsonNode::Null, JsonNode::Null) => {
                proof {
                    assert(eqv(self@, other@));
                }
                true
            },
            (JsonNode::Number(a), JsonNode::Number(b)) => {
                let za = a.bits == 0 || a.bits == 0x8000_0000_0000_0000;
                let zb = b.bits == 0 || b.bits == 0x8000_0000_0000_0000;
                let same = a.bits == b.bits || (za && zb);
                proof {
                    assert(same == num_eqv(a.bits, b.bits));
                    assert(eqv(self@, other@) == num_eqv(a.bits, b.bits));
                }
                same
            },
            (JsonNode::String(a), JsonNode::String(b)) => {
                let r = a.eq(b);
                proof {
                    assert(r == eqv(self@, other@));
                }
                r
            },
            (JsonNode::Array(xs), JsonNode::Array(ys)) => {
                proof {
                    lemma_items_view(xs@);
                    lemma_items_view(ys@);
                }
                if xs.len() != ys.len() {
                    return false;
                }
                let mut i: usize = 0;
                while i < xs.len()
                    invariant
                        i <= xs@.len(),
                        xs@.len() == ys@.len(),
                        forall|j: int|
                            0 <= j < i ==> eqv(
                                #[trigger] items_view(xs@)[j],
                                items_view(ys@)[j],
                            ),
                    decreases xs@.len() - i,
                {
                    let a = &xs[i];
                    let b = &ys[i];
                    proof {
                        assert(decreases_to!(*self => *xs));
                        assert(decreases_to!(*xs => xs@));
                        assert(decreases_to!(xs@ => xs@[i as int]));
                        assert(decreases_to!(*self => *a));
                    }
                    if !a.deep_eq(b) {
                        proof {
                            assert(!eqv(items_view(xs@)[i as int], items_view(ys@)[i as int]));
                        }
                        return false;
                    }
                    i = i + 1;
                }
                proof {
                    assert forall|k: int| 0 <= k < items_view(xs@).len() implies eqv(
                        #[trigger] items_view(xs@)[k],
                        items_view(ys@)[k],
                    ) by {}
                    assert(eqv(self@, other@));
                }
                true
            },
            (JsonNode::Object(xs), JsonNode::Object(ys)) => {
                proof {
                    lemma_pairs_view(xs@);
                    lemma_pairs_view(ys@);
                }
                if xs.len() != ys.len() {
                    return false;
                }
                let mut i: usize = 0;
                while i < xs.len()
                    invariant
                        i <= xs@.len(),
                        xs@.len() == ys@.len(),
                        forall|j: int|
                            0 <= j < i ==> (#[trigger] pairs_view(xs@)[j]).0 == pairs_view(ys@)[j].0
                                && eqv(pairs_view(xs@)[j].1, pairs_view(ys@)[j].1),
                    decreases xs@.len() - i,
                {
                    let a = &xs[i];
                    let b = &ys[i];
                    if !(a.0 == b.0) {
                        proof {
                            assert(pairs_view(xs@)[i as int].0 != pairs_view(ys@)[i as int].0);
                            assert(!eqv(self@, other@)) by {
                                if eqv(self@, other@) {
                                    assert(pairs_view(xs@)[i as int].0 == pairs_view(ys@)[
                                        i as int
                                    ].0 && eqv(
                                        pairs_view(xs@)[i as int].1,
                                        pairs_view(ys@)[i as int].1,
                                    ));
                                }
                            };
                        }
                        return false;
                    }
                    proof {
                        assert(decreases_to!(*self => *xs));
                        assert(decreases_to!(*xs => xs@));
                        assert(decreases_to!(xs@ => xs@[i as int]));
                        assert(decreases_to!(xs@[i as int] => xs@[i as int].1));
                        assert(decreases_to!(*self => a.1));
                    }
                    if !a.1.deep_eq(&b.1) {
                        proof {
                            assert(!eqv(pairs_view(xs@)[i as int].1, pairs_view(ys@)[i as int].1));
                            assert(!eqv(self@, other@)) by {
                                if eqv(self@, other@) {
                                    assert(pairs_view(xs@)[i as int].0 == pairs_view(ys@)[
                                        i as int
                                    ].0 && eqv(
                                        pairs_view(xs@)[i as int].1,
                                        pairs_view(ys@)[i as int].1,
                                    ));
                                }
                            };
                        }
                        return false;
                    }
                    i = i + 1;
                }
                proof {
                    assert forall|k: int|
                        0 <= k < pairs_view(xs@).len() implies pairs_view(xs@)[k].0 == pairs_view(
                        ys@,
                    )[k].0 && eqv(#[trigger] pairs_view(xs@)[k].1, pairs_view(ys@)[k].1) by {}
                    assert(eqv(self@, other@));
                }
                true
            },
            _ => {
                proof {
                    assert(!eqv(self@, other@));
                }
                false
            },
        }
    }

    /// Renders the value as compact JSON text: no whitespace, no trailing
    /// commas, object pairs in insertion order. String content is emitted
    /// verbatim, with no re-escaping: the rendering mirrors what the parser
    /// unescaped, so a string that was built directly with a quote or
    /// backslash character inside it does not render as valid JSON.
    #[verifier::loop_isolation(false)]
    pub fn to_text(&self) -> (r: String)
        requires
            self.wf(),
        ensures
            r@ == enc_val(self@),
        decreases *self,
    {
        match self {
            JsonNode::Null => {
                let r = String::from_str("null");
                proof {
                    reveal_strlit("null");
                    assert(r@ =~= seq!['n', 'u', 'l', 'l']);
                }
                r
            },
            JsonNode::Number(n) => n.text.clone(),
            JsonNode::String(s) => {
                let mut r = String::from_str("\"");
                r.append(s.as_str());
                r.append("\"");
                proof {
                    reveal_strlit("\"");
                    assert(r@ =~= seq!['"'] + s@ + seq!['"']);
                }
                r
            },
            JsonNode::Array(items) => {
                let ghost vs = self@->Arr_0;
                let mut r = String::from_str("[");
                proof {
                    reveal_strlit("[");
                    assert(r@ =~= seq!['[']);
                    assert(vs == items_view(items@));
                }
                let mut i: usize = 0;
                while i < items.len()
                    invariant
                        i <= items@.len(),
                        vs == items_view(items@),
                        i == 0 ==> r@ == seq!['['],
                        i >= 1 ==> r@ == seq!['['] + enc_items(vs.take(i as int)),
                    decreases items@.len() - i,
                {
                    if i > 0 {
                        r.append(",");
                        proof {
                            reveal_strlit(",");
                        }
                    }
                    let child = &items[i];
                    proof {
                        assert(items@[i as int].wf());
                        assert(decreases_to!(*self => *items));
                        assert(decreases_to!(*items => items@));
                        assert(decreases_to!(items@ => items@[i as int]));
                        assert(decreases_to!(*self => *child));
                    }
                    let piece = child.to_text();
                    r.append(piece.as_str());
                    proof {
                        lemma_items_view(items@);
                        assert(vs[i as int] == items@[i as int]@);
                        if i == 0 {
                            assert(vs.take(1) =~= seq![vs[0]]);
                            assert(enc_items(vs.take(1)) == enc_val(vs[0]));
                            assert(r@ =~= seq!['['] + enc_items(vs.take(1)));
                        } else {
                            lemma_enc_items_snoc(vs.take(i as int), vs[i as int]);
                            assert(vs.take(i as int).push(vs[i as int]) =~= vs.take(
                                i as int + 1,
                            ));
                            assert(r@ =~= seq!['['] + enc_items(vs.take(i as int + 1)));
                        }
                    }
                    i = i + 1;
                }
                r.append("]");
                proof {
                    reveal_strlit("]");
                    lemma_items_view(items@);
                    assert(vs.take(vs.len() as int) =~= vs);
                    assert(r@ =~= enc_val(self@));
                }
                r
            },
            JsonNode::Object(pairs) => {
                let ghost ps = self@->Obj_0;
                let mut r = String::from_str("{");
                proof {
                    reveal_strlit("{");
                    assert(r@ =~= seq!['{']);
                    assert(ps == pairs_view(pairs@));
                }
                let mut i: usize = 0;
                while i < pairs.len()
                    invariant
                        i <= pairs@.len(),
                        ps == pairs_view(pairs@),
                        i == 0 ==> r@ == seq!['{'],
                        i >= 1 ==> r@ == seq!['{'] + enc_pairs(ps.take(i as int)),
                    decreases pairs@.len() - i,
                {
                    if i > 0 {
                        r.append(",");
                        proof {
                            reveal_strlit(",");
                        }
                    }
                    let pair = &pairs[i];
                    r.append("\"");
                    r.append(pair.0.as_str());
                    r.append("\":");
                    proof {
                        assert(pairs@[i as int].1.wf());
                        assert(decreases_to!(*self => *pairs));
                        assert(decreases_to!(*pairs => pairs@));
                        assert(decreases_to!(pairs@ => pairs@[i as int]));
                        assert(decreases_to!(pairs@[i as int] => pairs@[i as int].1));
                        assert(decreases_to!(*self => pair.1));
                    }
                    let piece = pair.1.to_text();
                    r.append(piece.as_str());
                    proof {
                        reveal_strlit("\"");
                        reveal_strlit("\":");
                        lemma_pairs_view(pairs@);
                        assert(ps[i as int] == (pairs@[i as int].0@, pairs@[i as int].1@));
                        assert(enc_pair(ps[i as int]) =~= seq!['"'] + pairs@[i as int].0@ + seq![
                            '"',
                            ':',
                        ] + enc_val(pairs@[i as int].1@));
                        if i == 0 {
                            assert(ps.take(1) =~= seq![ps[0]]);
                            assert(enc_pairs(ps.take(1)) == enc_pair(ps[0]));
                            assert(r@ =~= seq!['{'] + enc_pairs(ps.take(1)));
                        } else {
                            lemma_enc_pairs_snoc(ps.take(i as int), ps[i as int]);
                            assert(ps.take(i as int).push(ps[i as int]) =~= ps.take(i as int + 1));
                            assert(r@ =~= seq!['{'] + enc_pairs(ps.take(i as int + 1)));
                        }
                    }
                    i = i + 1;
                }
                r.append("}");
                proof {
                    reveal_strlit("}");
                    lemma_pairs_view(pairs@);
                    assert(ps.take(ps.len() as int) =~= ps);
                    assert(r@ =~= enc_val(self@));
                }
                r
            },
        }
    }
}


impl PartialEq for JsonNode {
    fn eq(&self, other: &JsonNode) -> (r: bool) {
        self.deep_eq(other)
    }
}

impl vstd::std_specs::cmp::PartialEqSpecImpl for JsonNode {
    open spec fn obeys_eq_spec() -> bool {
        true
    }

    open spec fn eq_spec(&self, other: &JsonNode) -> bool {
        eqv(self@, other@)
    }
}

} // verus!
