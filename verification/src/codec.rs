//! Protocol codec: lossless translation between the wire envelope — a JSON
//! object carrying a kind tag, an optional scalar payload and an optional
//! list payload — and its in-memory representation, together with the codec
//! for the chat message record nested inside a `message` envelope's payload.
//!
//! The encoder emits one canonical form: no whitespace, keys in a fixed
//! order (`messageType`, then `data`, then `dataArray`), absent payloads
//! omitted, and `"` and `\` escaped inside strings. The decoder accepts
//! exactly that canonical form; everything else is a decode failure.

use vstd::prelude::*;

verus! {

/// The wire message: a kind tag and at most one scalar or one list payload.
///
/// The tag is free-form bytes, so an unrecognized kind decodes into an
/// ordinary envelope that carries the unknown tag instead of failing.
pub struct Envelope {
    pub message_type: Vec<u8>,
    pub data: Option<Vec<u8>>,
    pub data_array: Option<Vec<Vec<u8>>>,
}

/// Mathematical model of an [`Envelope`].
#[verifier::ext_equal]
pub ghost struct EnvData {
    pub message_type: Seq<u8>,
    pub data: Option<Seq<u8>>,
    pub data_array: Option<Seq<Seq<u8>>>,
}

impl View for Envelope {
    type V = EnvData;

    open spec fn view(&self) -> EnvData {
        EnvData {
            message_type: self.message_type@,
            data: match self.data {
                Some(d) => Some(d@),
                None => None,
            },
            data_array: match self.data_array {
                Some(a) => Some(a.deep_view()),
                None => None,
            },
        }
    }
}

/// A malformed or unrecognizable wire frame.
#[derive(Debug, PartialEq, Eq, Structural)]
pub enum DecodeError {
    Malformed,
}

// ---------------------------------------------------------------------------
// Canonical encoding, as spec functions.
// ---------------------------------------------------------------------------

/// The lower-case hexadecimal digit for a value below sixteen.
pub open spec fn hex_digit(n: u8) -> u8 {
    if n < 10 {
        (48 + n) as u8
    } else {
        (87 + n) as u8
    }
}

/// How one byte stands inside a quoted string: `"` and `\` get a
/// backslash, the named control characters their short escapes, any other
/// control byte a four-digit hexadecimal escape.
pub open spec fn esc_byte(b: u8) -> Seq<u8> {
    if b == 34 {
        seq![92u8, 34u8]
    } else if b == 92 {
        seq![92u8, 92u8]
    } else if b == 8 {
        seq![92u8, 98u8]
    } else if b == 9 {
        seq![92u8, 116u8]
    } else if b == 10 {
        seq![92u8, 110u8]
    } else if b == 12 {
        seq![92u8, 102u8]
    } else if b == 13 {
        seq![92u8, 114u8]
    } else if b < 32 {
        seq![92u8, 117u8, 48u8, 48u8, hex_digit(b / 16), hex_digit(b % 16)]
    } else {
        seq![b]
    }
}

/// JSON whitespace: space, tab, line feed, carriage return.
pub open spec fn is_ws(b: u8) -> bool {
    b == 32 || b == 9 || b == 10 || b == 13
}

/// First position at or after `i` that does not hold whitespace.
pub open spec fn ws_end(s: Seq<u8>, i: int) -> int
    decreases s.len() - i,
{
    if i < 0 || i >= s.len() {
        i
    } else if is_ws(s[i]) {
        ws_end(s, i + 1)
    } else {
        i
    }
}

/// The whitespace run ends within the input, on a non-whitespace byte.
proof fn lemma_ws_end(s: Seq<u8>, i: int)
    requires
        0 <= i <= s.len(),
    ensures
        i <= ws_end(s, i) <= s.len(),
        ws_end(s, i) < s.len() ==> !is_ws(s[ws_end(s, i)]),
    decreases s.len() - i,
{
    if i < s.len() && is_ws(s[i]) {
        lemma_ws_end(s, i + 1);
    }
}

/// Value of one hexadecimal digit, either case.
pub open spec fn hex_val(c: u8) -> Option<u8> {
    if 48 <= c <= 57 {
        Some((c - 48) as u8)
    } else if 97 <= c <= 102 {
        Some((c - 87) as u8)
    } else if 65 <= c <= 70 {
        Some((c - 55) as u8)
    } else {
        None
    }
}

/// The byte a short escape stands for: `\" \\ \/ \b \f \n \r \t`.
pub open spec fn esc_char_value(c: u8) -> Option<u8> {
    if c == 34 {
        Some(34u8)
    } else if c == 92 {
        Some(92u8)
    } else if c == 47 {
        Some(47u8)
    } else if c == 98 {
        Some(8u8)
    } else if c == 102 {
        Some(12u8)
    } else if c == 110 {
        Some(10u8)
    } else if c == 114 {
        Some(13u8)
    } else if c == 116 {
        Some(9u8)
    } else {
        None
    }
}

/// String content with `"` and `\` escaped.
pub open spec fn spec_escape(s: Seq<u8>) -> Seq<u8>
    decreases s.len(),
{
    if s.len() == 0 {
        Seq::empty()
    } else {
        esc_byte(s[0]) + spec_escape(s.drop_first())
    }
}

/// A quoted JSON string.
pub open spec fn spec_quote(s: Seq<u8>) -> Seq<u8> {
    seq![34u8] + spec_escape(s) + seq![34u8]
}

/// `{"messageType":`
pub open spec fn lit_prefix_mt() -> Seq<u8> {
    seq![123u8, 34u8, 109u8, 101u8, 115u8, 115u8, 97u8, 103u8, 101u8, 84u8, 121u8, 112u8, 101u8, 34u8, 58u8]
}

/// `,"data":`
pub open spec fn lit_data() -> Seq<u8> {
    seq![44u8, 34u8, 100u8, 97u8, 116u8, 97u8, 34u8, 58u8]
}

/// `,"dataArray":`
pub open spec fn lit_data_array() -> Seq<u8> {
    seq![44u8, 34u8, 100u8, 97u8, 116u8, 97u8, 65u8, 114u8, 114u8, 97u8, 121u8, 34u8, 58u8]
}

/// The elements of a JSON array of strings, comma-separated.
pub open spec fn spec_array_inner(a: Seq<Seq<u8>>) -> Seq<u8>
    decreases a.len(),
{
    if a.len() == 0 {
        Seq::empty()
    } else if a.len() == 1 {
        spec_quote(a[0])
    } else {
        spec_quote(a[0]) + seq![44u8] + spec_array_inner(a.drop_first())
    }
}

/// A JSON array of strings.
pub open spec fn spec_array(a: Seq<Seq<u8>>) -> Seq<u8> {
    seq![91u8] + spec_array_inner(a) + seq![93u8]
}

/// The canonical encoding of an envelope.
pub open spec fn spec_envelope_bytes(e: EnvData) -> Seq<u8> {
    lit_prefix_mt() + spec_quote(e.message_type) + (match e.data {
        Some(d) => lit_data() + spec_quote(d),
        None => Seq::empty(),
    }) + (match e.data_array {
        Some(a) => lit_data_array() + spec_array(a),
        None => Seq::empty(),
    }) + seq![125u8]
}

// ---------------------------------------------------------------------------
// Encoder.
// ---------------------------------------------------------------------------

/// Appends every byte of `xs` to `out`.
fn push_all(out: &mut Vec<u8>, xs: &Vec<u8>)
    ensures
        final(out)@ == old(out)@ + xs@,
{
    let mut i: usize = 0;
    while i < xs.len()
        invariant
            i <= xs@.len(),
            out@ == old(out)@ + xs@.take(i as int),
        decreases xs@.len() - i,
    {
        out.push(xs[i]);
        proof {
            assert(xs@.take(i + 1) =~= xs@.take(i as int).push(xs@[i as int]));
        }
        i = i + 1;
    }
    proof {
        assert(xs@.take(xs@.len() as int) =~= xs@);
    }
}

/// Appends the escaped content of `s` from position `i` on.
fn push_escaped_from(out: &mut Vec<u8>, s: &Vec<u8>, i: usize)
    requires
        i <= s@.len(),
    ensures
        final(out)@ == old(out)@ + spec_escape(s@.subrange(i as int, s@.len() as int)),
    decreases s@.len() - i,
{
    if i < s.len() {
        let b = s[i];
        if b == 34 || b == 92 {
            out.push(92);
            out.push(b);
        } else if b == 8 {
            out.push(92);
            out.push(98);
        } else if b == 9 {
            out.push(92);
            out.push(116);
        } else if b == 10 {
            out.push(92);
            out.push(110);
        } else if b == 12 {
            out.push(92);
            out.push(102);
        } else if b == 13 {
            out.push(92);
            out.push(114);
        } else if b < 32 {
            out.push(92);
            out.push(117);
            out.push(48);
            out.push(48);
            let hi = b / 16;
            let lo = b % 16;
            let hc: u8 = if hi < 10 {
                48 + hi
            } else {
                87 + hi
            };
            let lc: u8 = if lo < 10 {
                48 + lo
            } else {
                87 + lo
            };
            out.push(hc);
            out.push(lc);
            proof {
                assert(hc == hex_digit(b / 16));
                assert(lc == hex_digit(b % 16));
            }
        } else {
            out.push(b);
        }
        proof {
            assert(out@ =~= old(out)@ + esc_byte(s@[i as int]));
        }
        push_escaped_from(out, s, i + 1);
        proof {
            let rest = s@.subrange(i as int, s@.len() as int);
            assert(rest.drop_first() =~= s@.subrange(i + 1, s@.len() as int));
            assert(old(out)@ + esc_byte(s@[i as int]) + spec_escape(rest.drop_first()) =~= old(
                out,
            )@ + spec_escape(rest));
        }
    } else {
        proof {
            assert(s@.subrange(i as int, s@.len() as int) =~= Seq::<u8>::empty());
            assert(out@ =~= old(out)@ + Seq::<u8>::empty());
        }
    }
}

/// Appends the quoted form of `s`.
fn push_quoted(out: &mut Vec<u8>, s: &Vec<u8>)
    ensures
        final(out)@ == old(out)@ + spec_quote(s@),
{
    out.push(34);
    push_escaped_from(out, s, 0);
    out.push(34);
    proof {
        assert(s@.subrange(0, s@.len() as int) =~= s@);
        assert(out@ =~= old(out)@ + spec_quote(s@));
    }
}

/// `{"messageType":` as a vector.
fn make_prefix_mt() -> (v: Vec<u8>)
    ensures
        v@ == lit_prefix_mt(),
{
    let v: Vec<u8> = vec![123u8, 34u8, 109u8, 101u8, 115u8, 115u8, 97u8, 103u8, 101u8, 84u8, 121u8, 112u8, 101u8, 34u8, 58u8];
    proof {
        assert(v@ =~= lit_prefix_mt());
    }
    v
}

/// `,"data":` as a vector.
fn make_lit_data() -> (v: Vec<u8>)
    ensures
        v@ == lit_data(),
{
    let v: Vec<u8> = vec![44u8, 34u8, 100u8, 97u8, 116u8, 97u8, 34u8, 58u8];
    proof {
        assert(v@ =~= lit_data());
    }
    v
}

/// `,"dataArray":` as a vector.
fn make_lit_data_array() -> (v: Vec<u8>)
    ensures
        v@ == lit_data_array(),
{
    let v: Vec<u8> = vec![44u8, 34u8, 100u8, 97u8, 116u8, 97u8, 65u8, 114u8, 114u8, 97u8, 121u8, 34u8, 58u8];
    proof {
        assert(v@ =~= lit_data_array());
    }
    v
}

/// Appends the elements of `a` from position `i` on, comma-separated.
fn push_array_inner_from(out: &mut Vec<u8>, a: &Vec<Vec<u8>>, i: usize)
    requires
        i <= a@.len(),
    ensures
        final(out)@ == old(out)@ + spec_array_inner(a.deep_view().subrange(i as int, a@.len() as int)),
    decreases a@.len() - i,
{
    proof {
        assert(a.deep_view().len() == a@.len());
    }
    if i < a.len() {
        push_quoted(out, &a[i]);
        if i + 1 < a.len() {
            out.push(44);
        }
        push_array_inner_from(out, a, i + 1);
        proof {
            let d = a.deep_view();
            let rest = d.subrange(i as int, d.len() as int);
            assert(rest[0] == d[i as int]);
            assert(d[i as int] == a@[i as int]@);
            assert(rest.drop_first() =~= d.subrange(i + 1, d.len() as int));
            if i + 1 < a@.len() {
                assert(rest.len() > 1);
                assert(out@ =~= old(out)@ + spec_array_inner(rest));
            } else {
                assert(rest.len() == 1);
                assert(d.subrange(i + 1, d.len() as int) =~= Seq::<Seq<u8>>::empty());
                assert(out@ =~= old(out)@ + spec_array_inner(rest));
            }
        }
    } else {
        proof {
            let d = a.deep_view();
            assert(d.subrange(i as int, d.len() as int) =~= Seq::<Seq<u8>>::empty());
            assert(out@ =~= old(out)@ + spec_array_inner(d.subrange(i as int, d.len() as int)));
        }
    }
}

/// Encodes an envelope into its canonical wire form; total, never fails.
pub fn encode(e: &Envelope) -> (r: Vec<u8>)
    ensures
        r@ == spec_envelope_bytes(e@),
{
    let mut out: Vec<u8> = make_prefix_mt();
    push_quoted(&mut out, &e.message_type);
    match &e.data {
        Some(d) => {
            let lit = make_lit_data();
            push_all(&mut out, &lit);
            push_quoted(&mut out, d);
        },
        None => {},
    }
    match &e.data_array {
        Some(a) => {
            let lit = make_lit_data_array();
            push_all(&mut out, &lit);
            out.push(91);
            push_array_inner_from(&mut out, a, 0);
            out.push(93);
            proof {
                assert(a.deep_view().subrange(0, a.deep_view().len() as int) =~= a.deep_view());
            }
        },
        None => {},
    }
    out.push(125);
    proof {
        assert(out@ =~= spec_envelope_bytes(e@));
    }
    out
}

// ---------------------------------------------------------------------------
// Canonical parsing, as spec functions.
// ---------------------------------------------------------------------------

/// Position just after `lit` when `s` carries `lit` verbatim at `i`.
pub open spec fn sp_lit(s: Seq<u8>, i: int, lit: Seq<u8>) -> Option<int> {
    if 0 <= i && i + lit.len() <= s.len() && s.subrange(i, i + lit.len()) == lit {
        Some(i + lit.len())
    } else {
        None
    }
}

/// Parses escaped string content starting just after the opening quote;
/// yields the unescaped content and the position just after the closing
/// quote. Raw control bytes are refused; the short escapes and `\u`
/// escapes up to `\u007f` are understood.
pub open spec fn sp_string_body(s: Seq<u8>, i: int) -> Option<(Seq<u8>, int)>
    decreases s.len() - i,
{
    if i < 0 || i >= s.len() {
        None
    } else if s[i] == 34 {
        Some((Seq::empty(), i + 1))
    } else if s[i] == 92 {
        if i + 1 >= s.len() {
            None
        } else if s[i + 1] == 117 {
            if i + 6 <= s.len() && hex_val(s[i + 2]) is Some && hex_val(s[i + 3]) is Some
                && hex_val(s[i + 4]) is Some && hex_val(s[i + 5]) is Some {
                let v = hex_val(s[i + 2]).unwrap() * 4096 + hex_val(s[i + 3]).unwrap() * 256
                    + hex_val(s[i + 4]).unwrap() * 16 + hex_val(s[i + 5]).unwrap();
                if v <= 127 {
                    match sp_string_body(s, i + 6) {
                        None => None,
                        Some(r) => Some((seq![v as u8] + r.0, r.1)),
                    }
                } else {
                    None
                }
            } else {
                None
            }
        } else {
            match esc_char_value(s[i + 1]) {
                Some(b) => match sp_string_body(s, i + 2) {
                    None => None,
                    Some(r) => Some((seq![b] + r.0, r.1)),
                },
                None => None,
            }
        }
    } else if s[i] < 32 {
        None
    } else {
        match sp_string_body(s, i + 1) {
            None => None,
            Some(r) => Some((seq![s[i]] + r.0, r.1)),
        }
    }
}

/// A parsed string ends strictly after where it began, within the input.
proof fn lemma_string_body_bounds(s: Seq<u8>, i: int)
    ensures
        sp_string_body(s, i) is Some ==> i < sp_string_body(s, i).unwrap().1 <= s.len(),
    decreases s.len() - i,
{
    if 0 <= i && i < s.len() {
        if s[i] == 92 {
            if i + 1 < s.len() {
                if s[i + 1] == 117 {
                    if i + 6 <= s.len() {
                        lemma_string_body_bounds(s, i + 6);
                    }
                } else {
                    lemma_string_body_bounds(s, i + 2);
                }
            }
        } else {
            lemma_string_body_bounds(s, i + 1);
        }
    }
}

/// Parses the remaining elements of a string array after at least one
/// element, starting at whitespace, a `,` or the closing `]`.
pub open spec fn sp_array_rest(s: Seq<u8>, i: int, acc: Seq<Seq<u8>>) -> Option<(Seq<Seq<u8>>, int)>
    decreases s.len() - i,
    via sp_array_rest_decreases
{
    if i < 0 {
        None
    } else {
        let j = ws_end(s, i);
        if j >= s.len() {
            None
        } else if s[j] == 93 {
            Some((acc, j + 1))
        } else if s[j] == 44 {
            let k = ws_end(s, j + 1);
            if k < s.len() && s[k] == 34 {
                match sp_string_body(s, k + 1) {
                    None => None,
                    Some(r) => sp_array_rest(s, r.1, acc.push(r.0)),
                }
            } else {
                None
            }
        } else {
            None
        }
    }
}

#[via_fn]
proof fn sp_array_rest_decreases(s: Seq<u8>, i: int, acc: Seq<Seq<u8>>) {
    if 0 <= i && i <= s.len() {
        lemma_ws_end(s, i);
        let j = ws_end(s, i);
        if j < s.len() {
            lemma_ws_end(s, j + 1);
            let k = ws_end(s, j + 1);
            if k < s.len() {
                lemma_string_body_bounds(s, k + 1);
            }
        }
    }
}

/// A parsed array tail ends strictly after where it began, within the
/// input.
proof fn lemma_array_rest_bounds(s: Seq<u8>, i: int, acc: Seq<Seq<u8>>)
    ensures
        sp_array_rest(s, i, acc) is Some ==> i < sp_array_rest(s, i, acc).unwrap().1 <= s.len(),
    decreases s.len() - i,
{
    if 0 <= i && i <= s.len() {
        lemma_ws_end(s, i);
        let j = ws_end(s, i);
        if j < s.len() && s[j] == 44 {
            lemma_ws_end(s, j + 1);
            let k = ws_end(s, j + 1);
            if k < s.len() && s[k] == 34 {
                lemma_string_body_bounds(s, k + 1);
                if sp_string_body(s, k + 1) is Some {
                    let r = sp_string_body(s, k + 1).unwrap();
                    lemma_array_rest_bounds(s, r.1, acc.push(r.0));
                }
            }
        }
    }
}

/// Parses a string array starting just after the `[`; yields the elements
/// and the position just after the `]`.
pub open spec fn sp_array_items(s: Seq<u8>, i: int) -> Option<(Seq<Seq<u8>>, int)> {
    if i < 0 {
        None
    } else {
        let j = ws_end(s, i);
        if j >= s.len() {
            None
        } else if s[j] == 93 {
            Some((Seq::empty(), j + 1))
        } else if s[j] == 34 {
            match sp_string_body(s, j + 1) {
                None => None,
                Some(r) => sp_array_rest(s, r.1, seq![r.0]),
            }
        } else {
            None
        }
    }
}

/// A parsed array ends strictly after where it began, within the input.
proof fn lemma_array_items_bounds(s: Seq<u8>, i: int)
    ensures
        sp_array_items(s, i) is Some ==> i < sp_array_items(s, i).unwrap().1 <= s.len(),
{
    if 0 <= i && i <= s.len() {
        lemma_ws_end(s, i);
        let j = ws_end(s, i);
        if j < s.len() && s[j] == 34 {
            lemma_string_body_bounds(s, j + 1);
            if sp_string_body(s, j + 1) is Some {
                let r = sp_string_body(s, j + 1).unwrap();
                lemma_array_rest_bounds(s, r.1, seq![r.0]);
            }
        }
    }
}

/// `messageType`
pub open spec fn key_mt() -> Seq<u8> {
    seq![109u8, 101u8, 115u8, 115u8, 97u8, 103u8, 101u8, 84u8, 121u8, 112u8, 101u8]
}

/// `data`
pub open spec fn key_data() -> Seq<u8> {
    seq![100u8, 97u8, 116u8, 97u8]
}

/// `dataArray`
pub open spec fn key_data_array() -> Seq<u8> {
    seq![100u8, 97u8, 116u8, 97u8, 65u8, 114u8, 114u8, 97u8, 121u8]
}

/// `null`
pub open spec fn lit_null() -> Seq<u8> {
    seq![110u8, 117u8, 108u8, 108u8]
}

/// Parses one envelope field starting at its key's opening quote. The
/// three known keys are accepted in any order, each at most once; `null`
/// for an optional payload counts as absent; any other key is refused.
pub open spec fn sp_fields(
    s: Seq<u8>,
    i: int,
    seen_mt: bool,
    mt: Seq<u8>,
    seen_d: bool,
    d: Option<Seq<u8>>,
    seen_a: bool,
    a: Option<Seq<Seq<u8>>>,
) -> Option<(EnvData, int)>
    decreases s.len() - i, 1int,
    via sp_fields_decreases
{
    if i < 0 || i >= s.len() || s[i] != 34 {
        None
    } else {
        match sp_string_body(s, i + 1) {
            None => None,
            Some(k) => {
                let j = ws_end(s, k.1);
                if j >= s.len() || s[j] != 58 {
                    None
                } else {
                    let v = ws_end(s, j + 1);
                    if k.0 == key_mt() {
                        if seen_mt {
                            None
                        } else if v < s.len() && s[v] == 34 {
                            match sp_string_body(s, v + 1) {
                                None => None,
                                Some(r) => sp_field_sep(s, r.1, true, r.0, seen_d, d, seen_a, a),
                            }
                        } else {
                            None
                        }
                    } else if k.0 == key_data() {
                        if seen_d {
                            None
                        } else if v < s.len() && s[v] == 34 {
                            match sp_string_body(s, v + 1) {
                                None => None,
                                Some(r) => sp_field_sep(
                                    s,
                                    r.1,
                                    seen_mt,
                                    mt,
                                    true,
                                    Some(r.0),
                                    seen_a,
                                    a,
                                ),
                            }
                        } else {
                            match sp_lit(s, v, lit_null()) {
                                Some(v2) => sp_field_sep(s, v2, seen_mt, mt, true, None, seen_a, a),
                                None => None,
                            }
                        }
                    } else if k.0 == key_data_array() {
                        if seen_a {
                            None
                        } else if v < s.len() && s[v] == 91 {
                            match sp_array_items(s, v + 1) {
                                None => None,
                                Some(r) => sp_field_sep(
                                    s,
                                    r.1,
                                    seen_mt,
                                    mt,
                                    seen_d,
                                    d,
                                    true,
                                    Some(r.0),
                                ),
                            }
                        } else {
                            match sp_lit(s, v, lit_null()) {
                                Some(v2) => sp_field_sep(s, v2, seen_mt, mt, seen_d, d, true, None),
                                None => None,
                            }
                        }
                    } else {
                        None
                    }
                }
            },
        }
    }
}

#[via_fn]
proof fn sp_fields_decreases(
    s: Seq<u8>,
    i: int,
    seen_mt: bool,
    mt: Seq<u8>,
    seen_d: bool,
    d: Option<Seq<u8>>,
    seen_a: bool,
    a: Option<Seq<Seq<u8>>>,
) {
    if 0 <= i && i < s.len() {
        lemma_string_body_bounds(s, i + 1);
        if sp_string_body(s, i + 1) is Some {
            let k = sp_string_body(s, i + 1).unwrap();
            lemma_ws_end(s, k.1);
            let j = ws_end(s, k.1);
            if j < s.len() {
                lemma_ws_end(s, j + 1);
                let v = ws_end(s, j + 1);
                if v < s.len() {
                    lemma_string_body_bounds(s, v + 1);
                    lemma_array_items_bounds(s, v + 1);
                }
            }
        }
    }
}

/// After a field's value: the object closes — well-formed only once the
/// kind tag was seen — or a comma introduces the next field.
pub open spec fn sp_field_sep(
    s: Seq<u8>,
    i: int,
    seen_mt: bool,
    mt: Seq<u8>,
    seen_d: bool,
    d: Option<Seq<u8>>,
    seen_a: bool,
    a: Option<Seq<Seq<u8>>>,
) -> Option<(EnvData, int)>
    decreases s.len() - i, 0int,
    via sp_field_sep_decreases
{
    if i < 0 {
        None
    } else {
        let j = ws_end(s, i);
        if j >= s.len() {
            None
        } else if s[j] == 125 {
            if seen_mt {
                Some((EnvData { message_type: mt, data: d, data_array: a }, j + 1))
            } else {
                None
            }
        } else if s[j] == 44 {
            let k = ws_end(s, j + 1);
            sp_fields(s, k, seen_mt, mt, seen_d, d, seen_a, a)
        } else {
            None
        }
    }
}

#[via_fn]
proof fn sp_field_sep_decreases(
    s: Seq<u8>,
    i: int,
    seen_mt: bool,
    mt: Seq<u8>,
    seen_d: bool,
    d: Option<Seq<u8>>,
    seen_a: bool,
    a: Option<Seq<Seq<u8>>>,
) {
    if 0 <= i && i <= s.len() {
        lemma_ws_end(s, i);
        let j = ws_end(s, i);
        if j < s.len() {
            lemma_ws_end(s, j + 1);
        }
    }
}

/// The parse of a wire frame: a JSON object carrying the `messageType`
/// string and optionally the `data` string and `dataArray` string list, in
/// any key order, with optional whitespace; `Some` exactly on such frames,
/// and then the envelope they carry.
pub open spec fn sp_envelope(s: Seq<u8>) -> Option<EnvData> {
    let i0 = ws_end(s, 0);
    if i0 >= s.len() || s[i0] != 123 {
        None
    } else {
        let i1 = ws_end(s, i0 + 1);
        if i1 < s.len() && s[i1] == 125 {
            None
        } else {
            match sp_fields(s, i1, false, Seq::empty(), false, None, false, None) {
                None => None,
                Some(r) => if ws_end(s, r.1) == s.len() {
                    Some(r.0)
                } else {
                    None
                },
            }
        }
    }
}

// ---------------------------------------------------------------------------
// Decoder.
// ---------------------------------------------------------------------------

/// Whether `s` carries `lit` verbatim at `i`; yields the position after it.
fn expect_lit(s: &Vec<u8>, i: usize, lit: &Vec<u8>) -> (r: Option<usize>)
    ensures
        match r {
            Some(j) => sp_lit(s@, i as int, lit@) == Some(j as int) && j <= s@.len(),
            None => sp_lit(s@, i as int, lit@) is None,
        },
{
    if i > s.len() || s.len() - i < lit.len() {
        return None;
    }
    let mut k: usize = 0;
    while k < lit.len()
        invariant
            i + lit@.len() <= s@.len(),
            s@.len() <= usize::MAX,
            k <= lit@.len(),
            forall|m: int| 0 <= m < k ==> s@[i + m] == lit@[m],
        decreases lit@.len() - k,
    {
        proof {
            assert(i + k < s@.len());
        }
        if s[i + k] != lit[k] {
            proof {
                if sp_lit(s@, i as int, lit@) is Some {
                    assert(s@.subrange(i as int, i + lit@.len())[k as int] == s@[i + k]);
                }
            }
            return None;
        }
        k = k + 1;
    }
    proof {
        assert(s@.subrange(i as int, i + lit@.len()) =~= lit@);
    }
    Some(i + lit.len())
}

/// Whether the two byte vectors hold the same bytes.
fn same_bytes(a: &Vec<u8>, b: &Vec<u8>) -> (r: bool)
    ensures
        r <==> a@ == b@,
{
    if a.len() != b.len() {
        return false;
    }
    let mut i: usize = 0;
    while i < a.len()
        invariant
            a@.len() == b@.len(),
            i <= a@.len(),
            forall|k: int| 0 <= k < i ==> a@[k] == b@[k],
        decreases a@.len() - i,
    {
        if a[i] != b[i] {
            return false;
        }
        i = i + 1;
    }
    proof {
        assert(a@ =~= b@);
    }
    true
}

/// First position at or after `i` that does not hold whitespace.
fn skip_ws(s: &Vec<u8>, i: usize) -> (j: usize)
    requires
        i <= s@.len(),
    ensures
        j == ws_end(s@, i as int),
        i <= j <= s@.len(),
    decreases s@.len() - i,
{
    proof {
        lemma_ws_end(s@, i as int);
    }
    if i < s.len() {
        let b = s[i];
        if b == 32 || b == 9 || b == 10 || b == 13 {
            return skip_ws(s, i + 1);
        }
    }
    i
}

/// Value of one hexadecimal digit; mirrors [`hex_val`].
fn hex_digit_value(c: u8) -> (r: Option<u8>)
    ensures
        r == hex_val(c),
{
    if 48 <= c && c <= 57 {
        Some(c - 48)
    } else if 97 <= c && c <= 102 {
        Some(c - 87)
    } else if 65 <= c && c <= 70 {
        Some(c - 55)
    } else {
        None
    }
}

/// The byte a short escape stands for; mirrors [`esc_char_value`].
fn unescape_char(c: u8) -> (r: Option<u8>)
    ensures
        r == esc_char_value(c),
{
    if c == 34 {
        Some(34)
    } else if c == 92 {
        Some(92)
    } else if c == 47 {
        Some(47)
    } else if c == 98 {
        Some(8)
    } else if c == 102 {
        Some(12)
    } else if c == 110 {
        Some(10)
    } else if c == 114 {
        Some(13)
    } else if c == 116 {
        Some(9)
    } else {
        None
    }
}

/// Parses escaped string content; mirrors [`sp_string_body`].
fn parse_string_body(s: &Vec<u8>, i: usize) -> (r: Option<(Vec<u8>, usize)>)
    ensures
        match r {
            Some(p) => sp_string_body(s@, i as int) == Some((p.0@, p.1 as int)) && i < p.1
                <= s@.len(),
            None => sp_string_body(s@, i as int) is None,
        },
    decreases s@.len() - i,
{
    proof {
        lemma_string_body_bounds(s@, i as int);
    }
    if i >= s.len() {
        return None;
    }
    let b = s[i];
    if b == 34 {
        let v: Vec<u8> = Vec::new();
        proof {
            assert(v@ =~= Seq::<u8>::empty());
        }
        Some((v, i + 1))
    } else if b == 92 {
        if i + 1 >= s.len() {
            return None;
        }
        let c = s[i + 1];
        if c == 117 {
            if s.len() - i < 6 {
                return None;
            }
            let h1 = match hex_digit_value(s[i + 2]) {
                Some(h) => h,
                None => { return None; },
            };
            let h2 = match hex_digit_value(s[i + 3]) {
                Some(h) => h,
                None => { return None; },
            };
            let h3 = match hex_digit_value(s[i + 4]) {
                Some(h) => h,
                None => { return None; },
            };
            let h4 = match hex_digit_value(s[i + 5]) {
                Some(h) => h,
                None => { return None; },
            };
            let val: u32 = (h1 as u32) * 4096 + (h2 as u32) * 256 + (h3 as u32) * 16 + (h4 as u32);
            if val > 127 {
                return None;
            }
            match parse_string_body(s, i + 6) {
                None => None,
                Some((rest, j)) => {
                    let mut v = rest;
                    v.insert(0, val as u8);
                    proof {
                        assert(v@ =~= seq![(val as u32) as u8] + sp_string_body(
                            s@,
                            i + 6,
                        ).unwrap().0);
                    }
                    Some((v, j))
                },
            }
        } else {
            let u = match unescape_char(c) {
                Some(u) => u,
                None => { return None; },
            };
            match parse_string_body(s, i + 2) {
                None => None,
                Some((rest, j)) => {
                    let mut v = rest;
                    v.insert(0, u);
                    proof {
                        assert(v@ =~= seq![esc_char_value(s@[i + 1]).unwrap()] + sp_string_body(
                            s@,
                            i + 2,
                        ).unwrap().0);
                    }
                    Some((v, j))
                },
            }
        }
    } else if b < 32 {
        None
    } else {
        match parse_string_body(s, i + 1) {
            None => None,
            Some((rest, j)) => {
                let mut v = rest;
                v.insert(0, b);
                proof {
                    assert(v@ =~= seq![s@[i as int]] + sp_string_body(s@, i + 1).unwrap().0);
                }
                Some((v, j))
            },
        }
    }
}

/// Parses a string array after its `[`; mirrors [`sp_array_items`].
fn parse_array_items(s: &Vec<u8>, i: usize) -> (r: Option<(Vec<Vec<u8>>, usize)>)
    requires
        i <= s@.len(),
    ensures
        match r {
            Some(p) => sp_array_items(s@, i as int) == Some((p.0.deep_view(), p.1 as int)) && p.1
                <= s@.len(),
            None => sp_array_items(s@, i as int) is None,
        },
{
    let j = skip_ws(s, i);
    if j >= s.len() {
        return None;
    }
    if s[j] == 93 {
        let acc: Vec<Vec<u8>> = Vec::new();
        proof {
            assert(acc.deep_view() =~= Seq::<Seq<u8>>::empty());
        }
        return Some((acc, j + 1));
    }
    if s[j] != 34 {
        return None;
    }
    let (first, j1) = match parse_string_body(s, j + 1) {
        None => { return None; },
        Some(p) => p,
    };
    let mut acc: Vec<Vec<u8>> = Vec::new();
    let ghost first_view = first@;
    acc.push(first);
    proof {
        assert(acc.deep_view() =~~= seq![first_view]);
    }
    let mut cur: usize = j1;
    loop
        invariant
            cur <= s@.len(),
            sp_array_items(s@, i as int) == sp_array_rest(s@, cur as int, acc.deep_view()),
        decreases s@.len() - cur,
    {
        let j2 = skip_ws(s, cur);
        if j2 >= s.len() {
            return None;
        }
        let b = s[j2];
        if b == 93 {
            return Some((acc, j2 + 1));
        }
        if b == 44 {
            let k = skip_ws(s, j2 + 1);
            if k < s.len() && s[k] == 34 {
                match parse_string_body(s, k + 1) {
                    None => { return None; },
                    Some((v, e)) => {
                        let ghost old_acc = acc.deep_view();
                        let ghost v_view = v@;
                        acc.push(v);
                        proof {
                            assert(acc.deep_view() =~~= old_acc.push(v_view));
                        }
                        cur = e;
                    },
                }
            } else {
                return None;
            }
        } else {
            return None;
        }
    }
}

/// `messageType` as a vector.
fn make_key_mt() -> (v: Vec<u8>)
    ensures
        v@ == key_mt(),
{
    let v: Vec<u8> = vec![109u8, 101u8, 115u8, 115u8, 97u8, 103u8, 101u8, 84u8, 121u8, 112u8, 101u8];
    proof {
        assert(v@ =~= key_mt());
    }
    v
}

/// `data` as a vector.
fn make_key_data() -> (v: Vec<u8>)
    ensures
        v@ == key_data(),
{
    let v: Vec<u8> = vec![100u8, 97u8, 116u8, 97u8];
    proof {
        assert(v@ =~= key_data());
    }
    v
}

/// `dataArray` as a vector.
fn make_key_data_array() -> (v: Vec<u8>)
    ensures
        v@ == key_data_array(),
{
    let v: Vec<u8> = vec![100u8, 97u8, 116u8, 97u8, 65u8, 114u8, 114u8, 97u8, 121u8];
    proof {
        assert(v@ =~= key_data_array());
    }
    v
}

/// `null` as a vector.
fn make_lit_null() -> (v: Vec<u8>)
    ensures
        v@ == lit_null(),
{
    let v: Vec<u8> = vec![110u8, 117u8, 108u8, 108u8];
    proof {
        assert(v@ =~= lit_null());
    }
    v
}

/// The scalar payload as its mathematical view.
pub open spec fn opt_bytes(d: Option<Vec<u8>>) -> Option<Seq<u8>> {
    match d {
        Some(x) => Some(x@),
        None => None,
    }
}

/// The list payload as its mathematical view.
pub open spec fn opt_list(a: Option<Vec<Vec<u8>>>) -> Option<Seq<Seq<u8>>> {
    match a {
        Some(x) => Some(x.deep_view()),
        None => None,
    }
}

/// The whole-frame result once the fields are parsed: well-formed only if
/// nothing but whitespace follows the closing brace.
pub open spec fn sp_finish(s: Seq<u8>, r: Option<(EnvData, int)>) -> Option<EnvData> {
    match r {
        None => None,
        Some(p) => if ws_end(s, p.1) == s.len() {
            Some(p.0)
        } else {
            None
        },
    }
}

/// Decodes a wire frame; fails exactly when the frame is not an envelope
/// object of the accepted grammar, and otherwise returns the envelope it
/// carries.
pub fn decode(s: &Vec<u8>) -> (r: Result<Envelope, DecodeError>)
    ensures
        match r {
            Ok(e) => sp_envelope(s@) == Some(e@),
            Err(_) => sp_envelope(s@) is None,
        },
{
    let i0 = skip_ws(s, 0);
    if i0 >= s.len() || s[i0] != 123 {
        return Err(DecodeError::Malformed);
    }
    let mut cur = skip_ws(s, i0 + 1);
    if cur < s.len() && s[cur] == 125 {
        return Err(DecodeError::Malformed);
    }
    let mut seen_mt = false;
    let mut mt: Vec<u8> = Vec::new();
    let mut seen_d = false;
    let mut dat: Option<Vec<u8>> = None;
    let mut seen_a = false;
    let mut arr: Option<Vec<Vec<u8>>> = None;
    let km = make_key_mt();
    let kd = make_key_data();
    let ka = make_key_data_array();
    let nl = make_lit_null();
    loop
        invariant
            cur <= s@.len(),
            km@ == key_mt(),
            kd@ == key_data(),
            ka@ == key_data_array(),
            nl@ == lit_null(),
            sp_envelope(s@) == sp_finish(
                s@,
                sp_fields(
                    s@,
                    cur as int,
                    seen_mt,
                    mt@,
                    seen_d,
                    opt_bytes(dat),
                    seen_a,
                    opt_list(arr),
                ),
            ),
        decreases s@.len() - cur,
    {
        if cur >= s.len() || s[cur] != 34 {
            return Err(DecodeError::Malformed);
        }
        let (key, k1) = match parse_string_body(s, cur + 1) {
            Some(p) => p,
            None => { return Err(DecodeError::Malformed); },
        };
        let j = skip_ws(s, k1);
        if j >= s.len() || s[j] != 58 {
            return Err(DecodeError::Malformed);
        }
        let v = skip_ws(s, j + 1);
        let r1: usize;
        if same_bytes(&key, &km) {
            if seen_mt {
                return Err(DecodeError::Malformed);
            }
            if !(v < s.len() && s[v] == 34) {
                return Err(DecodeError::Malformed);
            }
            let (val, e1) = match parse_string_body(s, v + 1) {
                Some(p) => p,
                None => { return Err(DecodeError::Malformed); },
            };
            mt = val;
            seen_mt = true;
            r1 = e1;
        } else if same_bytes(&key, &kd) {
            if seen_d {
                return Err(DecodeError::Malformed);
            }
            if v < s.len() && s[v] == 34 {
                let (val, e1) = match parse_string_body(s, v + 1) {
                    Some(p) => p,
                    None => { return Err(DecodeError::Malformed); },
                };
                dat = Some(val);
                seen_d = true;
                r1 = e1;
            } else {
                match expect_lit(s, v, &nl) {
                    Some(e1) => {
                        dat = None;
                        seen_d = true;
                        r1 = e1;
                    },
                    None => { return Err(DecodeError::Malformed); },
                }
            }
        } else if same_bytes(&key, &ka) {
            if seen_a {
                return Err(DecodeError::Malformed);
            }
            if v < s.len() && s[v] == 91 {
                proof {
                    lemma_array_items_bounds(s@, v + 1);
                }
                let (val, e1) = match parse_array_items(s, v + 1) {
                    Some(p) => p,
                    None => { return Err(DecodeError::Malformed); },
                };
                arr = Some(val);
                seen_a = true;
                r1 = e1;
            } else {
                match expect_lit(s, v, &nl) {
                    Some(e1) => {
                        arr = None;
                        seen_a = true;
                        r1 = e1;
                    },
                    None => { return Err(DecodeError::Malformed); },
                }
            }
        } else {
            return Err(DecodeError::Malformed);
        }
        let j2 = skip_ws(s, r1);
        if j2 >= s.len() {
            return Err(DecodeError::Malformed);
        }
        if s[j2] == 125 {
            if !seen_mt {
                return Err(DecodeError::Malformed);
            }
            let end = skip_ws(s, j2 + 1);
            if end != s.len() {
                return Err(DecodeError::Malformed);
            }
            let e = Envelope { message_type: mt, data: dat, data_array: arr };
            proof {
                assert(e@ =~~= EnvData {
                    message_type: e.message_type@,
                    data: opt_bytes(e.data),
                    data_array: opt_list(e.data_array),
                });
                assert(sp_envelope(s@) == Some(e@));
            }
            return Ok(e);
        } else if s[j2] == 44 {
            cur = skip_ws(s, j2 + 1);
        } else {
            return Err(DecodeError::Malformed);
        }
    }
}

// ---------------------------------------------------------------------------
// The chat message record nested inside a `message` envelope's payload.
// ---------------------------------------------------------------------------

/// The record carried (encoded) in a server-origin `message` envelope:
/// resolved sender name, raw message text, and the send time in epoch
/// milliseconds (optional on the wire).
pub struct ChatRecord {
    pub from: Vec<u8>,
    pub message: Vec<u8>,
    pub time: Option<i64>,
}

/// Mathematical model of a [`ChatRecord`].
#[verifier::ext_equal]
pub ghost struct RecData {
    pub from: Seq<u8>,
    pub message: Seq<u8>,
    pub time: Option<int>,
}

impl View for ChatRecord {
    type V = RecData;

    open spec fn view(&self) -> RecData {
        RecData {
            from: self.from@,
            message: self.message@,
            time: match self.time {
                Some(t) => Some(t as int),
                None => None,
            },
        }
    }
}

/// An ASCII decimal digit.
pub open spec fn is_digit(b: u8) -> bool {
    48 <= b <= 57
}

/// The value of a string of decimal digits.
pub open spec fn dec_value(s: Seq<u8>) -> int
    decreases s.len(),
{
    if s.len() == 0 {
        0
    } else {
        dec_value(s.drop_last()) * 10 + (s.last() - 48)
    }
}

/// The decimal digits of `n`, most significant first, no leading zero.
pub open spec fn spec_u64_dec(n: nat) -> Seq<u8>
    decreases n,
{
    if n < 10 {
        seq![(48 + n) as u8]
    } else {
        spec_u64_dec((n / 10) as nat).push((48 + n % 10) as u8)
    }
}

/// The canonical decimal form of a signed number.
pub open spec fn spec_i64_dec(t: int) -> Seq<u8> {
    if t < 0 {
        seq![45u8] + spec_u64_dec((-t) as nat)
    } else {
        spec_u64_dec(t as nat)
    }
}

/// `{"from":`
pub open spec fn lit_from() -> Seq<u8> {
    seq![123u8, 34u8, 102u8, 114u8, 111u8, 109u8, 34u8, 58u8]
}

/// `,"message":`
pub open spec fn lit_message() -> Seq<u8> {
    seq![44u8, 34u8, 109u8, 101u8, 115u8, 115u8, 97u8, 103u8, 101u8, 34u8, 58u8]
}

/// `,"time":`
pub open spec fn lit_time() -> Seq<u8> {
    seq![44u8, 34u8, 116u8, 105u8, 109u8, 101u8, 34u8, 58u8]
}

/// The canonical encoding of a chat message record.
pub open spec fn spec_record_bytes(r: RecData) -> Seq<u8> {
    lit_from() + spec_quote(r.from) + lit_message() + spec_quote(r.message) + (match r.time {
        Some(t) => lit_time() + spec_i64_dec(t),
        None => Seq::empty(),
    }) + seq![125u8]
}

/// Ten to the `k`.
pub open spec fn pow10(k: nat) -> nat
    decreases k,
{
    if k == 0 {
        1
    } else {
        10 * pow10((k - 1) as nat)
    }
}

/// A digit string's value is below ten to its length.
proof fn lemma_dec_value_bound(s: Seq<u8>)
    requires
        forall|i: int| 0 <= i < s.len() ==> is_digit(s[i]),
    ensures
        0 <= dec_value(s) < pow10(s.len()),
    decreases s.len(),
{
    if s.len() > 0 {
        lemma_dec_value_bound(s.drop_last());
    }
}

/// Ten to the nineteen, written out.
proof fn lemma_pow10_19()
    ensures
        pow10(19) == 10000000000000000000,
{
    reveal_with_fuel(pow10, 21);
}

/// First position at or after `i` that does not hold a digit.
pub open spec fn digit_run_end(s: Seq<u8>, i: int) -> int
    decreases s.len() - i,
{
    if i < 0 || i >= s.len() {
        i
    } else if is_digit(s[i]) {
        digit_run_end(s, i + 1)
    } else {
        i
    }
}

/// The run end lies between `i` and the end of the input, and everything
/// before it is a digit.
proof fn lemma_digit_run_end(s: Seq<u8>, i: int)
    requires
        0 <= i <= s.len(),
    ensures
        i <= digit_run_end(s, i) <= s.len(),
        forall|k: int| i <= k < digit_run_end(s, i) ==> is_digit(s[k]),
        digit_run_end(s, i) < s.len() ==> !is_digit(s[digit_run_end(s, i)]),
    decreases s.len() - i,
{
    if i < s.len() && is_digit(s[i]) {
        lemma_digit_run_end(s, i + 1);
    }
}

/// Parses a canonical decimal number at `i`: an optional minus sign, then
/// one to nineteen digits, valued within the signed 64-bit range.
pub open spec fn sp_number(s: Seq<u8>, i: int) -> Option<(int, int)> {
    if i < 0 || i >= s.len() {
        None
    } else if s[i] == 45 {
        let j = digit_run_end(s, i + 1);
        let v = dec_value(s.subrange(i + 1, j));
        if j > i + 1 && j - (i + 1) <= 19 && -v >= i64::MIN {
            Some((-v, j))
        } else {
            None
        }
    } else {
        let j = digit_run_end(s, i);
        let v = dec_value(s.subrange(i, j));
        if j > i && j - i <= 19 && v <= i64::MAX {
            Some((v, j))
        } else {
            None
        }
    }
}

/// Position of the first non-digit at or after `i`.
fn find_run_end(s: &Vec<u8>, i: usize) -> (j: usize)
    requires
        i <= s@.len(),
    ensures
        j == digit_run_end(s@, i as int),
        i <= j <= s@.len(),
    decreases s@.len() - i,
{
    proof {
        lemma_digit_run_end(s@, i as int);
    }
    if i < s.len() && 48 <= s[i] && s[i] <= 57 {
        find_run_end(s, i + 1)
    } else {
        i
    }
}

/// Value of the digit run `s[a..j]`; the run has at most nineteen digits,
/// so the value fits an unsigned 64-bit word.
fn digits_value(s: &Vec<u8>, a: usize, j: usize) -> (v: u64)
    requires
        a <= j <= s@.len(),
        j - a <= 19,
        forall|k: int| a <= k < j ==> is_digit(s@[k]),
    ensures
        v == dec_value(s@.subrange(a as int, j as int)),
{
    proof {
        lemma_pow10_19();
    }
    let mut v: u64 = 0;
    let mut k: usize = a;
    while k < j
        invariant
            a <= k <= j <= s@.len(),
            j - a <= 19,
            forall|m: int| a <= m < j ==> is_digit(s@[m]),
            v == dec_value(s@.subrange(a as int, k as int)),
            v < pow10((k - a) as nat),
            pow10(19) == 10000000000000000000,
        decreases j - k,
    {
        proof {
            lemma_pow10_monotone((k - a) as nat, 18);
        }
        let d = s[k] - 48;
        v = v * 10 + (d as u64);
        proof {
            let sub1 = s@.subrange(a as int, k + 1);
            assert(sub1.drop_last() =~= s@.subrange(a as int, k as int));
            assert(sub1.last() == s@[k as int]);
        }
        k = k + 1;
    }
    proof {
        assert(s@.subrange(a as int, j as int) == s@.subrange(a as int, k as int));
    }
    v
}

/// `pow10` grows with its exponent.
proof fn lemma_pow10_monotone(a: nat, b: nat)
    requires
        a <= b,
    ensures
        pow10(a) <= pow10(b),
    decreases b,
{
    if a < b {
        lemma_pow10_monotone(a, (b - 1) as nat);
    }
}

/// Parses a decimal number; mirrors [`sp_number`].
fn parse_number(s: &Vec<u8>, i: usize) -> (r: Option<(i64, usize)>)
    requires
        i <= s@.len(),
    ensures
        match r {
            Some(p) => sp_number(s@, i as int) == Some((p.0 as int, p.1 as int)) && i < p.1
                <= s@.len(),
            None => sp_number(s@, i as int) is None,
        },
{
    if i >= s.len() {
        return None;
    }
    let neg = s[i] == 45;
    let a = if neg { i + 1 } else { i };
    if a > s.len() {
        return None;
    }
    let j = find_run_end(s, a);
    proof {
        lemma_digit_run_end(s@, a as int);
    }
    if j == a || j - a > 19 {
        return None;
    }
    proof {
        lemma_dec_value_bound(s@.subrange(a as int, j as int));
        lemma_pow10_monotone((j - a) as nat, 19);
        lemma_pow10_19();
    }
    let mag = digits_value(s, a, j);
    if neg {
        if mag > 9223372036854775808 {
            return None;
        }
        let val: i64 = if mag == 9223372036854775808 {
            i64::MIN
        } else {
            -(mag as i64)
        };
        Some((val, j))
    } else {
        if mag > 9223372036854775807 {
            return None;
        }
        Some((mag as i64, j))
    }
}

/// Continues a record after the message text: the object closes, or the
/// time follows.
pub open spec fn sp_after_message(s: Seq<u8>, i: int, f: Seq<u8>, m: Seq<u8>) -> Option<RecData> {
    if 0 <= i && i == s.len() - 1 && s[i] == 125 {
        Some(RecData { from: f, message: m, time: None })
    } else {
        match sp_lit(s, i, lit_time()) {
            Some(j) => match sp_number(s, j) {
                None => None,
                Some(r) => if r.1 == s.len() - 1 && s[r.1] == 125 {
                    Some(RecData { from: f, message: m, time: Some(r.0) })
                } else {
                    None
                },
            },
            None => None,
        }
    }
}

/// The canonical parse of a chat message record.
pub open spec fn sp_record(s: Seq<u8>) -> Option<RecData> {
    match sp_lit(s, 0, lit_from() + seq![34u8]) {
        None => None,
        Some(i1) => match sp_string_body(s, i1) {
            None => None,
            Some(rf) => match sp_lit(s, rf.1, lit_message() + seq![34u8]) {
                None => None,
                Some(i2) => match sp_string_body(s, i2) {
                    None => None,
                    Some(rm) => sp_after_message(s, rm.1, rf.0, rm.0),
                },
            },
        },
    }
}

/// Appends the decimal digits of `n`.
fn push_u64_dec(out: &mut Vec<u8>, n: u64)
    ensures
        final(out)@ == old(out)@ + spec_u64_dec(n as nat),
    decreases n,
{
    if n < 10 {
        out.push(48 + (n as u8));
        proof {
            assert(out@ =~= old(out)@ + spec_u64_dec(n as nat));
        }
    } else {
        push_u64_dec(out, n / 10);
        out.push(48 + ((n % 10) as u8));
        proof {
            assert(out@ =~= old(out)@ + spec_u64_dec(n as nat));
        }
    }
}

/// Appends the canonical decimal form of `t`.
fn push_i64_dec(out: &mut Vec<u8>, t: i64)
    ensures
        final(out)@ == old(out)@ + spec_i64_dec(t as int),
{
    if t < 0 {
        out.push(45);
        let mag: u64 = if t == i64::MIN {
            9223372036854775808
        } else {
            (-t) as u64
        };
        proof {
            assert(mag == -(t as int));
        }
        push_u64_dec(out, mag);
        proof {
            assert(out@ =~= old(out)@ + spec_i64_dec(t as int));
        }
    } else {
        push_u64_dec(out, t as u64);
    }
}

/// `{"from":` as a vector.
fn make_lit_from() -> (v: Vec<u8>)
    ensures
        v@ == lit_from(),
{
    let v: Vec<u8> = vec![123u8, 34u8, 102u8, 114u8, 111u8, 109u8, 34u8, 58u8];
    proof {
        assert(v@ =~= lit_from());
    }
    v
}

/// `,"message":` as a vector.
fn make_lit_message() -> (v: Vec<u8>)
    ensures
        v@ == lit_message(),
{
    let v: Vec<u8> = vec![44u8, 34u8, 109u8, 101u8, 115u8, 115u8, 97u8, 103u8, 101u8, 34u8, 58u8];
    proof {
        assert(v@ =~= lit_message());
    }
    v
}

/// `,"time":` as a vector.
fn make_lit_time() -> (v: Vec<u8>)
    ensures
        v@ == lit_time(),
{
    let v: Vec<u8> = vec![44u8, 34u8, 116u8, 105u8, 109u8, 101u8, 34u8, 58u8];
    proof {
        assert(v@ =~= lit_time());
    }
    v
}

/// Encodes a chat message record into its canonical form; total.
pub fn encode_record(r: &ChatRecord) -> (out: Vec<u8>)
    ensures
        out@ == spec_record_bytes(r@),
{
    let mut out = make_lit_from();
    push_quoted(&mut out, &r.from);
    let litm = make_lit_message();
    push_all(&mut out, &litm);
    push_quoted(&mut out, &r.message);
    match r.time {
        Some(t) => {
            let litt = make_lit_time();
            push_all(&mut out, &litt);
            push_i64_dec(&mut out, t);
        },
        None => {},
    }
    out.push(125);
    proof {
        assert(out@ =~= spec_record_bytes(r@));
    }
    out
}

/// Decodes a chat message record; fails exactly when the bytes are not a
/// canonical record encoding, and otherwise returns the record they encode.
pub fn decode_record(s: &Vec<u8>) -> (r: Result<ChatRecord, DecodeError>)
    ensures
        match r {
            Ok(rec) => sp_record(s@) == Some(rec@),
            Err(_) => sp_record(s@) is None,
        },
{
    let mut litf = make_lit_from();
    litf.push(34);
    proof {
        assert(litf@ =~= lit_from() + seq![34u8]);
    }
    let i1 = match expect_lit(s, 0, &litf) {
        Some(i) => i,
        None => { return Err(DecodeError::Malformed); },
    };
    let (f, i2) = match parse_string_body(s, i1) {
        Some(p) => p,
        None => { return Err(DecodeError::Malformed); },
    };
    let mut litm = make_lit_message();
    litm.push(34);
    proof {
        assert(litm@ =~= lit_message() + seq![34u8]);
    }
    let i3 = match expect_lit(s, i2, &litm) {
        Some(i) => i,
        None => { return Err(DecodeError::Malformed); },
    };
    let (m, i4) = match parse_string_body(s, i3) {
        Some(p) => p,
        None => { return Err(DecodeError::Malformed); },
    };
    if i4 < s.len() && s[i4] == 125 && i4 + 1 == s.len() {
        let rec = ChatRecord { from: f, message: m, time: None };
        proof {
            assert(sp_record(s@) == Some(rec@));
        }
        return Ok(rec);
    }
    let litt = make_lit_time();
    let j = match expect_lit(s, i4, &litt) {
        Some(i) => i,
        None => { return Err(DecodeError::Malformed); },
    };
    match parse_number(s, j) {
        Some((t, i5)) => {
            if i5 < s.len() && s[i5] == 125 && i5 + 1 == s.len() {
                let rec = ChatRecord { from: f, message: m, time: Some(t) };
                proof {
                    assert(sp_record(s@) == Some(rec@));
                }
                Ok(rec)
            } else {
                Err(DecodeError::Malformed)
            }
        },
        None => Err(DecodeError::Malformed),
    }
}

// ---------------------------------------------------------------------------
// Losslessness: the canonical parse inverts the canonical encoding.
// ---------------------------------------------------------------------------

/// A plain string — no quote, no backslash, no control byte — escapes to
/// itself.
proof fn lemma_escape_plain(v: Seq<u8>)
    requires
        forall|k: int| 0 <= k < v.len() ==> 32 <= #[trigger] v[k] && v[k] != 34 && v[k] != 92,
    ensures
        spec_escape(v) == v,
    decreases v.len(),
{
    if v.len() > 0 {
        lemma_escape_plain(v.drop_first());
        assert(spec_escape(v) =~= v);
    }
}

/// A quoted string in the input parses back to its content: wherever the
/// input carries `spec_escape(v)` followed by a closing quote, the string
/// parser yields exactly `v` and stops just after that quote.
proof fn lemma_quote_parses(s: Seq<u8>, i: int, v: Seq<u8>)
    requires
        0 <= i,
        i + spec_escape(v).len() + 1 <= s.len(),
        s.subrange(i, i + spec_escape(v).len() + 1) == spec_escape(v) + seq![34u8],
    ensures
        sp_string_body(s, i) == Some((v, i + spec_escape(v).len() + 1)),
    decreases v.len(),
{
    let e = spec_escape(v);
    let l = e.len() as int;
    let full = e + seq![34u8];
    if v.len() == 0 {
        assert(s[i] == 34) by {
            assert(s.subrange(i, i + l + 1)[0] == s[i + 0]);
        }
    } else {
        let b = v[0];
        let v1 = v.drop_first();
        let e1 = spec_escape(v1);
        let eb = esc_byte(b);
        let el = eb.len() as int;
        assert(e == eb + e1);
        assert forall|m: int| 0 <= m < el implies s[i + m] == eb[m] by {
            assert(s.subrange(i, i + l + 1)[m] == s[i + m]);
        }
        assert(s.subrange(i + el, i + el + e1.len() + 1) =~= e1 + seq![34u8]) by {
            assert forall|k: int| 0 <= k < e1.len() + 1 implies s.subrange(
                i + el,
                i + el + e1.len() + 1,
            )[k] == (e1 + seq![34u8])[k] by {
                assert(s.subrange(i + el, i + el + e1.len() + 1)[k] == s[i + el + k]);
                assert(s.subrange(i, i + l + 1)[el + k] == s[i + (el + k)]);
                assert(full[el + k] == (e1 + seq![34u8])[k]);
            }
        }
        lemma_quote_parses(s, i + el, v1);
        assert(s[i] == eb[0]) by {
            assert(s.subrange(i, i + l + 1)[0] == s[i + 0]);
        }
        if b == 34 || b == 92 || b == 8 || b == 9 || b == 10 || b == 12 || b == 13 {
            assert(s[i + 1] == eb[1]) by {
                assert(s.subrange(i, i + l + 1)[1] == s[i + 1]);
            }
            assert(esc_char_value(eb[1]) == Some(b));
            assert(seq![b] + v1 =~= v);
        } else if b < 32 {
            assert(s[i + 1] == 117 && s[i + 2] == 48 && s[i + 3] == 48 && s[i + 4] == hex_digit(
                b / 16,
            ) && s[i + 5] == hex_digit(b % 16)) by {
                assert(s.subrange(i, i + l + 1)[1] == s[i + 1]);
                assert(s.subrange(i, i + l + 1)[2] == s[i + 2]);
                assert(s.subrange(i, i + l + 1)[3] == s[i + 3]);
                assert(s.subrange(i, i + l + 1)[4] == s[i + 4]);
                assert(s.subrange(i, i + l + 1)[5] == s[i + 5]);
            }
            assert(hex_val(48) == Some(0u8));
            assert(hex_val(hex_digit(b / 16)) == Some(b / 16));
            assert(hex_val(hex_digit(b % 16)) == Some(b % 16));
            assert((b / 16) * 16 + b % 16 == b);
            assert(seq![b] + v1 =~= v);
        } else {
            assert(seq![b] + v1 =~= v);
        }
    }
}

/// What follows an array's first element: a comma-separated tail and the
/// closing bracket.
spec fn tail_bytes(a: Seq<Seq<u8>>) -> Seq<u8>
    decreases a.len(),
{
    if a.len() == 0 {
        seq![93u8]
    } else {
        seq![44u8] + spec_quote(a[0]) + tail_bytes(a.drop_first())
    }
}

/// The array body splits as first element plus tail.
proof fn lemma_inner_tail(a: Seq<Seq<u8>>)
    requires
        a.len() > 0,
    ensures
        spec_array_inner(a) + seq![93u8] == spec_quote(a[0]) + tail_bytes(a.drop_first()),
    decreases a.len(),
{
    if a.len() == 1 {
        assert(spec_array_inner(a) + seq![93u8] =~= spec_quote(a[0]) + tail_bytes(
            a.drop_first(),
        ));
    } else {
        lemma_inner_tail(a.drop_first());
        assert(spec_array_inner(a) + seq![93u8] =~= spec_quote(a[0]) + (seq![44u8] + (
        spec_array_inner(a.drop_first()) + seq![93u8])));
        assert(spec_quote(a[0]) + (seq![44u8] + (spec_array_inner(a.drop_first()) + seq![93u8]))
            =~= spec_quote(a[0]) + tail_bytes(a.drop_first()));
    }
}

/// The tail parser consumes a tail and appends its elements.
proof fn lemma_array_rest_parses(s: Seq<u8>, i: int, acc: Seq<Seq<u8>>, b: Seq<Seq<u8>>)
    requires
        0 <= i,
        i + tail_bytes(b).len() <= s.len(),
        s.subrange(i, i + tail_bytes(b).len()) == tail_bytes(b),
    ensures
        sp_array_rest(s, i, acc) == Some((acc + b, i + tail_bytes(b).len())),
    decreases b.len(),
{
    let t = tail_bytes(b);
    let l = t.len() as int;
    if b.len() == 0 {
        assert(s[i] == 93) by {
            assert(s.subrange(i, i + l)[0] == s[i + 0]);
        }
        assert(ws_end(s, i) == i);
        assert(acc + b =~= acc);
    } else {
        let b0 = b[0];
        let e0 = spec_escape(b0);
        let q = spec_quote(b0);
        let t1 = tail_bytes(b.drop_first());
        assert(t == seq![44u8] + q + t1);
        assert(q == seq![34u8] + e0 + seq![34u8]);
        assert(s[i] == 44) by {
            assert(s.subrange(i, i + l)[0] == s[i + 0]);
        }
        assert(s[i + 1] == 34) by {
            assert(s.subrange(i, i + l)[1] == s[i + 1]);
        }
        assert(ws_end(s, i) == i);
        assert(ws_end(s, i + 1) == i + 1);
        let j = i + 2 + e0.len() + 1;
        assert(s.subrange(i + 2, j) =~= e0 + seq![34u8]) by {
            assert forall|k: int| 0 <= k < e0.len() + 1 implies s.subrange(i + 2, j)[k] == (e0
                + seq![34u8])[k] by {
                assert(s.subrange(i + 2, j)[k] == s[i + 2 + k]);
                assert(s.subrange(i, i + l)[2 + k] == s[i + (2 + k)]);
                assert(t[2 + k] == (e0 + seq![34u8])[k]);
            }
        }
        lemma_quote_parses(s, i + 2, b0);
        assert(s.subrange(j, j + t1.len()) =~= t1) by {
            assert forall|k: int| 0 <= k < t1.len() implies s.subrange(j, j + t1.len())[k]
                == t1[k] by {
                assert(s.subrange(j, j + t1.len())[k] == s[j + k]);
                assert(s.subrange(i, i + l)[(j - i) + k] == s[i + ((j - i) + k)]);
                assert(t[(j - i) + k] == t1[k]);
            }
        }
        lemma_array_rest_parses(s, j, acc.push(b0), b.drop_first());
        assert(acc.push(b0) + b.drop_first() =~= acc + b);
    }
}

/// The array parser consumes an encoded array body and yields its elements.
proof fn lemma_array_parses(s: Seq<u8>, i: int, a: Seq<Seq<u8>>)
    requires
        0 <= i,
        i + spec_array_inner(a).len() + 1 <= s.len(),
        s.subrange(i, i + spec_array_inner(a).len() + 1) == spec_array_inner(a) + seq![93u8],
    ensures
        sp_array_items(s, i) == Some((a, i + spec_array_inner(a).len() + 1)),
{
    let inner = spec_array_inner(a);
    let l = inner.len() as int;
    if a.len() == 0 {
        assert(s[i] == 93) by {
            assert(s.subrange(i, i + l + 1)[0] == s[i + 0]);
        }
        assert(ws_end(s, i) == i);
    } else {
        lemma_inner_tail(a);
        let full = inner + seq![93u8];
        let a0 = a[0];
        let e0 = spec_escape(a0);
        let q = spec_quote(a0);
        let t1 = tail_bytes(a.drop_first());
        assert(full == q + t1);
        assert(q == seq![34u8] + e0 + seq![34u8]);
        assert(s[i] == 34) by {
            assert(s.subrange(i, i + l + 1)[0] == s[i + 0]);
        }
        assert(ws_end(s, i) == i);
        let j = i + 1 + e0.len() + 1;
        assert(s.subrange(i + 1, j) =~= e0 + seq![34u8]) by {
            assert forall|k: int| 0 <= k < e0.len() + 1 implies s.subrange(i + 1, j)[k] == (e0
                + seq![34u8])[k] by {
                assert(s.subrange(i + 1, j)[k] == s[i + 1 + k]);
                assert(s.subrange(i, i + l + 1)[1 + k] == s[i + (1 + k)]);
                assert(full[1 + k] == (e0 + seq![34u8])[k]);
            }
        }
        lemma_quote_parses(s, i + 1, a0);
        assert(s.subrange(j, j + t1.len()) =~= t1) by {
            assert forall|k: int| 0 <= k < t1.len() implies s.subrange(j, j + t1.len())[k]
                == t1[k] by {
                assert(s.subrange(j, j + t1.len())[k] == s[j + k]);
                assert(s.subrange(i, i + l + 1)[(j - i) + k] == s[i + ((j - i) + k)]);
                assert(full[(j - i) + k] == t1[k]);
            }
        }
        lemma_array_rest_parses(s, j, seq![a0], a.drop_first());
        assert(seq![a0] + a.drop_first() =~= a);
    }
}

/// The three key names are plain strings and pairwise distinct.
proof fn lemma_keys_facts()
    ensures
        spec_escape(key_mt()) == key_mt(),
        spec_escape(key_data()) == key_data(),
        spec_escape(key_data_array()) == key_data_array(),
        key_data() != key_mt(),
        key_data_array() != key_mt(),
        key_data_array() != key_data(),
{
    assert forall|k: int| 0 <= k < key_mt().len() implies 32 <= #[trigger] key_mt()[k]
        && key_mt()[k] != 34 && key_mt()[k] != 92 by {}
    assert forall|k: int| 0 <= k < key_data().len() implies 32 <= #[trigger] key_data()[k]
        && key_data()[k] != 34 && key_data()[k] != 92 by {}
    assert forall|k: int|
        0 <= k < key_data_array().len() implies 32 <= #[trigger] key_data_array()[k]
        && key_data_array()[k] != 34 && key_data_array()[k] != 92 by {}
    lemma_escape_plain(key_mt());
    lemma_escape_plain(key_data());
    lemma_escape_plain(key_data_array());
    assert(key_data().len() != key_mt().len());
    assert(key_data_array().len() != key_mt().len());
    assert(key_data_array().len() != key_data().len());
}

/// The canonical encoding's opening — brace, `messageType` key and kind
/// tag — parses to the state from which only the payload fields remain.
#[verifier::rlimit(100)]
proof fn lemma_env_prefix(e: EnvData)
    ensures
        sp_envelope(spec_envelope_bytes(e)) == sp_finish(
            spec_envelope_bytes(e),
            sp_field_sep(
                spec_envelope_bytes(e),
                15 + spec_quote(e.message_type).len() as int,
                true,
                e.message_type,
                false,
                None,
                false,
                None,
            ),
        ),
{
    lemma_keys_facts();
    let s = spec_envelope_bytes(e);
    let p = lit_prefix_mt();
    let qt = spec_quote(e.message_type);
    let et = spec_escape(e.message_type);
    let d_part: Seq<u8> = match e.data {
        Some(d) => lit_data() + spec_quote(d),
        None => Seq::empty(),
    };
    let a_part: Seq<u8> = match e.data_array {
        Some(a) => lit_data_array() + spec_array(a),
        None => Seq::empty(),
    };
    assert(s == p + qt + d_part + a_part + seq![125u8]);
    assert(s[0] == 123 && s[1] == 34);
    assert(ws_end(s, 0) == 0);
    assert(ws_end(s, 1) == 1);
    assert(s.subrange(2, 14) =~= key_mt() + seq![34u8]);
    lemma_quote_parses(s, 2, key_mt());
    assert(s[14] == 58 && s[15] == 34);
    assert(ws_end(s, 14) == 14);
    assert(ws_end(s, 15) == 15);
    assert(s.subrange(16, 16 + et.len() as int + 1) =~= et + seq![34u8]);
    lemma_quote_parses(s, 16, e.message_type);
    assert(16 + et.len() as int + 1 == 15 + qt.len());
}

/// A `data` field parses and carries the state to what follows it.
#[verifier::rlimit(100)]
proof fn lemma_env_data_field(s: Seq<u8>, x: int, t: Seq<u8>, d: Seq<u8>)
    requires
        0 <= x,
        x + 8 + spec_quote(d).len() <= s.len(),
        s.subrange(x, x + 8 + spec_quote(d).len()) == lit_data() + spec_quote(d),
    ensures
        sp_field_sep(s, x, true, t, false, None, false, None) == sp_field_sep(
            s,
            x + 8 + spec_quote(d).len() as int,
            true,
            t,
            true,
            Some(d),
            false,
            None,
        ),
{
    lemma_keys_facts();
    let ed = spec_escape(d);
    let qd = spec_quote(d);
    let r = lit_data() + qd;
    let rl = r.len() as int;
    assert(s[x + 0] == 44) by {
        assert(s.subrange(x, x + rl)[0] == s[x + 0]);
    }
    assert(s[x + 1] == 34) by {
        assert(s.subrange(x, x + rl)[1] == s[x + 1]);
    }
    assert(ws_end(s, x) == x);
    assert(ws_end(s, x + 1) == x + 1);
    assert(s.subrange(x + 2, x + 7) =~= key_data() + seq![34u8]) by {
        assert forall|k: int| 0 <= k < 5 implies s.subrange(x + 2, x + 7)[k] == (key_data()
            + seq![34u8])[k] by {
            assert(s.subrange(x + 2, x + 7)[k] == s[x + 2 + k]);
            assert(s.subrange(x, x + rl)[2 + k] == s[x + (2 + k)]);
        }
    }
    lemma_quote_parses(s, x + 2, key_data());
    assert(s[x + 7] == 58) by {
        assert(s.subrange(x, x + rl)[7] == s[x + 7]);
    }
    assert(s[x + 8] == 34) by {
        assert(s.subrange(x, x + rl)[8] == s[x + 8]);
    }
    assert(ws_end(s, x + 7) == x + 7);
    assert(ws_end(s, x + 8) == x + 8);
    assert(s.subrange(x + 9, x + 9 + ed.len() as int + 1) =~= ed + seq![34u8]) by {
        assert forall|k: int| 0 <= k < ed.len() + 1 implies s.subrange(
            x + 9,
            x + 9 + ed.len() as int + 1,
        )[k] == (ed + seq![34u8])[k] by {
            assert(s.subrange(x + 9, x + 9 + ed.len() as int + 1)[k] == s[x + 9 + k]);
            assert(s.subrange(x, x + rl)[9 + k] == s[x + (9 + k)]);
            assert(r[9 + k] == (ed + seq![34u8])[k]);
        }
    }
    lemma_quote_parses(s, x + 9, d);
    assert(x + 9 + ed.len() as int + 1 == x + 8 + qd.len());
}

/// A `dataArray` field closing the object parses to the envelope with that
/// list payload.
#[verifier::rlimit(100)]
proof fn lemma_env_array_field(
    s: Seq<u8>,
    x: int,
    t: Seq<u8>,
    sd: bool,
    d: Option<Seq<u8>>,
    a: Seq<Seq<u8>>,
)
    requires
        0 <= x,
        x + 14 + spec_array_inner(a).len() + 2 == s.len(),
        s.subrange(x, s.len() as int) == lit_data_array() + spec_array(a) + seq![125u8],
    ensures
        sp_field_sep(s, x, true, t, sd, d, false, None) == Some(
            (EnvData { message_type: t, data: d, data_array: Some(a) }, s.len() as int),
        ),
{
    reveal_with_fuel(sp_field_sep, 2);
    reveal_with_fuel(sp_fields, 2);
    lemma_keys_facts();
    let inner = spec_array_inner(a);
    let r = lit_data_array() + spec_array(a) + seq![125u8];
    let rl = r.len() as int;
    assert(s[x + 0] == 44) by {
        assert(s.subrange(x, s.len() as int)[0] == s[x + 0]);
    }
    assert(s[x + 1] == 34) by {
        assert(s.subrange(x, s.len() as int)[1] == s[x + 1]);
    }
    assert(ws_end(s, x) == x);
    assert(ws_end(s, x + 1) == x + 1);
    assert(s.subrange(x + 2, x + 12) =~= key_data_array() + seq![34u8]) by {
        assert forall|k: int| 0 <= k < 10 implies s.subrange(x + 2, x + 12)[k] == (
        key_data_array() + seq![34u8])[k] by {
            assert(s.subrange(x + 2, x + 12)[k] == s[x + 2 + k]);
            assert(s.subrange(x, s.len() as int)[2 + k] == s[x + (2 + k)]);
        }
    }
    lemma_quote_parses(s, x + 2, key_data_array());
    assert(s[x + 12] == 58) by {
        assert(s.subrange(x, s.len() as int)[12] == s[x + 12]);
    }
    assert(s[x + 13] == 91) by {
        assert(s.subrange(x, s.len() as int)[13] == s[x + 13]);
    }
    assert(ws_end(s, x + 12) == x + 12);
    assert(ws_end(s, x + 13) == x + 13);
    assert(s.subrange(x + 14, x + 14 + inner.len() as int + 1) =~= inner + seq![93u8]) by {
        assert forall|k: int| 0 <= k < inner.len() + 1 implies s.subrange(
            x + 14,
            x + 14 + inner.len() as int + 1,
        )[k] == (inner + seq![93u8])[k] by {
            assert(s.subrange(x + 14, x + 14 + inner.len() as int + 1)[k] == s[x + 14 + k]);
            assert(s.subrange(x, s.len() as int)[14 + k] == s[x + (14 + k)]);
            assert(r[14 + k] == (inner + seq![93u8])[k]);
        }
    }
    lemma_array_parses(s, x + 14, a);
    let end: int = x + 14 + inner.len() as int + 1;
    assert(end == s.len() - 1);
    assert(s[end] == 125) by {
        assert(s.subrange(x, s.len() as int)[end - x] == s[x + (end - x)]);
        assert(r[end - x] == 125);
    }
    assert(ws_end(s, end) == end);
}

/// The round trip for an envelope with neither payload.
#[verifier::rlimit(100)]
proof fn lemma_rt_none_none(e: EnvData)
    requires
        e.data is None,
        e.data_array is None,
    ensures
        sp_envelope(spec_envelope_bytes(e)) == Some(e),
{
    lemma_env_prefix(e);
    let s = spec_envelope_bytes(e);
    let t = e.message_type;
    let qt = spec_quote(t);
    let i2: int = 15 + qt.len() as int;
    assert(s == lit_prefix_mt() + qt + Seq::<u8>::empty() + Seq::<u8>::empty() + seq![125u8]);
    assert(i2 == s.len() - 1 && s[i2] == 125);
    assert(ws_end(s, i2) == i2);
    assert(ws_end(s, i2 + 1) == s.len());
    assert(EnvData { message_type: t, data: None, data_array: None } =~= e);
}

/// The round trip for an envelope with a scalar payload only.
#[verifier::rlimit(100)]
proof fn lemma_rt_data_only(e: EnvData)
    requires
        e.data is Some,
        e.data_array is None,
    ensures
        sp_envelope(spec_envelope_bytes(e)) == Some(e),
{
    lemma_env_prefix(e);
    let s = spec_envelope_bytes(e);
    let t = e.message_type;
    let qt = spec_quote(t);
    let d = e.data.unwrap();
    let qd = spec_quote(d);
    let i2: int = 15 + qt.len() as int;
    assert(s == lit_prefix_mt() + qt + (lit_data() + qd) + Seq::<u8>::empty() + seq![125u8]);
    assert(s.subrange(i2, i2 + 8 + qd.len() as int) =~= lit_data() + qd);
    lemma_env_data_field(s, i2, t, d);
    let i3: int = i2 + 8 + qd.len() as int;
    assert(i3 == s.len() - 1 && s[i3] == 125);
    assert(ws_end(s, i3) == i3);
    assert(ws_end(s, i3 + 1) == s.len());
    assert(EnvData { message_type: t, data: Some(d), data_array: None } =~= e);
}

/// The round trip for an envelope with a list payload only.
#[verifier::rlimit(100)]
proof fn lemma_rt_array_only(e: EnvData)
    requires
        e.data is None,
        e.data_array is Some,
    ensures
        sp_envelope(spec_envelope_bytes(e)) == Some(e),
{
    lemma_env_prefix(e);
    let s = spec_envelope_bytes(e);
    let t = e.message_type;
    let qt = spec_quote(t);
    let a = e.data_array.unwrap();
    let i2: int = 15 + qt.len() as int;
    assert(s == lit_prefix_mt() + qt + Seq::<u8>::empty() + (lit_data_array() + spec_array(a))
        + seq![125u8]);
    assert(s.subrange(i2, s.len() as int) =~= lit_data_array() + spec_array(a) + seq![125u8]);
    lemma_env_array_field(s, i2, t, false, None, a);
    assert(ws_end(s, s.len() as int) == s.len());
    assert(EnvData { message_type: t, data: None, data_array: Some(a) } =~= e);
}

/// The round trip for an envelope with both payloads.
#[verifier::rlimit(100)]
proof fn lemma_rt_both(e: EnvData)
    requires
        e.data is Some,
        e.data_array is Some,
    ensures
        sp_envelope(spec_envelope_bytes(e)) == Some(e),
{
    lemma_env_prefix(e);
    let s = spec_envelope_bytes(e);
    let t = e.message_type;
    let qt = spec_quote(t);
    let d = e.data.unwrap();
    let qd = spec_quote(d);
    let a = e.data_array.unwrap();
    let i2: int = 15 + qt.len() as int;
    assert(s == lit_prefix_mt() + qt + (lit_data() + qd) + (lit_data_array() + spec_array(a))
        + seq![125u8]);
    assert(s.subrange(i2, i2 + 8 + qd.len() as int) =~= lit_data() + qd);
    lemma_env_data_field(s, i2, t, d);
    let i3: int = i2 + 8 + qd.len() as int;
    assert(s.subrange(i3, s.len() as int) =~= lit_data_array() + spec_array(a) + seq![125u8]);
    lemma_env_array_field(s, i3, t, true, Some(d), a);
    assert(ws_end(s, s.len() as int) == s.len());
    assert(EnvData { message_type: t, data: Some(d), data_array: Some(a) } =~= e);
}

/// Losslessness of the envelope codec: every envelope's canonical encoding
/// parses back to exactly that envelope, so decoding what `encode`
/// produced returns the envelope that was encoded, for every envelope.
pub proof fn lemma_envelope_round_trip(e: EnvData)
    ensures
        sp_envelope(spec_envelope_bytes(e)) == Some(e),
{
    match e.data {
        None => match e.data_array {
            None => lemma_rt_none_none(e),
            Some(_) => lemma_rt_array_only(e),
        },
        Some(_) => match e.data_array {
            None => lemma_rt_data_only(e),
            Some(_) => lemma_rt_both(e),
        },
    }
}

/// Every byte of a number's decimal form is a digit.
proof fn lemma_u64_dec_digits(n: nat)
    ensures
        spec_u64_dec(n).len() >= 1,
        forall|k: int| 0 <= k < spec_u64_dec(n).len() ==> is_digit(spec_u64_dec(n)[k]),
    decreases n,
{
    if n >= 10 {
        lemma_u64_dec_digits(n / 10);
    }
}

/// The decimal form evaluates back to the number.
proof fn lemma_u64_dec_value(n: nat)
    ensures
        dec_value(spec_u64_dec(n)) == n,
    decreases n,
{
    if n < 10 {
        let d = seq![(48 + n) as u8];
        assert(spec_u64_dec(n) == d);
        assert(d.drop_last() =~= Seq::<u8>::empty());
        assert(d.last() == (48 + n) as u8);
        assert(((48 + n) as u8) - 48 == n);
        assert(dec_value(d) == dec_value(d.drop_last()) * 10 + (d.last() - 48));
    }
    if n >= 10 {
        lemma_u64_dec_value(n / 10);
        let d0 = spec_u64_dec(n / 10);
        let dd = d0.push((48 + n % 10) as u8);
        assert(dd.drop_last() =~= d0);
        assert(dd.last() == (48 + n % 10) as u8);
        assert(((48 + n % 10) as u8) - 48 == n % 10);
        assert(n / 10 * 10 + n % 10 == n);
        assert(dec_value(dd) == dec_value(d0) * 10 + (dd.last() - 48));
        assert(spec_u64_dec(n) == dd);
    }
}

/// A number is at least ten to one less than its digit count.
proof fn lemma_u64_dec_lower(n: nat)
    requires
        n >= 1,
    ensures
        pow10((spec_u64_dec(n).len() - 1) as nat) <= n,
    decreases n,
{
    if n >= 10 {
        lemma_u64_dec_lower(n / 10);
        assert(n / 10 * 10 + n % 10 == n);
    }
}

/// A number within the signed 64-bit magnitude range has one to nineteen
/// decimal digits.
proof fn lemma_u64_dec_len(n: nat)
    requires
        n <= 9223372036854775808,
    ensures
        1 <= spec_u64_dec(n).len() <= 19,
{
    lemma_u64_dec_digits(n);
    if n >= 1 {
        lemma_u64_dec_lower(n);
        lemma_pow10_19();
        if spec_u64_dec(n).len() >= 20 {
            lemma_pow10_monotone(19, (spec_u64_dec(n).len() - 1) as nat);
            assert(false);
        }
    }
}

/// A digit run bounded by a non-digit ends exactly at that non-digit.
proof fn lemma_digit_run_exact(s: Seq<u8>, i: int, j: int)
    requires
        0 <= i <= j <= s.len(),
        forall|k: int| i <= k < j ==> is_digit(s[k]),
        j < s.len() ==> !is_digit(s[j]),
    ensures
        digit_run_end(s, i) == j,
    decreases j - i,
{
    if i < j {
        assert(is_digit(s[i]));
        lemma_digit_run_exact(s, i + 1, j);
    }
}

/// A canonical decimal number followed by a non-digit parses back to its
/// value.
proof fn lemma_number_parses(s: Seq<u8>, i: int, t: int)
    requires
        i64::MIN <= t <= i64::MAX,
        0 <= i,
        i + spec_i64_dec(t).len() < s.len(),
        s.subrange(i, i + spec_i64_dec(t).len()) == spec_i64_dec(t),
        !is_digit(s[i + spec_i64_dec(t).len()]),
    ensures
        sp_number(s, i) == Some((t, i + spec_i64_dec(t).len())),
{
    if t >= 0 {
        let d = spec_u64_dec(t as nat);
        let l = d.len() as int;
        lemma_u64_dec_digits(t as nat);
        lemma_u64_dec_value(t as nat);
        lemma_u64_dec_len(t as nat);
        assert(s.subrange(i, i + l) =~= d);
        assert forall|k: int| i <= k < i + l implies is_digit(s[k]) by {
            assert(s.subrange(i, i + l)[k - i] == s[i + (k - i)]);
        }
        assert(s[i] != 45) by {
            assert(s.subrange(i, i + l)[0] == s[i + 0]);
            assert(is_digit(d[0]));
        }
        lemma_digit_run_exact(s, i, i + l);
    } else {
        let m = (-t) as nat;
        let d = spec_u64_dec(m);
        let l = d.len() as int;
        lemma_u64_dec_digits(m);
        lemma_u64_dec_value(m);
        lemma_u64_dec_len(m);
        assert(spec_i64_dec(t) == seq![45u8] + d);
        assert(s[i] == 45) by {
            assert(s.subrange(i, i + l + 1)[0] == s[i + 0]);
        }
        assert(s.subrange(i + 1, i + 1 + l) =~= d) by {
            assert forall|k: int| 0 <= k < l implies s.subrange(i + 1, i + 1 + l)[k] == d[k] by {
                assert(s.subrange(i + 1, i + 1 + l)[k] == s[i + 1 + k]);
                assert(s.subrange(i, i + l + 1)[1 + k] == s[i + (1 + k)]);
                assert((seq![45u8] + d)[1 + k] == d[k]);
            }
        }
        assert forall|k: int| i + 1 <= k < i + 1 + l implies is_digit(s[k]) by {
            assert(s.subrange(i + 1, i + 1 + l)[k - (i + 1)] == s[i + 1 + (k - (i + 1))]);
        }
        lemma_digit_run_exact(s, i + 1, i + 1 + l);
    }
}

/// Losslessness of the record codec: every chat record's canonical
/// encoding parses back to exactly that record, for every timestamp a
/// signed 64-bit clock can produce.
#[verifier::rlimit(100)]
pub proof fn lemma_record_round_trip(r: RecData)
    requires
        r.time is Some ==> i64::MIN <= r.time.unwrap() <= i64::MAX,
    ensures
        sp_record(spec_record_bytes(r)) == Some(r),
{
    let s = spec_record_bytes(r);
    let ef = spec_escape(r.from);
    let qf = spec_quote(r.from);
    let em = spec_escape(r.message);
    let qm = spec_quote(r.message);
    let t_part: Seq<u8> = match r.time {
        Some(t) => lit_time() + spec_i64_dec(t),
        None => Seq::empty(),
    };
    assert(s == lit_from() + qf + lit_message() + qm + t_part + seq![125u8]);
    assert(s.subrange(0, 9) =~= lit_from() + seq![34u8]);
    assert(sp_lit(s, 0, lit_from() + seq![34u8]) == Some(9int));
    assert(s.subrange(9, 9 + ef.len() as int + 1) =~= ef + seq![34u8]);
    lemma_quote_parses(s, 9, r.from);
    let i2: int = 9 + ef.len() as int + 1;
    assert(i2 == 8 + qf.len());
    assert(s.subrange(i2, i2 + 12) =~= lit_message() + seq![34u8]);
    assert(sp_lit(s, i2, lit_message() + seq![34u8]) == Some(i2 + 12));
    let i3: int = i2 + 12;
    assert(s.subrange(i3, i3 + em.len() as int + 1) =~= em + seq![34u8]);
    lemma_quote_parses(s, i3, r.message);
    let i4: int = i3 + em.len() as int + 1;
    match r.time {
        None => {
            assert(i4 == s.len() - 1 && s[i4] == 125);
            assert(sp_after_message(s, i4, r.from, r.message) =~= Some(r));
        },
        Some(t) => {
            assert(s[i4] == 44);
            assert(s.subrange(i4, i4 + 8) =~= lit_time());
            assert(sp_lit(s, i4, lit_time()) == Some(i4 + 8));
            let j: int = i4 + 8;
            let dl = spec_i64_dec(t).len() as int;
            assert(s.subrange(j, j + dl) =~= spec_i64_dec(t));
            assert(s[j + dl] == 125);
            lemma_number_parses(s, j, t);
            assert(j + dl == s.len() - 1);
            assert(sp_after_message(s, i4, r.from, r.message) =~= Some(r));
        },
    }
}


} // verus!
