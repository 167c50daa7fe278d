//! JSON documents for the two containers.
//!
//! The scalar map is stored as one JSON object whose members are string
//! values (`{"key":"value"}`); the list map as one JSON object whose members
//! are arrays of strings (`{"name":["v1","v2"]}`). The encoder produces a
//! canonical document without surrounding whitespace; the parser also accepts
//! whitespace between tokens and the usual single-character string escapes.
//! A `\u` escape is accepted for code points below 0x80 only (the encoder
//! emits such escapes for control bytes alone); any other document is
//! undecodable, which the store recovers from by starting empty.

use vstd::prelude::*;

verus! {

pub const QUOTE: u8 = 34;
pub const COMMA: u8 = 44;
pub const SLASH: u8 = 47;
pub const COLON: u8 = 58;
pub const LBRACKET: u8 = 91;
pub const BACKSLASH: u8 = 92;
pub const RBRACKET: u8 = 93;
pub const LETTER_U: u8 = 117;
pub const LBRACE: u8 = 123;
pub const RBRACE: u8 = 125;

/// JSON whitespace: space, tab, line feed, carriage return.
pub open spec fn is_ws(b: u8) -> bool {
    b == 32 || b == 9 || b == 10 || b == 13
}

/// The lowercase hex digit for a value below 16.
pub open spec fn hex_digit(n: u8) -> u8
    recommends
        n < 16,
{
    if n < 10 {
        (48 + n) as u8
    } else {
        (87 + n) as u8
    }
}

/// The value of one hex digit byte, if it is one (either case accepted).
pub open spec fn hex_val(b: u8) -> Option<u8> {
    if 48 <= b && b <= 57 {
        Some((b - 48) as u8)
    } else if 97 <= b && b <= 102 {
        Some((b - 87) as u8)
    } else if 65 <= b && b <= 70 {
        Some((b - 55) as u8)
    } else {
        None
    }
}

/// How one byte of a string is written inside quotes: quotes and backslashes
/// are escaped, control bytes get a `\u00xx` escape, all else stands as is.
pub open spec fn esc_byte(b: u8) -> Seq<u8> {
    if b == QUOTE {
        seq![BACKSLASH, QUOTE]
    } else if b == BACKSLASH {
        seq![BACKSLASH, BACKSLASH]
    } else if b < 32 {
        seq![BACKSLASH, LETTER_U, 48u8, 48u8, hex_digit((b / 16) as u8), hex_digit((b % 16) as u8)]
    } else {
        seq![b]
    }
}

pub open spec fn enc_str_body(s: Seq<u8>) -> Seq<u8>
    decreases s.len(),
{
    if s.len() == 0 {
        Seq::empty()
    } else {
        esc_byte(s[0]) + enc_str_body(s.drop_first())
    }
}

/// A quoted, escaped JSON string.
pub open spec fn enc_string(s: Seq<u8>) -> Seq<u8> {
    seq![QUOTE] + enc_str_body(s) + seq![QUOTE]
}

pub open spec fn enc_scalar_entry(e: (Seq<u8>, Seq<u8>)) -> Seq<u8> {
    enc_string(e.0) + seq![COLON] + enc_string(e.1)
}

pub open spec fn enc_scalar_entries(es: Seq<(Seq<u8>, Seq<u8>)>) -> Seq<u8>
    decreases es.len(),
{
    if es.len() == 0 {
        Seq::empty()
    } else if es.len() == 1 {
        enc_scalar_entry(es[0])
    } else {
        enc_scalar_entry(es[0]) + seq![COMMA] + enc_scalar_entries(es.drop_first())
    }
}

/// The whole scalar-map document.
pub open spec fn enc_scalar_doc(es: Seq<(Seq<u8>, Seq<u8>)>) -> Seq<u8> {
    seq![LBRACE] + enc_scalar_entries(es) + seq![RBRACE]
}

pub open spec fn enc_values(vs: Seq<Seq<u8>>) -> Seq<u8>
    decreases vs.len(),
{
    if vs.len() == 0 {
        Seq::empty()
    } else if vs.len() == 1 {
        enc_string(vs[0])
    } else {
        enc_string(vs[0]) + seq![COMMA] + enc_values(vs.drop_first())
    }
}

/// A JSON array of strings.
pub open spec fn enc_array(vs: Seq<Seq<u8>>) -> Seq<u8> {
    seq![LBRACKET] + enc_values(vs) + seq![RBRACKET]
}

pub open spec fn enc_list_entry(e: (Seq<u8>, Seq<Seq<u8>>)) -> Seq<u8> {
    enc_string(e.0) + seq![COLON] + enc_array(e.1)
}

pub open spec fn enc_list_entries(es: Seq<(Seq<u8>, Seq<Seq<u8>>)>) -> Seq<u8>
    decreases es.len(),
{
    if es.len() == 0 {
        Seq::empty()
    } else if es.len() == 1 {
        enc_list_entry(es[0])
    } else {
        enc_list_entry(es[0]) + seq![COMMA] + enc_list_entries(es.drop_first())
    }
}

/// The whole list-map document.
pub open spec fn enc_list_doc(es: Seq<(Seq<u8>, Seq<Seq<u8>>)>) -> Seq<u8> {
    seq![LBRACE] + enc_list_entries(es) + seq![RBRACE]
}

pub open spec fn skip_ws(s: Seq<u8>) -> Seq<u8>
    decreases s.len(),
{
    if s.len() > 0 && is_ws(s[0]) {
        skip_ws(s.drop_first())
    } else {
        s
    }
}

/// The byte value of a single-character escape, if the byte names one.
pub open spec fn unescape(b: u8) -> Option<u8> {
    if b == QUOTE {
        Some(QUOTE)
    } else if b == BACKSLASH {
        Some(BACKSLASH)
    } else if b == SLASH {
        Some(SLASH)
    } else if b == 98 {
        Some(8u8)
    } else if b == 102 {
        Some(12u8)
    } else if b == 110 {
        Some(10u8)
    } else if b == 114 {
        Some(13u8)
    } else if b == 116 {
        Some(9u8)
    } else {
        None
    }
}

/// The byte value of a `\uXXXX` escape; only code points below 0x80 are taken.
pub open spec fn hex4(a: u8, b: u8, c: u8, d: u8) -> Option<u8> {
    match (hex_val(a), hex_val(b), hex_val(c), hex_val(d)) {
        (Some(x), Some(y), Some(z), Some(w)) => {
            let v = x * 4096 + y * 256 + z * 16 + w;
            if v < 128 {
                Some(v as u8)
            } else {
                None
            }
        },
        _ => None,
    }
}

/// The rest of a quoted string after its opening quote: the decoded bytes
/// and the remainder after the closing quote.
pub open spec fn parse_str_body(s: Seq<u8>) -> Option<(Seq<u8>, Seq<u8>)>
    decreases s.len(),
{
    if s.len() == 0 {
        None
    } else if s[0] == QUOTE {
        Some((Seq::empty(), s.drop_first()))
    } else if s[0] == BACKSLASH {
        if s.len() < 2 {
            None
        } else {
            match unescape(s[1]) {
                Some(b) => match parse_str_body(s.skip(2)) {
                    Some((c, r)) => Some((seq![b] + c, r)),
                    None => None,
                },
                None => if s.len() >= 6 && s[1] == LETTER_U {
                    match hex4(s[2], s[3], s[4], s[5]) {
                        Some(b) => match parse_str_body(s.skip(6)) {
                            Some((c, r)) => Some((seq![b] + c, r)),
                            None => None,
                        },
                        None => None,
                    }
                } else {
                    None
                },
            }
        }
    } else if s[0] >= 32 {
        match parse_str_body(s.drop_first()) {
            Some((c, r)) => Some((seq![s[0]] + c, r)),
            None => None,
        }
    } else {
        None
    }
}

/// A quoted string from its opening quote on.
pub open spec fn parse_string(s: Seq<u8>) -> Option<(Seq<u8>, Seq<u8>)> {
    if s.len() > 0 && s[0] == QUOTE {
        parse_str_body(s.drop_first())
    } else {
        None
    }
}

pub proof fn lemma_skip_ws_len(s: Seq<u8>)
    ensures
        skip_ws(s).len() <= s.len(),
    decreases s.len(),
{
    if s.len() > 0 && is_ws(s[0]) {
        lemma_skip_ws_len(s.drop_first());
    }
}

pub proof fn lemma_parse_str_body_len(s: Seq<u8>)
    ensures
        parse_str_body(s) matches Some(p) ==> p.1.len() < s.len(),
    decreases s.len(),
{
    if s.len() == 0 {
    } else if s[0] == QUOTE {
    } else if s[0] == BACKSLASH {
        if s.len() >= 2 {
            match unescape(s[1]) {
                Some(b) => lemma_parse_str_body_len(s.skip(2)),
                None => {
                    if s.len() >= 6 && s[1] == LETTER_U {
                        lemma_parse_str_body_len(s.skip(6));
                    }
                },
            }
        }
    } else if s[0] >= 32 {
        lemma_parse_str_body_len(s.drop_first());
    }
}

pub proof fn lemma_parse_string_len(s: Seq<u8>)
    ensures
        parse_string(s) matches Some(p) ==> p.1.len() + 2 <= s.len(),
{
    if s.len() > 0 && s[0] == QUOTE {
        lemma_parse_str_body_len(s.drop_first());
    }
}

/// The members of a scalar-map object, from the first key on, the closing
/// brace included: the key/value pairs and the remainder after the brace.
pub open spec fn parse_scalar_entries(s: Seq<u8>) -> Option<(Seq<(Seq<u8>, Seq<u8>)>, Seq<u8>)>
    decreases s.len(),
    via parse_scalar_entries_decreases
{
    match parse_string(s) {
        None => None,
        Some((k, r1)) => {
            let r2 = skip_ws(r1);
            if r2.len() > 0 && r2[0] == COLON {
                let r3 = skip_ws(r2.drop_first());
                match parse_string(r3) {
                    None => None,
                    Some((v, r4)) => {
                        let r5 = skip_ws(r4);
                        if r5.len() > 0 && r5[0] == COMMA {
                            match parse_scalar_entries(skip_ws(r5.drop_first())) {
                                None => None,
                                Some((es, r6)) => Some((seq![(k, v)] + es, r6)),
                            }
                        } else if r5.len() > 0 && r5[0] == RBRACE {
                            Some((seq![(k, v)], r5.drop_first()))
                        } else {
                            None
                        }
                    },
                }
            } else {
                None
            }
        },
    }
}

#[via_fn]
proof fn parse_scalar_entries_decreases(s: Seq<u8>) {
    lemma_parse_string_len(s);
    match parse_string(s) {
        None => {},
        Some((k, r1)) => {
            lemma_skip_ws_len(r1);
            let r2 = skip_ws(r1);
            if r2.len() > 0 && r2[0] == COLON {
                lemma_skip_ws_len(r2.drop_first());
                let r3 = skip_ws(r2.drop_first());
                lemma_parse_string_len(r3);
                match parse_string(r3) {
                    None => {},
                    Some((v, r4)) => {
                        lemma_skip_ws_len(r4);
                        let r5 = skip_ws(r4);
                        if r5.len() > 0 && r5[0] == COMMA {
                            lemma_skip_ws_len(r5.drop_first());
                        }
                    },
                }
            }
        },
    }
}

/// A whole scalar-map document: one object of string members, with nothing
/// but whitespace around it.
pub open spec fn parse_scalar_doc(s: Seq<u8>) -> Option<Seq<(Seq<u8>, Seq<u8>)>> {
    let t = skip_ws(s);
    if t.len() > 0 && t[0] == LBRACE {
        let u = skip_ws(t.drop_first());
        if u.len() > 0 && u[0] == RBRACE {
            if skip_ws(u.drop_first()).len() == 0 {
                Some(Seq::empty())
            } else {
                None
            }
        } else {
            match parse_scalar_entries(u) {
                Some((es, r)) => if skip_ws(r).len() == 0 {
                    Some(es)
                } else {
                    None
                },
                None => None,
            }
        }
    } else {
        None
    }
}

/// The elements of an array of strings, from the first element on, the
/// closing bracket included.
pub open spec fn parse_values(s: Seq<u8>) -> Option<(Seq<Seq<u8>>, Seq<u8>)>
    decreases s.len(),
    via parse_values_decreases
{
    match parse_string(s) {
        None => None,
        Some((v, r1)) => {
            let r2 = skip_ws(r1);
            if r2.len() > 0 && r2[0] == COMMA {
                match parse_values(skip_ws(r2.drop_first())) {
                    None => None,
                    Some((vs, r3)) => Some((seq![v] + vs, r3)),
                }
            } else if r2.len() > 0 && r2[0] == RBRACKET {
                Some((seq![v], r2.drop_first()))
            } else {
                None
            }
        },
    }
}

#[via_fn]
proof fn parse_values_decreases(s: Seq<u8>) {
    lemma_parse_string_len(s);
    match parse_string(s) {
        None => {},
        Some((v, r1)) => {
            lemma_skip_ws_len(r1);
            let r2 = skip_ws(r1);
            if r2.len() > 0 && r2[0] == COMMA {
                lemma_skip_ws_len(r2.drop_first());
            }
        },
    }
}

/// A JSON array of strings, from its opening bracket on.
pub open spec fn parse_array(s: Seq<u8>) -> Option<(Seq<Seq<u8>>, Seq<u8>)> {
    if s.len() > 0 && s[0] == LBRACKET {
        let t = skip_ws(s.drop_first());
        if t.len() > 0 && t[0] == RBRACKET {
            Some((Seq::empty(), t.drop_first()))
        } else {
            parse_values(t)
        }
    } else {
        None
    }
}

pub proof fn lemma_parse_values_len(s: Seq<u8>)
    ensures
        parse_values(s) matches Some(p) ==> p.1.len() < s.len(),
    decreases s.len(),
{
    lemma_parse_string_len(s);
    match parse_string(s) {
        None => {},
        Some((v, r1)) => {
            lemma_skip_ws_len(r1);
            let r2 = skip_ws(r1);
            if r2.len() > 0 && r2[0] == COMMA {
                lemma_skip_ws_len(r2.drop_first());
                lemma_parse_values_len(skip_ws(r2.drop_first()));
            }
        },
    }
}

pub proof fn lemma_parse_array_len(s: Seq<u8>)
    ensures
        parse_array(s) matches Some(p) ==> p.1.len() < s.len(),
{
    if s.len() > 0 && s[0] == LBRACKET {
        lemma_skip_ws_len(s.drop_first());
        lemma_parse_values_len(skip_ws(s.drop_first()));
    }
}

/// The members of a list-map object, from the first name on, the closing
/// brace included.
pub open spec fn parse_list_entries(s: Seq<u8>) -> Option<
    (Seq<(Seq<u8>, Seq<Seq<u8>>)>, Seq<u8>),
>
    decreases s.len(),
    via parse_list_entries_decreases
{
    match parse_string(s) {
        None => None,
        Some((k, r1)) => {
            let r2 = skip_ws(r1);
            if r2.len() > 0 && r2[0] == COLON {
                let r3 = skip_ws(r2.drop_first());
                match parse_array(r3) {
                    None => None,
                    Some((vs, r4)) => {
                        let r5 = skip_ws(r4);
                        if r5.len() > 0 && r5[0] == COMMA {
                            match parse_list_entries(skip_ws(r5.drop_first())) {
                                None => None,
                                Some((es, r6)) => Some((seq![(k, vs)] + es, r6)),
                            }
                        } else if r5.len() > 0 && r5[0] == RBRACE {
                            Some((seq![(k, vs)], r5.drop_first()))
                        } else {
                            None
                        }
                    },
                }
            } else {
                None
            }
        },
    }
}

#[via_fn]
proof fn parse_list_entries_decreases(s: Seq<u8>) {
    lemma_parse_string_len(s);
    match parse_string(s) {
        None => {},
        Some((k, r1)) => {
            lemma_skip_ws_len(r1);
            let r2 = skip_ws(r1);
            if r2.len() > 0 && r2[0] == COLON {
                lemma_skip_ws_len(r2.drop_first());
                let r3 = skip_ws(r2.drop_first());
                lemma_parse_array_len(r3);
                match parse_array(r3) {
                    None => {},
                    Some((vs, r4)) => {
                        lemma_skip_ws_len(r4);
                        let r5 = skip_ws(r4);
                        if r5.len() > 0 && r5[0] == COMMA {
                            lemma_skip_ws_len(r5.drop_first());
                        }
                    },
                }
            }
        },
    }
}

/// A whole list-map document: one object of array-of-string members, with
/// nothing but whitespace around it.
pub open spec fn parse_list_doc(s: Seq<u8>) -> Option<Seq<(Seq<u8>, Seq<Seq<u8>>)>> {
    let t = skip_ws(s);
    if t.len() > 0 && t[0] == LBRACE {
        let u = skip_ws(t.drop_first());
        if u.len() > 0 && u[0] == RBRACE {
            if skip_ws(u.drop_first()).len() == 0 {
                Some(Seq::empty())
            } else {
                None
            }
        } else {
            match parse_list_entries(u) {
                Some((es, r)) => if skip_ws(r).len() == 0 {
                    Some(es)
                } else {
                    None
                },
                None => None,
            }
        }
    } else {
        None
    }
}

/// No key occurs twice among the scalar entries.
pub open spec fn distinct_keys(es: Seq<(Seq<u8>, Seq<u8>)>) -> bool {
    forall|i: int, j: int|
        #![trigger es[i], es[j]]
        0 <= i < j < es.len() ==> es[i].0 != es[j].0
}

/// No name occurs twice among the list entries.
pub open spec fn distinct_names(es: Seq<(Seq<u8>, Seq<Seq<u8>>)>) -> bool {
    forall|i: int, j: int|
        #![trigger es[i], es[j]]
        0 <= i < j < es.len() ==> es[i].0 != es[j].0
}

/// Splitting a string does not change its encoded body.
pub proof fn lemma_enc_str_body_concat(a: Seq<u8>, b: Seq<u8>)
    ensures
        enc_str_body(a + b) == enc_str_body(a) + enc_str_body(b),
    decreases a.len(),
{
    if a.len() == 0 {
        assert(a + b =~= b);
        assert(enc_str_body(a) + enc_str_body(b) =~= enc_str_body(b));
    } else {
        lemma_enc_str_body_concat(a.drop_first(), b);
        assert((a + b).drop_first() =~= a.drop_first() + b);
        assert(esc_byte(a[0]) + (enc_str_body(a.drop_first()) + enc_str_body(b)) =~= (esc_byte(
            a[0],
        ) + enc_str_body(a.drop_first())) + enc_str_body(b));
    }
}

/// Appending one scalar entry appends a comma and its encoding.
pub proof fn lemma_enc_scalar_entries_snoc(es: Seq<(Seq<u8>, Seq<u8>)>, e: (Seq<u8>, Seq<u8>))
    requires
        es.len() >= 1,
    ensures
        enc_scalar_entries(es.push(e)) == enc_scalar_entries(es) + seq![COMMA]
            + enc_scalar_entry(e),
    decreases es.len(),
{
    let p = es.push(e);
    if es.len() == 1 {
        assert(p.drop_first() =~= seq![e]);
        assert(enc_scalar_entries(seq![e]) == enc_scalar_entry(e));
        assert(enc_scalar_entries(es) == enc_scalar_entry(es[0]));
        assert(enc_scalar_entries(p) =~= enc_scalar_entries(es) + seq![COMMA]
            + enc_scalar_entry(e));
    } else {
        lemma_enc_scalar_entries_snoc(es.drop_first(), e);
        assert(p.drop_first() =~= es.drop_first().push(e));
        assert(enc_scalar_entry(p[0]) + seq![COMMA] + (enc_scalar_entries(es.drop_first())
            + seq![COMMA] + enc_scalar_entry(e)) =~= (enc_scalar_entry(es[0]) + seq![COMMA]
            + enc_scalar_entries(es.drop_first())) + seq![COMMA] + enc_scalar_entry(e));
    }
}

/// Appending one value appends a comma and its encoded string.
pub proof fn lemma_enc_values_snoc(vs: Seq<Seq<u8>>, v: Seq<u8>)
    requires
        vs.len() >= 1,
    ensures
        enc_values(vs.push(v)) == enc_values(vs) + seq![COMMA] + enc_string(v),
    decreases vs.len(),
{
    let p = vs.push(v);
    if vs.len() == 1 {
        assert(p.drop_first() =~= seq![v]);
        assert(enc_values(seq![v]) == enc_string(v));
        assert(enc_values(vs) == enc_string(vs[0]));
        assert(enc_values(p) =~= enc_values(vs) + seq![COMMA] + enc_string(v));
    } else {
        lemma_enc_values_snoc(vs.drop_first(), v);
        assert(p.drop_first() =~= vs.drop_first().push(v));
        assert(enc_string(p[0]) + seq![COMMA] + (enc_values(vs.drop_first()) + seq![COMMA]
            + enc_string(v)) =~= (enc_string(vs[0]) + seq![COMMA] + enc_values(vs.drop_first()))
            + seq![COMMA] + enc_string(v));
    }
}

/// Appending one list entry appends a comma and its encoding.
pub proof fn lemma_enc_list_entries_snoc(es: Seq<(Seq<u8>, Seq<Seq<u8>>)>, e: (Seq<u8>, Seq<Seq<u8>>))
    requires
        es.len() >= 1,
    ensures
        enc_list_entries(es.push(e)) == enc_list_entries(es) + seq![COMMA] + enc_list_entry(e),
    decreases es.len(),
{
    let p = es.push(e);
    if es.len() == 1 {
        assert(p.drop_first() =~= seq![e]);
        assert(enc_list_entries(seq![e]) == enc_list_entry(e));
        assert(enc_list_entries(es) == enc_list_entry(es[0]));
        assert(enc_list_entries(p) =~= enc_list_entries(es) + seq![COMMA] + enc_list_entry(e));
    } else {
        lemma_enc_list_entries_snoc(es.drop_first(), e);
        assert(p.drop_first() =~= es.drop_first().push(e));
        assert(enc_list_entry(p[0]) + seq![COMMA] + (enc_list_entries(es.drop_first())
            + seq![COMMA] + enc_list_entry(e)) =~= (enc_list_entry(es[0]) + seq![COMMA]
            + enc_list_entries(es.drop_first())) + seq![COMMA] + enc_list_entry(e));
    }
}

/// An encoded string body followed by a closing quote parses back to the
/// original bytes, leaving the rest untouched.
proof fn lemma_rt_str_body(s: Seq<u8>, rest: Seq<u8>)
    ensures
        parse_str_body(enc_str_body(s) + seq![QUOTE] + rest) == Some((s, rest)),
    decreases s.len(),
{
    let input = enc_str_body(s) + seq![QUOTE] + rest;
    if s.len() == 0 {
        assert(input =~= seq![QUOTE] + rest);
        assert(input[0] == QUOTE);
        assert(input.drop_first() =~= rest);
        assert(s =~= Seq::<u8>::empty());
    } else {
        let b = s[0];
        let tail = s.drop_first();
        let inner = enc_str_body(tail) + seq![QUOTE] + rest;
        lemma_rt_str_body(tail, rest);
        assert(input =~= esc_byte(b) + inner);
        assert(seq![b] + tail =~= s);
        if b == QUOTE {
            assert(input[0] == BACKSLASH && input[1] == QUOTE);
            assert(input.skip(2) =~= inner);
        } else if b == BACKSLASH {
            assert(input[0] == BACKSLASH && input[1] == BACKSLASH);
            assert(input.skip(2) =~= inner);
        } else if b < 32 {
            let hi = (b / 16) as u8;
            let lo = (b % 16) as u8;
            assert(input[0] == BACKSLASH && input[1] == LETTER_U);
            assert(input[2] == 48 && input[3] == 48);
            assert(input[4] == hex_digit(hi) && input[5] == hex_digit(lo));
            assert(unescape(LETTER_U) == Option::<u8>::None);
            assert(hex_val(hex_digit(hi)) == Some(hi));
            assert(hex_val(hex_digit(lo)) == Some(lo));
            assert(hi * 16 + lo == b) by (nonlinear_arith)
                requires
                    hi == (b / 16) as u8,
                    lo == (b % 16) as u8,
            ;
            assert(hex4(input[2], input[3], input[4], input[5]) == Some(b));
            assert(input.skip(6) =~= inner);
        } else {
            assert(input[0] == b);
            assert(input.drop_first() =~= inner);
        }
    }
}

/// An encoded string parses back to the original bytes.
proof fn lemma_rt_string(s: Seq<u8>, rest: Seq<u8>)
    ensures
        parse_string(enc_string(s) + rest) == Some((s, rest)),
{
    let input = enc_string(s) + rest;
    assert(input[0] == QUOTE);
    lemma_rt_str_body(s, rest);
    assert(input.drop_first() =~= enc_str_body(s) + seq![QUOTE] + rest);
}

/// A non-empty run of encoded scalar entries opens with a quote.
proof fn lemma_enc_scalar_entries_first(es: Seq<(Seq<u8>, Seq<u8>)>)
    requires
        es.len() >= 1,
    ensures
        enc_scalar_entries(es).len() > 0,
        enc_scalar_entries(es)[0] == QUOTE,
{
    assert(enc_scalar_entry(es[0])[0] == QUOTE);
    if es.len() == 1 {
    } else {
        assert(enc_scalar_entries(es)[0] == enc_scalar_entry(es[0])[0]);
    }
}

/// A non-empty run of encoded list entries opens with a quote.
proof fn lemma_enc_list_entries_first(es: Seq<(Seq<u8>, Seq<Seq<u8>>)>)
    requires
        es.len() >= 1,
    ensures
        enc_list_entries(es).len() > 0,
        enc_list_entries(es)[0] == QUOTE,
{
    assert(enc_list_entry(es[0])[0] == QUOTE);
    if es.len() == 1 {
    } else {
        assert(enc_list_entries(es)[0] == enc_list_entry(es[0])[0]);
    }
}

/// Encoded scalar entries followed by the closing brace parse back to the
/// original entries.
#[verifier::rlimit(100)]
proof fn lemma_rt_scalar_entries(es: Seq<(Seq<u8>, Seq<u8>)>, rest: Seq<u8>)
    requires
        es.len() >= 1,
    ensures
        parse_scalar_entries(enc_scalar_entries(es) + seq![RBRACE] + rest) == Some((es, rest)),
    decreases es.len(),
{
    let input = enc_scalar_entries(es) + seq![RBRACE] + rest;
    let k = es[0].0;
    let v = es[0].1;
    if es.len() == 1 {
        let after_k = seq![COLON] + enc_string(v) + seq![RBRACE] + rest;
        assert(input =~= enc_string(k) + after_k);
        lemma_rt_string(k, after_k);
        assert(after_k[0] == COLON);
        let r3_in = enc_string(v) + (seq![RBRACE] + rest);
        assert(after_k.drop_first() =~= r3_in);
        assert(r3_in[0] == QUOTE);
        lemma_rt_string(v, seq![RBRACE] + rest);
        let r4 = seq![RBRACE] + rest;
        assert(r4[0] == RBRACE);
        assert(r4.drop_first() =~= rest);
        assert(seq![(k, v)] =~~= es);
    } else {
        let tail = es.drop_first();
        lemma_rt_scalar_entries(tail, rest);
        let tail_enc = enc_scalar_entries(tail) + seq![RBRACE] + rest;
        let after_k = seq![COLON] + enc_string(v) + seq![COMMA] + tail_enc;
        assert(input =~= enc_string(k) + after_k);
        lemma_rt_string(k, after_k);
        assert(after_k[0] == COLON);
        let r3_in = enc_string(v) + (seq![COMMA] + tail_enc);
        assert(after_k.drop_first() =~= r3_in);
        assert(r3_in[0] == QUOTE);
        lemma_rt_string(v, seq![COMMA] + tail_enc);
        let r4 = seq![COMMA] + tail_enc;
        assert(r4[0] == COMMA);
        assert(r4.drop_first() =~= tail_enc);
        lemma_enc_scalar_entries_first(tail);
        assert(tail_enc[0] == QUOTE);
        assert(seq![(k, v)] + tail =~~= es);
    }
}

/// Encoded values followed by the closing bracket parse back to the
/// original values.
proof fn lemma_rt_values(vs: Seq<Seq<u8>>, rest: Seq<u8>)
    requires
        vs.len() >= 1,
    ensures
        parse_values(enc_values(vs) + seq![RBRACKET] + rest) == Some((vs, rest)),
    decreases vs.len(),
{
    let input = enc_values(vs) + seq![RBRACKET] + rest;
    let v = vs[0];
    if vs.len() == 1 {
        assert(input =~= enc_string(v) + (seq![RBRACKET] + rest));
        lemma_rt_string(v, seq![RBRACKET] + rest);
        let r1 = seq![RBRACKET] + rest;
        assert(r1[0] == RBRACKET);
        assert(r1.drop_first() =~= rest);
        assert(seq![v] =~~= vs);
    } else {
        let tail = vs.drop_first();
        lemma_rt_values(tail, rest);
        let tail_enc = enc_values(tail) + seq![RBRACKET] + rest;
        assert(input =~= enc_string(v) + (seq![COMMA] + tail_enc));
        lemma_rt_string(v, seq![COMMA] + tail_enc);
        let r1 = seq![COMMA] + tail_enc;
        assert(r1[0] == COMMA);
        assert(r1.drop_first() =~= tail_enc);
        assert(enc_string(tail[0])[0] == QUOTE);
        if tail.len() == 1 {
            assert(tail_enc[0] == QUOTE);
        } else {
            assert(enc_values(tail)[0] == enc_string(tail[0])[0]);
            assert(tail_enc[0] == QUOTE);
        }
        assert(seq![v] + tail =~~= vs);
    }
}

/// An encoded array parses back to the original values.
proof fn lemma_rt_array(vs: Seq<Seq<u8>>, rest: Seq<u8>)
    ensures
        parse_array(enc_array(vs) + rest) == Some((vs, rest)),
{
    let input = enc_array(vs) + rest;
    assert(input[0] == LBRACKET);
    if vs.len() == 0 {
        assert(input =~= seq![LBRACKET, RBRACKET] + rest);
        let t = input.drop_first();
        assert(t =~= seq![RBRACKET] + rest);
        assert(t[0] == RBRACKET);
        assert(t.drop_first() =~= rest);
        assert(Seq::<Seq<u8>>::empty() =~~= vs);
    } else {
        lemma_rt_values(vs, rest);
        let t = input.drop_first();
        assert(t =~= enc_values(vs) + seq![RBRACKET] + rest);
        assert(enc_string(vs[0])[0] == QUOTE);
        if vs.len() == 1 {
            assert(t[0] == QUOTE);
        } else {
            assert(enc_values(vs)[0] == enc_string(vs[0])[0]);
            assert(t[0] == QUOTE);
        }
    }
}

/// Encoded list entries followed by the closing brace parse back to the
/// original entries.
#[verifier::rlimit(100)]
proof fn lemma_rt_list_entries(es: Seq<(Seq<u8>, Seq<Seq<u8>>)>, rest: Seq<u8>)
    requires
        es.len() >= 1,
    ensures
        parse_list_entries(enc_list_entries(es) + seq![RBRACE] + rest) == Some((es, rest)),
    decreases es.len(),
{
    let input = enc_list_entries(es) + seq![RBRACE] + rest;
    let k = es[0].0;
    let vs = es[0].1;
    if es.len() == 1 {
        let after_k = seq![COLON] + enc_array(vs) + seq![RBRACE] + rest;
        assert(input =~= enc_string(k) + after_k);
        lemma_rt_string(k, after_k);
        assert(after_k[0] == COLON);
        let r3_in = enc_array(vs) + (seq![RBRACE] + rest);
        assert(after_k.drop_first() =~= r3_in);
        assert(r3_in[0] == LBRACKET);
        lemma_rt_array(vs, seq![RBRACE] + rest);
        let r4 = seq![RBRACE] + rest;
        assert(r4[0] == RBRACE);
        assert(r4.drop_first() =~= rest);
        assert(seq![(k, vs)] =~~= es);
    } else {
        let tail = es.drop_first();
        lemma_rt_list_entries(tail, rest);
        let tail_enc = enc_list_entries(tail) + seq![RBRACE] + rest;
        let after_k = seq![COLON] + enc_array(vs) + seq![COMMA] + tail_enc;
        assert(input =~= enc_string(k) + after_k);
        lemma_rt_string(k, after_k);
        assert(after_k[0] == COLON);
        let r3_in = enc_array(vs) + (seq![COMMA] + tail_enc);
        assert(after_k.drop_first() =~= r3_in);
        assert(r3_in[0] == LBRACKET);
        lemma_rt_array(vs, seq![COMMA] + tail_enc);
        let r4 = seq![COMMA] + tail_enc;
        assert(r4[0] == COMMA);
        assert(r4.drop_first() =~= tail_enc);
        lemma_enc_list_entries_first(tail);
        assert(tail_enc[0] == QUOTE);
        assert(seq![(k, vs)] + tail =~~= es);
    }
}

/// Round trip for the scalar document: whatever entries are encoded, the
/// parser recovers exactly those entries, in their order.
pub proof fn lemma_scalar_round_trip(es: Seq<(Seq<u8>, Seq<u8>)>)
    ensures
        parse_scalar_doc(enc_scalar_doc(es)) == Some(es),
{
    let input = enc_scalar_doc(es);
    assert(input[0] == LBRACE);
    if es.len() == 0 {
        assert(input =~= seq![LBRACE, RBRACE]);
        let u_in = input.drop_first();
        assert(u_in =~= seq![RBRACE]);
        assert(u_in[0] == RBRACE);
        assert(u_in.drop_first() =~= Seq::<u8>::empty());
        assert(Seq::<(Seq<u8>, Seq<u8>)>::empty() =~~= es);
    } else {
        lemma_enc_scalar_entries_first(es);
        let u_in = input.drop_first();
        assert(u_in =~= enc_scalar_entries(es) + seq![RBRACE] + Seq::<u8>::empty());
        assert(u_in[0] == QUOTE);
        lemma_rt_scalar_entries(es, Seq::empty());
    }
}

/// Round trip for the list document: whatever entries are encoded, the
/// parser recovers exactly those entries, each list in its order.
pub proof fn lemma_list_round_trip(es: Seq<(Seq<u8>, Seq<Seq<u8>>)>)
    ensures
        parse_list_doc(enc_list_doc(es)) == Some(es),
{
    let input = enc_list_doc(es);
    assert(input[0] == LBRACE);
    if es.len() == 0 {
        assert(input =~= seq![LBRACE, RBRACE]);
        let u_in = input.drop_first();
        assert(u_in =~= seq![RBRACE]);
        assert(u_in[0] == RBRACE);
        assert(u_in.drop_first() =~= Seq::<u8>::empty());
        assert(Seq::<(Seq<u8>, Seq<Seq<u8>>)>::empty() =~~= es);
    } else {
        lemma_enc_list_entries_first(es);
        let u_in = input.drop_first();
        assert(u_in =~= enc_list_entries(es) + seq![RBRACE] + Seq::<u8>::empty());
        assert(u_in[0] == QUOTE);
        lemma_rt_list_entries(es, Seq::empty());
    }
}

/// The scalar entries recovered from a backing file: an absent, undecodable
/// or duplicate-keyed document yields the empty container.
pub open spec fn loaded_scalar(file: Option<Seq<u8>>) -> Seq<(Seq<u8>, Seq<u8>)> {
    match file {
        None => Seq::empty(),
        Some(bytes) => match parse_scalar_doc(bytes) {
            Some(es) => if distinct_keys(es) {
                es
            } else {
                Seq::empty()
            },
            None => Seq::empty(),
        },
    }
}

/// The list entries recovered from a backing file, under the same recovery.
pub open spec fn loaded_lists(file: Option<Seq<u8>>) -> Seq<(Seq<u8>, Seq<Seq<u8>>)> {
    match file {
        None => Seq::empty(),
        Some(bytes) => match parse_list_doc(bytes) {
            Some(es) => if distinct_names(es) {
                es
            } else {
                Seq::empty()
            },
            None => Seq::empty(),
        },
    }
}

/// The views of a sequence of byte vectors.
pub open spec fn vec_views(vs: Seq<Vec<u8>>) -> Seq<Seq<u8>> {
    vs.map_values(|v: Vec<u8>| v@)
}

/// The views of a sequence of key/value pairs.
pub open spec fn pair_views(es: Seq<(Vec<u8>, Vec<u8>)>) -> Seq<(Seq<u8>, Seq<u8>)> {
    es.map_values(|p: (Vec<u8>, Vec<u8>)| (p.0@, p.1@))
}

/// The views of a sequence of name/values pairs.
pub open spec fn list_pair_views(es: Seq<(Vec<u8>, Vec<Vec<u8>>)>) -> Seq<(Seq<u8>, Seq<Seq<u8>>)> {
    es.map_values(|p: (Vec<u8>, Vec<Vec<u8>>)| (p.0@, vec_views(p.1@)))
}

/// The lowercase hex digit for a value below 16.
fn hex_digit_x(n: u8) -> (r: u8)
    requires
        n < 16,
    ensures
        r == hex_digit(n),
{
    if n < 10 {
        48 + n
    } else {
        87 + n
    }
}

/// Appends the escaped form of one byte.
fn push_esc_byte(out: &mut Vec<u8>, b: u8)
    ensures
        final(out)@ == old(out)@ + esc_byte(b),
{
    if b == QUOTE {
        out.push(BACKSLASH);
        out.push(QUOTE);
        assert(out@ =~= old(out)@ + esc_byte(b));
    } else if b == BACKSLASH {
        out.push(BACKSLASH);
        out.push(BACKSLASH);
        assert(out@ =~= old(out)@ + esc_byte(b));
    } else if b < 32 {
        out.push(BACKSLASH);
        out.push(LETTER_U);
        out.push(48);
        out.push(48);
        out.push(hex_digit_x(b / 16));
        out.push(hex_digit_x(b % 16));
        assert(out@ =~= old(out)@ + esc_byte(b));
    } else {
        out.push(b);
        assert(out@ =~= old(out)@ + esc_byte(b));
    }
}

/// Appends the quoted, escaped form of one string.
pub fn push_enc_string(out: &mut Vec<u8>, s: &Vec<u8>)
    ensures
        final(out)@ == old(out)@ + enc_string(s@),
{
    out.push(QUOTE);
    let mut i: usize = 0;
    while i < s.len()
        invariant
            i <= s.len(),
            out@ == old(out)@ + seq![QUOTE] + enc_str_body(s@.take(i as int)),
        decreases s.len() - i,
    {
        proof {
            lemma_enc_str_body_concat(s@.take(i as int), seq![s@[i as int]]);
            assert(s@.take(i as int + 1) =~= s@.take(i as int) + seq![s@[i as int]]);
            assert(enc_str_body(Seq::<u8>::empty()) == Seq::<u8>::empty());
            assert(seq![s@[i as int]].drop_first() =~= Seq::<u8>::empty());
            assert(enc_str_body(seq![s@[i as int]]) =~= esc_byte(s@[i as int]));
        }
        push_esc_byte(out, s[i]);
        proof {
            assert(out@ =~= old(out)@ + seq![QUOTE] + enc_str_body(s@.take(i as int + 1)));
        }
        i += 1;
    }
    out.push(QUOTE);
    proof {
        assert(s@.take(s@.len() as int) =~= s@);
        assert(out@ =~= old(out)@ + enc_string(s@));
    }
}

/// Appends the encoded array of the given values.
pub fn push_enc_array(out: &mut Vec<u8>, vs: &Vec<Vec<u8>>)
    ensures
        final(out)@ == old(out)@ + enc_array(vec_views(vs@)),
{
    out.push(LBRACKET);
    let mut i: usize = 0;
    while i < vs.len()
        invariant
            i <= vs.len(),
            out@ == old(out)@ + seq![LBRACKET] + enc_values(vec_views(vs@).take(i as int)),
        decreases vs.len() - i,
    {
        if i > 0 {
            out.push(COMMA);
        }
        push_enc_string(out, &vs[i]);
        proof {
            let vv = vec_views(vs@);
            assert(vv[i as int] == vs@[i as int]@);
            assert(vv.take(i as int + 1) =~= vv.take(i as int).push(vv[i as int]));
            if i == 0 {
                assert(vv.take(1) =~= seq![vv[0]]);
                assert(enc_values(seq![vv[0]]) == enc_string(vv[0]));
            } else {
                lemma_enc_values_snoc(vv.take(i as int), vv[i as int]);
            }
            assert(out@ =~= old(out)@ + seq![LBRACKET] + enc_values(vv.take(i as int + 1)));
        }
        i += 1;
    }
    out.push(RBRACKET);
    proof {
        assert(vec_views(vs@).take(vs@.len() as int) =~= vec_views(vs@));
        assert(out@ =~= old(out)@ + enc_array(vec_views(vs@)));
    }
}

/// Encodes the whole scalar-map document.
pub fn encode_scalar_doc(es: &Vec<(Vec<u8>, Vec<u8>)>) -> (r: Vec<u8>)
    ensures
        r@ == enc_scalar_doc(pair_views(es@)),
{
    let mut out: Vec<u8> = Vec::new();
    out.push(LBRACE);
    let mut i: usize = 0;
    while i < es.len()
        invariant
            i <= es.len(),
            out@ == seq![LBRACE] + enc_scalar_entries(pair_views(es@).take(i as int)),
        decreases es.len() - i,
    {
        if i > 0 {
            out.push(COMMA);
        }
        push_enc_string(&mut out, &es[i].0);
        out.push(COLON);
        push_enc_string(&mut out, &es[i].1);
        proof {
            let pv = pair_views(es@);
            assert(pv[i as int] == (es@[i as int].0@, es@[i as int].1@));
            assert(pv.take(i as int + 1) =~= pv.take(i as int).push(pv[i as int]));
            if i == 0 {
                assert(pv.take(1) =~= seq![pv[0]]);
                assert(enc_scalar_entries(seq![pv[0]]) == enc_scalar_entry(pv[0]));
            } else {
                lemma_enc_scalar_entries_snoc(pv.take(i as int), pv[i as int]);
            }
            assert(out@ =~= seq![LBRACE] + enc_scalar_entries(pv.take(i as int + 1)));
        }
        i += 1;
    }
    out.push(RBRACE);
    proof {
        assert(pair_views(es@).take(es@.len() as int) =~= pair_views(es@));
        assert(out@ =~= enc_scalar_doc(pair_views(es@)));
    }
    out
}

/// Encodes the whole list-map document.
pub fn encode_list_doc(es: &Vec<(Vec<u8>, Vec<Vec<u8>>)>) -> (r: Vec<u8>)
    ensures
        r@ == enc_list_doc(list_pair_views(es@)),
{
    let mut out: Vec<u8> = Vec::new();
    out.push(LBRACE);
    let mut i: usize = 0;
    while i < es.len()
        invariant
            i <= es.len(),
            out@ == seq![LBRACE] + enc_list_entries(list_pair_views(es@).take(i as int)),
        decreases es.len() - i,
    {
        if i > 0 {
            out.push(COMMA);
        }
        push_enc_string(&mut out, &es[i].0);
        out.push(COLON);
        push_enc_array(&mut out, &es[i].1);
        proof {
            let pv = list_pair_views(es@);
            assert(pv[i as int] == (es@[i as int].0@, vec_views(es@[i as int].1@)));
            assert(pv.take(i as int + 1) =~= pv.take(i as int).push(pv[i as int]));
            if i == 0 {
                assert(pv.take(1) =~= seq![pv[0]]);
                assert(enc_list_entries(seq![pv[0]]) == enc_list_entry(pv[0]));
            } else {
                lemma_enc_list_entries_snoc(pv.take(i as int), pv[i as int]);
            }
            assert(out@ =~= seq![LBRACE] + enc_list_entries(pv.take(i as int + 1)));
        }
        i += 1;
    }
    out.push(RBRACE);
    proof {
        assert(list_pair_views(es@).take(es@.len() as int) =~= list_pair_views(es@));
        assert(out@ =~= enc_list_doc(list_pair_views(es@)));
    }
    out
}

/// The index just past the whitespace run that starts at `from`.
fn ws_end(s: &Vec<u8>, from: usize) -> (j: usize)
    requires
        from <= s.len(),
    ensures
        from <= j <= s.len(),
        s@.skip(j as int) == skip_ws(s@.skip(from as int)),
{
    let mut i: usize = from;
    while i < s.len() && (s[i] == 32 || s[i] == 9 || s[i] == 10 || s[i] == 13)
        invariant
            from <= i <= s.len(),
            skip_ws(s@.skip(from as int)) == skip_ws(s@.skip(i as int)),
        decreases s.len() - i,
    {
        proof {
            assert(s@.skip(i as int)[0] == s@[i as int]);
            assert(s@.skip(i as int).drop_first() =~= s@.skip(i as int + 1));
        }
        i += 1;
    }
    proof {
        if i < s.len() {
            assert(s@.skip(i as int)[0] == s@[i as int]);
        }
        assert(skip_ws(s@.skip(i as int)) == s@.skip(i as int));
    }
    i
}

/// The byte value of a single-character escape, if the byte names one.
fn unescape_x(b: u8) -> (r: Option<u8>)
    ensures
        r == unescape(b),
{
    if b == QUOTE {
        Some(QUOTE)
    } else if b == BACKSLASH {
        Some(BACKSLASH)
    } else if b == SLASH {
        Some(SLASH)
    } else if b == 98 {
        Some(8)
    } else if b == 102 {
        Some(12)
    } else if b == 110 {
        Some(10)
    } else if b == 114 {
        Some(13)
    } else {
        if b == 116 {
            Some(9)
        } else {
            None
        }
    }
}

/// The value of one hex digit byte, if it is one.
fn hex_val_x(b: u8) -> (r: Option<u8>)
    ensures
        r == hex_val(b),
{
    if 48 <= b && b <= 57 {
        Some(b - 48)
    } else if 97 <= b && b <= 102 {
        Some(b - 87)
    } else {
        if 65 <= b && b <= 70 {
            Some(b - 55)
        } else {
            None
        }
    }
}

/// The byte value of a `\uXXXX` escape; only code points below 0x80 are taken.
fn hex4_x(a: u8, b: u8, c: u8, d: u8) -> (r: Option<u8>)
    ensures
        r == hex4(a, b, c, d),
{
    match (hex_val_x(a), hex_val_x(b), hex_val_x(c), hex_val_x(d)) {
        (Some(x), Some(y), Some(z), Some(w)) => {
            let v: u32 = (x as u32) * 4096 + (y as u32) * 256 + (z as u32) * 16 + (w as u32);
            if v < 128 {
                Some(v as u8)
            } else {
                None
            }
        },
        _ => None,
    }
}

/// The rest of a quoted string from index `i`, after its opening quote.
fn parse_str_body_x(s: &Vec<u8>, i: usize) -> (r: Option<(Vec<u8>, usize)>)
    requires
        i <= s.len(),
    ensures
        match r {
            Some(p) => i + 1 <= p.1 <= s.len() && parse_str_body(s@.skip(i as int)) == Some(
                (p.0@, s@.skip(p.1 as int)),
            ),
            None => parse_str_body(s@.skip(i as int)) matches None,
        },
    decreases s.len() - i,
{
    let ghost su = s@.skip(i as int);
    if i == s.len() {
        None
    } else {
        let b = s[i];
        proof {
            assert(su[0] == s@[i as int]);
        }
        if b == QUOTE {
            proof {
                assert(su.drop_first() =~= s@.skip(i as int + 1));
            }
            Some((Vec::new(), i + 1))
        } else if b == BACKSLASH {
            if i + 1 == s.len() {
                None
            } else {
                let e = s[i + 1];
                proof {
                    assert(su[1] == s@[i as int + 1]);
                }
                match unescape_x(e) {
                    Some(ub) => {
                        proof {
                            assert(su.skip(2) =~= s@.skip(i as int + 2));
                        }
                        match parse_str_body_x(s, i + 2) {
                            Some((mut c, j)) => {
                                c.insert(0, ub);
                                proof {
                                    assert(c@ =~= seq![ub] + c@.skip(1));
                                }
                                Some((c, j))
                            },
                            None => None,
                        }
                    },
                    None => {
                        if s.len() - i >= 6 && e == LETTER_U {
                            proof {
                                assert(su.len() >= 6);
                                assert(su[2] == s@[i as int + 2]);
                                assert(su[3] == s@[i as int + 3]);
                                assert(su[4] == s@[i as int + 4]);
                                assert(su[5] == s@[i as int + 5]);
                            }
                            match hex4_x(s[i + 2], s[i + 3], s[i + 4], s[i + 5]) {
                                Some(hb) => {
                                    proof {
                                        assert(su.skip(6) =~= s@.skip(i as int + 6));
                                    }
                                    match parse_str_body_x(s, i + 6) {
                                        Some((mut c, j)) => {
                                            c.insert(0, hb);
                                            proof {
                                                assert(c@ =~= seq![hb] + c@.skip(1));
                                            }
                                            Some((c, j))
                                        },
                                        None => None,
                                    }
                                },
                                None => None,
                            }
                        } else {
                            None
                        }
                    },
                }
            }
        } else if b >= 32 {
            proof {
                assert(su.drop_first() =~= s@.skip(i as int + 1));
            }
            match parse_str_body_x(s, i + 1) {
                Some((mut c, j)) => {
                    c.insert(0, b);
                    proof {
                        assert(c@ =~= seq![b] + c@.skip(1));
                    }
                    Some((c, j))
                },
                None => None,
            }
        } else {
            None
        }
    }
}

/// A quoted string from index `i` on.
fn parse_string_x(s: &Vec<u8>, i: usize) -> (r: Option<(Vec<u8>, usize)>)
    requires
        i <= s.len(),
    ensures
        match r {
            Some(p) => i + 2 <= p.1 <= s.len() && parse_string(s@.skip(i as int)) == Some(
                (p.0@, s@.skip(p.1 as int)),
            ),
            None => parse_string(s@.skip(i as int)) matches None,
        },
{
    let ghost su = s@.skip(i as int);
    if i < s.len() && s[i] == QUOTE {
        proof {
            assert(su[0] == s@[i as int]);
            assert(su.drop_first() =~= s@.skip(i as int + 1));
        }
        parse_str_body_x(s, i + 1)
    } else {
        proof {
            if i < s.len() {
                assert(su[0] == s@[i as int]);
            }
        }
        None
    }
}

/// The members of a scalar-map object from index `i`, brace included.
fn parse_scalar_entries_x(s: &Vec<u8>, i: usize) -> (r: Option<(Vec<(Vec<u8>, Vec<u8>)>, usize)>)
    requires
        i <= s.len(),
    ensures
        match r {
            Some(p) => i < p.1 <= s.len() && parse_scalar_entries(s@.skip(i as int)) == Some(
                (pair_views(p.0@), s@.skip(p.1 as int)),
            ),
            None => parse_scalar_entries(s@.skip(i as int)) matches None,
        },
    decreases s.len() - i,
{
    let ghost su = s@.skip(i as int);
    match parse_string_x(s, i) {
        None => None,
        Some((k, i1)) => {
            let i2 = ws_end(s, i1);
            if i2 < s.len() && s[i2] == COLON {
                proof {
                    assert(s@.skip(i2 as int)[0] == s@[i2 as int]);
                    assert(s@.skip(i2 as int).drop_first() =~= s@.skip(i2 as int + 1));
                }
                let i3 = ws_end(s, i2 + 1);
                match parse_string_x(s, i3) {
                    None => None,
                    Some((v, i4)) => {
                        let i5 = ws_end(s, i4);
                        if i5 < s.len() && s[i5] == COMMA {
                            proof {
                                assert(s@.skip(i5 as int)[0] == s@[i5 as int]);
                                assert(s@.skip(i5 as int).drop_first() =~= s@.skip(i5 as int + 1));
                            }
                            let i6 = ws_end(s, i5 + 1);
                            match parse_scalar_entries_x(s, i6) {
                                None => None,
                                Some((mut es, j)) => {
                                    let ghost tail_views = pair_views(es@);
                                    es.insert(0, (k, v));
                                    proof {
                                        assert(pair_views(es@) =~= seq![(k@, v@)] + tail_views);
                                    }
                                    Some((es, j))
                                },
                            }
                        } else if i5 < s.len() && s[i5] == RBRACE {
                            proof {
                                assert(s@.skip(i5 as int)[0] == s@[i5 as int]);
                                assert(s@.skip(i5 as int).drop_first() =~= s@.skip(i5 as int + 1));
                            }
                            let mut es: Vec<(Vec<u8>, Vec<u8>)> = Vec::new();
                            es.push((k, v));
                            proof {
                                assert(pair_views(es@) =~= seq![(k@, v@)]);
                            }
                            Some((es, i5 + 1))
                        } else {
                            proof {
                                if i5 < s.len() {
                                    assert(s@.skip(i5 as int)[0] == s@[i5 as int]);
                                }
                            }
                            None
                        }
                    },
                }
            } else {
                proof {
                    if i2 < s.len() {
                        assert(s@.skip(i2 as int)[0] == s@[i2 as int]);
                    }
                }
                None
            }
        },
    }
}

/// The elements of an array of strings from index `i`, bracket included.
fn parse_values_x(s: &Vec<u8>, i: usize) -> (r: Option<(Vec<Vec<u8>>, usize)>)
    requires
        i <= s.len(),
    ensures
        match r {
            Some(p) => i < p.1 <= s.len() && parse_values(s@.skip(i as int)) == Some(
                (vec_views(p.0@), s@.skip(p.1 as int)),
            ),
            None => parse_values(s@.skip(i as int)) matches None,
        },
    decreases s.len() - i,
{
    match parse_string_x(s, i) {
        None => None,
        Some((v, i1)) => {
            let i2 = ws_end(s, i1);
            if i2 < s.len() && s[i2] == COMMA {
                proof {
                    assert(s@.skip(i2 as int)[0] == s@[i2 as int]);
                    assert(s@.skip(i2 as int).drop_first() =~= s@.skip(i2 as int + 1));
                }
                let i3 = ws_end(s, i2 + 1);
                match parse_values_x(s, i3) {
                    None => None,
                    Some((mut vs, j)) => {
                        let ghost tail_views = vec_views(vs@);
                        vs.insert(0, v);
                        proof {
                            assert(vec_views(vs@) =~= seq![vs@[0]@] + tail_views);
                        }
                        Some((vs, j))
                    },
                }
            } else if i2 < s.len() && s[i2] == RBRACKET {
                proof {
                    assert(s@.skip(i2 as int)[0] == s@[i2 as int]);
                    assert(s@.skip(i2 as int).drop_first() =~= s@.skip(i2 as int + 1));
                }
                let mut vs: Vec<Vec<u8>> = Vec::new();
                vs.push(v);
                proof {
                    assert(vec_views(vs@) =~= seq![vs@[0]@]);
                }
                Some((vs, i2 + 1))
            } else {
                proof {
                    if i2 < s.len() {
                        assert(s@.skip(i2 as int)[0] == s@[i2 as int]);
                    }
                }
                None
            }
        },
    }
}

/// A JSON array of strings from index `i` on.
fn parse_array_x(s: &Vec<u8>, i: usize) -> (r: Option<(Vec<Vec<u8>>, usize)>)
    requires
        i <= s.len(),
    ensures
        match r {
            Some(p) => i < p.1 <= s.len() && parse_array(s@.skip(i as int)) == Some(
                (vec_views(p.0@), s@.skip(p.1 as int)),
            ),
            None => parse_array(s@.skip(i as int)) matches None,
        },
{
    let ghost su = s@.skip(i as int);
    if i < s.len() && s[i] == LBRACKET {
        proof {
            assert(su[0] == s@[i as int]);
            assert(su.drop_first() =~= s@.skip(i as int + 1));
        }
        let t = ws_end(s, i + 1);
        if t < s.len() && s[t] == RBRACKET {
            proof {
                assert(s@.skip(t as int)[0] == s@[t as int]);
                assert(s@.skip(t as int).drop_first() =~= s@.skip(t as int + 1));
            }
            let vs: Vec<Vec<u8>> = Vec::new();
            proof {
                assert(vec_views(vs@) =~= Seq::<Seq<u8>>::empty());
            }
            Some((vs, t + 1))
        } else {
            proof {
                if t < s.len() {
                    assert(s@.skip(t as int)[0] == s@[t as int]);
                }
            }
            parse_values_x(s, t)
        }
    } else {
        proof {
            if i < s.len() {
                assert(su[0] == s@[i as int]);
            }
        }
        None
    }
}

/// The members of a list-map object from index `i`, brace included.
fn parse_list_entries_x(s: &Vec<u8>, i: usize) -> (r: Option<
    (Vec<(Vec<u8>, Vec<Vec<u8>>)>, usize),
>)
    requires
        i <= s.len(),
    ensures
        match r {
            Some(p) => i < p.1 <= s.len() && parse_list_entries(s@.skip(i as int)) == Some(
                (list_pair_views(p.0@), s@.skip(p.1 as int)),
            ),
            None => parse_list_entries(s@.skip(i as int)) matches None,
        },
    decreases s.len() - i,
{
    match parse_string_x(s, i) {
        None => None,
        Some((k, i1)) => {
            let i2 = ws_end(s, i1);
            if i2 < s.len() && s[i2] == COLON {
                proof {
                    assert(s@.skip(i2 as int)[0] == s@[i2 as int]);
                    assert(s@.skip(i2 as int).drop_first() =~= s@.skip(i2 as int + 1));
                }
                let i3 = ws_end(s, i2 + 1);
                match parse_array_x(s, i3) {
                    None => None,
                    Some((vs, i4)) => {
                        let i5 = ws_end(s, i4);
                        if i5 < s.len() && s[i5] == COMMA {
                            proof {
                                assert(s@.skip(i5 as int)[0] == s@[i5 as int]);
                                assert(s@.skip(i5 as int).drop_first() =~= s@.skip(i5 as int + 1));
                            }
                            let i6 = ws_end(s, i5 + 1);
                            match parse_list_entries_x(s, i6) {
                                None => None,
                                Some((mut es, j)) => {
                                    let ghost tail_views = list_pair_views(es@);
                                    let ghost vals = vec_views(vs@);
                                    es.insert(0, (k, vs));
                                    proof {
                                        assert(list_pair_views(es@) =~= seq![(k@, vals)]
                                            + tail_views);
                                    }
                                    Some((es, j))
                                },
                            }
                        } else if i5 < s.len() && s[i5] == RBRACE {
                            proof {
                                assert(s@.skip(i5 as int)[0] == s@[i5 as int]);
                                assert(s@.skip(i5 as int).drop_first() =~= s@.skip(i5 as int + 1));
                            }
                            let ghost vals = vec_views(vs@);
                            let mut es: Vec<(Vec<u8>, Vec<Vec<u8>>)> = Vec::new();
                            es.push((k, vs));
                            proof {
                                assert(list_pair_views(es@) =~= seq![(k@, vals)]);
                            }
                            Some((es, i5 + 1))
                        } else {
                            proof {
                                if i5 < s.len() {
                                    assert(s@.skip(i5 as int)[0] == s@[i5 as int]);
                                }
                            }
                            None
                        }
                    },
                }
            } else {
                proof {
                    if i2 < s.len() {
                        assert(s@.skip(i2 as int)[0] == s@[i2 as int]);
                    }
                }
                None
            }
        },
    }
}

/// Decodes a whole scalar-map document.
pub fn decode_scalar_doc(s: &Vec<u8>) -> (r: Option<Vec<(Vec<u8>, Vec<u8>)>>)
    ensures
        match r {
            Some(es) => parse_scalar_doc(s@) == Some(pair_views(es@)),
            None => parse_scalar_doc(s@) matches None,
        },
{
    proof {
        assert(s@.skip(0) =~= s@);
    }
    let i0 = ws_end(s, 0);
    if i0 < s.len() && s[i0] == LBRACE {
        proof {
            assert(s@.skip(i0 as int)[0] == s@[i0 as int]);
            assert(s@.skip(i0 as int).drop_first() =~= s@.skip(i0 as int + 1));
        }
        let i1 = ws_end(s, i0 + 1);
        if i1 < s.len() && s[i1] == RBRACE {
            proof {
                assert(s@.skip(i1 as int)[0] == s@[i1 as int]);
                assert(s@.skip(i1 as int).drop_first() =~= s@.skip(i1 as int + 1));
            }
            let i2 = ws_end(s, i1 + 1);
            if i2 == s.len() {
                let es: Vec<(Vec<u8>, Vec<u8>)> = Vec::new();
                proof {
                    assert(pair_views(es@) =~= Seq::<(Seq<u8>, Seq<u8>)>::empty());
                }
                Some(es)
            } else {
                None
            }
        } else {
            proof {
                if i1 < s.len() {
                    assert(s@.skip(i1 as int)[0] == s@[i1 as int]);
                }
            }
            match parse_scalar_entries_x(s, i1) {
                None => None,
                Some((es, j)) => {
                    let i2 = ws_end(s, j);
                    if i2 == s.len() {
                        Some(es)
                    } else {
                        None
                    }
                },
            }
        }
    } else {
        proof {
            if i0 < s.len() {
                assert(s@.skip(i0 as int)[0] == s@[i0 as int]);
            }
        }
        None
    }
}

/// Decodes a whole list-map document.
pub fn decode_list_doc(s: &Vec<u8>) -> (r: Option<Vec<(Vec<u8>, Vec<Vec<u8>>)>>)
    ensures
        match r {
            Some(es) => parse_list_doc(s@) == Some(list_pair_views(es@)),
            None => parse_list_doc(s@) matches None,
        },
{
    proof {
        assert(s@.skip(0) =~= s@);
    }
    let i0 = ws_end(s, 0);
    if i0 < s.len() && s[i0] == LBRACE {
        proof {
            assert(s@.skip(i0 as int)[0] == s@[i0 as int]);
            assert(s@.skip(i0 as int).drop_first() =~= s@.skip(i0 as int + 1));
        }
        let i1 = ws_end(s, i0 + 1);
        if i1 < s.len() && s[i1] == RBRACE {
            proof {
                assert(s@.skip(i1 as int)[0] == s@[i1 as int]);
                assert(s@.skip(i1 as int).drop_first() =~= s@.skip(i1 as int + 1));
            }
            let i2 = ws_end(s, i1 + 1);
            if i2 == s.len() {
                let es: Vec<(Vec<u8>, Vec<Vec<u8>>)> = Vec::new();
                proof {
                    assert(list_pair_views(es@) =~= Seq::<(Seq<u8>, Seq<Seq<u8>>)>::empty());
                }
                Some(es)
            } else {
                None
            }
        } else {
            proof {
                if i1 < s.len() {
                    assert(s@.skip(i1 as int)[0] == s@[i1 as int]);
                }
            }
            match parse_list_entries_x(s, i1) {
                None => None,
                Some((es, j)) => {
                    let i2 = ws_end(s, j);
                    if i2 == s.len() {
                        Some(es)
                    } else {
                        None
                    }
                },
            }
        }
    } else {
        proof {
            if i0 < s.len() {
                assert(s@.skip(i0 as int)[0] == s@[i0 as int]);
            }
        }
        None
    }
}

} // verus!
