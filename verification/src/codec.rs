//! The persisted document format: a pretty-printed JSON object holding the
//! fragments and the composed text, written and read entirely by verified
//! code. Reading is whitespace-insensitive; writing and reading round-trip
//! every byte of every text, non-ASCII content included.
//!
//! The layout written is
//! ```text
//! {
//!   "plots": [
//!     {
//!       "id": 0,
//!       "text": "..."
//!     }
//!   ],
//!   "composed_text": "..."
//! }
//! ```
//! with `"` and `\` escaped as `\"` and `\\`, the line feed, carriage return
//! and tab as `\n`, `\r` and `\t`, other control bytes as `\u00XX`, and every
//! other byte verbatim.

use vstd::prelude::*;
use crate::fragment::Fragment;
use crate::fragment::plots_view;
use crate::fragment::push_all;
use crate::model::FragV;
use crate::search::matches_at;
use crate::search::is_match;

verus! {

/// The opening of the document object through the start of the plots array:
/// `{\n  "plots": [`.
pub open spec fn lit_head() -> Seq<u8> {
    seq![123u8, 10u8, 32u8, 32u8, 34u8, 112u8, 108u8, 111u8, 116u8, 115u8, 34u8, 58u8, 32u8, 91u8]
}

/// The opening of one plot object through its id value: `\n    {\n      "id": `.
pub open spec fn lit_item_open() -> Seq<u8> {
    seq![
        10u8, 32u8, 32u8, 32u8, 32u8, 123u8, 10u8, 32u8, 32u8, 32u8, 32u8, 32u8, 32u8, 34u8,
        105u8, 100u8, 34u8, 58u8, 32u8,
    ]
}

/// Between a plot's id and its text value: `,\n      "text": `.
pub open spec fn lit_item_mid() -> Seq<u8> {
    seq![44u8, 10u8, 32u8, 32u8, 32u8, 32u8, 32u8, 32u8, 34u8, 116u8, 101u8, 120u8, 116u8, 34u8, 58u8, 32u8]
}

/// The close of one plot object: `\n    }`.
pub open spec fn lit_item_close() -> Seq<u8> {
    seq![10u8, 32u8, 32u8, 32u8, 32u8, 125u8]
}

/// From the close of the plots array through the composed text value:
/// `\n  ],\n  "composed_text": `.
pub open spec fn lit_tail() -> Seq<u8> {
    seq![
        10u8, 32u8, 32u8, 93u8, 44u8, 10u8, 32u8, 32u8, 34u8, 99u8, 111u8, 109u8, 112u8, 111u8,
        115u8, 101u8, 100u8, 95u8, 116u8, 101u8, 120u8, 116u8, 34u8, 58u8, 32u8,
    ]
}

/// The close of the document object: `\n}`.
pub open spec fn lit_end() -> Seq<u8> {
    seq![10u8, 125u8]
}

/// The key `"plots"`, quotes included.
pub open spec fn key_plots() -> Seq<u8> {
    seq![34u8, 112u8, 108u8, 111u8, 116u8, 115u8, 34u8]
}

/// The key `"id"`, quotes included.
pub open spec fn key_id() -> Seq<u8> {
    seq![34u8, 105u8, 100u8, 34u8]
}

/// The key `"text"`, quotes included.
pub open spec fn key_text() -> Seq<u8> {
    seq![34u8, 116u8, 101u8, 120u8, 116u8, 34u8]
}

/// The key `"composed_text"`, quotes included.
pub open spec fn key_composed() -> Seq<u8> {
    seq![
        34u8, 99u8, 111u8, 109u8, 112u8, 111u8, 115u8, 101u8, 100u8, 95u8, 116u8, 101u8, 120u8,
        116u8, 34u8,
    ]
}

/// The lowercase hex digit for a value below sixteen.
pub open spec fn hex_digit(d: nat) -> u8 {
    if d < 10 {
        (48 + d) as u8
    } else {
        (87 + d) as u8
    }
}

/// How one byte is written inside a string value.
pub open spec fn esc(c: u8) -> Seq<u8> {
    if c == 34 {
        seq![92u8, 34u8]
    } else if c == 92 {
        seq![92u8, 92u8]
    } else if c == 10 {
        seq![92u8, 110u8]
    } else if c == 13 {
        seq![92u8, 114u8]
    } else if c == 9 {
        seq![92u8, 116u8]
    } else if c < 32 {
        seq![92u8, 117u8, 48u8, 48u8, hex_digit((c / 16) as nat), hex_digit((c % 16) as nat)]
    } else {
        seq![c]
    }
}

/// The written form of a text, closing quote not included.
pub open spec fn emit_string_body(s: Seq<u8>) -> Seq<u8>
    decreases s.len(),
{
    if s.len() == 0 {
        Seq::empty()
    } else {
        esc(s[0]) + emit_string_body(s.skip(1))
    }
}

/// The written form of a string value, quotes included.
pub open spec fn emit_string(s: Seq<u8>) -> Seq<u8> {
    seq![34u8] + emit_string_body(s) + seq![34u8]
}

/// The decimal digits of `n`, most significant first.
pub open spec fn digits_of(n: nat) -> Seq<u8>
    decreases n,
{
    if n < 10 {
        seq![(48 + n) as u8]
    } else {
        digits_of(n / 10) + seq![(48 + (n % 10)) as u8]
    }
}

/// The written form of one plot object.
pub open spec fn emit_plot(f: FragV) -> Seq<u8> {
    lit_item_open() + digits_of(f.id) + lit_item_mid() + emit_string(f.text) + lit_item_close()
}

/// The written forms of the plots, joined with commas.
pub open spec fn emit_plots(plots: Seq<FragV>) -> Seq<u8>
    decreases plots.len(),
{
    if plots.len() == 0 {
        Seq::empty()
    } else if plots.len() == 1 {
        emit_plot(plots[0])
    } else {
        emit_plots(plots.drop_last()) + seq![44u8] + emit_plot(plots.last())
    }
}

/// The written form of a whole document.
pub open spec fn emit_doc(plots: Seq<FragV>, composed: Seq<u8>) -> Seq<u8> {
    lit_head() + emit_plots(plots) + lit_tail() + emit_string(composed) + lit_end()
}

/// Appending one byte to a text appends its written form.
pub proof fn lemma_emit_body_snoc(s: Seq<u8>, c: u8)
    ensures
        emit_string_body(s.push(c)) == emit_string_body(s) + esc(c),
    decreases s.len(),
{
    if s.len() == 0 {
        assert(s.push(c).skip(1) =~= Seq::<u8>::empty());
        assert(emit_string_body(Seq::<u8>::empty()) == Seq::<u8>::empty());
        assert(emit_string_body(s.push(c)) =~= emit_string_body(s) + esc(c));
    } else {
        assert(s.push(c).skip(1) =~= s.skip(1).push(c));
        lemma_emit_body_snoc(s.skip(1), c);
        assert(emit_string_body(s.push(c)) =~= emit_string_body(s) + esc(c));
    }
}

/// Appending one plot appends its written form, after a comma where a plot
/// already stands.
pub proof fn lemma_emit_plots_snoc(plots: Seq<FragV>, f: FragV)
    ensures
        emit_plots(plots.push(f)) == (if plots.len() == 0 {
            emit_plot(f)
        } else {
            emit_plots(plots) + seq![44u8] + emit_plot(f)
        }),
{
    assert(plots.push(f).drop_last() =~= plots);
    assert(plots.push(f).last() == f);
}

/// A byte that reading may skip between tokens: space, tab, line feed or
/// carriage return.
pub open spec fn is_ws(c: u8) -> bool {
    c == 32 || c == 9 || c == 10 || c == 13
}

/// The first position at or after `i` holding no whitespace.
pub open spec fn skip_ws(b: Seq<u8>, i: int) -> int
    decreases b.len() - i,
{
    if 0 <= i < b.len() && is_ws(b[i]) {
        skip_ws(b, i + 1)
    } else {
        i
    }
}

/// The byte `c` stands at position `i`.
pub open spec fn at_byte(b: Seq<u8>, i: int, c: u8) -> bool {
    0 <= i < b.len() && b[i] == c
}

/// An ASCII decimal digit.
pub open spec fn is_digit(c: u8) -> bool {
    48 <= c <= 57
}

/// Read a run of decimal digits starting at `i` into `acc`: the value and
/// the position after the run.
pub open spec fn p_digits(b: Seq<u8>, i: int, acc: nat) -> (nat, int)
    decreases b.len() - i,
{
    if 0 <= i < b.len() && is_digit(b[i]) {
        p_digits(b, i + 1, acc * 10 + (b[i] - 48) as nat)
    } else {
        (acc, i)
    }
}

/// Read a non-negative decimal number: at least one digit.
pub open spec fn p_number(b: Seq<u8>, i: int) -> Option<(nat, int)> {
    if 0 <= i < b.len() && is_digit(b[i]) {
        Some(p_digits(b, i, 0))
    } else {
        None
    }
}

/// The value of one hex digit, upper or lower case.
pub open spec fn hex_val(c: u8) -> Option<nat> {
    if 48 <= c <= 57 {
        Some((c - 48) as nat)
    } else if 97 <= c <= 102 {
        Some((c - 87) as nat)
    } else if 65 <= c <= 70 {
        Some((c - 55) as nat)
    } else {
        None
    }
}

/// The UTF-8 encoding of a code point below 0x10000.
pub open spec fn utf8_enc(c: nat) -> Seq<u8> {
    if c < 0x80 {
        seq![c as u8]
    } else if c < 0x800 {
        seq![(192 + c / 64) as u8, (128 + c % 64) as u8]
    } else {
        seq![(224 + c / 4096) as u8, (128 + (c / 64) % 64) as u8, (128 + c % 64) as u8]
    }
}

/// Prefix the value of a partial string parse.
pub open spec fn prepend(pre: Seq<u8>, r: Option<(Seq<u8>, int)>) -> Option<(Seq<u8>, int)> {
    match r {
        Some((v, j)) => Some((pre + v, j)),
        None => None,
    }
}

/// Prefixing composes by concatenation.
pub proof fn lemma_prepend_assoc(p1: Seq<u8>, p2: Seq<u8>, r: Option<(Seq<u8>, int)>)
    ensures
        prepend(p1 + p2, r) == prepend(p1, prepend(p2, r)),
{
    match r {
        Some((v, j)) => {
            assert((p1 + p2) + v =~= p1 + (p2 + v));
        },
        None => {},
    }
}

/// Read the rest of a string value after the opening quote: the decoded
/// bytes and the position after the closing quote. Escapes follow JSON:
/// `\" \\ \/ \b \f \n \r \t` and `\uXXXX` for a code point outside the
/// surrogate range; a raw control byte, a lone backslash, an unknown escape
/// or a missing closing quote is an error.
pub open spec fn p_string_rest(b: Seq<u8>, i: int) -> Option<(Seq<u8>, int)>
    decreases b.len() - i,
{
    if i < 0 || i >= b.len() {
        None
    } else if b[i] == 34 {
        Some((Seq::empty(), i + 1))
    } else if b[i] == 92 {
        if i + 1 >= b.len() {
            None
        } else {
            let e = b[i + 1];
            if e == 34 || e == 92 || e == 47 {
                prepend(seq![e], p_string_rest(b, i + 2))
            } else if e == 98 {
                prepend(seq![8u8], p_string_rest(b, i + 2))
            } else if e == 102 {
                prepend(seq![12u8], p_string_rest(b, i + 2))
            } else if e == 110 {
                prepend(seq![10u8], p_string_rest(b, i + 2))
            } else if e == 114 {
                prepend(seq![13u8], p_string_rest(b, i + 2))
            } else if e == 116 {
                prepend(seq![9u8], p_string_rest(b, i + 2))
            } else if e == 117 {
                if i + 6 > b.len() {
                    None
                } else {
                    match (hex_val(b[i + 2]), hex_val(b[i + 3]), hex_val(b[i + 4]), hex_val(
                        b[i + 5],
                    )) {
                        (Some(h0), Some(h1), Some(h2), Some(h3)) => {
                            let c = h0 * 4096 + h1 * 256 + h2 * 16 + h3;
                            if 0xD800 <= c < 0xE000 {
                                None
                            } else {
                                prepend(utf8_enc(c), p_string_rest(b, i + 6))
                            }
                        },
                        _ => None,
                    }
                }
            } else {
                None
            }
        }
    } else if b[i] < 32 {
        None
    } else {
        prepend(seq![b[i]], p_string_rest(b, i + 1))
    }
}

/// Read a string value, opening quote included.
pub open spec fn p_string(b: Seq<u8>, i: int) -> Option<(Seq<u8>, int)> {
    if at_byte(b, i, 34) {
        p_string_rest(b, i + 1)
    } else {
        None
    }
}

/// Read one plot object: `{ "id": <number>, "text": <string> }`, with any
/// whitespace between tokens; an id too large for the machine is an error.
pub open spec fn p_plot(b: Seq<u8>, i: int) -> Option<(FragV, int)> {
    let i0 = skip_ws(b, i);
    if !at_byte(b, i0, 123) {
        None
    } else {
        let i1 = skip_ws(b, i0 + 1);
        if !matches_at(b, key_id(), i1) {
            None
        } else {
            let i2 = skip_ws(b, i1 + key_id().len());
            if !at_byte(b, i2, 58) {
                None
            } else {
                let i3 = skip_ws(b, i2 + 1);
                match p_number(b, i3) {
                    None => None,
                    Some((id, i4)) => {
                        if id > usize::MAX as nat {
                            None
                        } else {
                            let i5 = skip_ws(b, i4);
                            if !at_byte(b, i5, 44) {
                                None
                            } else {
                                let i6 = skip_ws(b, i5 + 1);
                                if !matches_at(b, key_text(), i6) {
                                    None
                                } else {
                                    let i7 = skip_ws(b, i6 + key_text().len());
                                    if !at_byte(b, i7, 58) {
                                        None
                                    } else {
                                        let i8 = skip_ws(b, i7 + 1);
                                        match p_string(b, i8) {
                                            None => None,
                                            Some((text, i9)) => {
                                                let i10 = skip_ws(b, i9);
                                                if !at_byte(b, i10, 125) {
                                                    None
                                                } else {
                                                    Some((FragV { id: id, text: text }, i10 + 1))
                                                }
                                            },
                                        }
                                    }
                                }
                            }
                        }
                    },
                }
            }
        }
    }
}

/// Read the members of a non-empty plots array, from after the `[` (or a
/// `,`) through the closing `]`. The two inner guards only bound the
/// recursion; a successful inner read always moves forward, so they never
/// fire.
pub open spec fn p_plots_items(b: Seq<u8>, i: int) -> Option<(Seq<FragV>, int)>
    decreases b.len() - i,
{
    match p_plot(b, i) {
        None => None,
        Some((f, j)) => {
            if j <= i || j > b.len() {
                None
            } else {
                let k = skip_ws(b, j);
                if k < j {
                    None
                } else if at_byte(b, k, 44) {
                    match p_plots_items(b, k + 1) {
                        None => None,
                        Some((fs, m)) => Some((seq![f] + fs, m)),
                    }
                } else if at_byte(b, k, 93) {
                    Some((seq![f], k + 1))
                } else {
                    None
                }
            }
        },
    }
}

/// Read a whole persisted document: an object holding exactly the keys
/// `plots` (an array of plot objects) and `composed_text` (a string), in
/// that order, with any whitespace between tokens and nothing but
/// whitespace after the object.
pub open spec fn p_doc(b: Seq<u8>) -> Option<(Seq<FragV>, Seq<u8>)> {
    let i0 = skip_ws(b, 0);
    if !at_byte(b, i0, 123) {
        None
    } else {
        let i1 = skip_ws(b, i0 + 1);
        if !matches_at(b, key_plots(), i1) {
            None
        } else {
            let i2 = skip_ws(b, i1 + key_plots().len());
            if !at_byte(b, i2, 58) {
                None
            } else {
                let i3 = skip_ws(b, i2 + 1);
                if !at_byte(b, i3, 91) {
                    None
                } else {
                    let i4 = skip_ws(b, i3 + 1);
                    let plots_read: Option<(Seq<FragV>, int)> = if at_byte(b, i4, 93) {
                        Some((Seq::empty(), i4 + 1))
                    } else {
                        p_plots_items(b, i3 + 1)
                    };
                    match plots_read {
                        None => None,
                        Some((plots, i5)) => {
                            let i6 = skip_ws(b, i5);
                            if !at_byte(b, i6, 44) {
                                None
                            } else {
                                let i7 = skip_ws(b, i6 + 1);
                                if !matches_at(b, key_composed(), i7) {
                                    None
                                } else {
                                    let i8 = skip_ws(b, i7 + key_composed().len());
                                    if !at_byte(b, i8, 58) {
                                        None
                                    } else {
                                        let i9 = skip_ws(b, i8 + 1);
                                        match p_string(b, i9) {
                                            None => None,
                                            Some((composed, i10)) => {
                                                let i11 = skip_ws(b, i10);
                                                if !at_byte(b, i11, 125) {
                                                    None
                                                } else if skip_ws(b, i11 + 1) == b.len() {
                                                    Some((plots, composed))
                                                } else {
                                                    None
                                                }
                                            },
                                        }
                                    }
                                }
                            }
                        },
                    }
                }
            }
        }
    }
}

/// Prefix the value of a partial plots-array parse.
pub open spec fn prepend_frags(pre: Seq<FragV>, r: Option<(Seq<FragV>, int)>) -> Option<
    (Seq<FragV>, int),
> {
    match r {
        Some((v, j)) => Some((pre + v, j)),
        None => None,
    }
}

/// Reading digits into a larger accumulator never shrinks it.
pub proof fn lemma_p_digits_ge(b: Seq<u8>, i: int, acc: nat)
    ensures
        p_digits(b, i, acc).0 >= acc,
    decreases b.len() - i,
{
    if 0 <= i < b.len() && is_digit(b[i]) {
        lemma_p_digits_ge(b, i + 1, acc * 10 + (b[i] - 48) as nat);
        assert(acc * 10 >= acc) by (nonlinear_arith);
    }
}

/// First non-whitespace position at or after `i`.
fn skip_ws_x(b: &Vec<u8>, i: usize) -> (r: usize)
    requires
        i <= b@.len(),
    ensures
        r as int == skip_ws(b@, i as int),
        i <= r <= b@.len(),
{
    let mut j: usize = i;
    while j < b.len() && (b[j] == 32 || b[j] == 9 || b[j] == 10 || b[j] == 13)
        invariant
            i <= j <= b@.len(),
            skip_ws(b@, i as int) == skip_ws(b@, j as int),
        decreases b@.len() - j,
    {
        j = j + 1;
    }
    j
}

/// Whether the given bytes stand at position `i`.
fn match_key(b: &Vec<u8>, i: usize, key: &Vec<u8>) -> (r: bool)
    requires
        i <= b@.len(),
    ensures
        r == matches_at(b@, key@, i as int),
{
    if b.len() - i < key.len() {
        proof {
            assert(!matches_at(b@, key@, i as int));
        }
        false
    } else {
        is_match(b, key, i)
    }
}

/// Read a decimal number that fits the machine; one that does not reads as
/// nothing, exactly as the plot reader treats it.
fn p_number_x(b: &Vec<u8>, i: usize) -> (r: Option<(usize, usize)>)
    requires
        i <= b@.len(),
    ensures
        (match p_number(b@, i as int) {
            None => r is None,
            Some((v, j)) => (match r {
                Some(rr) => v <= usize::MAX as nat && rr.0 as nat == v && rr.1 as int == j && i
                    < rr.1 <= b@.len(),
                None => v > usize::MAX as nat,
            }),
        }),
{
    if i >= b.len() || b[i] < 48 || b[i] > 57 {
        return None;
    }
    let mut acc: usize = 0;
    let mut j: usize = i;
    while j < b.len() && 48 <= b[j] && b[j] <= 57
        invariant
            i <= j <= b@.len(),
            p_digits(b@, i as int, 0) == p_digits(b@, j as int, acc as nat),
        decreases b@.len() - j,
    {
        let d: u8 = b[j] - 48;
        let wide: u128 = acc as u128 * 10 + d as u128;
        if wide > usize::MAX as u128 {
            proof {
                assert(p_digits(b@, j as int, acc as nat) == p_digits(
                    b@,
                    j as int + 1,
                    (acc as nat) * 10 + (b@[j as int] - 48) as nat,
                ));
                lemma_p_digits_ge(b@, j as int + 1, (acc as nat) * 10 + (b@[j as int] - 48) as nat);
            }
            return None;
        }
        acc = wide as usize;
        j = j + 1;
    }
    Some((acc, j))
}

/// The value of one hex digit.
fn hex_val_x(c: u8) -> (r: Option<u8>)
    ensures
        (match hex_val(c) {
            None => r is None,
            Some(v) => (match r {
                Some(rv) => rv as nat == v && rv < 16,
                None => false,
            }),
        }),
{
    if 48 <= c && c <= 57 {
        Some(c - 48)
    } else if 97 <= c && c <= 102 {
        Some(c - 87)
    } else if 65 <= c && c <= 70 {
        Some(c - 55)
    } else {
        None
    }
}

/// Read the rest of a string value after the opening quote.
fn p_string_rest_x(b: &Vec<u8>, i: usize) -> (r: Option<(Vec<u8>, usize)>)
    requires
        i <= b@.len(),
    ensures
        (match p_string_rest(b@, i as int) {
            None => r is None,
            Some((v, j)) => (match r {
                Some(rr) => rr.0@ == v && rr.1 as int == j && i < rr.1 <= b@.len(),
                None => false,
            }),
        }),
{
    let mut out: Vec<u8> = Vec::new();
    let mut k: usize = i;
    proof {
        match p_string_rest(b@, i as int) {
            Some((v, j)) => {
                assert(out@ + v =~= v);
            },
            None => {},
        }
    }
    loop
        invariant
            i <= k <= b@.len(),
            p_string_rest(b@, i as int) == prepend(out@, p_string_rest(b@, k as int)),
        decreases b@.len() - k,
    {
        if k >= b.len() {
            return None;
        }
        let c = b[k];
        if c == 34 {
            proof {
                assert(out@ + Seq::<u8>::empty() =~= out@);
            }
            return Some((out, k + 1));
        } else if c == 92 {
            if k + 1 >= b.len() {
                return None;
            }
            let e = b[k + 1];
            if e == 34 || e == 92 || e == 47 || e == 98 || e == 102 || e == 110 || e == 114 || e
                == 116 {
            let decoded: u8 = if e == 98 {
                8
            } else if e == 102 {
                12
            } else if e == 110 {
                10
            } else if e == 114 {
                13
            } else if e == 116 {
                9
            } else {
                e
            };
            let ghost pre = out@;
            proof {
                assert(p_string_rest(b@, k as int) == prepend(
                    seq![decoded],
                    p_string_rest(b@, k as int + 2),
                ));
                lemma_prepend_assoc(pre, seq![decoded], p_string_rest(b@, k as int + 2));
                assert(pre.push(decoded) =~= pre + seq![decoded]);
            }
            out.push(decoded);
            k = k + 2;
            } else if e == 117 {
                if b.len() - k < 6 {
                    return None;
                }
                let h0 = hex_val_x(b[k + 2]);
                let h1 = hex_val_x(b[k + 3]);
                let h2 = hex_val_x(b[k + 4]);
                let h3 = hex_val_x(b[k + 5]);
                match (h0, h1, h2, h3) {
                    (Some(v0), Some(v1), Some(v2), Some(v3)) => {
                        let code: u32 = v0 as u32 * 4096 + v1 as u32 * 256 + v2 as u32 * 16
                            + v3 as u32;
                        if 0xD800 <= code && code < 0xE000 {
                            return None;
                        }
                        let ghost pre = out@;
                        let ghost enc = utf8_enc(code as nat);
                        if code < 0x80 {
                            out.push(code as u8);
                        } else if code < 0x800 {
                            out.push((192 + code / 64) as u8);
                            out.push((128 + code % 64) as u8);
                        } else {
                            out.push((224 + code / 4096) as u8);
                            out.push((128 + (code / 64) % 64) as u8);
                            out.push((128 + code % 64) as u8);
                        }
                        proof {
                            assert(out@ =~= pre + enc);
                            assert(p_string_rest(b@, k as int) == prepend(
                                enc,
                                p_string_rest(b@, k as int + 6),
                            ));
                            lemma_prepend_assoc(pre, enc, p_string_rest(b@, k as int + 6));
                        }
                        k = k + 6;
                    },
                    _ => {
                        return None;
                    },
                }
            } else {
                return None;
            }
        } else if c < 32 {
            return None;
        } else {
            let ghost pre = out@;
            proof {
                assert(p_string_rest(b@, k as int) == prepend(
                    seq![c],
                    p_string_rest(b@, k as int + 1),
                ));
                lemma_prepend_assoc(pre, seq![c], p_string_rest(b@, k as int + 1));
                assert(pre.push(c) =~= pre + seq![c]);
            }
            out.push(c);
            k = k + 1;
        }
    }
}

/// Read one plot object.
fn p_plot_x(b: &Vec<u8>, i: usize) -> (r: Option<(Fragment, usize)>)
    requires
        i <= b@.len(),
    ensures
        (match p_plot(b@, i as int) {
            None => r is None,
            Some((f, j)) => (match r {
                Some(rr) => rr.0@ == f && rr.1 as int == j && i < rr.1 <= b@.len(),
                None => false,
            }),
        }),
{
    let i0 = skip_ws_x(b, i);
    if !(i0 < b.len() && b[i0] == 123) {
        return None;
    }
    let i1 = skip_ws_x(b, i0 + 1);
    let mut kid: Vec<u8> = Vec::new();
    kid.push(34);
    kid.push(105);
    kid.push(100);
    kid.push(34);
    proof {
        assert(kid@ =~= key_id());
    }
    if !match_key(b, i1, &kid) {
        return None;
    }
    let i2 = skip_ws_x(b, i1 + 4);
    if !(i2 < b.len() && b[i2] == 58) {
        return None;
    }
    let i3 = skip_ws_x(b, i2 + 1);
    match p_number_x(b, i3) {
        None => {
            return None;
        },
        Some((id, i4)) => {
            let i5 = skip_ws_x(b, i4);
            if !(i5 < b.len() && b[i5] == 44) {
                return None;
            }
            let i6 = skip_ws_x(b, i5 + 1);
            let mut ktext: Vec<u8> = Vec::new();
            ktext.push(34);
            ktext.push(116);
            ktext.push(101);
            ktext.push(120);
            ktext.push(116);
            ktext.push(34);
            proof {
                assert(ktext@ =~= key_text());
            }
            if !match_key(b, i6, &ktext) {
                return None;
            }
            let i7 = skip_ws_x(b, i6 + 6);
            if !(i7 < b.len() && b[i7] == 58) {
                return None;
            }
            let i8 = skip_ws_x(b, i7 + 1);
            if !(i8 < b.len() && b[i8] == 34) {
                return None;
            }
            match p_string_rest_x(b, i8 + 1) {
                None => {
                    return None;
                },
                Some((text, i9)) => {
                    let i10 = skip_ws_x(b, i9);
                    if !(i10 < b.len() && b[i10] == 125) {
                        return None;
                    }
                    Some((Fragment { id, text }, i10 + 1))
                },
            }
        },
    }
}

/// Read the members of a non-empty plots array through the closing bracket.
fn p_plots_items_x(b: &Vec<u8>, i: usize) -> (r: Option<(Vec<Fragment>, usize)>)
    requires
        i <= b@.len(),
    ensures
        (match p_plots_items(b@, i as int) {
            None => r is None,
            Some((fs, m)) => (match r {
                Some(rr) => plots_view(rr.0@) == fs && rr.1 as int == m && rr.1 <= b@.len(),
                None => false,
            }),
        }),
{
    let mut acc: Vec<Fragment> = Vec::new();
    let mut k: usize = i;
    proof {
        match p_plots_items(b@, i as int) {
            Some((v, j)) => {
                assert(plots_view(acc@) + v =~= v);
            },
            None => {},
        }
    }
    loop
        invariant
            i <= k <= b@.len(),
            p_plots_items(b@, i as int) == prepend_frags(
                plots_view(acc@),
                p_plots_items(b@, k as int),
            ),
        decreases b@.len() - k,
    {
        match p_plot_x(b, k) {
            None => {
                return None;
            },
            Some((f, j)) => {
                let ghost fv = f@;
                let k2 = skip_ws_x(b, j);
                if k2 < b.len() && b[k2] == 44 {
                    let ghost pre = plots_view(acc@);
                    acc.push(f);
                    proof {
                        assert(plots_view(acc@) =~= pre.push(fv));
                        match p_plots_items(b@, k2 as int + 1) {
                            Some((fs, m)) => {
                                assert(pre + (seq![fv] + fs) =~= pre.push(fv) + fs);
                            },
                            None => {},
                        }
                    }
                    k = k2 + 1;
                } else if k2 < b.len() && b[k2] == 93 {
                    let ghost pre = plots_view(acc@);
                    acc.push(f);
                    proof {
                        assert(plots_view(acc@) =~= pre.push(fv));
                        assert(pre + seq![fv] =~= pre.push(fv));
                    }
                    return Some((acc, k2 + 1));
                } else {
                    return None;
                }
            },
        }
    }
}

/// Read a whole persisted document from its bytes: the fragments and the
/// composed text, or nothing when the bytes are not a well-formed document.
pub fn parse_document(b: &Vec<u8>) -> (r: Option<(Vec<Fragment>, Vec<u8>)>)
    ensures
        (match p_doc(b@) {
            None => r is None,
            Some((plots, composed)) => (match r {
                Some(rr) => plots_view(rr.0@) == plots && rr.1@ == composed,
                None => false,
            }),
        }),
{
    let i0 = skip_ws_x(b, 0);
    if !(i0 < b.len() && b[i0] == 123) {
        return None;
    }
    let i1 = skip_ws_x(b, i0 + 1);
    let mut kplots: Vec<u8> = Vec::new();
    kplots.push(34);
    kplots.push(112);
    kplots.push(108);
    kplots.push(111);
    kplots.push(116);
    kplots.push(115);
    kplots.push(34);
    proof {
        assert(kplots@ =~= key_plots());
    }
    if !match_key(b, i1, &kplots) {
        return None;
    }
    let i2 = skip_ws_x(b, i1 + 7);
    if !(i2 < b.len() && b[i2] == 58) {
        return None;
    }
    let i3 = skip_ws_x(b, i2 + 1);
    if !(i3 < b.len() && b[i3] == 91) {
        return None;
    }
    let i4 = skip_ws_x(b, i3 + 1);
    let mut plots: Vec<Fragment>;
    let i5: usize;
    if i4 < b.len() && b[i4] == 93 {
        plots = Vec::new();
        i5 = i4 + 1;
        proof {
            assert(plots_view(plots@) =~= Seq::<FragV>::empty());
        }
    } else {
        match p_plots_items_x(b, i3 + 1) {
            None => {
                return None;
            },
            Some((fs, m)) => {
                plots = fs;
                i5 = m;
            },
        }
    }
    let i6 = skip_ws_x(b, i5);
    if !(i6 < b.len() && b[i6] == 44) {
        return None;
    }
    let i7 = skip_ws_x(b, i6 + 1);
    let mut kcomposed: Vec<u8> = Vec::new();
    kcomposed.push(34);
    kcomposed.push(99);
    kcomposed.push(111);
    kcomposed.push(109);
    kcomposed.push(112);
    kcomposed.push(111);
    kcomposed.push(115);
    kcomposed.push(101);
    kcomposed.push(100);
    kcomposed.push(95);
    kcomposed.push(116);
    kcomposed.push(101);
    kcomposed.push(120);
    kcomposed.push(116);
    kcomposed.push(34);
    proof {
        assert(kcomposed@ =~= key_composed());
    }
    if !match_key(b, i7, &kcomposed) {
        return None;
    }
    let i8 = skip_ws_x(b, i7 + 15);
    if !(i8 < b.len() && b[i8] == 58) {
        return None;
    }
    let i9 = skip_ws_x(b, i8 + 1);
    if !(i9 < b.len() && b[i9] == 34) {
        return None;
    }
    match p_string_rest_x(b, i9 + 1) {
        None => {
            return None;
        },
        Some((composed, i10)) => {
            let i11 = skip_ws_x(b, i10);
            if !(i11 < b.len() && b[i11] == 125) {
                return None;
            }
            if skip_ws_x(b, i11 + 1) == b.len() {
                Some((plots, composed))
            } else {
                None
            }
        },
    }
}

/// Append the written form of one byte of a string value.
fn push_esc(out: &mut Vec<u8>, c: u8)
    ensures
        final(out)@ == old(out)@ + esc(c),
{
    if c == 34 {
        out.push(92);
        out.push(34);
    } else if c == 92 {
        out.push(92);
        out.push(92);
    } else if c == 10 {
        out.push(92);
        out.push(110);
    } else if c == 13 {
        out.push(92);
        out.push(114);
    } else if c == 9 {
        out.push(92);
        out.push(116);
    } else if c < 32 {
        out.push(92);
        out.push(117);
        out.push(48);
        out.push(48);
        let hi = c / 16;
        let lo = c % 16;
        out.push(if hi < 10 { 48 + hi } else { 87 + hi });
        out.push(if lo < 10 { 48 + lo } else { 87 + lo });
    } else {
        out.push(c);
    }
    proof {
        assert(out@ =~= old(out)@ + esc(c));
    }
}

/// Append the written form of a string value, quotes included.
fn push_string(out: &mut Vec<u8>, s: &Vec<u8>)
    ensures
        final(out)@ == old(out)@ + emit_string(s@),
{
    out.push(34);
    let mut i: usize = 0;
    while i < s.len()
        invariant
            i <= s@.len(),
            out@ == old(out)@ + seq![34u8] + emit_string_body(s@.take(i as int)),
        decreases s@.len() - i,
    {
        proof {
            lemma_emit_body_snoc(s@.take(i as int), s@[i as int]);
            assert(s@.take(i as int).push(s@[i as int]) =~= s@.take(i as int + 1));
        }
        push_esc(out, s[i]);
        i = i + 1;
        proof {
            assert(out@ =~= old(out)@ + seq![34u8] + emit_string_body(s@.take(i as int)));
        }
    }
    out.push(34);
    proof {
        assert(s@.take(s@.len() as int) =~= s@);
        assert(out@ =~= old(out)@ + emit_string(s@));
    }
}

/// Append the decimal digits of `n`, most significant first.
fn push_digits(out: &mut Vec<u8>, n: usize)
    ensures
        final(out)@ == old(out)@ + digits_of(n as nat),
{
    let mut tmp: Vec<u8> = Vec::new();
    let mut m: usize = n;
    proof {
        assert(tmp@.reverse() =~= Seq::<u8>::empty());
        assert(digits_of(n as nat) =~= digits_of(n as nat) + tmp@.reverse());
    }
    loop
        invariant_except_break
            digits_of(n as nat) == digits_of(m as nat) + tmp@.reverse(),
        ensures
            digits_of(n as nat) == tmp@.reverse(),
            tmp@.len() >= 1,
        decreases m,
    {
        proof {
            assert(digits_of(n as nat) =~= digits_of(m as nat) + tmp@.reverse());
        }
        let d: u8 = (m % 10) as u8 + 48;
        let ghost prev = tmp@;
        tmp.push(d);
        proof {
            assert(tmp@.reverse() =~= seq![d] + prev.reverse());
            if m >= 10 {
                assert(digits_of(m as nat) == digits_of(m as nat / 10) + seq![d]);
                assert(digits_of(m as nat / 10) + seq![d] + prev.reverse() =~= digits_of(
                    m as nat / 10,
                ) + tmp@.reverse());
            } else {
                assert(digits_of(m as nat) =~= seq![d]);
                assert(seq![d] + prev.reverse() =~= tmp@.reverse());
            }
        }
        if m < 10 {
            break;
        }
        m = m / 10;
    }
    let mut t: usize = 0;
    while t < tmp.len()
        invariant
            t <= tmp@.len(),
            digits_of(n as nat) == tmp@.reverse(),
            out@ == old(out)@ + tmp@.reverse().take(t as int),
        decreases tmp@.len() - t,
    {
        proof {
            assert(tmp@.reverse()[t as int] == tmp@[tmp@.len() - 1 - t as int]);
            assert(tmp@.reverse().take(t as int).push(tmp@.reverse()[t as int]) =~= tmp@
                .reverse().take(t as int + 1));
        }
        out.push(tmp[tmp.len() - 1 - t]);
        t = t + 1;
    }
    proof {
        assert(tmp@.reverse().take(tmp@.len() as int) =~= tmp@.reverse());
    }
}

/// Append the written form of one plot object.
fn push_plot(out: &mut Vec<u8>, f: &Fragment)
    ensures
        final(out)@ == old(out)@ + emit_plot(f@),
{
    let mut open: Vec<u8> = Vec::new();
    open.push(10);
    open.push(32);
    open.push(32);
    open.push(32);
    open.push(32);
    open.push(123);
    open.push(10);
    open.push(32);
    open.push(32);
    open.push(32);
    open.push(32);
    open.push(32);
    open.push(32);
    open.push(34);
    open.push(105);
    open.push(100);
    open.push(34);
    open.push(58);
    open.push(32);
    proof {
        assert(open@ =~= lit_item_open());
    }
    push_all(out, &open);
    push_digits(out, f.id);
    let mut mid: Vec<u8> = Vec::new();
    mid.push(44);
    mid.push(10);
    mid.push(32);
    mid.push(32);
    mid.push(32);
    mid.push(32);
    mid.push(32);
    mid.push(32);
    mid.push(34);
    mid.push(116);
    mid.push(101);
    mid.push(120);
    mid.push(116);
    mid.push(34);
    mid.push(58);
    mid.push(32);
    proof {
        assert(mid@ =~= lit_item_mid());
    }
    push_all(out, &mid);
    push_string(out, &f.text);
    let mut close: Vec<u8> = Vec::new();
    close.push(10);
    close.push(32);
    close.push(32);
    close.push(32);
    close.push(32);
    close.push(125);
    proof {
        assert(close@ =~= lit_item_close());
    }
    push_all(out, &close);
    proof {
        assert(out@ =~= old(out)@ + emit_plot(f@));
    }
}

/// The written form of a whole document.
pub fn emit_document(plots: &Vec<Fragment>, composed: &Vec<u8>) -> (r: Vec<u8>)
    ensures
        r@ == emit_doc(plots_view(plots@), composed@),
{
    let mut out: Vec<u8> = Vec::new();
    let mut head: Vec<u8> = Vec::new();
    head.push(123);
    head.push(10);
    head.push(32);
    head.push(32);
    head.push(34);
    head.push(112);
    head.push(108);
    head.push(111);
    head.push(116);
    head.push(115);
    head.push(34);
    head.push(58);
    head.push(32);
    head.push(91);
    proof {
        assert(head@ =~= lit_head());
    }
    push_all(&mut out, &head);
    let mut k: usize = 0;
    while k < plots.len()
        invariant
            k <= plots@.len(),
            out@ == lit_head() + emit_plots(plots_view(plots@).take(k as int)),
        decreases plots@.len() - k,
    {
        if k > 0 {
            out.push(44);
        }
        proof {
            lemma_emit_plots_snoc(plots_view(plots@).take(k as int), plots@[k as int]@);
            assert(plots_view(plots@).take(k as int).push(plots@[k as int]@) =~= plots_view(
                plots@,
            ).take(k as int + 1));
        }
        push_plot(&mut out, &plots[k]);
        k = k + 1;
        proof {
            assert(out@ =~= lit_head() + emit_plots(plots_view(plots@).take(k as int)));
        }
    }
    proof {
        assert(plots_view(plots@).take(plots@.len() as int) =~= plots_view(plots@));
    }
    let mut tail: Vec<u8> = Vec::new();
    tail.push(10);
    tail.push(32);
    tail.push(32);
    tail.push(93);
    tail.push(44);
    tail.push(10);
    tail.push(32);
    tail.push(32);
    tail.push(34);
    tail.push(99);
    tail.push(111);
    tail.push(109);
    tail.push(112);
    tail.push(111);
    tail.push(115);
    tail.push(101);
    tail.push(100);
    tail.push(95);
    tail.push(116);
    tail.push(101);
    tail.push(120);
    tail.push(116);
    tail.push(34);
    tail.push(58);
    tail.push(32);
    proof {
        assert(tail@ =~= lit_tail());
    }
    push_all(&mut out, &tail);
    push_string(&mut out, composed);
    out.push(10);
    out.push(125);
    proof {
        assert(out@ =~= emit_doc(plots_view(plots@), composed@));
    }
    out
}

/// Ten to the `e`.
pub open spec fn pow10(e: nat) -> nat
    decreases e,
{
    if e == 0 {
        1
    } else {
        10 * pow10((e - 1) as nat)
    }
}

/// The number a run of digit bytes denotes, most significant first.
pub open spec fn dval(s: Seq<u8>) -> nat
    decreases s.len(),
{
    if s.len() == 0 {
        0
    } else {
        (s[0] - 48) as nat * pow10((s.len() - 1) as nat) + dval(s.skip(1))
    }
}

/// The digits of a number are digit bytes, and there is at least one.
pub proof fn lemma_digits_of_props(n: nat)
    ensures
        digits_of(n).len() >= 1,
        forall|k: int| 0 <= k < digits_of(n).len() ==> is_digit(#[trigger] digits_of(n)[k]),
    decreases n,
{
    if n >= 10 {
        lemma_digits_of_props(n / 10);
        assert forall|k: int| 0 <= k < digits_of(n).len() implies is_digit(
            #[trigger] digits_of(n)[k],
        ) by {
            if k < digits_of(n / 10).len() {
                assert(digits_of(n)[k] == digits_of(n / 10)[k]);
            }
        }
    }
}

/// Appending one digit multiplies the denoted value by ten and adds it.
pub proof fn lemma_dval_snoc(s: Seq<u8>, d: u8)
    ensures
        dval(s.push(d)) == dval(s) * 10 + (d - 48) as nat,
    decreases s.len(),
{
    if s.len() == 0 {
        assert(s.push(d).skip(1) =~= Seq::<u8>::empty());
        assert(dval(Seq::<u8>::empty()) == 0);
        assert(dval(s) == 0);
        assert(pow10(0) == 1);
        assert(dval(s.push(d)) == (d - 48) as nat * pow10(0) + dval(Seq::<u8>::empty()));
        assert((d - 48) as nat * 1 == (d - 48) as nat) by (nonlinear_arith);
    } else {
        assert(s.push(d).skip(1) =~= s.skip(1).push(d));
        lemma_dval_snoc(s.skip(1), d);
        let h = (s[0] - 48) as nat;
        let e = (s.len() - 1) as nat;
        assert(s.push(d)[0] == s[0]);
        assert(dval(s.push(d)) == h * pow10(s.len() as nat) + dval(s.skip(1).push(d)));
        assert(dval(s) == h * pow10(e) + dval(s.skip(1)));
        assert(pow10(s.len() as nat) == 10 * pow10(e));
        assert(h * (10 * pow10(e)) == (h * pow10(e)) * 10) by (nonlinear_arith);
        assert((h * pow10(e) + dval(s.skip(1))) * 10 == (h * pow10(e)) * 10 + dval(s.skip(1)) * 10)
            by (nonlinear_arith);
    }
}

/// The digits of `n` denote `n`.
pub proof fn lemma_digits_of_val(n: nat)
    ensures
        dval(digits_of(n)) == n,
    decreases n,
{
    if n < 10 {
        assert(digits_of(n) == seq![(48 + n) as u8]);
        assert(digits_of(n).skip(1) =~= Seq::<u8>::empty());
        assert(dval(Seq::<u8>::empty()) == 0);
        assert(pow10(0) == 1);
        assert((48 + n) as u8 == 48 + n);
        assert(dval(digits_of(n)) == ((48 + n) as u8 - 48) as nat * 1 + 0);
        assert(n * 1 == n);
    } else {
        lemma_digits_of_val(n / 10);
        assert(digits_of(n) =~= digits_of(n / 10).push((48 + (n % 10)) as u8));
        lemma_dval_snoc(digits_of(n / 10), (48 + (n % 10)) as u8);
        assert((n / 10) * 10 + n % 10 == n) by {
            vstd::arithmetic::div_mod::lemma_fundamental_div_mod(n as int, 10);
        }
    }
}

/// What the digit reader does across a maximal run of digit bytes.
pub proof fn lemma_p_digits_run(b: Seq<u8>, i: int, j: int, acc: nat)
    requires
        0 <= i <= j <= b.len(),
        forall|t: int| i <= t < j ==> is_digit(#[trigger] b[t]),
        j == b.len() || !is_digit(b[j]),
    ensures
        p_digits(b, i, acc) == (acc * pow10((j - i) as nat) + dval(b.subrange(i, j)), j),
    decreases j - i,
{
    if i == j {
        assert(b.subrange(i, j) =~= Seq::<u8>::empty());
        assert(acc * 1 == acc) by (nonlinear_arith);
    } else {
        assert(is_digit(b[i]));
        let d = (b[i] - 48) as nat;
        lemma_p_digits_run(b, i + 1, j, acc * 10 + d);
        let e = (j - i - 1) as nat;
        assert(b.subrange(i + 1, j) =~= b.subrange(i, j).skip(1));
        assert(b.subrange(i, j)[0] == b[i]);
        assert(dval(b.subrange(i, j)) == d * pow10(e) + dval(b.subrange(i + 1, j)));
        assert(pow10((j - i) as nat) == 10 * pow10(e));
        assert((acc * 10 + d) * pow10(e) == acc * (10 * pow10(e)) + d * pow10(e))
            by (nonlinear_arith);
    }
}

/// The whitespace reader runs exactly to the end of a whitespace run.
pub proof fn lemma_skip_ws_to(b: Seq<u8>, i: int, j: int)
    requires
        0 <= i <= j <= b.len(),
        forall|t: int| i <= t < j ==> is_ws(#[trigger] b[t]),
        j == b.len() || !is_ws(b[j]),
    ensures
        skip_ws(b, i) == j,
    decreases j - i,
{
    if i < j {
        assert(is_ws(b[i]));
        lemma_skip_ws_to(b, i + 1, j);
    }
}

/// Reading back the six-byte escape of a control byte yields that byte.
pub proof fn lemma_esc_control_reads_back(b: Seq<u8>, i: int, c: u8)
    requires
        c < 32,
        c != 10,
        c != 13,
        c != 9,
        0 <= i,
        i + 6 <= b.len(),
        b[i] == 92,
        b[i + 1] == 117,
        b[i + 2] == 48,
        b[i + 3] == 48,
        b[i + 4] == hex_digit((c / 16) as nat),
        b[i + 5] == hex_digit((c % 16) as nat),
    ensures
        p_string_rest(b, i) == prepend(seq![c], p_string_rest(b, i + 6)),
{
    assert(c / 16 < 2);
    assert(c % 16 < 16);
    assert(hex_val(b[i + 2]) == Some(0nat));
    assert(hex_val(b[i + 3]) == Some(0nat));
    assert(hex_val(b[i + 4]) == Some((c / 16) as nat));
    assert(hex_val(b[i + 5]) == Some((c % 16) as nat));
    let code = 0nat * 4096 + 0nat * 256 + (c / 16) as nat * 16 + (c % 16) as nat;
    assert((c / 16) * 16 + (c % 16) == c) by {
        vstd::arithmetic::div_mod::lemma_fundamental_div_mod(c as int, 16);
    }
    assert(code == c);
    assert(utf8_enc(code) == seq![c]);
    assert(p_string_rest(b, i) == prepend(utf8_enc(code), p_string_rest(b, i + 6)));
}

/// Reading back an emitted string body, closing quote included, yields the
/// original bytes and stops right after the quote.
#[verifier::rlimit(100)]
pub proof fn lemma_p_string_rest_emit(b: Seq<u8>, i: int, s: Seq<u8>)
    requires
        0 <= i,
        i + emit_string_body(s).len() + 1 <= b.len(),
        b.subrange(i, i + emit_string_body(s).len() + 1) == emit_string_body(s) + seq![34u8],
    ensures
        p_string_rest(b, i) == Some((s, i + emit_string_body(s).len() + 1)),
    decreases s.len(),
{
    let whole = emit_string_body(s) + seq![34u8];
    let n = emit_string_body(s).len() as int;
    assert forall|t: int| 0 <= t < n + 1 implies b[i + t] == whole[t] by {
        assert(b.subrange(i, i + n + 1)[t] == b[i + t]);
    }
    if s.len() == 0 {
        assert(emit_string_body(s) == Seq::<u8>::empty());
        assert(whole =~= seq![34u8]);
        assert(b.subrange(i, i + n + 1)[0] == b[i]);
        assert(b[i] == whole[0]);
        assert(b[i] == 34);
        assert(s =~= Seq::<u8>::empty());
    } else {
        let c = s[0];
        let e = esc(c);
        let rest = s.skip(1);
        let el = e.len() as int;
        assert(emit_string_body(s) == e + emit_string_body(rest));
        assert forall|t: int| 0 <= t < el implies b[i + t] == e[t] by {
            assert(whole[t] == (e + emit_string_body(rest))[t]);
        }
        let rl = emit_string_body(rest).len() as int;
        assert(whole.subrange(el, n + 1) =~= emit_string_body(rest) + seq![34u8]);
        assert forall|t: int| 0 <= t < rl + 1 implies #[trigger] b.subrange(
            i + el,
            i + el + rl + 1,
        )[t] == whole.subrange(el, n + 1)[t] by {
            assert(b.subrange(i + el, i + el + rl + 1)[t] == b[i + el + t]);
            assert(b[i + (el + t)] == whole[el + t]);
        }
        assert(b.subrange(i + el, i + el + rl + 1) =~= whole.subrange(el, n + 1));
        assert(b.subrange(i + el, i + el + rl + 1) == emit_string_body(rest) + seq![34u8]);
        lemma_p_string_rest_emit(b, i + el, rest);
        assert(seq![c] + rest =~= s);
        if c == 34 {
            assert(b[i] == 92 && b[i + 1] == 34);
            assert(p_string_rest(b, i) == prepend(seq![c], p_string_rest(b, i + 2)));
        } else if c == 92 {
            assert(b[i] == 92 && b[i + 1] == 92);
            assert(p_string_rest(b, i) == prepend(seq![c], p_string_rest(b, i + 2)));
        } else if c == 10 {
            assert(b[i] == 92 && b[i + 1] == 110);
            assert(p_string_rest(b, i) == prepend(seq![c], p_string_rest(b, i + 2)));
        } else if c == 13 {
            assert(b[i] == 92 && b[i + 1] == 114);
            assert(p_string_rest(b, i) == prepend(seq![c], p_string_rest(b, i + 2)));
        } else if c == 9 {
            assert(b[i] == 92 && b[i + 1] == 116);
            assert(p_string_rest(b, i) == prepend(seq![c], p_string_rest(b, i + 2)));
        } else if c < 32 {
            assert(b[i] == 92 && b[i + 1] == 117 && b[i + 2] == 48 && b[i + 3] == 48);
            assert(b[i + 4] == hex_digit((c / 16) as nat));
            assert(b[i + 5] == hex_digit((c % 16) as nat));
            lemma_esc_control_reads_back(b, i, c);
        } else {
            assert(b[i] == c);
            assert(b[i] != 34 && b[i] != 92 && !(b[i] < 32));
            assert(p_string_rest(b, i) == prepend(seq![c], p_string_rest(b, i + 1)));
        }
    }
}

/// Reading back an emitted plot object yields the original fragment and
/// stops right after its closing brace.
#[verifier::rlimit(100)]
pub proof fn lemma_p_plot_emit(b: Seq<u8>, i: int, f: FragV)
    requires
        0 <= i,
        i + emit_plot(f).len() <= b.len(),
        b.subrange(i, i + emit_plot(f).len()) == emit_plot(f),
        f.id <= usize::MAX as nat,
    ensures
        p_plot(b, i) == Some((f, i + emit_plot(f).len())),
{
    let ep = emit_plot(f);
    let pl = ep.len() as int;
    let d = digits_of(f.id);
    let dn = d.len() as int;
    let es = emit_string(f.text);
    let sl = es.len() as int;
    let body = emit_string_body(f.text);
    let bl = body.len() as int;
    lemma_digits_of_props(f.id);
    assert(pl == 19 + dn + 16 + sl + 6);
    assert forall|t: int| 0 <= t < pl implies b[i + t] == ep[t] by {
        assert(b.subrange(i, i + pl)[t] == b[i + t]);
    }
    // the five segments of the emitted plot
    assert forall|t: int| 0 <= t < 19 implies b[i + t] == lit_item_open()[t] by {
        assert(b[i + t] == ep[t]);
    }
    let an = i + 19 + dn;
    assert forall|t: int| 0 <= t < dn implies b[i + 19 + t] == d[t] by {
        assert(b[i + (19 + t)] == ep[19 + t]);
    }
    assert forall|t: int| 0 <= t < 16 implies b[an + t] == lit_item_mid()[t] by {
        assert(b[i + (19 + dn + t)] == ep[19 + dn + t]);
    }
    let s0 = an + 16;
    assert forall|t: int| 0 <= t < sl implies b[s0 + t] == es[t] by {
        assert(b[i + (19 + dn + 16 + t)] == ep[19 + dn + 16 + t]);
    }
    let bc = s0 + sl;
    assert forall|t: int| 0 <= t < 6 implies b[bc + t] == lit_item_close()[t] by {
        assert(b[i + (19 + dn + 16 + sl + t)] == ep[19 + dn + 16 + sl + t]);
    }
    // opening brace and the id key
    assert forall|t: int| i <= t < i + 5 implies is_ws(#[trigger] b[t]) by {
        assert(b[i + (t - i)] == lit_item_open()[t - i]);
    }
    assert(b[i + 5] == 123 && !is_ws(b[i + 5]));
    lemma_skip_ws_to(b, i, i + 5);
    assert(at_byte(b, i + 5, 123));
    assert forall|t: int| i + 6 <= t < i + 13 implies is_ws(#[trigger] b[t]) by {
        assert(b[i + (t - i)] == lit_item_open()[t - i]);
    }
    assert(b[i + 13] == 34 && !is_ws(b[i + 13]));
    lemma_skip_ws_to(b, i + 6, i + 13);
    assert(b.subrange(i + 13, i + 17) =~= key_id());
    assert(matches_at(b, key_id(), i + 13));
    assert(b[i + 17] == 58 && !is_ws(b[i + 17]));
    assert(skip_ws(b, i + 17) == i + 17);
    assert(at_byte(b, i + 17, 58));
    assert(b[i + 18] == 32);
    assert(b[i + 19 + 0] == d[0]);
    assert(b[i + 19] == d[0] && is_digit(b[i + 19]));
    lemma_skip_ws_to(b, i + 18, i + 19);
    // the id value
    assert forall|t: int| i + 19 <= t < i + 19 + dn implies is_digit(#[trigger] b[t]) by {
        assert(b[i + 19 + (t - i - 19)] == d[t - i - 19]);
    }
    assert(b[an] == 44 && !is_digit(b[an]) && !is_ws(b[an]));
    lemma_p_digits_run(b, i + 19, an, 0);
    lemma_digits_of_val(f.id);
    assert(b.subrange(i + 19, an) =~= d);
    assert(0nat * pow10(dn as nat) == 0) by (nonlinear_arith);
    assert(p_number(b, i + 19) == Some((f.id, an)));
    // comma and the text key
    assert(skip_ws(b, an) == an);
    assert(at_byte(b, an, 44));
    assert forall|t: int| an + 1 <= t < an + 8 implies is_ws(#[trigger] b[t]) by {
        assert(b[an + (t - an)] == lit_item_mid()[t - an]);
    }
    assert(b[an + 8] == 34 && !is_ws(b[an + 8]));
    lemma_skip_ws_to(b, an + 1, an + 8);
    assert(b.subrange(an + 8, an + 14) =~= key_text());
    assert(matches_at(b, key_text(), an + 8));
    assert(b[an + 14] == 58 && !is_ws(b[an + 14]));
    assert(skip_ws(b, an + 14) == an + 14);
    assert(at_byte(b, an + 14, 58));
    assert(b[an + 15] == 32);
    assert(b[s0 + 0] == es[0]);
    assert(es[0] == 34);
    assert(b[s0] == 34 && !is_ws(b[s0]));
    lemma_skip_ws_to(b, an + 15, s0);
    // the text value
    assert(at_byte(b, s0, 34));
    assert forall|t: int| 0 <= t < bl + 1 implies #[trigger] b.subrange(
        s0 + 1,
        s0 + 1 + bl + 1,
    )[t] == (body + seq![34u8])[t] by {
        assert(b.subrange(s0 + 1, s0 + 1 + bl + 1)[t] == b[s0 + (1 + t)]);
        assert(b[s0 + (1 + t)] == es[1 + t]);
    }
    assert(b.subrange(s0 + 1, s0 + 1 + bl + 1) =~= body + seq![34u8]);
    lemma_p_string_rest_emit(b, s0 + 1, f.text);
    assert(p_string(b, s0) == Some((f.text, bc)));
    // closing brace
    assert forall|t: int| bc <= t < bc + 5 implies is_ws(#[trigger] b[t]) by {
        assert(b[bc + (t - bc)] == lit_item_close()[t - bc]);
    }
    assert(b[bc + 5] == 125 && !is_ws(b[bc + 5]));
    lemma_skip_ws_to(b, bc, bc + 5);
    assert(at_byte(b, bc + 5, 125));
    assert((FragV { id: f.id, text: f.text }) == f);
    assert(p_plot(b, i) == Some((f, bc + 6)));
}

/// The emitted plots decompose from the left: the first plot, then a comma
/// and the rest.
pub proof fn lemma_emit_plots_left(plots: Seq<FragV>)
    requires
        plots.len() >= 1,
    ensures
        emit_plots(plots) == (if plots.len() == 1 {
            emit_plot(plots[0])
        } else {
            emit_plot(plots[0]) + seq![44u8] + emit_plots(plots.skip(1))
        }),
    decreases plots.len(),
{
    if plots.len() == 1 {
    } else if plots.len() == 2 {
        assert(plots.drop_last()[0] == plots[0]);
        assert(plots.skip(1)[0] == plots[1]);
        assert(plots.drop_last().len() == 1);
        assert(plots.skip(1).len() == 1);
        assert(emit_plots(plots) == emit_plots(plots.drop_last()) + seq![44u8] + emit_plot(
            plots.last(),
        ));
        assert(emit_plots(plots.drop_last()) == emit_plot(plots[0]));
        assert(emit_plots(plots.skip(1)) == emit_plot(plots[1]));
        assert(plots.last() == plots[1]);
    } else {
        lemma_emit_plots_left(plots.drop_last());
        assert(plots.drop_last()[0] == plots[0]);
        assert(plots.drop_last().skip(1) =~= plots.skip(1).drop_last());
        assert(plots.skip(1).last() == plots.last());
        assert(plots.skip(1).len() >= 2);
        assert(emit_plots(plots) == emit_plots(plots.drop_last()) + seq![44u8] + emit_plot(
            plots.last(),
        ));
        assert(emit_plots(plots.drop_last()) == emit_plot(plots[0]) + seq![44u8] + emit_plots(
            plots.skip(1).drop_last(),
        ));
        assert(emit_plots(plots.skip(1)) == emit_plots(plots.skip(1).drop_last()) + seq![44u8]
            + emit_plot(plots.skip(1).last()));
        assert((emit_plot(plots[0]) + seq![44u8] + emit_plots(plots.skip(1).drop_last()))
            + seq![44u8] + emit_plot(plots.last()) =~= emit_plot(plots[0]) + seq![44u8] + (
        emit_plots(plots.skip(1).drop_last()) + seq![44u8] + emit_plot(plots.skip(1).last())));
    }
}

/// Reading back emitted plots members yields the original fragments and
/// stops right after the closing bracket that follows them.
#[verifier::rlimit(100)]
pub proof fn lemma_p_plots_items_emit(b: Seq<u8>, i: int, plots: Seq<FragV>, k: int)
    requires
        plots.len() >= 1,
        forall|t: int| 0 <= t < plots.len() ==> #[trigger] plots[t].id <= usize::MAX as nat,
        0 <= i,
        i + emit_plots(plots).len() <= b.len(),
        b.subrange(i, i + emit_plots(plots).len()) == emit_plots(plots),
        skip_ws(b, i + emit_plots(plots).len()) == k,
        at_byte(b, k, 93),
        i + emit_plots(plots).len() <= k,
    ensures
        p_plots_items(b, i) == Some((plots, k + 1)),
    decreases plots.len(),
{
    lemma_emit_plots_left(plots);
    let f = plots[0];
    let ep = emit_plot(f);
    let pl = ep.len() as int;
    let al = emit_plots(plots).len() as int;
    let j = i + al;
    lemma_digits_of_props(f.id);
    assert(pl >= 1);
    assert forall|t: int| 0 <= t < al implies b[i + t] == emit_plots(plots)[t] by {
        assert(b.subrange(i, j)[t] == b[i + t]);
    }
    assert forall|t: int| 0 <= t < pl implies #[trigger] b.subrange(i, i + pl)[t] == ep[t] by {
        assert(b.subrange(i, i + pl)[t] == b[i + t]);
    }
    assert(b.subrange(i, i + pl) =~= ep);
    lemma_p_plot_emit(b, i, f);
    if plots.len() == 1 {
        assert(p_plot(b, i) == Some((f, j)));
        assert(b[k] == 93);
        assert(!at_byte(b, k, 44));
        assert(seq![f] =~= plots);
        assert(p_plots_items(b, i) == Some((plots, k + 1)));
    } else {
        assert(p_plot(b, i) == Some((f, i + pl)));
        assert(b[i + pl] == emit_plots(plots)[pl]);
        assert(emit_plots(plots)[pl] == 44);
        assert(!is_ws(b[i + pl]));
        assert(skip_ws(b, i + pl) == i + pl);
        assert(at_byte(b, i + pl, 44));
        let i2 = i + pl + 1;
        let rest = plots.skip(1);
        let rl = emit_plots(rest).len() as int;
        assert(al == pl + 1 + rl);
        assert forall|t: int| 0 <= t < rl implies #[trigger] b.subrange(
            i2,
            i2 + rl,
        )[t] == emit_plots(rest)[t] by {
            assert(b.subrange(i2, i2 + rl)[t] == b[i2 + t]);
            assert(b[i + (pl + 1 + t)] == emit_plots(plots)[pl + 1 + t]);
        }
        assert(b.subrange(i2, i2 + rl) =~= emit_plots(rest));
        assert forall|t: int| 0 <= t < rest.len() implies #[trigger] rest[t].id
            <= usize::MAX as nat by {
            assert(rest[t] == plots[t + 1]);
        }
        lemma_p_plots_items_emit(b, i2, rest, k);
        assert(seq![f] + rest =~= plots);
        assert(p_plots_items(b, i) == Some((plots, k + 1)));
    }
}

/// Where each piece of an emitted document stands among its bytes.
pub proof fn lemma_emit_doc_layout(plots: Seq<FragV>, composed: Seq<u8>)
    ensures
        emit_doc(plots, composed).len() == 14 + emit_plots(plots).len() + 25 + emit_string(
            composed,
        ).len() + 2,
        forall|t: int| 0 <= t < 14 ==> #[trigger] emit_doc(plots, composed)[t] == lit_head()[t],
        forall|t: int|
            0 <= t < emit_plots(plots).len() ==> #[trigger] emit_doc(plots, composed)[14 + t]
                == emit_plots(plots)[t],
        forall|t: int|
            0 <= t < 25 ==> #[trigger] emit_doc(plots, composed)[14 + emit_plots(plots).len() + t]
                == lit_tail()[t],
        forall|t: int|
            0 <= t < emit_string(composed).len() ==> #[trigger] emit_doc(plots, composed)[14
                + emit_plots(plots).len() + 25 + t] == emit_string(composed)[t],
        forall|t: int|
            0 <= t < 2 ==> #[trigger] emit_doc(plots, composed)[14 + emit_plots(plots).len() + 25
                + emit_string(composed).len() + t] == lit_end()[t],
{
}

/// Every piece of an emitted document standing where the layout puts it.
pub open spec fn doc_layout(b: Seq<u8>, plots: Seq<FragV>, composed: Seq<u8>) -> bool {
    &&& b.len() == 14 + emit_plots(plots).len() + 25 + emit_string(composed).len() + 2
    &&& (forall|t: int| 0 <= t < 14 ==> #[trigger] b[t] == lit_head()[t])
    &&& (forall|t: int|
        0 <= t < emit_plots(plots).len() ==> #[trigger] b[14 + t] == emit_plots(plots)[t])
    &&& (forall|t: int|
        0 <= t < 25 ==> #[trigger] b[14 + emit_plots(plots).len() + t] == lit_tail()[t])
    &&& (forall|t: int|
        0 <= t < emit_string(composed).len() ==> #[trigger] b[14 + emit_plots(plots).len() + 25
            + t] == emit_string(composed)[t])
    &&& (forall|t: int|
        0 <= t < 2 ==> #[trigger] b[14 + emit_plots(plots).len() + 25 + emit_string(
            composed,
        ).len() + t] == lit_end()[t])
}

/// The reader's path through the head of a laid-out document, up to and
/// including the plots array.
#[verifier::rlimit(100)]
pub proof fn lemma_layout_head(b: Seq<u8>, plots: Seq<FragV>, composed: Seq<u8>)
    requires
        plots.len() >= 1,
        forall|t: int| 0 <= t < plots.len() ==> #[trigger] plots[t].id <= usize::MAX as nat,
        doc_layout(b, plots, composed),
    ensures
        skip_ws(b, 0) == 0,
        at_byte(b, 0, 123),
        skip_ws(b, 1) == 4,
        matches_at(b, key_plots(), 4),
        skip_ws(b, 11) == 11,
        at_byte(b, 11, 58),
        skip_ws(b, 12) == 13,
        at_byte(b, 13, 91),
        skip_ws(b, 14) == 19,
        !at_byte(b, 19, 93),
        p_plots_items(b, 14) == Some((plots, 14 + emit_plots(plots).len() + 4int)),
{
    let ps = emit_plots(plots);
    let pl = ps.len() as int;
    let j = 14 + pl;
    assert(b[0] == 123 && !is_ws(b[0]));
    assert(skip_ws(b, 0) == 0);
    assert(is_ws(b[1]) && is_ws(b[2]) && is_ws(b[3]));
    assert(b[4] == 34 && !is_ws(b[4]));
    lemma_skip_ws_to(b, 1, 4);
    assert(b.subrange(4, 11) =~= key_plots());
    assert(matches_at(b, key_plots(), 4));
    assert(b[11] == 58 && !is_ws(b[11]));
    assert(skip_ws(b, 11) == 11);
    assert(is_ws(b[12]));
    assert(b[13] == 91 && !is_ws(b[13]));
    lemma_skip_ws_to(b, 12, 13);
    lemma_emit_plots_left(plots);
    lemma_digits_of_props(plots[0].id);
    assert forall|t: int| 0 <= t < 6 implies ps[t] == lit_item_open()[t] by {
        assert(ps[t] == emit_plot(plots[0])[t]);
    }
    assert forall|t: int| 14 <= t < 19 implies is_ws(#[trigger] b[t]) by {
        assert(b[14 + (t - 14)] == ps[t - 14]);
        assert(ps[t - 14] == lit_item_open()[t - 14]);
    }
    assert(b[14int + 5] == ps[5] && ps[5] == lit_item_open()[5]);
    assert(b[19] == 123 && !is_ws(b[19]));
    lemma_skip_ws_to(b, 14, 19);
    assert(!at_byte(b, 19, 93));
    assert forall|t: int| 0 <= t < pl implies #[trigger] b.subrange(14, j)[t] == ps[t] by {
        assert(b.subrange(14, j)[t] == b[14 + t]);
    }
    assert(b.subrange(14, j) =~= ps);
    assert(is_ws(b[j + 0]) && is_ws(b[j + 1]) && is_ws(b[j + 2]));
    assert(b[j + 3] == 93 && !is_ws(b[j + 3]));
    assert forall|t: int| j <= t < j + 3 implies is_ws(#[trigger] b[t]) by {
        assert(b[j + (t - j)] == lit_tail()[t - j]);
    }
    lemma_skip_ws_to(b, j, j + 3);
    assert(at_byte(b, j + 3, 93));
    lemma_p_plots_items_emit(b, 14, plots, j + 3);
}

/// The reader's path through the tail of a laid-out document, from the
/// comma after the plots array to the end of the bytes.
#[verifier::rlimit(100)]
pub proof fn lemma_layout_tail(b: Seq<u8>, plots: Seq<FragV>, composed: Seq<u8>)
    requires
        doc_layout(b, plots, composed),
    ensures
        skip_ws(b, 14 + emit_plots(plots).len() + 4int) == 14 + emit_plots(plots).len() + 4,
        at_byte(b, 14 + emit_plots(plots).len() + 4int, 44),
        skip_ws(b, 14 + emit_plots(plots).len() + 5int) == 14 + emit_plots(plots).len() + 8,
        matches_at(b, key_composed(), 14 + emit_plots(plots).len() + 8int),
        skip_ws(b, 14 + emit_plots(plots).len() + 23int) == 14 + emit_plots(plots).len() + 23,
        at_byte(b, 14 + emit_plots(plots).len() + 23int, 58),
        skip_ws(b, 14 + emit_plots(plots).len() + 24int) == 14 + emit_plots(plots).len() + 25,
        p_string(b, 14 + emit_plots(plots).len() + 25int) == Some(
            (composed, 14 + emit_plots(plots).len() + 25 + emit_string(composed).len() as int),
        ),
        skip_ws(b, 14 + emit_plots(plots).len() + 25 + emit_string(composed).len() as int) == 14
            + emit_plots(plots).len() + 25 + emit_string(composed).len() + 1,
        at_byte(b, 14 + emit_plots(plots).len() + 25 + emit_string(composed).len() + 1int, 125),
        skip_ws(b, 14 + emit_plots(plots).len() + 25 + emit_string(composed).len() + 2int)
            == b.len(),
{
    let ps = emit_plots(plots);
    let pl = ps.len() as int;
    let es = emit_string(composed);
    let sl = es.len() as int;
    let body = emit_string_body(composed);
    let bl = body.len() as int;
    let j = 14 + pl;
    let y = j + 25 + sl;
    let n = b.len() as int;
    assert(n == y + 2);
    assert forall|t: int| 0 <= t < 25 implies b[j + t] == lit_tail()[t] by {
        assert(b[14 + pl + t] == lit_tail()[t]);
    }
    assert forall|t: int| 0 <= t < sl implies b[j + 25 + t] == es[t] by {
        assert(b[14 + pl + 25 + t] == es[t]);
    }
    assert(b[14 + pl + 25 + sl + 0] == lit_end()[0]);
    assert(b[14 + pl + 25 + sl + 1] == lit_end()[1]);
    assert(b[y + 0] == lit_end()[0]);
    assert(b[y + 1] == lit_end()[1]);
    assert(b[j + 4] == 44 && !is_ws(b[j + 4]));
    assert(skip_ws(b, j + 4) == j + 4);
    assert(is_ws(b[j + 5]) && is_ws(b[j + 6]) && is_ws(b[j + 7]));
    assert(b[j + 8] == 34 && !is_ws(b[j + 8]));
    assert forall|t: int| j + 5 <= t < j + 8 implies is_ws(#[trigger] b[t]) by {
        assert(b[j + (t - j)] == lit_tail()[t - j]);
    }
    lemma_skip_ws_to(b, j + 5, j + 8);
    assert forall|t: int| 0 <= t < 15 implies #[trigger] b.subrange(j + 8, j + 23)[t]
        == key_composed()[t] by {
        assert(b.subrange(j + 8, j + 23)[t] == b[j + (8 + t)]);
        assert(b[j + (8 + t)] == lit_tail()[8 + t]);
    }
    assert(b.subrange(j + 8, j + 23) =~= key_composed());
    assert(matches_at(b, key_composed(), j + 8));
    assert(b[j + 23] == 58 && !is_ws(b[j + 23]));
    assert(skip_ws(b, j + 23) == j + 23);
    assert(is_ws(b[j + 24]));
    assert(b[j + 25 + 0] == es[0]);
    assert(es[0] == 34);
    assert(b[j + 25] == 34 && !is_ws(b[j + 25]));
    lemma_skip_ws_to(b, j + 24, j + 25);
    assert(at_byte(b, j + 25, 34));
    assert forall|t: int| 0 <= t < bl + 1 implies #[trigger] b.subrange(
        j + 26,
        j + 26 + bl + 1,
    )[t] == (body + seq![34u8])[t] by {
        assert(b.subrange(j + 26, j + 26 + bl + 1)[t] == b[j + 25 + (1 + t)]);
        assert(b[j + 25 + (1 + t)] == es[1 + t]);
    }
    assert(b.subrange(j + 26, j + 26 + bl + 1) =~= body + seq![34u8]);
    lemma_p_string_rest_emit(b, j + 26, composed);
    assert(p_string(b, j + 25) == Some((composed, y)));
    assert(b[y] == 10 && is_ws(b[y]));
    assert(b[y + 1] == 125 && !is_ws(b[y + 1]));
    lemma_skip_ws_to(b, y, y + 1);
    assert(at_byte(b, y + 1, 125));
    assert(skip_ws(b, y + 2) == n);
}

/// Reading back any byte sequence laid out as an emitted document yields the
/// document that was written.
pub proof fn lemma_p_doc_of_layout(b: Seq<u8>, plots: Seq<FragV>, composed: Seq<u8>)
    requires
        plots.len() >= 1,
        forall|t: int| 0 <= t < plots.len() ==> #[trigger] plots[t].id <= usize::MAX as nat,
        doc_layout(b, plots, composed),
    ensures
        p_doc(b) == Some((plots, composed)),
{
    lemma_layout_head(b, plots, composed);
    lemma_layout_tail(b, plots, composed);
    assert(key_plots().len() == 7);
    assert(key_composed().len() == 15);
    assert(p_doc(b) == Some((plots, composed)));
}

/// The round-trip law: reading back a written document yields exactly the
/// fragments and composed text that were written, for every document whose
/// ids are machine-representable.
pub proof fn lemma_parse_emit_round_trip(plots: Seq<FragV>, composed: Seq<u8>)
    requires
        plots.len() >= 1,
        forall|t: int| 0 <= t < plots.len() ==> #[trigger] plots[t].id <= usize::MAX as nat,
    ensures
        p_doc(emit_doc(plots, composed)) == Some((plots, composed)),
{
    lemma_emit_doc_layout(plots, composed);
    assert(doc_layout(emit_doc(plots, composed), plots, composed));
    lemma_p_doc_of_layout(emit_doc(plots, composed), plots, composed);
}

} // verus!
