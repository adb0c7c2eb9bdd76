//! The token grammar, stated as mathematical functions over byte sequences.
//!
//! Each production maps a byte sequence and a start position to a [`Step`]:
//! either the parsed value together with the position just past it, or
//! [`Step::More`] when the bytes run out in a place where further input could
//! still complete the production, or [`Step::Fail`] when no continuation of
//! the bytes can complete it.  The `More`/`Fail` distinction is what makes
//! the tokenizer restartable on partial input.

use crate::token::{qname_of_bytes, AttrView, QNameView, TokenView};
use vstd::prelude::*;
use vstd::utf8::{decode_utf8, is_scalar, valid_utf8};

verus! {

/// Outcome of one production: a value with the position after it, a request
/// for more bytes, or a hard mismatch.
pub ghost enum Step<T> {
    Done { next: int, val: T },
    More,
    Fail,
}

/// What ends a scan, per production.
#[derive(Clone, Copy, Debug)]
pub enum Halt {
    /// A text run: stops at the terminator byte or at `&`.
    Run(u8),
    /// An element name: stops at whitespace, `>` or `/`.
    ElemName,
    /// An end-tag name: stops at whitespace or `>`.
    EndName,
    /// An attribute name: stops at whitespace, `=`, `/` or `>`.
    AttrName,
    /// Whitespace skipping: stops at the first non-space byte.
    NonSpace,
    /// A decimal digit run: stops at the first non-digit.
    NonDigit,
    /// A hexadecimal digit run: stops at the first non-hex-digit.
    NonHex,
}

/// The bytes the grammar treats as whitespace inside tags.
pub open spec fn is_space_byte(b: u8) -> bool {
    b == 0x20 || b == 0x09
}

pub open spec fn is_digit_byte(b: u8) -> bool {
    0x30 <= b <= 0x39
}

pub open spec fn is_hex_byte(b: u8) -> bool {
    is_digit_byte(b) || (0x41 <= b <= 0x46) || (0x61 <= b <= 0x66)
}

pub open spec fn is_halt(h: Halt, b: u8) -> bool {
    match h {
        Halt::Run(u) => b == u || b == 0x26,
        Halt::ElemName => is_space_byte(b) || b == 0x3e || b == 0x2f,
        Halt::EndName => is_space_byte(b) || b == 0x3e,
        Halt::AttrName => is_space_byte(b) || b == 0x3d || b == 0x2f || b == 0x3e,
        Halt::NonSpace => !is_space_byte(b),
        Halt::NonDigit => !is_digit_byte(b),
        Halt::NonHex => !is_hex_byte(b),
    }
}

/// First position at or after `i` whose byte halts the scan, or the length.
pub open spec fn seek(s: Seq<u8>, h: Halt, i: int) -> int
    decreases s.len() - i,
{
    if i < 0 || i >= s.len() {
        s.len() as int
    } else if is_halt(h, s[i]) {
        i
    } else {
        seek(s, h, i + 1)
    }
}

pub proof fn lemma_seek(s: Seq<u8>, h: Halt, i: int)
    requires
        0 <= i <= s.len(),
    ensures
        i <= seek(s, h, i) <= s.len(),
        forall|k: int| i <= k < seek(s, h, i) ==> !is_halt(h, s[k]),
        seek(s, h, i) < s.len() ==> is_halt(h, s[seek(s, h, i)]),
    decreases s.len() - i,
{
    if i < s.len() && !is_halt(h, s[i]) {
        lemma_seek(s, h, i + 1);
    }
}

/// A scan that halted inside the bytes is unaffected by appending more.
pub proof fn lemma_seek_stable(s: Seq<u8>, t: Seq<u8>, h: Halt, i: int)
    requires
        0 <= i <= s.len(),
        seek(s, h, i) < s.len(),
    ensures
        seek(s + t, h, i) == seek(s, h, i),
    decreases s.len() - i,
{
    assert((s + t)[i] == s[i]);
    if i < s.len() && !is_halt(h, s[i]) {
        lemma_seek_stable(s, t, h, i + 1);
    }
}

/// Matches the literal `lit` at position `i`.
pub open spec fn match_lit(s: Seq<u8>, i: int, lit: Seq<u8>) -> Step<()>
    decreases lit.len(),
{
    if lit.len() == 0 {
        Step::Done { next: i, val: () }
    } else if i < 0 || i >= s.len() {
        Step::More
    } else if s[i] == lit[0] {
        match_lit(s, i + 1, lit.drop_first())
    } else {
        Step::Fail
    }
}

pub proof fn lemma_match_lit(s: Seq<u8>, i: int, lit: Seq<u8>)
    requires
        0 <= i <= s.len(),
    ensures
        match_lit(s, i, lit) matches Step::Done { next, .. } ==> next == i + lit.len() && next
            <= s.len(),
    decreases lit.len(),
{
    if lit.len() > 0 && i < s.len() && s[i] == lit[0] {
        lemma_match_lit(s, i + 1, lit.drop_first());
    }
}

pub proof fn lemma_match_lit_stable(s: Seq<u8>, t: Seq<u8>, i: int, lit: Seq<u8>)
    requires
        0 <= i <= s.len(),
        !(match_lit(s, i, lit) is More),
    ensures
        match_lit(s + t, i, lit) == match_lit(s, i, lit),
    decreases lit.len(),
{
    if lit.len() > 0 && i < s.len() {
        assert((s + t)[i] == s[i]);
        if s[i] == lit[0] {
            lemma_match_lit_stable(s, t, i + 1, lit.drop_first());
        }
    }
}

/// Value of a run of decimal digit bytes, most significant first.
pub open spec fn digits_value(s: Seq<u8>) -> int
    decreases s.len(),
{
    if s.len() == 0 {
        0
    } else {
        digits_value(s.drop_last()) * 10 + (s.last() - 0x30)
    }
}

/// Value of a run of hexadecimal digit bytes, most significant first.
pub open spec fn hex_digit_value(b: u8) -> int {
    if is_digit_byte(b) {
        b - 0x30
    } else if 0x41 <= b <= 0x46 {
        b - 0x41 + 10
    } else {
        b - 0x61 + 10
    }
}

pub open spec fn hex_value(s: Seq<u8>) -> int
    decreases s.len(),
{
    if s.len() == 0 {
        0
    } else {
        hex_value(s.drop_last()) * 16 + hex_digit_value(s.last())
    }
}

/// The characters a numeric reference produces: the scalar itself, or
/// nothing when the value is not a Unicode scalar.
pub open spec fn scalar_chars(v: u32) -> Seq<char> {
    if is_scalar(v) {
        seq![v as char]
    } else {
        Seq::empty()
    }
}

pub open spec fn lit_cdata_open() -> Seq<u8> {
    // "![CDATA["
    seq![0x21u8, 0x5b, 0x43, 0x44, 0x41, 0x54, 0x41, 0x5b]
}

pub open spec fn lit_slash() -> Seq<u8> {
    seq![0x2fu8]
}

pub open spec fn lit_amp() -> Seq<u8> {
    // "amp"
    seq![0x61u8, 0x6d, 0x70]
}

pub open spec fn lit_lt() -> Seq<u8> {
    // "lt"
    seq![0x6cu8, 0x74]
}

pub open spec fn lit_gt() -> Seq<u8> {
    // "gt"
    seq![0x67u8, 0x74]
}

pub open spec fn lit_quot() -> Seq<u8> {
    // "quot"
    seq![0x71u8, 0x75, 0x6f, 0x74]
}

pub open spec fn lit_apos() -> Seq<u8> {
    // "apos"
    seq![0x61u8, 0x70, 0x6f, 0x73]
}

/// One branch of a named entity: its name matched at `i` and followed by
/// `;` yields the character; a mismatch falls through to `otherwise`.
pub open spec fn named_branch(
    s: Seq<u8>,
    i: int,
    lit: Seq<u8>,
    c: char,
    otherwise: Step<Seq<char>>,
) -> Step<Seq<char>> {
    match match_lit(s, i, lit) {
        Step::Done { next, .. } => if next >= s.len() {
            Step::More
        } else if s[next] == 0x3b {
            Step::Done { next: next + 1, val: seq![c] }
        } else {
            Step::Fail
        },
        Step::More => Step::More,
        Step::Fail => otherwise,
    }
}

/// A named entity reference after the `&` at `i`: one of the five
/// predefined names, tried in order; anything else is a hard error.
pub open spec fn entity_named(s: Seq<u8>, i: int) -> Step<Seq<char>> {
    named_branch(
        s,
        i + 1,
        lit_amp(),
        '&',
        named_branch(
            s,
            i + 1,
            lit_lt(),
            '<',
            named_branch(
                s,
                i + 1,
                lit_gt(),
                '>',
                named_branch(
                    s,
                    i + 1,
                    lit_quot(),
                    '"',
                    named_branch(s, i + 1, lit_apos(), '\'', Step::Fail),
                ),
            ),
        ),
    )
}

/// A decimal character reference `&#N;` whose `&#` stands at `i`.  A value
/// that does not fit in 32 bits is a hard error; a value that fits but is
/// not a scalar produces no characters.
pub open spec fn entity_dec(s: Seq<u8>, i: int) -> Step<Seq<char>> {
    let j = seek(s, Halt::NonDigit, i + 2);
    if j >= s.len() {
        Step::More
    } else if j == i + 2 {
        Step::Fail
    } else if s[j] != 0x3b {
        Step::Fail
    } else if digits_value(s.subrange(i + 2, j)) > 0xffffffff {
        Step::Fail
    } else {
        Step::Done { next: j + 1, val: scalar_chars(digits_value(s.subrange(i + 2, j)) as u32) }
    }
}

/// A hexadecimal character reference `&#xH;` whose `&#x` stands at `i`.
/// More than eight digits are a hard error.
pub open spec fn entity_hex(s: Seq<u8>, i: int) -> Step<Seq<char>> {
    let j = seek(s, Halt::NonHex, i + 3);
    if j >= s.len() {
        Step::More
    } else if j == i + 3 {
        Step::Fail
    } else if s[j] != 0x3b {
        Step::Fail
    } else if j - (i + 3) > 8 {
        Step::Fail
    } else {
        Step::Done { next: j + 1, val: scalar_chars(hex_value(s.subrange(i + 3, j)) as u32) }
    }
}

/// An entity reference whose `&` stands at `i`.
pub open spec fn entity(s: Seq<u8>, i: int) -> Step<Seq<char>>
    recommends
        0 <= i < s.len(),
        s[i] == 0x26,
{
    if i + 1 >= s.len() {
        Step::More
    } else if s[i + 1] == 0x23 {
        if i + 2 >= s.len() {
            Step::More
        } else if s[i + 2] == 0x78 {
            entity_hex(s, i)
        } else {
            entity_dec(s, i)
        }
    } else {
        entity_named(s, i)
    }
}

pub proof fn lemma_entity_bounds(s: Seq<u8>, i: int)
    requires
        0 <= i < s.len(),
    ensures
        entity(s, i) matches Step::Done { next, .. } ==> i + 1 < next <= s.len(),
{
    if i + 1 < s.len() && s[i + 1] == 0x23 {
        if i + 2 < s.len() {
            if s[i + 2] == 0x78 {
                lemma_seek(s, Halt::NonHex, i + 3);
            } else {
                lemma_seek(s, Halt::NonDigit, i + 2);
            }
        }
    } else if i + 1 < s.len() {
        lemma_match_lit(s, i + 1, lit_amp());
        lemma_match_lit(s, i + 1, lit_lt());
        lemma_match_lit(s, i + 1, lit_gt());
        lemma_match_lit(s, i + 1, lit_quot());
        lemma_match_lit(s, i + 1, lit_apos());
    }
}

/// The text production: a run of raw bytes and entity references, ended by
/// an unconsumed `until` byte.  The terminator must be seen before the
/// production completes; raw runs must be valid UTF-8.
pub open spec fn text(s: Seq<u8>, i: int, until: u8, acc: Seq<char>) -> Step<Seq<char>>
    recommends
        0 <= i <= s.len(),
    decreases s.len() - i,
    via text_decreases
{
    if i < 0 || i >= s.len() {
        Step::More
    } else if s[i] == until {
        Step::Done { next: i, val: acc }
    } else if s[i] == 0x26 {
        match entity(s, i) {
            Step::Done { next, val } => text(s, next, until, acc + val),
            Step::More => Step::More,
            Step::Fail => Step::Fail,
        }
    } else {
        let j = seek(s, Halt::Run(until), i);
        if j >= s.len() {
            Step::More
        } else if valid_utf8(s.subrange(i, j)) {
            text(s, j, until, acc + decode_utf8(s.subrange(i, j)))
        } else {
            Step::Fail
        }
    }
}

#[via_fn]
proof fn text_decreases(s: Seq<u8>, i: int, until: u8, acc: Seq<char>) {
    if 0 <= i < s.len() && s[i] != until {
        if s[i] == 0x26 {
            lemma_entity_bounds(s, i);
        } else {
            lemma_seek(s, Halt::Run(until), i + 1);
        }
    }
}

pub proof fn lemma_text_bounds(s: Seq<u8>, i: int, until: u8, acc: Seq<char>)
    requires
        0 <= i <= s.len(),
    ensures
        text(s, i, until, acc) matches Step::Done { next, .. } ==> i <= next < s.len() && s[next]
            == until,
    decreases s.len() - i,
{
    if 0 <= i < s.len() && s[i] != until {
        if s[i] == 0x26 {
            lemma_entity_bounds(s, i);
            if let Step::Done { next, val } = entity(s, i) {
                lemma_text_bounds(s, next, until, acc + val);
            }
        } else {
            let j = seek(s, Halt::Run(until), i);
            lemma_seek(s, Halt::Run(until), i + 1);
            if j < s.len() && valid_utf8(s.subrange(i, j)) {
                lemma_text_bounds(s, j, until, acc + decode_utf8(s.subrange(i, j)));
            }
        }
    }
}

/// First position at or after `i` where `]]>` begins, or -1.
pub open spec fn find_cdata_end(s: Seq<u8>, i: int) -> int
    decreases s.len() - i,
{
    if i < 0 || i + 3 > s.len() {
        -1
    } else if s[i] == 0x5d && s[i + 1] == 0x5d && s[i + 2] == 0x3e {
        i
    } else {
        find_cdata_end(s, i + 1)
    }
}

pub proof fn lemma_find_cdata_end(s: Seq<u8>, i: int)
    requires
        0 <= i,
    ensures
        find_cdata_end(s, i) >= 0 ==> i <= find_cdata_end(s, i) && find_cdata_end(s, i) + 3
            <= s.len(),
    decreases s.len() - i,
{
    if i + 3 <= s.len() && !(s[i] == 0x5d && s[i + 1] == 0x5d && s[i + 2] == 0x3e) {
        lemma_find_cdata_end(s, i + 1);
    }
}

/// A CDATA section whose payload starts at `i` (just after `<![CDATA[`).
/// The payload runs to the first `]]>` and is delivered verbatim.
pub open spec fn cdata(s: Seq<u8>, i: int) -> Step<TokenView> {
    let e = find_cdata_end(s, i);
    if e < 0 {
        Step::More
    } else if valid_utf8(s.subrange(i, e)) {
        Step::Done { next: e + 3, val: TokenView::Text { text: decode_utf8(s.subrange(i, e)) } }
    } else {
        Step::Fail
    }
}

/// An end tag whose name starts after `</`, at or after `i`.
pub open spec fn end_tag(s: Seq<u8>, i: int) -> Step<TokenView>
    recommends
        0 <= i <= s.len(),
{
    let j = seek(s, Halt::NonSpace, i);
    if j >= s.len() {
        Step::More
    } else {
        let k = seek(s, Halt::EndName, j);
        if k >= s.len() {
            Step::More
        } else if k == j {
            Step::Fail
        } else if !valid_utf8(s.subrange(j, k)) {
            Step::Fail
        } else {
            let m = seek(s, Halt::NonSpace, k);
            if m >= s.len() {
                Step::More
            } else if s[m] == 0x3e {
                Step::Done {
                    next: m + 1,
                    val: TokenView::EndTag { name: qname_of_bytes(s.subrange(j, k)) },
                }
            } else {
                Step::Fail
            }
        }
    }
}

/// One attribute at `i`: a name, `=` between optional spaces, and a quoted
/// value with entities decoded.  The closing quote must match the opening
/// one.
pub open spec fn attr(s: Seq<u8>, i: int) -> Step<AttrView>
    recommends
        0 <= i <= s.len(),
{
    if i >= s.len() {
        Step::More
    } else {
        let j = seek(s, Halt::AttrName, i);
        if j >= s.len() {
            Step::More
        } else if j == i {
            Step::Fail
        } else if !valid_utf8(s.subrange(i, j)) {
            Step::Fail
        } else {
            let k = seek(s, Halt::NonSpace, j);
            if k >= s.len() {
                Step::More
            } else if s[k] != 0x3d {
                Step::Fail
            } else {
                let m = seek(s, Halt::NonSpace, k + 1);
                if m >= s.len() {
                    Step::More
                } else if s[m] != 0x27 && s[m] != 0x22 {
                    Step::Fail
                } else {
                    match text(s, m + 1, s[m], Seq::empty()) {
                        Step::Done { next, val } => Step::Done {
                            next: next + 1,
                            val: AttrView { name: qname_of_bytes(s.subrange(i, j)), value: val },
                        },
                        Step::More => Step::More,
                        Step::Fail => Step::Fail,
                    }
                }
            }
        }
    }
}

pub proof fn lemma_attr_bounds(s: Seq<u8>, i: int)
    requires
        0 <= i <= s.len(),
    ensures
        attr(s, i) matches Step::Done { next, .. } ==> i < next <= s.len(),
{
    if i < s.len() {
        let j = seek(s, Halt::AttrName, i);
        lemma_seek(s, Halt::AttrName, i);
        if i < j < s.len() && valid_utf8(s.subrange(i, j)) {
            let k = seek(s, Halt::NonSpace, j);
            lemma_seek(s, Halt::NonSpace, j);
            if k < s.len() && s[k] == 0x3d {
                let m = seek(s, Halt::NonSpace, k + 1);
                lemma_seek(s, Halt::NonSpace, k + 1);
                if m < s.len() && (s[m] == 0x27 || s[m] == 0x22) {
                    lemma_text_bounds(s, m + 1, s[m], Seq::empty());
                }
            }
        }
    }
}

/// The attribute list: attributes separated by spaces, collected until the
/// first position where no attribute can start.  That position is handed
/// back for the tag closer.
pub open spec fn attrs(s: Seq<u8>, i: int, acc: Seq<AttrView>) -> Step<Seq<AttrView>>
    recommends
        0 <= i <= s.len(),
    decreases s.len() - i,
    via attrs_decreases
{
    if i < 0 || i > s.len() {
        Step::Fail
    } else {
        match attr(s, i) {
            Step::Fail => Step::Done { next: i, val: acc },
            Step::More => Step::More,
            Step::Done { next: j, val: a } => {
                let k = seek(s, Halt::NonSpace, j);
                if k >= s.len() {
                    Step::More
                } else {
                    attrs(s, k, acc.push(a))
                }
            },
        }
    }
}

#[via_fn]
proof fn attrs_decreases(s: Seq<u8>, i: int, acc: Seq<AttrView>) {
    if 0 <= i <= s.len() {
        lemma_attr_bounds(s, i);
        if let Step::Done { next: j, val: a } = attr(s, i) {
            lemma_seek(s, Halt::NonSpace, j);
        }
    }
}

pub proof fn lemma_attrs_bounds(s: Seq<u8>, i: int, acc: Seq<AttrView>)
    requires
        0 <= i <= s.len(),
    ensures
        attrs(s, i, acc) matches Step::Done { next, .. } ==> i <= next < s.len(),
    decreases s.len() - i,
{
    lemma_attr_bounds(s, i);
    if let Step::Done { next: j, val: a } = attr(s, i) {
        let k = seek(s, Halt::NonSpace, j);
        lemma_seek(s, Halt::NonSpace, j);
        if k < s.len() {
            lemma_attrs_bounds(s, k, acc.push(a));
        }
    }
}

/// A start tag whose name starts after `<`, at or after `i`: optional
/// spaces, the name, the attribute list, then `>` or `/>`.
pub open spec fn start_tag(s: Seq<u8>, i: int) -> Step<TokenView>
    recommends
        0 <= i <= s.len(),
{
    let j = seek(s, Halt::NonSpace, i);
    if j >= s.len() {
        Step::More
    } else {
        let k = seek(s, Halt::ElemName, j);
        if k >= s.len() {
            Step::More
        } else if k == j {
            Step::Fail
        } else if !valid_utf8(s.subrange(j, k)) {
            Step::Fail
        } else {
            let sp = seek(s, Halt::NonSpace, k);
            if sp >= s.len() {
                Step::More
            } else {
                match attrs(s, sp, Seq::empty()) {
                    Step::More => Step::More,
                    Step::Fail => Step::Fail,
                    Step::Done { next: p, val: a } => {
                        if p >= s.len() {
                            Step::More
                        } else if s[p] == 0x2f {
                            let q = seek(s, Halt::NonSpace, p + 1);
                            if q >= s.len() {
                                Step::More
                            } else if s[q] == 0x3e {
                                Step::Done {
                                    next: q + 1,
                                    val: TokenView::StartTag {
                                        name: qname_of_bytes(s.subrange(j, k)),
                                        attrs: a,
                                        self_closing: true,
                                    },
                                }
                            } else {
                                Step::Fail
                            }
                        } else if s[p] == 0x3e {
                            Step::Done {
                                next: p + 1,
                                val: TokenView::StartTag {
                                    name: qname_of_bytes(s.subrange(j, k)),
                                    attrs: a,
                                    self_closing: false,
                                },
                            }
                        } else {
                            Step::Fail
                        }
                    },
                }
            }
        }
    }
}

/// A tag of any kind; `s[0]` is the `<`.
pub open spec fn tag(s: Seq<u8>) -> Step<TokenView>
    recommends
        s.len() > 0,
        s[0] == 0x3c,
{
    match match_lit(s, 1, lit_cdata_open()) {
        Step::Done { next, .. } => cdata(s, next),
        Step::More => Step::More,
        Step::Fail => match match_lit(s, 1, lit_slash()) {
            Step::Done { next, .. } => end_tag(s, next),
            Step::More => Step::More,
            Step::Fail => start_tag(s, 1),
        },
    }
}

/// One token at the front of the buffer.  An empty buffer asks for more
/// bytes; a leading `<` must begin a tag, and anything else is text running
/// up to the next `<`.
pub open spec fn parse(s: Seq<u8>) -> Step<TokenView> {
    if s.len() == 0 {
        Step::More
    } else if s[0] == 0x3c {
        tag(s)
    } else {
        match text(s, 0, 0x3c, Seq::empty()) {
            Step::Done { next, val } => Step::Done { next, val: TokenView::Text { text: val } },
            Step::More => Step::More,
            Step::Fail => Step::Fail,
        }
    }
}

/// A completed token covers at least its first byte and at most the buffer.
pub proof fn lemma_parse_bounds(s: Seq<u8>)
    ensures
        parse(s) matches Step::Done { next, .. } ==> 0 < next <= s.len(),
{
    if s.len() > 0 {
        if s[0] == 0x3c {
            lemma_match_lit(s, 1, lit_cdata_open());
            match match_lit(s, 1, lit_cdata_open()) {
                Step::Done { next, .. } => {
                    lemma_find_cdata_end(s, next);
                },
                Step::More => {},
                Step::Fail => {
                    lemma_match_lit(s, 1, lit_slash());
                    match match_lit(s, 1, lit_slash()) {
                        Step::Done { next, .. } => {
                            lemma_end_tag_bounds(s, next);
                        },
                        Step::More => {},
                        Step::Fail => {
                            lemma_start_tag_bounds(s, 1);
                        },
                    }
                },
            }
        } else {
            lemma_text_bounds(s, 0, 0x3c, Seq::empty());
        }
    }
}

/// A subrange that lies inside `s` is unchanged by appending `t`.
proof fn lemma_prefix_subrange(s: Seq<u8>, t: Seq<u8>, a: int, b: int)
    requires
        0 <= a <= b <= s.len(),
    ensures
        (s + t).subrange(a, b) == s.subrange(a, b),
{
    assert((s + t).subrange(a, b) =~= s.subrange(a, b));
}

pub proof fn lemma_named_branch_stable(
    s: Seq<u8>,
    t: Seq<u8>,
    i: int,
    lit: Seq<u8>,
    c: char,
    o1: Step<Seq<char>>,
    o2: Step<Seq<char>>,
)
    requires
        0 <= i <= s.len(),
        !(named_branch(s, i, lit, c, o1) is More),
        !(o1 is More) ==> o2 == o1,
    ensures
        named_branch(s + t, i, lit, c, o2) == named_branch(s, i, lit, c, o1),
{
    match match_lit(s, i, lit) {
        Step::Done { next, .. } => {
            lemma_match_lit(s, i, lit);
            lemma_match_lit_stable(s, t, i, lit);
            if next < s.len() {
                assert((s + t)[next] == s[next]);
            }
        },
        Step::More => {},
        Step::Fail => {
            lemma_match_lit_stable(s, t, i, lit);
        },
    }
}

pub proof fn lemma_entity_stable(s: Seq<u8>, t: Seq<u8>, i: int)
    requires
        0 <= i < s.len(),
        !(entity(s, i) is More),
    ensures
        entity(s + t, i) == entity(s, i),
{
    let u = s + t;
    assert(u[i] == s[i]);
    if i + 1 < s.len() {
        assert(u[i + 1] == s[i + 1]);
        if s[i + 1] == 0x23 {
            if i + 2 < s.len() {
                assert(u[i + 2] == s[i + 2]);
                if s[i + 2] == 0x78 {
                    let j = seek(s, Halt::NonHex, i + 3);
                    lemma_seek(s, Halt::NonHex, i + 3);
                    if j < s.len() {
                        lemma_seek_stable(s, t, Halt::NonHex, i + 3);
                        assert(u[j] == s[j]);
                        lemma_prefix_subrange(s, t, i + 3, j);
                    }
                } else {
                    let j = seek(s, Halt::NonDigit, i + 2);
                    lemma_seek(s, Halt::NonDigit, i + 2);
                    if j < s.len() {
                        lemma_seek_stable(s, t, Halt::NonDigit, i + 2);
                        assert(u[j] == s[j]);
                        lemma_prefix_subrange(s, t, i + 2, j);
                    }
                }
            }
        } else {
            let b5 = named_branch(s, i + 1, lit_apos(), '\'', Step::Fail);
            let b4 = named_branch(s, i + 1, lit_quot(), '"', b5);
            let b3 = named_branch(s, i + 1, lit_gt(), '>', b4);
            let b2 = named_branch(s, i + 1, lit_lt(), '<', b3);
            let b5u = named_branch(u, i + 1, lit_apos(), '\'', Step::Fail);
            let b4u = named_branch(u, i + 1, lit_quot(), '"', b5u);
            let b3u = named_branch(u, i + 1, lit_gt(), '>', b4u);
            let b2u = named_branch(u, i + 1, lit_lt(), '<', b3u);
            assert(!(b5 is More) ==> b5u == b5) by {
                if !(b5 is More) {
                    lemma_named_branch_stable(
                        s,
                        t,
                        i + 1,
                        lit_apos(),
                        '\'',
                        Step::Fail,
                        Step::Fail,
                    );
                }
            }
            assert(!(b4 is More) ==> b4u == b4) by {
                if !(b4 is More) {
                    lemma_named_branch_stable(s, t, i + 1, lit_quot(), '"', b5, b5u);
                }
            }
            assert(!(b3 is More) ==> b3u == b3) by {
                if !(b3 is More) {
                    lemma_named_branch_stable(s, t, i + 1, lit_gt(), '>', b4, b4u);
                }
            }
            assert(!(b2 is More) ==> b2u == b2) by {
                if !(b2 is More) {
                    lemma_named_branch_stable(s, t, i + 1, lit_lt(), '<', b3, b3u);
                }
            }
            lemma_named_branch_stable(s, t, i + 1, lit_amp(), '&', b2, b2u);
        }
    }
}

pub proof fn lemma_text_stable(s: Seq<u8>, t: Seq<u8>, i: int, until: u8, acc: Seq<char>)
    requires
        0 <= i <= s.len(),
        !(text(s, i, until, acc) is More),
    ensures
        text(s + t, i, until, acc) == text(s, i, until, acc),
    decreases s.len() - i,
{
    let u = s + t;
    if i < s.len() {
        assert(u[i] == s[i]);
        if s[i] == until {
        } else if s[i] == 0x26 {
            match entity(s, i) {
                Step::Done { next, val } => {
                    lemma_entity_bounds(s, i);
                    lemma_entity_stable(s, t, i);
                    lemma_text_stable(s, t, next, until, acc + val);
                },
                Step::More => {},
                Step::Fail => {
                    lemma_entity_stable(s, t, i);
                },
            }
        } else {
            let j = seek(s, Halt::Run(until), i);
            lemma_seek(s, Halt::Run(until), i);
            if j < s.len() {
                lemma_seek_stable(s, t, Halt::Run(until), i);
                lemma_prefix_subrange(s, t, i, j);
                if valid_utf8(s.subrange(i, j)) {
                    lemma_text_bounds(s, i, until, acc);
                    lemma_text_stable(s, t, j, until, acc + decode_utf8(s.subrange(i, j)));
                }
            }
        }
    }
}

pub proof fn lemma_find_cdata_end_stable(s: Seq<u8>, t: Seq<u8>, i: int)
    requires
        0 <= i,
        find_cdata_end(s, i) >= 0,
    ensures
        find_cdata_end(s + t, i) == find_cdata_end(s, i),
    decreases s.len() - i,
{
    let u = s + t;
    assert(i + 3 <= s.len()) by {
        lemma_find_cdata_end(s, i);
    }
    assert(u[i] == s[i] && u[i + 1] == s[i + 1] && u[i + 2] == s[i + 2]);
    if !(s[i] == 0x5d && s[i + 1] == 0x5d && s[i + 2] == 0x3e) {
        lemma_find_cdata_end_stable(s, t, i + 1);
    }
}

pub proof fn lemma_cdata_stable(s: Seq<u8>, t: Seq<u8>, i: int)
    requires
        0 <= i,
        !(cdata(s, i) is More),
    ensures
        cdata(s + t, i) == cdata(s, i),
{
    let e = find_cdata_end(s, i);
    lemma_find_cdata_end(s, i);
    lemma_find_cdata_end_stable(s, t, i);
    lemma_prefix_subrange(s, t, i, e);
}

pub proof fn lemma_end_tag_stable(s: Seq<u8>, t: Seq<u8>, i: int)
    requires
        0 <= i <= s.len(),
        !(end_tag(s, i) is More),
    ensures
        end_tag(s + t, i) == end_tag(s, i),
{
    let u = s + t;
    let j = seek(s, Halt::NonSpace, i);
    lemma_seek(s, Halt::NonSpace, i);
    lemma_seek_stable(s, t, Halt::NonSpace, i);
    let k = seek(s, Halt::EndName, j);
    lemma_seek(s, Halt::EndName, j);
    lemma_seek_stable(s, t, Halt::EndName, j);
    if j < k < s.len() {
        lemma_prefix_subrange(s, t, j, k);
        if valid_utf8(s.subrange(j, k)) {
            let m = seek(s, Halt::NonSpace, k);
            lemma_seek(s, Halt::NonSpace, k);
            lemma_seek_stable(s, t, Halt::NonSpace, k);
            if m < s.len() {
                assert(u[m] == s[m]);
            }
        }
    }
}

pub proof fn lemma_attr_stable(s: Seq<u8>, t: Seq<u8>, i: int)
    requires
        0 <= i <= s.len(),
        !(attr(s, i) is More),
    ensures
        attr(s + t, i) == attr(s, i),
{
    let u = s + t;
    if i < s.len() {
        let j = seek(s, Halt::AttrName, i);
        lemma_seek(s, Halt::AttrName, i);
        lemma_seek_stable(s, t, Halt::AttrName, i);
        if i < j < s.len() {
            lemma_prefix_subrange(s, t, i, j);
            if valid_utf8(s.subrange(i, j)) {
                let k = seek(s, Halt::NonSpace, j);
                lemma_seek(s, Halt::NonSpace, j);
                lemma_seek_stable(s, t, Halt::NonSpace, j);
                if k < s.len() {
                    assert(u[k] == s[k]);
                    if s[k] == 0x3d {
                        let m = seek(s, Halt::NonSpace, k + 1);
                        lemma_seek(s, Halt::NonSpace, k + 1);
                        lemma_seek_stable(s, t, Halt::NonSpace, k + 1);
                        if m < s.len() {
                            assert(u[m] == s[m]);
                            if s[m] == 0x27 || s[m] == 0x22 {
                                lemma_text_stable(s, t, m + 1, s[m], Seq::empty());
                            }
                        }
                    }
                }
            }
        }
    }
}

pub proof fn lemma_attrs_stable(s: Seq<u8>, t: Seq<u8>, i: int, acc: Seq<AttrView>)
    requires
        0 <= i <= s.len(),
        !(attrs(s, i, acc) is More),
    ensures
        attrs(s + t, i, acc) == attrs(s, i, acc),
    decreases s.len() - i,
{
    match attr(s, i) {
        Step::Fail => {
            lemma_attr_stable(s, t, i);
        },
        Step::More => {},
        Step::Done { next: j, val: a } => {
            lemma_attr_bounds(s, i);
            lemma_attr_stable(s, t, i);
            let k = seek(s, Halt::NonSpace, j);
            lemma_seek(s, Halt::NonSpace, j);
            if k < s.len() {
                lemma_seek_stable(s, t, Halt::NonSpace, j);
                lemma_attrs_stable(s, t, k, acc.push(a));
            }
        },
    }
}

pub proof fn lemma_start_tag_stable(s: Seq<u8>, t: Seq<u8>, i: int)
    requires
        0 <= i <= s.len(),
        !(start_tag(s, i) is More),
    ensures
        start_tag(s + t, i) == start_tag(s, i),
{
    let u = s + t;
    let j = seek(s, Halt::NonSpace, i);
    lemma_seek(s, Halt::NonSpace, i);
    lemma_seek_stable(s, t, Halt::NonSpace, i);
    let k = seek(s, Halt::ElemName, j);
    lemma_seek(s, Halt::ElemName, j);
    lemma_seek_stable(s, t, Halt::ElemName, j);
    if j < k < s.len() {
        lemma_prefix_subrange(s, t, j, k);
        if valid_utf8(s.subrange(j, k)) {
            let sp = seek(s, Halt::NonSpace, k);
            lemma_seek(s, Halt::NonSpace, k);
            lemma_seek_stable(s, t, Halt::NonSpace, k);
            if sp < s.len() {
                lemma_attrs_bounds(s, sp, Seq::empty());
                lemma_attrs_stable(s, t, sp, Seq::empty());
                if let Step::Done { next: p, val: a } = attrs(s, sp, Seq::empty()) {
                    if p < s.len() {
                        assert(u[p] == s[p]);
                        if s[p] == 0x2f {
                            let q = seek(s, Halt::NonSpace, p + 1);
                            lemma_seek(s, Halt::NonSpace, p + 1);
                            lemma_seek_stable(s, t, Halt::NonSpace, p + 1);
                            if q < s.len() {
                                assert(u[q] == s[q]);
                            }
                        }
                    }
                }
            }
        }
    }
}

/// Once the buffered bytes decide a token, or decide that the bytes are
/// invalid, appending further bytes cannot change that outcome.  Only the
/// `More` answer is provisional.
pub proof fn lemma_parse_stable(s: Seq<u8>, t: Seq<u8>)
    requires
        !(parse(s) is More),
    ensures
        parse(s + t) == parse(s),
{
    let u = s + t;
    assert(s.len() > 0);
    assert(u[0] == s[0]);
    if s[0] == 0x3c {
        lemma_match_lit(s, 1, lit_cdata_open());
        match match_lit(s, 1, lit_cdata_open()) {
            Step::Done { next, .. } => {
                lemma_match_lit_stable(s, t, 1, lit_cdata_open());
                lemma_cdata_stable(s, t, next);
            },
            Step::More => {},
            Step::Fail => {
                lemma_match_lit_stable(s, t, 1, lit_cdata_open());
                lemma_match_lit(s, 1, lit_slash());
                match match_lit(s, 1, lit_slash()) {
                    Step::Done { next, .. } => {
                        lemma_match_lit_stable(s, t, 1, lit_slash());
                        lemma_end_tag_stable(s, t, next);
                    },
                    Step::More => {},
                    Step::Fail => {
                        lemma_match_lit_stable(s, t, 1, lit_slash());
                        lemma_start_tag_stable(s, t, 1);
                    },
                }
            },
        }
    } else {
        lemma_text_stable(s, t, 0, 0x3c, Seq::empty());
    }
}

pub proof fn lemma_end_tag_bounds(s: Seq<u8>, i: int)
    requires
        0 <= i <= s.len(),
    ensures
        end_tag(s, i) matches Step::Done { next, .. } ==> i < next <= s.len(),
{
    lemma_seek(s, Halt::NonSpace, i);
    let j = seek(s, Halt::NonSpace, i);
    if j < s.len() {
        lemma_seek(s, Halt::EndName, j);
        let k = seek(s, Halt::EndName, j);
        if k < s.len() {
            lemma_seek(s, Halt::NonSpace, k);
        }
    }
}

pub proof fn lemma_start_tag_bounds(s: Seq<u8>, i: int)
    requires
        0 <= i <= s.len(),
    ensures
        start_tag(s, i) matches Step::Done { next, .. } ==> i < next <= s.len(),
{
    lemma_seek(s, Halt::NonSpace, i);
    let j = seek(s, Halt::NonSpace, i);
    if j < s.len() {
        lemma_seek(s, Halt::ElemName, j);
        let k = seek(s, Halt::ElemName, j);
        if j < k < s.len() && valid_utf8(s.subrange(j, k)) {
            lemma_seek(s, Halt::NonSpace, k);
            let sp = seek(s, Halt::NonSpace, k);
            if sp < s.len() {
                lemma_attrs_bounds(s, sp, Seq::empty());
                if let Step::Done { next: p, val: a } = attrs(s, sp, Seq::empty()) {
                    if p < s.len() && s[p] == 0x2f {
                        lemma_seek(s, Halt::NonSpace, p + 1);
                    }
                }
            }
        }
    }
}

} // verus!
