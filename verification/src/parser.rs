//! The executable tokenizer productions, each proved to implement the
//! corresponding grammar function exactly.

use crate::decode::{bytes_range, char_from_u32, push_char, push_str, string_from_utf8};
use crate::error::ParseError;
use crate::grammar::{
    attr, attrs, cdata, end_tag, entity, entity_dec, entity_hex, entity_named, find_cdata_end,
    hex_digit_value, hex_value, digits_value, is_halt, is_hex_byte, lemma_seek, lit_amp,
    lit_apos, lit_cdata_open, lit_gt, lit_lt, lit_quot, match_lit, named_branch, scalar_chars,
    seek, start_tag, tag, text, Halt, Step,
};
use crate::token::{attrs_view, Attribute, LocalName, Token};
use vstd::prelude::*;

verus! {

/// Outcome of an executable scan: mirrors [`Step`] with byte counts.
enum Scan<T> {
    Done(usize, T),
    More,
    Fail,
}

/// Whether `b` halts the given scan.
fn halt_byte(h: Halt, b: u8) -> (r: bool)
    ensures
        r == is_halt(h, b),
{
    match h {
        Halt::Run(u) => b == u || b == 0x26,
        Halt::ElemName => b == 0x20 || b == 0x09 || b == 0x3e || b == 0x2f,
        Halt::EndName => b == 0x20 || b == 0x09 || b == 0x3e,
        Halt::AttrName => b == 0x20 || b == 0x09 || b == 0x3d || b == 0x2f || b == 0x3e,
        Halt::NonSpace => !(b == 0x20 || b == 0x09),
        Halt::NonDigit => !(0x30 <= b && b <= 0x39),
        Halt::NonHex => !((0x30 <= b && b <= 0x39) || (0x41 <= b && b <= 0x46) || (0x61 <= b
            && b <= 0x66)),
    }
}

/// First halting position at or after `i`.
fn seek_from(s: &[u8], h: Halt, i: usize) -> (r: usize)
    requires
        i <= s@.len(),
    ensures
        r as int == seek(s@, h, i as int),
        i <= r <= s@.len(),
{
    let n = s.len();
    let mut k = i;
    while k < n
        invariant
            i <= k <= n,
            n == s@.len(),
            seek(s@, h, i as int) == seek(s@, h, k as int),
        decreases n - k,
    {
        if halt_byte(h, s[k]) {
            return k;
        }
        k = k + 1;
    }
    n
}

/// Matches the bytes of `lit` at position `i`.
fn scan_lit(s: &[u8], i: usize, lit: &Vec<u8>) -> (r: Scan<()>)
    requires
        i <= s@.len(),
    ensures
        (match r {
            Scan::Done(j, _) => match_lit(s@, i as int, lit@) == (Step::Done {
                next: j as int,
                val: (),
            }) && i <= j <= s@.len(),
            Scan::More => match_lit(s@, i as int, lit@) is More,
            Scan::Fail => match_lit(s@, i as int, lit@) is Fail,
        }),
{
    let n = s.len();
    let m = lit.len();
    let mut k: usize = 0;
    proof {
        assert(lit@.skip(0) =~= lit@);
    }
    while k < m
        invariant
            0 <= k <= m,
            m == lit@.len(),
            n == s@.len(),
            i + k <= n,
            match_lit(s@, i as int, lit@) == match_lit(s@, i + k as int, lit@.skip(k as int)),
        decreases m - k,
    {
        if i + k >= n {
            return Scan::More;
        }
        proof {
            assert(lit@.skip(k as int)[0] == lit@[k as int]);
        }
        if s[i + k] != lit[k] {
            return Scan::Fail;
        }
        proof {
            assert(lit@.skip(k as int).drop_first() =~= lit@.skip((k + 1) as int));
        }
        k = k + 1;
    }
    proof {
        assert(lit@.skip(m as int).len() == 0);
    }
    Scan::Done(i + m, ())
}

fn lit_vec_cdata() -> (v: Vec<u8>)
    ensures
        v@ == lit_cdata_open(),
{
    let mut v: Vec<u8> = Vec::new();
    v.push(0x21);
    v.push(0x5b);
    v.push(0x43);
    v.push(0x44);
    v.push(0x41);
    v.push(0x54);
    v.push(0x41);
    v.push(0x5b);
    proof {
        assert(v@ =~= lit_cdata_open());
    }
    v
}

fn lit_vec(a: u8, b: u8) -> (v: Vec<u8>)
    ensures
        v@ == seq![a, b],
{
    let mut v: Vec<u8> = Vec::new();
    v.push(a);
    v.push(b);
    proof {
        assert(v@ =~= seq![a, b]);
    }
    v
}

fn lit_vec3(a: u8, b: u8, c: u8) -> (v: Vec<u8>)
    ensures
        v@ == seq![a, b, c],
{
    let mut v: Vec<u8> = Vec::new();
    v.push(a);
    v.push(b);
    v.push(c);
    proof {
        assert(v@ =~= seq![a, b, c]);
    }
    v
}

fn lit_vec4(a: u8, b: u8, c: u8, d: u8) -> (v: Vec<u8>)
    ensures
        v@ == seq![a, b, c, d],
{
    let mut v: Vec<u8> = Vec::new();
    v.push(a);
    v.push(b);
    v.push(c);
    v.push(d);
    proof {
        assert(v@ =~= seq![a, b, c, d]);
    }
    v
}

/// The string holding exactly the characters a numeric reference produces.
fn scalar_string(v: u32) -> (r: String)
    ensures
        r@ == scalar_chars(v),
{
    match char_from_u32(v) {
        Option::Some(c) => {
            let mut out = String::new();
            push_char(&mut out, c);
            proof {
                assert(out@ =~= seq![v as char]);
            }
            out
        },
        Option::None => String::new(),
    }
}

/// Sixteen to the power `n`; used only to bound hexadecimal references.
spec fn pow16(n: nat) -> int
    decreases n,
{
    if n == 0 {
        1
    } else {
        16 * pow16((n - 1) as nat)
    }
}

proof fn lemma_hex_value_bound(s: Seq<u8>)
    requires
        forall|k: int| 0 <= k < s.len() ==> is_hex_byte(s[k]),
    ensures
        0 <= hex_value(s) < pow16(s.len()),
    decreases s.len(),
{
    if s.len() > 0 {
        lemma_hex_value_bound(s.drop_last());
        assert(forall|k: int|
            0 <= k < s.drop_last().len() ==> s.drop_last()[k] == s[k]);
        assert(0 <= hex_digit_value(s.last()) < 16);
    }
}

proof fn lemma_pow16_le(n: nat)
    requires
        n <= 8,
    ensures
        pow16(n) <= 0x100000000,
    decreases n,
{
    assert(pow16(0) == 1);
    assert(pow16(1) == 16);
    assert(pow16(2) == 0x100);
    assert(pow16(3) == 0x1000);
    assert(pow16(4) == 0x10000);
    assert(pow16(5) == 0x100000);
    assert(pow16(6) == 0x1000000);
    assert(pow16(7) == 0x10000000);
    assert(pow16(8) == 0x100000000);
}

/// A hexadecimal character reference; `i` is the position of its `&`.
fn scan_entity_hex(s: &[u8], i: usize) -> (r: Scan<String>)
    requires
        i + 3 <= s@.len(),
    ensures
        (match r {
            Scan::Done(j, v) => entity_hex(s@, i as int) == (Step::Done {
                next: j as int,
                val: v@,
            }) && i < j <= s@.len(),
            Scan::More => entity_hex(s@, i as int) is More,
            Scan::Fail => entity_hex(s@, i as int) is Fail,
        }),
{
    let n = s.len();
    let j = seek_from(s, Halt::NonHex, i + 3);
    if j >= n {
        return Scan::More;
    }
    if j == i + 3 {
        return Scan::Fail;
    }
    if s[j] != 0x3b {
        return Scan::Fail;
    }
    if j - (i + 3) > 8 {
        return Scan::Fail;
    }
    let ghost run = s@.subrange((i + 3) as int, j as int);
    proof {
        lemma_seek(s@, Halt::NonHex, (i + 3) as int);
        assert(forall|k: int| 0 <= k < run.len() ==> is_hex_byte(#[trigger] run[k]));
        lemma_hex_value_bound(run);
        lemma_pow16_le(run.len());
    }
    let mut acc: u64 = 0;
    let mut k: usize = i + 3;
    while k < j
        invariant
            i + 3 <= k <= j <= n,
            n == s@.len(),
            j as int == seek(s@, Halt::NonHex, (i + 3) as int),
            j - (i + 3) <= 8,
            run == s@.subrange((i + 3) as int, j as int),
            acc as int == hex_value(s@.subrange((i + 3) as int, k as int)),
            acc <= 0xffffffff,
        decreases j - k,
    {
        let b = s[k];
        proof {
            lemma_seek(s@, Halt::NonHex, (i + 3) as int);
            assert(!is_halt(Halt::NonHex, s@[k as int]));
            let sub1 = s@.subrange((i + 3) as int, (k + 1) as int);
            assert(sub1.drop_last() =~= s@.subrange((i + 3) as int, k as int));
            assert(sub1.last() == s@[k as int]);
            assert(sub1 =~= run.subrange(0, (k + 1 - (i + 3)) as int));
            assert(forall|x: int| 0 <= x < sub1.len() ==> is_hex_byte(#[trigger] sub1[x]));
            lemma_hex_value_bound(sub1);
            lemma_pow16_le(sub1.len());
        }
        let d: u8 = if b <= 0x39 {
            b - 0x30
        } else if b <= 0x46 {
            b - 0x41 + 10
        } else {
            b - 0x61 + 10
        };
        acc = acc * 16 + (d as u64);
        k = k + 1;
    }
    Scan::Done(j + 1, scalar_string(acc as u32))
}

/// A decimal character reference; `i` is the position of its `&`.
fn scan_entity_dec(s: &[u8], i: usize) -> (r: Scan<String>)
    requires
        i + 2 <= s@.len(),
    ensures
        (match r {
            Scan::Done(j, v) => entity_dec(s@, i as int) == (Step::Done {
                next: j as int,
                val: v@,
            }) && i < j <= s@.len(),
            Scan::More => entity_dec(s@, i as int) is More,
            Scan::Fail => entity_dec(s@, i as int) is Fail,
        }),
{
    let n = s.len();
    let j = seek_from(s, Halt::NonDigit, i + 2);
    if j >= n {
        return Scan::More;
    }
    if j == i + 2 {
        return Scan::Fail;
    }
    if s[j] != 0x3b {
        return Scan::Fail;
    }
    let mut acc: u64 = 0;
    let mut over = false;
    let mut k: usize = i + 2;
    while k < j
        invariant
            i + 2 <= k <= j <= n,
            n == s@.len(),
            j as int == seek(s@, Halt::NonDigit, (i + 2) as int),
            !over ==> acc as int == digits_value(s@.subrange((i + 2) as int, k as int)) && acc
                <= 0xffffffff,
            over ==> digits_value(s@.subrange((i + 2) as int, k as int)) > 0xffffffff,
        decreases j - k,
    {
        let b = s[k];
        proof {
            lemma_seek(s@, Halt::NonDigit, (i + 2) as int);
            assert(!is_halt(Halt::NonDigit, s@[k as int]));
            let sub1 = s@.subrange((i + 2) as int, (k + 1) as int);
            assert(sub1.drop_last() =~= s@.subrange((i + 2) as int, k as int));
            assert(sub1.last() == s@[k as int]);
        }
        let d: u8 = b - 0x30;
        if !over {
            let na: u64 = acc * 10 + (d as u64);
            if na > 0xffffffff {
                over = true;
            } else {
                acc = na;
            }
        } else {
            proof {
                let prev = digits_value(s@.subrange((i + 2) as int, k as int));
                assert(digits_value(s@.subrange((i + 2) as int, (k + 1) as int)) == prev * 10 + (
                s@[k as int] - 0x30));
            }
        }
        k = k + 1;
    }
    if over {
        return Scan::Fail;
    }
    Scan::Done(j + 1, scalar_string(acc as u32))
}

/// One predefined entity name at `i`, followed by `;`.  `None` means the
/// name did not match and the caller falls through to the next candidate.
fn scan_named_one(s: &[u8], i: usize, lit: &Vec<u8>, c: char) -> (r: Option<Scan<String>>)
    requires
        i <= s@.len(),
    ensures
        (match r {
            Option::None => match_lit(s@, i as int, lit@) is Fail,
            Option::Some(Scan::Done(j, v)) => forall|o: Step<Seq<char>>|
                #[trigger] named_branch(s@, i as int, lit@, c, o) == (Step::Done {
                    next: j as int,
                    val: v@,
                }) && i < j <= s@.len(),
            Option::Some(Scan::More) => forall|o: Step<Seq<char>>|
                #[trigger] named_branch(s@, i as int, lit@, c, o) is More,
            Option::Some(Scan::Fail) => forall|o: Step<Seq<char>>|
                !(#[trigger] named_branch(s@, i as int, lit@, c, o) is Done) && !(named_branch(
                    s@,
                    i as int,
                    lit@,
                    c,
                    o,
                ) is More),
        }),
{
    let n = s.len();
    match scan_lit(s, i, lit) {
        Scan::Done(next, _) => {
            if next >= n {
                Some(Scan::More)
            } else if s[next] == 0x3b {
                let mut out = String::new();
                push_char(&mut out, c);
                proof {
                    assert(out@ =~= seq![c]);
                }
                Some(Scan::Done(next + 1, out))
            } else {
                Some(Scan::Fail)
            }
        },
        Scan::More => Some(Scan::More),
        Scan::Fail => None,
    }
}

/// A named entity reference; `i` is the position of its `&`.
fn scan_entity_named(s: &[u8], i: usize) -> (r: Scan<String>)
    requires
        i < s@.len(),
    ensures
        (match r {
            Scan::Done(j, v) => entity_named(s@, i as int) == (Step::Done {
                next: j as int,
                val: v@,
            }) && i < j <= s@.len(),
            Scan::More => entity_named(s@, i as int) is More,
            Scan::Fail => entity_named(s@, i as int) is Fail,
        }),
{
    let n = s.len();
    let amp = lit_vec3(0x61, 0x6d, 0x70);
    let lt = lit_vec(0x6c, 0x74);
    let gt = lit_vec(0x67, 0x74);
    let quot = lit_vec4(0x71, 0x75, 0x6f, 0x74);
    let apos = lit_vec4(0x61, 0x70, 0x6f, 0x73);
    proof {
        assert(amp@ == lit_amp());
        assert(lt@ == lit_lt());
        assert(gt@ == lit_gt());
        assert(quot@ == lit_quot());
        assert(apos@ == lit_apos());
    }
    match scan_named_one(s, i + 1, &amp, '&') {
        Option::Some(r) => {
            return r;
        },
        Option::None => {},
    }
    match scan_named_one(s, i + 1, &lt, '<') {
        Option::Some(r) => {
            return r;
        },
        Option::None => {},
    }
    match scan_named_one(s, i + 1, &gt, '>') {
        Option::Some(r) => {
            return r;
        },
        Option::None => {},
    }
    match scan_named_one(s, i + 1, &quot, '"') {
        Option::Some(r) => {
            return r;
        },
        Option::None => {},
    }
    match scan_named_one(s, i + 1, &apos, '\'') {
        Option::Some(r) => {
            return r;
        },
        Option::None => {},
    }
    Scan::Fail
}

/// An entity reference; `i` is the position of its `&`.
fn scan_entity(s: &[u8], i: usize) -> (r: Scan<String>)
    requires
        i < s@.len(),
        s@[i as int] == 0x26,
    ensures
        (match r {
            Scan::Done(j, v) => entity(s@, i as int) == (Step::Done { next: j as int, val: v@ })
                && i < j <= s@.len(),
            Scan::More => entity(s@, i as int) is More,
            Scan::Fail => entity(s@, i as int) is Fail,
        }),
{
    let n = s.len();
    if i + 1 >= n {
        return Scan::More;
    }
    if s[i + 1] == 0x23 {
        if i + 2 >= n {
            return Scan::More;
        }
        if s[i + 2] == 0x78 {
            scan_entity_hex(s, i)
        } else {
            scan_entity_dec(s, i)
        }
    } else {
        scan_entity_named(s, i)
    }
}

/// The text production from `i`, ending at an unconsumed `until` byte.
fn scan_text(s: &[u8], i: usize, until: u8) -> (r: Scan<String>)
    requires
        i <= s@.len(),
    ensures
        (match r {
            Scan::Done(j, v) => text(s@, i as int, until, Seq::empty()) == (Step::Done {
                next: j as int,
                val: v@,
            }) && i <= j < s@.len(),
            Scan::More => text(s@, i as int, until, Seq::empty()) is More,
            Scan::Fail => text(s@, i as int, until, Seq::empty()) is Fail,
        }),
{
    let n = s.len();
    let mut k: usize = i;
    let mut out = String::new();
    proof {
        assert(out@ + Seq::<char>::empty() =~= out@);
        assert(Seq::<char>::empty() =~= out@);
    }
    loop
        invariant
            i <= k <= n,
            n == s@.len(),
            text(s@, i as int, until, Seq::empty()) == text(s@, k as int, until, out@),
        decreases n - k,
    {
        if k >= n {
            return Scan::More;
        }
        let b = s[k];
        if b == until {
            return Scan::Done(k, out);
        }
        if b == 0x26 {
            match scan_entity(s, k) {
                Scan::Done(j2, v) => {
                    proof {
                        assert(text(s@, k as int, until, out@) == text(
                            s@,
                            j2 as int,
                            until,
                            out@ + v@,
                        ));
                    }
                    push_str(&mut out, v.as_str());
                    k = j2;
                },
                Scan::More => {
                    return Scan::More;
                },
                Scan::Fail => {
                    return Scan::Fail;
                },
            }
        } else {
            let j = seek_from(s, Halt::Run(until), k);
            if j >= n {
                return Scan::More;
            }
            proof {
                assert(!is_halt(Halt::Run(until), s@[k as int]));
                assert(j > k) by {
                    lemma_seek(s@, Halt::Run(until), (k + 1) as int);
                }
            }
            match string_from_utf8(bytes_range(s, k, j)) {
                Option::None => {
                    return Scan::Fail;
                },
                Option::Some(chunk) => {
                    proof {
                        assert(text(s@, k as int, until, out@) == text(
                            s@,
                            j as int,
                            until,
                            out@ + chunk@,
                        ));
                    }
                    push_str(&mut out, chunk.as_str());
                    k = j;
                },
            }
        }
    }
}

/// A CDATA payload: everything up to the first `]]>`, delivered verbatim.
fn scan_cdata(s: &[u8], i: usize) -> (r: Scan<String>)
    requires
        i <= s@.len(),
    ensures
        (match r {
            Scan::Done(j, v) => cdata(s@, i as int) == (Step::Done {
                next: j as int,
                val: crate::token::TokenView::Text { text: v@ },
            }) && i < j <= s@.len(),
            Scan::More => cdata(s@, i as int) is More,
            Scan::Fail => cdata(s@, i as int) is Fail,
        }),
{
    let n = s.len();
    let mut k: usize = i;
    loop
        invariant
            i <= k <= n,
            n == s@.len(),
            find_cdata_end(s@, i as int) == find_cdata_end(s@, k as int),
        decreases n - k,
    {
        if n - k < 3 {
            proof {
                assert(find_cdata_end(s@, k as int) == -1);
            }
            return Scan::More;
        }
        if s[k] == 0x5d && s[k + 1] == 0x5d && s[k + 2] == 0x3e {
            match string_from_utf8(bytes_range(s, i, k)) {
                Option::None => {
                    return Scan::Fail;
                },
                Option::Some(v) => {
                    return Scan::Done(k + 3, v);
                },
            }
        }
        k = k + 1;
    }
}

/// An end tag after its `</`.
fn scan_end_tag(s: &[u8], i: usize) -> (r: Scan<LocalName>)
    requires
        i <= s@.len(),
    ensures
        (match r {
            Scan::Done(j, nm) => end_tag(s@, i as int) == (Step::Done {
                next: j as int,
                val: crate::token::TokenView::EndTag { name: nm@ },
            }) && i < j <= s@.len(),
            Scan::More => end_tag(s@, i as int) is More,
            Scan::Fail => end_tag(s@, i as int) is Fail,
        }),
{
    let n = s.len();
    let j = seek_from(s, Halt::NonSpace, i);
    if j >= n {
        return Scan::More;
    }
    let k = seek_from(s, Halt::EndName, j);
    if k >= n {
        return Scan::More;
    }
    if k == j {
        return Scan::Fail;
    }
    let name_bytes = bytes_range(s, j, k);
    match LocalName::from_bytes(name_bytes.as_slice()) {
        Option::None => Scan::Fail,
        Option::Some(nm) => {
            let m = seek_from(s, Halt::NonSpace, k);
            if m >= n {
                return Scan::More;
            }
            if s[m] == 0x3e {
                Scan::Done(m + 1, nm)
            } else {
                Scan::Fail
            }
        },
    }
}

/// One attribute: name, `=`, and a quoted value.
fn scan_attr(s: &[u8], i: usize) -> (r: Scan<Attribute>)
    requires
        i <= s@.len(),
    ensures
        (match r {
            Scan::Done(j, a) => attr(s@, i as int) == (Step::Done { next: j as int, val: a@ }) && i
                < j <= s@.len(),
            Scan::More => attr(s@, i as int) is More,
            Scan::Fail => attr(s@, i as int) is Fail,
        }),
{
    let n = s.len();
    if i >= n {
        return Scan::More;
    }
    let j = seek_from(s, Halt::AttrName, i);
    if j >= n {
        return Scan::More;
    }
    if j == i {
        return Scan::Fail;
    }
    let name_bytes = bytes_range(s, i, j);
    match LocalName::from_bytes(name_bytes.as_slice()) {
        Option::None => Scan::Fail,
        Option::Some(nm) => {
            let k = seek_from(s, Halt::NonSpace, j);
            if k >= n {
                return Scan::More;
            }
            if s[k] != 0x3d {
                return Scan::Fail;
            }
            let m = seek_from(s, Halt::NonSpace, k + 1);
            if m >= n {
                return Scan::More;
            }
            let q = s[m];
            if q != 0x27 && q != 0x22 {
                return Scan::Fail;
            }
            match scan_text(s, m + 1, q) {
                Scan::Done(next, v) => Scan::Done(next + 1, Attribute { name: nm, value: v }),
                Scan::More => Scan::More,
                Scan::Fail => Scan::Fail,
            }
        },
    }
}

/// The attribute list, collected until no further attribute can start.
fn scan_attrs(s: &[u8], i: usize) -> (r: Scan<Vec<Attribute>>)
    requires
        i <= s@.len(),
    ensures
        (match r {
            Scan::Done(p, v) => attrs(s@, i as int, Seq::empty()) == (Step::Done {
                next: p as int,
                val: attrs_view(v@),
            }) && i <= p < s@.len(),
            Scan::More => attrs(s@, i as int, Seq::empty()) is More,
            Scan::Fail => attrs(s@, i as int, Seq::empty()) is Fail,
        }),
{
    let n = s.len();
    let mut k: usize = i;
    let mut out: Vec<Attribute> = Vec::new();
    proof {
        assert(attrs_view(out@) =~= Seq::<crate::token::AttrView>::empty());
    }
    loop
        invariant
            i <= k <= n,
            n == s@.len(),
            attrs(s@, i as int, Seq::empty()) == attrs(s@, k as int, attrs_view(out@)),
        decreases n - k,
    {
        match scan_attr(s, k) {
            Scan::Fail => {
                return Scan::Done(k, out);
            },
            Scan::More => {
                return Scan::More;
            },
            Scan::Done(j, a) => {
                let k2 = seek_from(s, Halt::NonSpace, j);
                if k2 >= n {
                    return Scan::More;
                }
                proof {
                    assert(attrs_view(out@.push(a)) =~= attrs_view(out@).push(a@));
                }
                out.push(a);
                k = k2;
            },
        }
    }
}

/// A start tag after its `<`.
fn scan_start_tag(s: &[u8], i: usize) -> (r: Scan<Token>)
    requires
        i <= s@.len(),
    ensures
        (match r {
            Scan::Done(j, tok) => start_tag(s@, i as int) == (Step::Done {
                next: j as int,
                val: tok@,
            }) && i < j <= s@.len(),
            Scan::More => start_tag(s@, i as int) is More,
            Scan::Fail => start_tag(s@, i as int) is Fail,
        }),
{
    let n = s.len();
    let j = seek_from(s, Halt::NonSpace, i);
    if j >= n {
        return Scan::More;
    }
    let k = seek_from(s, Halt::ElemName, j);
    if k >= n {
        return Scan::More;
    }
    if k == j {
        return Scan::Fail;
    }
    let name_bytes = bytes_range(s, j, k);
    match LocalName::from_bytes(name_bytes.as_slice()) {
        Option::None => Scan::Fail,
        Option::Some(nm) => {
            let sp = seek_from(s, Halt::NonSpace, k);
            if sp >= n {
                return Scan::More;
            }
            match scan_attrs(s, sp) {
                Scan::More => Scan::More,
                Scan::Fail => Scan::Fail,
                Scan::Done(p, av) => {
                    if s[p] == 0x2f {
                        let q = seek_from(s, Halt::NonSpace, p + 1);
                        if q >= n {
                            return Scan::More;
                        }
                        if s[q] == 0x3e {
                            Scan::Done(
                                q + 1,
                                Token::StartTag { name: nm, attrs: av, self_closing: true },
                            )
                        } else {
                            Scan::Fail
                        }
                    } else if s[p] == 0x3e {
                        Scan::Done(p + 1, Token::StartTag { name: nm, attrs: av, self_closing: false })
                    } else {
                        Scan::Fail
                    }
                },
            }
        },
    }
}

fn lit_vec1(a: u8) -> (v: Vec<u8>)
    ensures
        v@ == seq![a],
{
    let mut v: Vec<u8> = Vec::new();
    v.push(a);
    proof {
        assert(v@ =~= seq![a]);
    }
    v
}

impl Token {
    /// Parses one token from the front of `s`.  `Ok(Some((used, token)))`
    /// consumed exactly `used` bytes; `Ok(None)` means the bytes end inside
    /// a token that more input could still complete; `Err` means no
    /// continuation of the bytes can form a token.
    pub fn parse(s: &[u8]) -> (r: Result<Option<(usize, Token)>, ParseError>)
        ensures
            (match r {
                Result::Ok(Option::Some((used, tok))) => crate::grammar::parse(s@) == (Step::Done {
                    next: used as int,
                    val: tok@,
                }) && 0 < used <= s@.len(),
                Result::Ok(Option::None) => crate::grammar::parse(s@) is More,
                Result::Err(_) => crate::grammar::parse(s@) is Fail,
            }),
    {
        proof {
            crate::grammar::lemma_parse_bounds(s@);
        }
        let n = s.len();
        if n == 0 {
            return Ok(None);
        }
        if s[0] == 0x3c {
            let cd = lit_vec_cdata();
            match scan_lit(s, 1, &cd) {
                Scan::Done(next, _) => match scan_cdata(s, next) {
                    Scan::Done(j, v) => Ok(Some((j, Token::Text(v)))),
                    Scan::More => Ok(None),
                    Scan::Fail => Err(ParseError),
                },
                Scan::More => Ok(None),
                Scan::Fail => {
                    let sl = lit_vec1(0x2f);
                    match scan_lit(s, 1, &sl) {
                        Scan::Done(next, _) => match scan_end_tag(s, next) {
                            Scan::Done(j, nm) => Ok(Some((j, Token::EndTag { name: nm }))),
                            Scan::More => Ok(None),
                            Scan::Fail => Err(ParseError),
                        },
                        Scan::More => Ok(None),
                        Scan::Fail => match scan_start_tag(s, 1) {
                            Scan::Done(j, tok) => Ok(Some((j, tok))),
                            Scan::More => Ok(None),
                            Scan::Fail => Err(ParseError),
                        },
                    }
                },
            }
        } else {
            match scan_text(s, 0, 0x3c) {
                Scan::Done(j, v) => Ok(Some((j, Token::Text(v)))),
                Scan::More => Ok(None),
                Scan::Fail => Err(ParseError),
            }
        }
    }
}

} // verus!
