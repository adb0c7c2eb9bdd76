//! The parsed XML token model: qualified names, attributes and tokens.

use crate::decode::{bytes_range, string_from_utf8};
use crate::namespace_set::opt_str_view;
use vstd::prelude::*;
use vstd::string::StringSliceAdditionalSpecFns;
use vstd::utf8::{
    decode_utf8, is_char_boundary, is_continuation_byte, is_leading_byte_width_1,
    length_of_first_scalar, pop_first_scalar, valid_first_scalar, valid_utf8,
};
use vstd::utf8::{
    is_char_boundary_iff_not_is_continuation_byte, is_char_boundary_start_end_of_seq,
    valid_utf8_concat, valid_utf8_split,
};

verus! {

/// The view of a qualified name: an optional prefix and a local name.
pub ghost struct QNameView {
    pub prefix: Option<Seq<char>>,
    pub local: Seq<char>,
}

/// The view of one attribute.
pub ghost struct AttrView {
    pub name: QNameView,
    pub value: Seq<char>,
}

/// The view of a token.
pub ghost enum TokenView {
    StartTag { name: QNameView, attrs: Seq<AttrView>, self_closing: bool },
    EndTag { name: QNameView },
    Text { text: Seq<char> },
}

/// Element or attribute name with an optional prefix.
#[derive(Debug, Clone, PartialEq, Eq, Hash)]
pub struct LocalName {
    /// The part before the first `:`, if any.
    pub prefix: Option<String>,
    /// The part after the first `:`, or the whole name.
    pub name: String,
}

impl View for LocalName {
    type V = QNameView;

    open spec fn view(&self) -> QNameView {
        QNameView { prefix: opt_str_view(self.prefix), local: self.name@ }
    }
}

/// Name-value pair of an element's attribute.
#[derive(Debug, Clone, PartialEq, Eq, Hash)]
pub struct Attribute {
    /// Attribute name.
    pub name: LocalName,
    /// Attribute value, with entity references already decoded.
    pub value: String,
}

impl View for Attribute {
    type V = AttrView;

    open spec fn view(&self) -> AttrView {
        AttrView { name: self.name@, value: self.value@ }
    }
}

/// The views of a list of attributes.
pub open spec fn attrs_view(v: Seq<Attribute>) -> Seq<AttrView> {
    v.map_values(|a: Attribute| a@)
}

/// A parsed XML token.
#[derive(Debug, Clone, PartialEq, Eq)]
pub enum Token {
    /// An element opening tag.
    StartTag {
        /// Element name.
        name: LocalName,
        /// The attributes, in source order.
        attrs: Vec<Attribute>,
        /// Whether the tag closed itself (`/>`).
        self_closing: bool,
    },
    /// An element closing tag.
    EndTag {
        /// Element name.
        name: LocalName,
    },
    /// Textual content or a CDATA payload, already decoded.
    Text(String),
}

impl View for Token {
    type V = TokenView;

    open spec fn view(&self) -> TokenView {
        match self {
            Token::StartTag { name, attrs, self_closing } => TokenView::StartTag {
                name: name@,
                attrs: attrs_view(attrs@),
                self_closing: *self_closing,
            },
            Token::EndTag { name } => TokenView::EndTag { name: name@ },
            Token::Text(s) => TokenView::Text { text: s@ },
        }
    }
}

/// First index at or after `i` holding the byte `x`, or the length when `x`
/// does not occur there.
pub open spec fn find_byte(b: Seq<u8>, x: u8, i: int) -> int
    decreases b.len() - i,
{
    if i < 0 || i >= b.len() {
        b.len() as int
    } else if b[i] == x {
        i
    } else {
        find_byte(b, x, i + 1)
    }
}

pub proof fn lemma_find_byte(b: Seq<u8>, x: u8, i: int)
    requires
        0 <= i <= b.len(),
    ensures
        i <= find_byte(b, x, i) <= b.len(),
        forall|k: int| i <= k < find_byte(b, x, i) ==> b[k] != x,
        find_byte(b, x, i) < b.len() ==> b[find_byte(b, x, i)] == x,
    decreases b.len() - i,
{
    if i < b.len() && b[i] != x {
        lemma_find_byte(b, x, i + 1);
    }
}

/// The qualified name encoded by a name's bytes: everything before the first
/// `:` is the prefix, the rest is the local name; a name without `:` has no
/// prefix.
pub open spec fn qname_of_bytes(b: Seq<u8>) -> QNameView
    recommends
        valid_utf8(b),
{
    let m = find_byte(b, 0x3a, 0);
    if m == b.len() {
        QNameView { prefix: None, local: decode_utf8(b) }
    } else {
        QNameView {
            prefix: Some(decode_utf8(b.take(m))),
            local: decode_utf8(b.skip(m + 1)),
        }
    }
}

/// Splitting a valid UTF-8 sequence around an ASCII byte keeps both sides
/// valid; conversely, two valid sides joined by an ASCII byte are valid.
pub proof fn lemma_valid_split_at_ascii(b: Seq<u8>, m: int)
    requires
        0 <= m < b.len(),
        b[m] < 0x80,
    ensures
        valid_utf8(b) <==> valid_utf8(b.take(m)) && valid_utf8(b.skip(m + 1)),
{
    let left = b.take(m);
    let mid = b.subrange(m, m + 1);
    let right = b.skip(m + 1);
    if valid_utf8(b) {
        is_char_boundary_iff_not_is_continuation_byte(b, m);
        assert(!is_continuation_byte(b[m]));
        valid_utf8_split(b, m);
        assert(left =~= b.subrange(0, m));
        let tail = b.subrange(m, b.len() as int);
        assert(valid_utf8(tail));
        is_char_boundary_iff_not_is_continuation_byte(tail, 0);
        assert(tail[0] == b[m]);
        is_char_boundary_start_end_of_seq(tail);
        assert(is_char_boundary(tail, 1)) by {
            assert(valid_first_scalar(tail));
            assert(is_leading_byte_width_1(tail[0]));
            assert(length_of_first_scalar(tail) == 1);
            reveal_with_fuel(is_char_boundary, 2);
        }
        valid_utf8_split(tail, 1);
        assert(right =~= tail.subrange(1, tail.len() as int));
    }
    if valid_utf8(left) && valid_utf8(right) {
        assert(valid_utf8(mid)) by {
            assert(mid.len() == 1);
            assert(mid[0] == b[m]);
            assert(is_leading_byte_width_1(mid[0]));
            let c = mid[0];
            assert((c & 0x7f) < 0x80) by (bit_vector);
            assert(valid_first_scalar(mid));
            assert(pop_first_scalar(mid) =~= Seq::<u8>::empty());
            assert(valid_utf8(pop_first_scalar(mid)));
        }
        valid_utf8_concat(left, mid);
        valid_utf8_concat(left + mid, right);
        assert(b =~= left + mid + right);
    }
}

impl LocalName {
    /// Splits a raw name into prefix and local part at the first `:`.
    /// Refuses bytes that are not valid UTF-8.
    pub fn from_bytes(b: &[u8]) -> (r: Option<LocalName>)
        ensures
            r matches Some(n) ==> valid_utf8(b@) && n@ == qname_of_bytes(b@),
            valid_utf8(b@) ==> r is Some,
    {
        let n = b.len();
        let mut m: usize = 0;
        while m < n && b[m] != 0x3a
            invariant
                n == b@.len(),
                0 <= m <= n,
                find_byte(b@, 0x3a, 0) == find_byte(b@, 0x3a, m as int),
            decreases n - m,
        {
            m = m + 1;
        }
        proof {
            lemma_find_byte(b@, 0x3a, 0);
            assert(find_byte(b@, 0x3a, m as int) == m);
        }
        if m == n {
            match string_from_utf8(bytes_range(b, 0, n)) {
                Option::None => {
                    proof {
                        assert(b@.subrange(0, n as int) =~= b@);
                    }
                    None
                },
                Option::Some(name) => {
                    proof {
                        assert(b@.subrange(0, n as int) =~= b@);
                    }
                    Some(LocalName { prefix: None, name })
                },
            }
        } else {
            proof {
                lemma_valid_split_at_ascii(b@, m as int);
                assert(b@.subrange(0, m as int) =~= b@.take(m as int));
                assert(b@.subrange((m + 1) as int, n as int) =~= b@.skip(m + 1));
            }
            let prefix = match string_from_utf8(bytes_range(b, 0, m)) {
                Option::None => {
                    return None;
                },
                Option::Some(p) => p,
            };
            let name = match string_from_utf8(bytes_range(b, m + 1, n)) {
                Option::None => {
                    return None;
                },
                Option::Some(l) => l,
            };
            Some(LocalName { prefix: Some(prefix), name })
        }
    }
}

impl<'a> From<&'a str> for LocalName {
    /// Splits the identifier at its first `:`.
    fn from(s: &'a str) -> (r: Self)
        ensures
            r@ == qname_of_bytes(s.spec_bytes()),
    {
        let b = s.as_bytes();
        match LocalName::from_bytes(b) {
            Option::Some(n) => n,
            Option::None => {
                // a `&str` always holds valid UTF-8
                proof {
                    vstd::utf8::encode_utf8_valid_utf8(s@);
                }
                LocalName { prefix: None, name: String::new() }
            },
        }
    }
}

impl<'a> vstd::std_specs::convert::FromSpecImpl<&'a str> for LocalName {
    open spec fn obeys_from_spec() -> bool {
        false
    }

    open spec fn from_spec(v: &'a str) -> LocalName {
        arbitrary()
    }
}


/// No character of `s` is a colon.
pub open spec fn no_colon(s: Seq<char>) -> bool {
    forall|i: int| 0 <= i < s.len() ==> s[i] != ':'
}

/// Bytes free of `0x3A` decode to characters free of `:`.  A colon is an
/// ASCII character, so only the byte `0x3A` itself can encode one.
proof fn lemma_no_colon_bytes(b: Seq<u8>)
    requires
        valid_utf8(b),
        forall|k: int| 0 <= k < b.len() ==> b[k] != 0x3a,
    ensures
        no_colon(decode_utf8(b)),
    decreases b.len(),
{
    if b.len() > 0 {
        assert(valid_first_scalar(b));
        let v = vstd::utf8::decode_first_scalar(b);
        let d = decode_utf8(b);
        let rest = pop_first_scalar(b);
        assert(d == seq![v as char] + decode_utf8(rest));
        assert(d[0] != ':') by {
            if (v as char) == ':' {
                // the first scalar would then encode as the single byte 0x3A
                vstd::utf8::decode_utf8_first_scalar(b);
                assert((':' as u32) == 0x3a);
                assert(vstd::utf8::encode_scalar(0x3a) == seq![0x3au8]) by {
                    assert(vstd::utf8::has_width_1_encoding(0x3a));
                    assert(vstd::utf8::leading_byte_width_1(0x3a) == 0x3a) by (bit_vector);
                    assert(vstd::utf8::encode_scalar(0x3a) =~= seq![0x3au8]);
                }
                assert(vstd::utf8::take_first_scalar(b)[0] == b[0]);
            }
        }
        assert(forall|k: int| 0 <= k < rest.len() ==> rest[k] != 0x3a);
        lemma_no_colon_bytes(rest);
        assert forall|i: int| 0 <= i < d.len() implies d[i] != ':' by {
            if i > 0 {
                assert(d[i] == decode_utf8(rest)[i - 1]);
            }
        }
    }
}

/// The byte-level split is the character-level split: the prefix is
/// everything before the first `:` of the decoded name, and a name without
/// a prefix has no `:` at all.
pub proof fn lemma_qname_chars(b: Seq<u8>)
    requires
        valid_utf8(b),
    ensures
        qname_of_bytes(b).prefix is None ==> qname_of_bytes(b).local == decode_utf8(b)
            && no_colon(decode_utf8(b)),
        qname_of_bytes(b).prefix matches Some(p) ==> decode_utf8(b) == p + seq![':']
            + qname_of_bytes(b).local && no_colon(p),
{
    let m = find_byte(b, 0x3a, 0);
    lemma_find_byte(b, 0x3a, 0);
    if m == b.len() {
        lemma_no_colon_bytes(b);
    } else {
        let left = b.take(m);
        let mid = b.subrange(m, m + 1);
        let right = b.skip(m + 1);
        lemma_valid_split_at_ascii(b, m);
        lemma_no_colon_bytes(left);
        assert(decode_utf8(mid) =~= seq![':']) by {
            assert(mid.len() == 1);
            assert(mid[0] == 0x3a);
            assert(is_leading_byte_width_1(mid[0]));
            let c = mid[0];
            assert((c & 0x7f) == 0x3a) by (bit_vector)
                requires
                    c == 0x3a,
            ;
            assert(valid_first_scalar(mid));
            assert(pop_first_scalar(mid) =~= Seq::<u8>::empty());
            assert(valid_utf8(pop_first_scalar(mid)));
            assert(valid_utf8(mid));
            assert(vstd::utf8::decode_first_scalar(mid) == 0x3a);
            assert(decode_utf8(mid) == seq![(0x3a as u32) as char] + decode_utf8(
                pop_first_scalar(mid),
            ));
            vstd::utf8::char_u32_cast(':', 0x3a);
            assert((0x3a as u32) as char == ':') by {
                assert((':' as u32) == 0x3a);
                vstd::utf8::char_u32_cast(':', 0x3a);
            }
        }
        is_char_boundary_iff_not_is_continuation_byte(b, m);
        is_char_boundary_start_end_of_seq(b);
        vstd::utf8::decode_utf8_split(b, m);
        let tail = b.subrange(m, b.len() as int);
        assert(valid_utf8(tail)) by {
            vstd::utf8::valid_utf8_split(b, m);
        }
        assert(is_char_boundary(tail, 1)) by {
            assert(tail[0] == b[m]);
            assert(is_leading_byte_width_1(tail[0]));
            assert(valid_first_scalar(tail));
            assert(length_of_first_scalar(tail) == 1);
            reveal_with_fuel(is_char_boundary, 2);
        }
        vstd::utf8::decode_utf8_split(tail, 1);
        assert(left =~= b.subrange(0, m));
        assert(mid =~= tail.subrange(0, 1));
        assert(right =~= tail.subrange(1, tail.len() as int));
        assert(decode_utf8(b) =~= decode_utf8(left) + seq![':'] + decode_utf8(right));
    }
}

} // verus!
