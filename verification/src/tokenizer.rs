//! The streaming tokenizer: an append-only byte buffer from which complete
//! tokens are pulled as soon as the buffered bytes decide them.

use crate::error::ParseError;
use crate::grammar::{lemma_parse_bounds, lemma_parse_stable, parse, Step};
use crate::token::{Token, TokenView};
use bytes::BytesMut;
use vstd::prelude::*;

verus! {

#[verifier::external_type_specification]
#[verifier::external_body]
pub struct ExBytesMut(BytesMut);

/// The bytes the buffer holds, front to back.
pub uninterp spec fn buffer_bytes(b: BytesMut) -> Seq<u8>;

/// Relies on `BytesMut::new`: a fresh buffer is empty.
#[verifier::external_body]
fn buffer_new() -> (r: BytesMut)
    ensures
        buffer_bytes(r) == Seq::<u8>::empty(),
{
    BytesMut::new()
}

/// Relies on `BytesMut::extend_from_slice`: it appends the given bytes at
/// the back.
#[verifier::external_body]
fn buffer_extend(b: &mut BytesMut, data: &[u8])
    ensures
        buffer_bytes(*final(b)) == buffer_bytes(*old(b)) + data@,
{
    b.extend_from_slice(data);
}

/// Relies on `BytesMut::len`: the number of held bytes.
#[verifier::external_body]
fn buffer_len(b: &BytesMut) -> (r: usize)
    ensures
        r == buffer_bytes(*b).len(),
{
    b.len()
}

/// Relies on `BytesMut`'s `Deref<Target = [u8]>`: a view of all held bytes.
#[verifier::external_body]
fn buffer_slice(b: &BytesMut) -> (r: &[u8])
    ensures
        r@ == buffer_bytes(*b),
{
    &b[..]
}

/// Relies on `BytesMut::split_to`: afterwards the buffer holds exactly the
/// bytes from `at` on.  `split_to` panics above the length, so that is
/// excluded here.
#[verifier::external_body]
fn buffer_split_to(b: &mut BytesMut, at: usize)
    requires
        at <= buffer_bytes(*old(b)).len(),
    ensures
        buffer_bytes(*final(b)) == buffer_bytes(*old(b)).skip(at as int),
{
    let _ = b.split_to(at);
}

/// A streaming tokenizer.  Its view is the sequence of buffered bytes.
pub struct Tokenizer {
    buffer: BytesMut,
}

impl View for Tokenizer {
    type V = Seq<u8>;

    closed spec fn view(&self) -> Seq<u8> {
        buffer_bytes(self.buffer)
    }
}

impl Tokenizer {
    /// A tokenizer with an empty buffer.
    pub fn new() -> (r: Self)
        ensures
            r@ == Seq::<u8>::empty(),
    {
        Tokenizer { buffer: buffer_new() }
    }

    /// Appends the bytes to the buffer; nothing is consumed yet.
    pub fn push(&mut self, bytes: &[u8])
        ensures
            final(self)@ == old(self)@ + bytes@,
    {
        buffer_extend(&mut self.buffer, bytes);
    }

    /// Whether the buffer holds no bytes.
    pub fn is_empty(&self) -> (r: bool)
        ensures
            r == (self@.len() == 0),
    {
        buffer_len(&self.buffer) == 0
    }

    /// Pulls the next token.  When the buffered bytes decide a token it is
    /// returned and exactly its bytes are removed from the front; when they
    /// end inside a token the buffer is kept verbatim and `Ok(None)` is
    /// returned; when no continuation of the bytes can form a token the
    /// tokenizer is spent and `Err` is returned, leaving the buffer as it
    /// was.
    pub fn pull(&mut self) -> (r: Result<Option<Token>, ParseError>)
        ensures
            (match parse(old(self)@) {
                Step::Done { next, val } => (r matches Result::Ok(Option::Some(t)) && t@ == val)
                    && final(self)@ == old(self)@.skip(next),
                Step::More => r matches Result::Ok(Option::None) && final(self)@ == old(self)@,
                Step::Fail => (r is Err) && final(self)@ == old(self)@,
            }),
    {
        let res = {
            let sl = buffer_slice(&self.buffer);
            Token::parse(sl)
        };
        match res {
            Result::Ok(Option::Some((used, tok))) => {
                buffer_split_to(&mut self.buffer, used);
                Ok(Some(tok))
            },
            Result::Ok(Option::None) => Ok(None),
            Result::Err(e) => Err(e),
        }
    }
}

/// What pulling exhaustively from a buffer yields: the decided tokens in
/// order, and the bytes that remain once no further token is decided.
pub ghost struct Drained {
    pub tokens: Seq<TokenView>,
    pub rest: Seq<u8>,
}

/// Repeatedly parse from the front until the bytes ask for more input or
/// are rejected.
pub open spec fn drain(b: Seq<u8>) -> Drained
    decreases b.len(),
{
    match parse(b) {
        Step::Done { next, val } => if 0 < next <= b.len() {
            let d = drain(b.skip(next));
            Drained { tokens: seq![val] + d.tokens, rest: d.rest }
        } else {
            Drained { tokens: Seq::empty(), rest: b }
        },
        Step::More => Drained { tokens: Seq::empty(), rest: b },
        Step::Fail => Drained { tokens: Seq::empty(), rest: b },
    }
}

/// The concatenation of all chunks.
pub open spec fn concat_chunks(cs: Seq<Seq<u8>>) -> Seq<u8>
    decreases cs.len(),
{
    if cs.len() == 0 {
        Seq::empty()
    } else {
        concat_chunks(cs.drop_last()) + cs.last()
    }
}

/// What a tokenizer that starts empty yields when the chunks are pushed one
/// at a time with exhaustive pulls in between: all tokens in order, and the
/// final buffer contents.
pub open spec fn feed_chunks(cs: Seq<Seq<u8>>) -> Drained
    decreases cs.len(),
{
    if cs.len() == 0 {
        Drained { tokens: Seq::empty(), rest: Seq::empty() }
    } else {
        let p = feed_chunks(cs.drop_last());
        let d = drain(p.rest + cs.last());
        Drained { tokens: p.tokens + d.tokens, rest: d.rest }
    }
}

/// Appending bytes to a buffer first yields everything the old buffer
/// already decided, then whatever the leftover plus the new bytes decide.
pub proof fn lemma_drain_extend(b: Seq<u8>, t: Seq<u8>)
    ensures
        drain(b + t).tokens == drain(b).tokens + drain(drain(b).rest + t).tokens,
        drain(b + t).rest == drain(drain(b).rest + t).rest,
    decreases b.len(),
{
    lemma_parse_bounds(b);
    match parse(b) {
        Step::Done { next, val } => {
            lemma_parse_stable(b, t);
            assert((b + t).skip(next) =~= b.skip(next) + t);
            lemma_drain_extend(b.skip(next), t);
            let x = drain(b.skip(next)).tokens;
            let y = drain(drain(b.skip(next)).rest + t).tokens;
            assert(seq![val] + (x + y) =~= (seq![val] + x) + y);
        },
        Step::More => {
            assert(Seq::<TokenView>::empty() + drain(b + t).tokens =~= drain(b + t).tokens);
        },
        Step::Fail => {
            lemma_parse_stable(b, t);
            assert(Seq::<TokenView>::empty() + drain(b + t).tokens =~= drain(b + t).tokens);
        },
    }
}

/// Chunk invariance: for any byte sequence and any partition of it into
/// chunks, pushing the chunks in order and pulling exhaustively between
/// pushes yields exactly the token sequence, and the leftover bytes, of
/// pushing the whole sequence at once.
pub proof fn lemma_chunk_invariance(cs: Seq<Seq<u8>>)
    ensures
        feed_chunks(cs) == drain(concat_chunks(cs)),
    decreases cs.len(),
{
    if cs.len() == 0 {
        assert(concat_chunks(cs) == Seq::<u8>::empty());
    } else {
        lemma_chunk_invariance(cs.drop_last());
        lemma_drain_extend(concat_chunks(cs.drop_last()), cs.last());
    }
}

} // verus!
