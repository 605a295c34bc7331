//! The shattering engine: one left-to-right pass over a byte buffer that
//! classifies positions as token starts or plain text and produces an
//! ordered, coverage-complete sequence of zero-copy shards.

use vstd::prelude::*;
use vstd::string::StringSliceAdditionalSpecFns;

use crate::cursor::{Bound, Cursor, Error};
use crate::cursor::{digits_end, digits_value};

verus! {

/// True of the characters that terminate a token body: ASCII whitespace
/// or ASCII punctuation.
pub open spec fn char_is_boundary(c: char) -> bool {
    let u = c as u32;
    ||| u == 0x20
    ||| u == 0x09
    ||| u == 0x0a
    ||| u == 0x0c
    ||| u == 0x0d
    ||| 0x21 <= u <= 0x2f
    ||| 0x3a <= u <= 0x40
    ||| 0x5b <= u <= 0x60
    ||| 0x7b <= u <= 0x7e
}

/// True of the bytes after which a new token may legally begin: a body
/// terminator, or any byte with its high bit set (any byte of a multi-byte
/// UTF-8 sequence counts, so a token may start right after an emoji or an
/// accented character without full UTF-8 decoding).
pub open spec fn byte_is_left_boundary(b: u8) -> bool {
    char_is_boundary(b as char) || b >= 0x80
}

/// The left-boundary rule on the outcome of a backward peek: the missing
/// byte before the start of the buffer counts as a boundary.
pub open spec fn peek_is_left_boundary(r: Result<u8, Error>) -> bool {
    match r {
        Err(Error::OutOfBounds(_)) => true,
        Err(_) => false,
        Ok(b) => byte_is_left_boundary(b),
    }
}

/// Whether a token may start at position `i` of the buffer: `i` is the
/// start of the buffer, or the byte before it is a left boundary.
pub open spec fn left_boundary_at(s: Seq<u8>, i: int) -> bool {
    i == 0 || byte_is_left_boundary(s[i - 1])
}

/// The first index at or after `i` holding a body terminator (the length
/// of the buffer if none follows).
pub open spec fn scan_end(s: Seq<u8>, i: int) -> int
    decreases s.len() - i,
{
    if i >= s.len() {
        s.len() as int
    } else if char_is_boundary(s[i] as char) {
        i
    } else {
        scan_end(s, i + 1)
    }
}

/// For a position inside the buffer, `scan_end` stays within it and is
/// characterized by its two defining facts.
pub proof fn lemma_scan_end(s: Seq<u8>, i: int)
    requires
        i <= s.len(),
    ensures
        i <= scan_end(s, i) <= s.len(),
        forall|k: int| i <= k < scan_end(s, i) ==> !char_is_boundary(s[k] as char),
        scan_end(s, i) < s.len() ==> char_is_boundary(s[scan_end(s, i)] as char),
    decreases s.len() - i,
{
    if i < s.len() && !char_is_boundary(s[i] as char) {
        lemma_scan_end(s, i + 1);
    }
}

/// `scan_end` is pinned down by the facts `lemma_scan_end` states.
pub proof fn lemma_scan_end_unique(s: Seq<u8>, i: int, j: int)
    requires
        i <= j <= s.len(),
        forall|k: int| i <= k < j ==> !char_is_boundary(s[k] as char),
        j == s.len() || char_is_boundary(s[j] as char),
    ensures
        scan_end(s, i) == j,
    decreases j - i,
{
    if i < j {
        lemma_scan_end_unique(s, i + 1, j);
    }
}

/// Whether a token body terminator stands at `c`: ASCII whitespace or
/// ASCII punctuation.
pub fn is_boundary_char(c: char) -> (r: bool)
    ensures
        r == char_is_boundary(c),
{
    let u = c as u32;
    u == 0x20 || u == 0x09 || u == 0x0a || u == 0x0c || u == 0x0d || (0x21 <= u && u <= 0x2f) || (
    0x3a <= u && u <= 0x40) || (0x5b <= u && u <= 0x60) || (0x7b <= u && u <= 0x7e)
}

/// Whether a token may begin immediately after the byte `c`.
pub fn is_left_boundary_char(c: u8) -> (r: bool)
    ensures
        r == byte_is_left_boundary(c),
{
    proof {
        assert((c & 0b10000000) == 0b10000000 <==> c >= 0x80) by (bit_vector);
    }
    is_boundary_char(c as char) || ((c & 0b10000000) == 0b10000000)
}

/// The left-boundary rule applied to the outcome of a backward peek.
pub fn is_left_boundary(r: &Result<u8, Error>) -> (b: bool)
    ensures
        b == peek_is_left_boundary(*r),
{
    match r {
        Err(Error::OutOfBounds(_)) => true,
        Err(_) => false,
        Ok(c) => is_left_boundary_char(*c),
    }
}

/// A slice into the original buffer. Contains a position, which is an
/// index into the buffer, and the length of the segment.
#[derive(Debug, PartialEq, Eq, Structural, Clone, Copy)]
pub struct ByteSlice {
    pub pos: u32,
    pub len: u32,
}

impl ByteSlice {
    /// A span is meaningful only against a buffer it fits inside.
    pub open spec fn fits(&self, s: Seq<u8>) -> bool {
        self.pos + self.len <= s.len()
    }

    pub fn new(pos: u32, len: u32) -> (r: ByteSlice)
        ensures
            r == (ByteSlice { pos, len }),
    {
        ByteSlice { pos, len }
    }

    /// Get the slice of the buffer as a native array slice.
    pub fn bytes<'a>(&self, data: &'a [u8]) -> (r: &'a [u8])
        requires
            self.fits(data@),
        ensures
            r@ == data@.subrange(self.pos as int, self.pos + self.len),
    {
        let n = data.len();
        assert(self.pos + self.len <= n);
        vstd::slice::slice_subrange(data, self.pos as usize, self.pos as usize + self.len as usize)
    }

    /// Get the slice of the buffer as a string: it succeeds exactly when
    /// the span holds valid UTF-8, and then views those very bytes.
    pub fn str<'a>(&self, data: &'a [u8]) -> (r: Result<&'a str, std::str::Utf8Error>)
        requires
            self.fits(data@),
        ensures
            r is Ok <==> vstd::utf8::valid_utf8(data@.subrange(self.pos as int, self.pos + self.len)),
            r is Ok ==> r->Ok_0.spec_bytes() == data@.subrange(self.pos as int, self.pos + self.len),
    {
        bytes_to_str(self.bytes(data))
    }
}

#[verifier::external_type_specification]
#[verifier::external_body]
pub struct ExUtf8Error(std::str::Utf8Error);

/// Relies on std::str::from_utf8: it returns `Ok` exactly on valid UTF-8
/// input, and the returned string views the very bytes it was given.
#[verifier::external_body]
fn bytes_to_str(b: &[u8]) -> (r: Result<&str, std::str::Utf8Error>)
    ensures
        r is Ok <==> vstd::utf8::valid_utf8(b@),
        r is Ok ==> r->Ok_0.spec_bytes() == b@,
{
    std::str::from_utf8(b)
}

/// What an inline mention refers to.
#[derive(Debug, PartialEq, Eq, Structural, Clone, Copy)]
pub enum Mention {
    /// An inline positional reference (`#[N]`) into an external tag list
    /// the scanner does not interpret.
    Index(u16),
    /// A span believed to hold a `scheme:`-prefixed encoded identifier;
    /// the scanner only delimits it, never decodes it.
    Bech32(ByteSlice),
}

/// A Shard represents one part of the shattered content.
///
/// A `Hashtag` span holds the token body, the bytes after the `#` sigil;
/// a `Mention` span covers its whole token, sigil included, so that a
/// shard sequence always accounts for every input byte. `Url` is reserved
/// for future recognizers and is never produced here.
#[derive(Debug, PartialEq, Eq, Structural, Clone, Copy)]
pub enum Shard {
    Text(ByteSlice),
    Mention(ByteSlice, Mention),
    Hashtag(ByteSlice),
    Url(ByteSlice),
}

/// The first buffer position a shard accounts for. A hashtag's stored
/// span holds only the body, so its extent starts one byte earlier, at
/// the `#` sigil; every other span already starts its extent.
pub open spec fn shard_start(sh: Shard) -> int {
    match sh {
        Shard::Text(bs) => bs.pos as int,
        Shard::Mention(bs, _) => bs.pos as int,
        Shard::Hashtag(bs) => bs.pos - 1,
        Shard::Url(bs) => bs.pos as int,
    }
}

/// The buffer position just past the last byte a shard accounts for.
pub open spec fn shard_end(sh: Shard) -> int {
    match sh {
        Shard::Text(bs) => bs.pos + bs.len,
        Shard::Mention(bs, _) => bs.pos + bs.len,
        Shard::Hashtag(bs) => bs.pos + bs.len,
        Shard::Url(bs) => bs.pos + bs.len,
    }
}

/// The text shard covering `[start, end)`.
pub open spec fn text_shard(start: int, end: int) -> Shard {
    Shard::Text(ByteSlice { pos: start as u32, len: (end - start) as u32 })
}

/// Flushing a pending text run: one text shard over `[run_start, upto)`,
/// or nothing when the run is empty.
pub open spec fn flushed(run_start: int, upto: int) -> Seq<Shard> {
    if run_start < upto {
        seq![text_shard(run_start, upto)]
    } else {
        Seq::<Shard>::empty()
    }
}

/// Whether an indexed mention's grammar — `[`, one or more ASCII digits
/// whose value fits 16 bits, `]` — matches at `i`, the position just past
/// a `#`. An over-long index is rejected, not truncated.
pub open spec fn mention_at(s: Seq<u8>, i: int) -> bool {
    &&& i < s.len()
    &&& s[i] == 0x5bu8
    &&& digits_end(s, i + 1) > i + 1
    &&& digits_end(s, i + 1) < s.len()
    &&& s[digits_end(s, i + 1)] == 0x5du8
    &&& digits_value(s, i + 1, digits_end(s, i + 1)) <= u16::MAX
}

/// The index an indexed mention at `i` carries.
pub open spec fn mention_index(s: Seq<u8>, i: int) -> u16 {
    digits_value(s, i + 1, digits_end(s, i + 1)) as u16
}

/// The position just past an indexed mention's closing `]`.
pub open spec fn mention_end(s: Seq<u8>, i: int) -> int {
    digits_end(s, i + 1) + 1
}

/// One pass of the shattering engine over `s` from position `i`, with a
/// pending text run that began at `run_start`. A token may start at a `#`
/// standing at a left boundary, or at a `#` standing exactly where the
/// previous token ended (`i == run_start`, which also covers the start of
/// the buffer) — that is how two tokens may stand back to back with no
/// text between them. The hashtag recognizer is tried first and the
/// indexed mention only after it fails; a `#` where both fail stays in
/// the text run. This is the functional model the executable `parse` is
/// proved against.
pub open spec fn shatter_from(s: Seq<u8>, i: int, run_start: int) -> Seq<Shard>
    decreases s.len() - i,
    via shatter_from_decreases
{
    if i >= s.len() {
        flushed(run_start, s.len() as int)
    } else if s[i] == 0x23u8 && (i == run_start || left_boundary_at(s, i)) {
        let hend = scan_end(s, i + 1);
        if hend > i + 1 {
            flushed(run_start, i) + seq![
                Shard::Hashtag(ByteSlice { pos: (i + 1) as u32, len: (hend - (i + 1)) as u32 }),
            ] + shatter_from(s, hend, hend)
        } else if mention_at(s, i + 1) {
            let mend = mention_end(s, i + 1);
            flushed(run_start, i) + seq![
                Shard::Mention(
                    ByteSlice { pos: i as u32, len: (mend - i) as u32 },
                    Mention::Index(mention_index(s, i + 1)),
                ),
            ] + shatter_from(s, mend, mend)
        } else {
            shatter_from(s, i + 1, run_start)
        }
    } else {
        shatter_from(s, i + 1, run_start)
    }
}

#[via_fn]
proof fn shatter_from_decreases(s: Seq<u8>, i: int, run_start: int) {
    if i < s.len() {
        lemma_scan_end(s, i + 1);
        if i + 2 <= s.len() {
            crate::cursor::lemma_digits_end_bounds(s, i + 2);
        }
    }
}

/// The full shard sequence for `s`: one pass from the start, with the
/// pending text run opening at position 0.
pub open spec fn shatter(s: Seq<u8>) -> Seq<Shard> {
    shatter_from(s, 0, 0)
}

/// The ordered shard sequence one `parse` call produces.
#[derive(Debug)]
pub struct Shards {
    pub shards: Vec<Shard>,
}

impl View for Shards {
    type V = Seq<Shard>;

    open spec fn view(&self) -> Seq<Shard> {
        self.shards@
    }
}

impl Shards {
    pub fn new() -> (r: Shards)
        ensures
            r@ == Seq::<Shard>::empty(),
    {
        Shards {
            // some initial capacity so we don't have to allocate on small parses
            shards: Vec::with_capacity(32),
        }
    }

    /// Parse a hashtag body (the content after the `#`). The body runs
    /// from the cursor to the next boundary character, or to the end of
    /// the buffer; a body that would be empty fails with `NotFound` and
    /// leaves the cursor unmoved.
    pub fn parse_hashtag(cursor: &mut Cursor) -> (r: Result<ByteSlice, Error>)
        requires
            old(cursor).wf(),
            old(cursor).bytes().len() <= u32::MAX,
        ensures
            final(cursor).wf(),
            final(cursor).bytes() == old(cursor).bytes(),
            ({
                let s = old(cursor).bytes();
                let start = old(cursor).pos();
                let hend = scan_end(s, start);
                if start < hend {
                    r == Ok::<ByteSlice, Error>(
                        ByteSlice { pos: start as u32, len: (hend - start) as u32 },
                    ) && final(cursor).pos() == hend
                } else {
                    r == Err::<ByteSlice, Error>(Error::NotFound) && final(cursor).pos() == start
                }
            }),
    {
        let ghost s = cursor.bytes();
        let start = cursor.position();
        match cursor.scan_until(is_boundary_char) {
            Ok(()) | Err(Error::OutOfBounds(Bound::End)) => {
                proof {
                    lemma_scan_end_unique(s, start as int, cursor.pos());
                }
                let len = cursor.position() - start;
                if len == 0 {
                    return Err(Error::NotFound);
                }
                Ok(ByteSlice::new(start as u32, len as u32))
            },
            Err(err) => Err(err),
        }
    }

    /// Parse an indexed mention: the literal sequence `[`, one or more
    /// ASCII digits, `]`, starting at the cursor (just past a `#`). On any
    /// failure the cursor is restored to where it stood, so the `#` can
    /// fall back to plain text.
    pub fn parse_mention(cursor: &mut Cursor) -> (r: Result<u16, Error>)
        requires
            old(cursor).wf(),
        ensures
            final(cursor).wf(),
            final(cursor).bytes() == old(cursor).bytes(),
            ({
                let s = old(cursor).bytes();
                let start = old(cursor).pos();
                if mention_at(s, start) {
                    r == Ok::<u16, Error>(mention_index(s, start)) && final(cursor).pos()
                        == mention_end(s, start)
                } else {
                    r == Err::<u16, Error>(Error::NotFound) && final(cursor).pos() == start
                }
            }),
    {
        let start = cursor.position();
        if cursor.match_char('[').is_err() {
            return Err(Error::NotFound);
        }
        let idx = match cursor.parse_ascii_digits() {
            Ok(idx) => idx,
            Err(_) => {
                cursor.set_position(start);
                return Err(Error::NotFound);
            },
        };
        if cursor.match_char(']').is_err() {
            cursor.set_position(start);
            return Err(Error::NotFound);
        }
        Ok(idx)
    }

    /// Append the pending text run `[start, upto)` as a text shard; an
    /// empty run is elided.
    fn push_txt(&mut self, start: usize, upto: usize)
        requires
            start <= upto <= u32::MAX,
        ensures
            final(self)@ == old(self)@ + flushed(start as int, upto as int),
    {
        let len = upto - start;
        if len == 0 {
            return;
        }
        let txt_slice = ByteSlice::new(start as u32, len as u32);
        self.shards.push(Shard::Text(txt_slice));
    }

    /// Parse (shatter) content into shards: one left-to-right pass that
    /// recognizes hashtags and indexed mentions at left boundaries and
    /// leaves everything else in plain text runs.
    pub fn parse(content: &str) -> (r: Result<Shards, Error>)
        requires
            content.spec_bytes().len() <= u32::MAX,
        ensures
            r is Ok,
            r->Ok_0@ == shatter(content.spec_bytes()),
    {
        let data = content.as_bytes();
        let ghost s = data@;
        let mut cursor = Cursor::new(data);
        let len = cursor.length();
        let mut shards = Shards::new();
        let mut start = cursor.position();
        while cursor.position() < len
            invariant
                cursor.wf(),
                cursor.bytes() == s,
                s.len() == len,
                len <= u32::MAX,
                start <= cursor.pos(),
                shatter(s) == shards@ + shatter_from(s, cursor.pos(), start as int),
            decreases s.len() - cursor.pos(),
        {
            let before = cursor.position();
            let prev = cursor.peek_previous_byte();
            // a token may also begin right where the previous token ended,
            // so two hashtags can stand back to back with no text between
            let prev_boundary = before == start || is_left_boundary(&prev);
            let c1 = cursor.byte_at_cursor();
            cursor.set_position(before + 1);

            // 0x23 is the `#` sigil
            if c1 == 0x23 && prev_boundary {
                match Shards::parse_hashtag(&mut cursor) {
                    Ok(ht) => {
                        shards.push_txt(start, before);
                        start = cursor.position();
                        shards.shards.push(Shard::Hashtag(ht));
                    },
                    Err(_) => {
                        match Shards::parse_mention(&mut cursor) {
                            Ok(idx) => {
                                shards.push_txt(start, before);
                                let after = cursor.position();
                                shards.shards.push(
                                    Shard::Mention(
                                        ByteSlice::new(before as u32, (after - before) as u32),
                                        Mention::Index(idx),
                                    ),
                                );
                                start = after;
                            },
                            Err(_) => {
                                // neither recognizer matched: the `#` stays in
                                // the pending text run
                            },
                        }
                    },
                }
            }
        }
        shards.push_txt(start, cursor.position());
        Ok(shards)
    }
}

} // verus!
