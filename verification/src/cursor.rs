//! A minimal scanning primitive over an immutable byte buffer.
//!
//! A [`Cursor`] tracks a read position inside a borrowed byte buffer and
//! offers bounded peek/advance/match operations. Running off either end of
//! the buffer is reported through [`Error`], a structural signal that
//! callers branch on as ordinary control flow.

use vstd::prelude::*;

verus! {

/// Which side of the buffer a cursor movement fell off.
#[derive(Debug, PartialEq, Eq, Structural, Clone, Copy)]
pub enum Bound {
    Start,
    End,
}

/// Structural signals from cursor operations. These are not exceptional
/// failures: "ran out of buffer" is the expected way a scan reaches the
/// end of the input, and `NotFound` is always recoverable by backtracking.
#[derive(Debug, PartialEq, Eq, Structural, Clone, Copy)]
pub enum Error {
    OutOfBounds(Bound),
    NotFound,
}

/// True of the ASCII digit bytes `'0'..='9'`.
pub open spec fn is_ascii_digit(b: u8) -> bool {
    0x30 <= b <= 0x39
}

/// The first index at or after `i` that does not hold an ASCII digit
/// (the length of the buffer if digits run to the end).
pub open spec fn digits_end(s: Seq<u8>, i: int) -> int
    decreases s.len() - i,
{
    if i >= s.len() || !is_ascii_digit(s[i]) {
        i
    } else {
        digits_end(s, i + 1)
    }
}

/// The numeric value of the decimal digit run `s[i..j)`.
pub open spec fn digits_value(s: Seq<u8>, i: int, j: int) -> nat
    decreases j - i,
{
    if j <= i {
        0
    } else {
        (digits_value(s, i, j - 1) * 10 + (s[j - 1] - 0x30)) as nat
    }
}

/// `digits_end` never leaves the buffer.
pub proof fn lemma_digits_end_bounds(s: Seq<u8>, i: int)
    requires
        i <= s.len(),
    ensures
        i <= digits_end(s, i) <= s.len(),
    decreases s.len() - i,
{
    if i < s.len() && is_ascii_digit(s[i]) {
        lemma_digits_end_bounds(s, i + 1);
    }
}

/// Everything strictly before `digits_end` is an ASCII digit.
pub proof fn lemma_digits_end_digits(s: Seq<u8>, i: int)
    requires
        i <= s.len(),
    ensures
        forall|k: int| i <= k < digits_end(s, i) ==> is_ascii_digit(s[k]),
    decreases s.len() - i,
{
    if i < s.len() && is_ascii_digit(s[i]) {
        lemma_digits_end_digits(s, i + 1);
    }
}

/// `digits_end` is pinned down by its two defining facts: everything
/// before `j` is a digit, and `j` itself is the end or a non-digit.
pub proof fn lemma_digits_end_unique(s: Seq<u8>, i: int, j: int)
    requires
        i <= j <= s.len(),
        forall|k: int| i <= k < j ==> is_ascii_digit(s[k]),
        j == s.len() || !is_ascii_digit(s[j]),
    ensures
        digits_end(s, i) == j,
    decreases j - i,
{
    if i < j {
        lemma_digits_end_unique(s, i + 1, j);
    }
}

/// A position-aware, panic-free reader over a borrowed byte buffer.
pub struct Cursor<'a> {
    data: &'a [u8],
    pos: usize,
}

impl<'a> Cursor<'a> {
    /// The bytes the cursor reads, as a mathematical sequence.
    pub closed spec fn bytes(&self) -> Seq<u8> {
        self.data@
    }

    /// The current read position.
    pub closed spec fn pos(&self) -> int {
        self.pos as int
    }

    /// The cursor never strays outside `[0, length]`.
    pub open spec fn wf(&self) -> bool {
        0 <= self.pos() <= self.bytes().len()
    }

    /// Wrap a byte buffer, starting at position 0.
    pub fn new(data: &'a [u8]) -> (c: Cursor<'a>)
        ensures
            c.wf(),
            c.bytes() == data@,
            c.pos() == 0,
    {
        Cursor { data, pos: 0 }
    }

    /// The current byte offset, `0 <= position <= length`.
    pub fn position(&self) -> (p: usize)
        requires
            self.wf(),
        ensures
            p == self.pos(),
    {
        self.pos
    }

    /// The total buffer length in bytes.
    pub fn length(&self) -> (n: usize)
        ensures
            n == self.bytes().len(),
    {
        self.data.len()
    }

    /// Reposition the cursor; used for backtracking.
    pub fn set_position(&mut self, p: usize)
        requires
            p <= old(self).bytes().len(),
        ensures
            final(self).wf(),
            final(self).bytes() == old(self).bytes(),
            final(self).pos() == p,
    {
        self.pos = p;
    }

    /// The byte at the current position.
    pub fn byte_at_cursor(&self) -> (b: u8)
        requires
            self.wf(),
            self.pos() < self.bytes().len(),
        ensures
            b == self.bytes()[self.pos()],
    {
        *vstd::slice::slice_index_get(self.data, self.pos)
    }

    /// The byte immediately before the cursor. Looking backward from the
    /// start of the buffer is the only way this fails.
    pub fn peek_previous_byte(&self) -> (r: Result<u8, Error>)
        requires
            self.wf(),
        ensures
            self.pos() == 0 ==> r == Err::<u8, Error>(Error::OutOfBounds(Bound::Start)),
            self.pos() > 0 ==> r == Ok::<u8, Error>(self.bytes()[self.pos() - 1]),
    {
        if self.pos == 0 {
            Err(Error::OutOfBounds(Bound::Start))
        } else {
            Ok(*vstd::slice::slice_index_get(self.data, self.pos - 1))
        }
    }

    /// Advance one byte at a time, interpreting each byte as its character
    /// value, and stop (without consuming) at the first byte for which
    /// `pred` holds. Running off the end of the buffer is reported as
    /// `OutOfBounds(End)` so callers can treat "ran off the end" and
    /// "stopped at a boundary" uniformly.
    pub fn scan_until<F: Fn(char) -> bool>(&mut self, pred: F) -> (r: Result<(), Error>)
        requires
            old(self).wf(),
            forall|c: char| #[trigger] pred.requires((c,)),
        ensures
            final(self).wf(),
            final(self).bytes() == old(self).bytes(),
            old(self).pos() <= final(self).pos(),
            forall|j: int|
                old(self).pos() <= j < final(self).pos() ==> pred.ensures(
                    ((old(self).bytes()[j] as char),),
                    false,
                ),
            r == Ok::<(), Error>(()) ==> final(self).pos() < old(self).bytes().len()
                && pred.ensures(((old(self).bytes()[final(self).pos()] as char),), true),
            r != Ok::<(), Error>(()) ==> r == Err::<(), Error>(Error::OutOfBounds(Bound::End))
                && final(self).pos() == old(self).bytes().len(),
    {
        while self.pos < self.data.len()
            invariant
                self.wf(),
                self.data == old(self).data,
                old(self).pos() <= self.pos(),
                forall|c: char| #[trigger] pred.requires((c,)),
                forall|j: int|
                    old(self).pos() <= j < self.pos() ==> pred.ensures(
                        ((self.data@[j] as char),),
                        false,
                    ),
            decreases self.data@.len() - self.pos(),
        {
            let b = *vstd::slice::slice_index_get(self.data, self.pos);
            if pred(b as char) {
                return Ok(());
            }
            self.pos = self.pos + 1;
        }
        Err(Error::OutOfBounds(Bound::End))
    }

    /// If the byte at the cursor equals `c`'s ASCII value, advance past it;
    /// otherwise fail with `NotFound` and leave the cursor unmoved.
    pub fn match_char(&mut self, c: char) -> (r: Result<(), Error>)
        requires
            old(self).wf(),
            (c as u32) < 0x80,
        ensures
            final(self).wf(),
            final(self).bytes() == old(self).bytes(),
            if old(self).pos() < old(self).bytes().len()
                && old(self).bytes()[old(self).pos()] as u32 == c as u32 {
                r == Ok::<(), Error>(()) && final(self).pos() == old(self).pos() + 1
            } else {
                r == Err::<(), Error>(Error::NotFound) && final(self).pos() == old(self).pos()
            },
    {
        if self.pos < self.data.len() {
            let b = *vstd::slice::slice_index_get(self.data, self.pos);
            if b as u32 == c as u32 {
                self.pos = self.pos + 1;
                return Ok(());
            }
        }
        Err(Error::NotFound)
    }

    /// Consume one or more ASCII digit bytes and return their numeric value
    /// as an unsigned 16-bit integer. Fails with `NotFound`, leaving the
    /// cursor unmoved, if the byte at the cursor is not a digit or if the
    /// digit run's value does not fit in 16 bits (an over-long index is
    /// rejected rather than silently truncated).
    pub fn parse_ascii_digits(&mut self) -> (r: Result<u16, Error>)
        requires
            old(self).wf(),
        ensures
            final(self).wf(),
            final(self).bytes() == old(self).bytes(),
            ({
                let s = old(self).bytes();
                let start = old(self).pos();
                let dend = digits_end(s, start);
                if dend > start && digits_value(s, start, dend) <= u16::MAX {
                    r == Ok::<u16, Error>(digits_value(s, start, dend) as u16)
                        && final(self).pos() == dend
                } else {
                    r == Err::<u16, Error>(Error::NotFound) && final(self).pos() == start
                }
            }),
    {
        let ghost s = self.data@;
        let start = self.pos;
        let len = self.data.len();
        let mut i = start;
        let mut acc: u32 = 0;
        let mut overflow = false;
        loop
            invariant
                self.wf(),
                self.data == old(self).data,
                self.pos() == start as int,
                s == self.data@,
                start <= i <= len,
                len == s.len(),
                forall|k: int| start <= k < i ==> is_ascii_digit(s[k]),
                overflow <==> digits_value(s, start as int, i as int) > u16::MAX,
                !overflow ==> acc == digits_value(s, start as int, i as int),
                acc <= u16::MAX,
            ensures
                i == digits_end(s, start as int),
                overflow <==> digits_value(s, start as int, i as int) > u16::MAX,
                !overflow ==> acc == digits_value(s, start as int, i as int),
            decreases len - i,
        {
            if i >= len {
                proof {
                    lemma_digits_end_unique(s, start as int, i as int);
                }
                break;
            }
            let b = *vstd::slice::slice_index_get(self.data, i);
            if !(0x30 <= b && b <= 0x39) {
                proof {
                    lemma_digits_end_unique(s, start as int, i as int);
                }
                break;
            }
            if !overflow {
                let next = acc * 10 + (b - 0x30) as u32;
                if next > u16::MAX as u32 {
                    overflow = true;
                } else {
                    acc = next;
                }
            }
            i = i + 1;
        }
        if i == start || overflow {
            Err(Error::NotFound)
        } else {
            self.pos = i;
            Ok(acc as u16)
        }
    }
}

} // verus!
