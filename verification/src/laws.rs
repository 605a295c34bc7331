//! The invariants the shattering engine guarantees, stated and proved
//! over the functional model that `parse` is verified against: the shard
//! extents tile the input with no gaps and no overlaps, concatenating
//! them reproduces the input, no text shard is empty, re-scanning a
//! reconstruction is idempotent, and a `#` glued to a letter or digit
//! never starts a token (away from the seam right after a token, where
//! tokens may stand back to back).

use vstd::prelude::*;

use crate::cursor::is_ascii_digit;
use crate::shard::{
    byte_is_left_boundary, char_is_boundary, flushed, left_boundary_at, mention_at, mention_end,
    scan_end, shard_end, shard_start, shatter, shatter_from, text_shard, Shard,
};
use crate::shard::{lemma_scan_end, ByteSlice, Mention};

verus! {

/// Shard extents tile `[from, to)`: the first starts at `from`, each
/// shard ends exactly where the next begins, and the last ends at `to`.
pub open spec fn tiles(shards: Seq<Shard>, from: int, to: int) -> bool {
    &&& from <= to
    &&& (shards.len() == 0 ==> from == to)
    &&& (shards.len() > 0 ==> shard_start(shards[0]) == from && shard_end(
        shards[shards.len() - 1],
    ) == to)
    &&& forall|k: int|
        0 <= k < shards.len() ==> from <= shard_start(#[trigger] shards[k]) <= shard_end(shards[k])
            <= to
    &&& forall|k: int|
        0 <= k && k + 1 < shards.len() ==> shard_end(shards[k]) == shard_start(shards[k + 1])
}

/// The bytes of the buffer that one shard accounts for.
pub open spec fn shard_bytes(s: Seq<u8>, sh: Shard) -> Seq<u8> {
    s.subrange(shard_start(sh), shard_end(sh))
}

/// The bytes of every shard, concatenated in sequence order.
pub open spec fn reconstruct(s: Seq<u8>, shards: Seq<Shard>) -> Seq<u8>
    decreases shards.len(),
{
    if shards.len() == 0 {
        Seq::<u8>::empty()
    } else {
        shard_bytes(s, shards[0]) + reconstruct(s, shards.drop_first())
    }
}

/// Two tilings that meet at `mid` tile the combined range.
proof fn lemma_tiles_compose(a: Seq<Shard>, b: Seq<Shard>, from: int, mid: int, to: int)
    requires
        tiles(a, from, mid),
        tiles(b, mid, to),
    ensures
        tiles(a + b, from, to),
{
    let ab = a + b;
    assert(forall|k: int| 0 <= k < a.len() ==> ab[k] == a[k]);
    assert(forall|k: int| a.len() <= k < ab.len() ==> ab[k] == b[k - a.len()]);
}

/// The single shard `sh` tiles its own extent.
proof fn lemma_tiles_single(sh: Shard, from: int, to: int)
    requires
        shard_start(sh) == from,
        shard_end(sh) == to,
        from <= to,
    ensures
        tiles(seq![sh], from, to),
{
}

/// A flushed text run tiles exactly the run it covers.
proof fn lemma_tiles_flushed(run_start: int, upto: int)
    requires
        0 <= run_start <= upto <= u32::MAX,
    ensures
        tiles(flushed(run_start, upto), run_start, upto),
{
    if run_start < upto {
        lemma_tiles_single(text_shard(run_start, upto), run_start, upto);
    }
}

/// The engine's output from position `i` with a pending run from
/// `run_start` tiles everything from `run_start` to the end of the buffer.
proof fn lemma_shatter_from_tiles(s: Seq<u8>, i: int, run_start: int)
    requires
        0 <= run_start <= i <= s.len(),
        s.len() <= u32::MAX,
    ensures
        tiles(shatter_from(s, i, run_start), run_start, s.len() as int),
    decreases s.len() - i,
{
    let n = s.len() as int;
    if i >= n {
        lemma_tiles_flushed(run_start, n);
    } else if s[i] == 0x23u8 && (i == run_start || left_boundary_at(s, i)) {
        let hend = scan_end(s, i + 1);
        lemma_scan_end(s, i + 1);
        if hend > i + 1 {
            let ht = Shard::Hashtag(
                ByteSlice { pos: (i + 1) as u32, len: (hend - (i + 1)) as u32 },
            );
            lemma_tiles_flushed(run_start, i);
            lemma_tiles_single(ht, i, hend);
            lemma_tiles_compose(flushed(run_start, i), seq![ht], run_start, i, hend);
            lemma_shatter_from_tiles(s, hend, hend);
            lemma_tiles_compose(
                flushed(run_start, i) + seq![ht],
                shatter_from(s, hend, hend),
                run_start,
                hend,
                n,
            );
        } else if mention_at(s, i + 1) {
            let mend = mention_end(s, i + 1);
            crate::cursor::lemma_digits_end_bounds(s, i + 2);
            let mn = Shard::Mention(
                ByteSlice { pos: i as u32, len: (mend - i) as u32 },
                Mention::Index(crate::shard::mention_index(s, i + 1)),
            );
            lemma_tiles_flushed(run_start, i);
            lemma_tiles_single(mn, i, mend);
            lemma_tiles_compose(flushed(run_start, i), seq![mn], run_start, i, mend);
            lemma_shatter_from_tiles(s, mend, mend);
            lemma_tiles_compose(
                flushed(run_start, i) + seq![mn],
                shatter_from(s, mend, mend),
                run_start,
                mend,
                n,
            );
        } else {
            lemma_shatter_from_tiles(s, i + 1, run_start);
        }
    } else {
        lemma_shatter_from_tiles(s, i + 1, run_start);
    }
}

/// In a tiling, no shard after the first begins before the first ends.
proof fn lemma_tiles_lower(shards: Seq<Shard>, from: int, to: int, k: int)
    requires
        tiles(shards, from, to),
        1 <= k < shards.len(),
    ensures
        shard_end(shards[0]) <= shard_start(shards[k]),
    decreases k,
{
    if k > 1 {
        lemma_tiles_lower(shards, from, to, k - 1);
    }
}

/// What remains after a tiling's first shard tiles the rest of the range.
proof fn lemma_tiles_tail(shards: Seq<Shard>, from: int, to: int)
    requires
        tiles(shards, from, to),
        shards.len() > 0,
    ensures
        tiles(shards.drop_first(), shard_end(shards[0]), to),
{
    let mid = shard_end(shards[0]);
    let tail = shards.drop_first();
    assert(forall|k: int| 0 <= k < tail.len() ==> tail[k] == shards[k + 1]);
    assert forall|k: int| 0 <= k < tail.len() implies mid <= shard_start(#[trigger] tail[k]) by {
        lemma_tiles_lower(shards, from, to, k + 1);
    }
}

/// Concatenating the bytes of a tiling of `[from, to)` yields exactly
/// the bytes `[from, to)` of the buffer.
#[verifier::rlimit(50)]
proof fn lemma_tiles_reconstruct(s: Seq<u8>, shards: Seq<Shard>, from: int, to: int)
    requires
        tiles(shards, from, to),
        0 <= from,
        to <= s.len(),
    ensures
        reconstruct(s, shards) == s.subrange(from, to),
    decreases shards.len(),
{
    if shards.len() == 0 {
        assert(s.subrange(from, to) =~= Seq::<u8>::empty());
    } else {
        let mid = shard_end(shards[0]);
        let tail = shards.drop_first();
        lemma_tiles_tail(shards, from, to);
        lemma_tiles_reconstruct(s, tail, mid, to);
        assert(s.subrange(from, to) =~= s.subrange(from, mid) + s.subrange(mid, to));
    }
}

/// Every position inside a tiled range lies in some shard's extent.
proof fn lemma_tiles_locate(shards: Seq<Shard>, from: int, to: int, p: int)
    requires
        tiles(shards, from, to),
        from <= p < to,
    ensures
        exists|k: int|
            0 <= k < shards.len() && shard_start(#[trigger] shards[k]) <= p < shard_end(shards[k]),
    decreases shards.len(),
{
    let tail = shards.drop_first();
    let mid = shard_end(shards[0]);
    if p < mid {
        assert(shard_start(shards[0]) <= p < shard_end(shards[0]));
    } else {
        lemma_tiles_tail(shards, from, to);
        lemma_tiles_locate(tail, mid, to, p);
        let k = choose|k: int|
            0 <= k < tail.len() && shard_start(#[trigger] tail[k]) <= p < shard_end(tail[k]);
        assert(shards[k + 1] == tail[k]);
        assert(shard_start(shards[k + 1]) <= p < shard_end(shards[k + 1]));
    }
}

/// Coverage: concatenating the bytes referenced by each shard's extent,
/// in sequence order, reproduces the original input byte for byte; and
/// the extents tile the whole input with no gaps and no overlaps.
pub proof fn lemma_coverage(s: Seq<u8>)
    requires
        s.len() <= u32::MAX,
    ensures
        reconstruct(s, shatter(s)) == s,
        tiles(shatter(s), 0, s.len() as int),
{
    lemma_shatter_from_tiles(s, 0, 0);
    lemma_tiles_reconstruct(s, shatter(s), 0, s.len() as int);
    assert(s.subrange(0, s.len() as int) =~= s);
}

/// Non-overlap and monotonic spans: every shard's extent ends exactly
/// where the next shard's extent begins.
pub proof fn lemma_adjacent_spans(s: Seq<u8>)
    requires
        s.len() <= u32::MAX,
    ensures
        forall|k: int|
            0 <= k && k + 1 < shatter(s).len() ==> shard_end(shatter(s)[k]) == shard_start(
                shatter(s)[k + 1],
            ),
{
    lemma_shatter_from_tiles(s, 0, 0);
}

/// No text shard the engine emits from position `i` is empty.
proof fn lemma_shatter_from_no_empty_text(s: Seq<u8>, i: int, run_start: int)
    requires
        0 <= run_start <= i <= s.len(),
        s.len() <= u32::MAX,
    ensures
        forall|k: int|
            0 <= k < shatter_from(s, i, run_start).len() ==> (#[trigger] shatter_from(
                s,
                i,
                run_start,
            )[k] matches Shard::Text(bs) ==> bs.len > 0),
    decreases s.len() - i,
{
    let n = s.len() as int;
    if i >= n {
    } else if s[i] == 0x23u8 && (i == run_start || left_boundary_at(s, i)) {
        let hend = scan_end(s, i + 1);
        lemma_scan_end(s, i + 1);
        if hend > i + 1 {
            lemma_shatter_from_no_empty_text(s, hend, hend);
        } else if mention_at(s, i + 1) {
            crate::cursor::lemma_digits_end_bounds(s, i + 2);
            lemma_shatter_from_no_empty_text(s, mention_end(s, i + 1), mention_end(s, i + 1));
        } else {
            lemma_shatter_from_no_empty_text(s, i + 1, run_start);
        }
    } else {
        lemma_shatter_from_no_empty_text(s, i + 1, run_start);
    }
}

/// No empty text: no text shard the engine emits has zero length
/// (zero-length runs are elided).
pub proof fn lemma_no_empty_text(s: Seq<u8>)
    requires
        s.len() <= u32::MAX,
    ensures
        forall|k: int|
            0 <= k < shatter(s).len() ==> (#[trigger] shatter(s)[k] matches Shard::Text(bs)
                ==> bs.len > 0),
{
    lemma_shatter_from_no_empty_text(s, 0, 0);
}

/// Idempotence of re-scan: running the engine on the text reconstructed
/// from a shard sequence yields the identical shard sequence.
pub proof fn lemma_rescan_idempotent(s: Seq<u8>)
    requires
        s.len() <= u32::MAX,
    ensures
        shatter(reconstruct(s, shatter(s))) == shatter(s),
{
    lemma_coverage(s);
}

/// Whether some hashtag or mention shard of `shards` ends its extent at
/// `p` — the seam where a new token may begin with no left boundary.
pub open spec fn token_ends_at(shards: Seq<Shard>, p: int) -> bool {
    exists|k: int|
        0 <= k < shards.len() && (shards[k] is Hashtag || shards[k] is Mention) && shard_end(
            #[trigger] shards[k],
        ) == p
}

/// Away from token seams, no token the engine emits starts at a position
/// `p` that is not a left boundary.
proof fn lemma_gating_from(s: Seq<u8>, i: int, run_start: int, p: int)
    requires
        0 <= run_start <= i <= s.len(),
        s.len() <= u32::MAX,
        !left_boundary_at(s, p),
        i == run_start ==> p != i,
        !token_ends_at(shatter_from(s, i, run_start), p),
    ensures
        forall|k: int|
            0 <= k < shatter_from(s, i, run_start).len() ==> ((#[trigger] shatter_from(
                s,
                i,
                run_start,
            )[k] is Hashtag || shatter_from(s, i, run_start)[k] is Mention) ==> shard_start(
                shatter_from(s, i, run_start)[k],
            ) != p),
    decreases s.len() - i, 0int,
{
    let out = shatter_from(s, i, run_start);
    let n = s.len() as int;
    if i >= n {
    } else if s[i] == 0x23u8 && (i == run_start || left_boundary_at(s, i)) {
        let hend = scan_end(s, i + 1);
        lemma_scan_end(s, i + 1);
        if hend > i + 1 {
            let tok = Shard::Hashtag(
                ByteSlice { pos: (i + 1) as u32, len: (hend - (i + 1)) as u32 },
            );
            lemma_gating_step(s, i, run_start, p, tok, hend);
        } else if mention_at(s, i + 1) {
            let mend = mention_end(s, i + 1);
            crate::cursor::lemma_digits_end_bounds(s, i + 2);
            let tok = Shard::Mention(
                ByteSlice { pos: i as u32, len: (mend - i) as u32 },
                Mention::Index(crate::shard::mention_index(s, i + 1)),
            );
            lemma_gating_step(s, i, run_start, p, tok, mend);
        } else {
            lemma_gating_from(s, i + 1, run_start, p);
        }
    } else {
        lemma_gating_from(s, i + 1, run_start, p);
    }
}

/// One recognized token step of `lemma_gating_from`: the token itself
/// does not start at `p`, and neither does anything after it.
proof fn lemma_gating_step(s: Seq<u8>, i: int, run_start: int, p: int, tok: Shard, tend: int)
    requires
        0 <= run_start <= i < s.len(),
        s.len() <= u32::MAX,
        !left_boundary_at(s, p),
        i == run_start ==> p != i,
        !token_ends_at(shatter_from(s, i, run_start), p),
        i == run_start || left_boundary_at(s, i),
        shatter_from(s, i, run_start) == flushed(run_start, i) + seq![tok] + shatter_from(
            s,
            tend,
            tend,
        ),
        tok is Hashtag || tok is Mention,
        shard_start(tok) == i,
        shard_end(tok) == tend,
        i < tend <= s.len(),
    ensures
        forall|k: int|
            0 <= k < shatter_from(s, i, run_start).len() ==> ((#[trigger] shatter_from(
                s,
                i,
                run_start,
            )[k] is Hashtag || shatter_from(s, i, run_start)[k] is Mention) ==> shard_start(
                shatter_from(s, i, run_start)[k],
            ) != p),
    decreases s.len() - tend, 1int,
{
    let out = shatter_from(s, i, run_start);
    let pre = flushed(run_start, i) + seq![tok];
    let rest = shatter_from(s, tend, tend);
    assert(out[pre.len() - 1] == tok);
    if tend == p {
        assert(token_ends_at(out, p));
    }
    if token_ends_at(rest, p) {
        let k = choose|k: int|
            0 <= k < rest.len() && (rest[k] is Hashtag || rest[k] is Mention) && shard_end(
                #[trigger] rest[k],
            ) == p;
        assert(out[pre.len() + k] == rest[k]);
        assert(token_ends_at(out, p));
    }
    lemma_gating_from(s, tend, tend, p);
    // the token itself: it starts at i, and i is no left boundary only on
    // the seam i == run_start, where p != i is given
    assert(shard_start(tok) != p);
    assert forall|k: int|
        0 <= k < out.len() && (out[k] is Hashtag || out[k] is Mention) implies shard_start(
        out[k],
    ) != p by {
        if k >= pre.len() {
            assert(out[k] == rest[k - pre.len()]);
        } else if k < pre.len() - 1 {
            assert(out[k] == flushed(run_start, i)[k]);
        } else {
            assert(out[k] == tok);
        }
    }
}

/// The shape of what the engine emits as a token: a hashtag body holds no
/// boundary character, a mention span reads `#`, `[`, digits, `]`, and a
/// `Url` shard is never produced by the recognizers specified here.
pub open spec fn token_wf(s: Seq<u8>, sh: Shard) -> bool {
    match sh {
        Shard::Text(_) => true,
        Shard::Hashtag(bs) => forall|q: int|
            bs.pos <= q < bs.pos + bs.len ==> !char_is_boundary(s[q] as char),
        Shard::Mention(bs, _) => {
            &&& bs.len >= 4
            &&& s[bs.pos as int] == 0x23u8
            &&& s[bs.pos + 1] == 0x5bu8
            &&& s[bs.pos + bs.len - 1] == 0x5du8
            &&& forall|q: int| bs.pos + 1 < q < bs.pos + bs.len - 1 ==> is_ascii_digit(s[q])
        },
        Shard::Url(_) => false,
    }
}

/// Every shard the engine emits is well shaped.
proof fn lemma_shatter_from_tokens_wf(s: Seq<u8>, i: int, run_start: int)
    requires
        0 <= run_start <= i <= s.len(),
        s.len() <= u32::MAX,
    ensures
        forall|k: int|
            0 <= k < shatter_from(s, i, run_start).len() ==> token_wf(
                s,
                #[trigger] shatter_from(s, i, run_start)[k],
            ),
    decreases s.len() - i,
{
    let n = s.len() as int;
    let out = shatter_from(s, i, run_start);
    if i >= n {
    } else if s[i] == 0x23u8 && (i == run_start || left_boundary_at(s, i)) {
        let hend = scan_end(s, i + 1);
        lemma_scan_end(s, i + 1);
        if hend > i + 1 {
            let ht = Shard::Hashtag(
                ByteSlice { pos: (i + 1) as u32, len: (hend - (i + 1)) as u32 },
            );
            assert(token_wf(s, ht));
            lemma_shatter_from_tokens_wf(s, hend, hend);
            lemma_tokens_wf_step(s, i, run_start, ht, hend);
        } else if mention_at(s, i + 1) {
            let mend = mention_end(s, i + 1);
            crate::cursor::lemma_digits_end_bounds(s, i + 2);
            crate::cursor::lemma_digits_end_digits(s, i + 2);
            let mn = Shard::Mention(
                ByteSlice { pos: i as u32, len: (mend - i) as u32 },
                Mention::Index(crate::shard::mention_index(s, i + 1)),
            );
            assert(token_wf(s, mn));
            lemma_shatter_from_tokens_wf(s, mend, mend);
            lemma_tokens_wf_step(s, i, run_start, mn, mend);
        } else {
            lemma_shatter_from_tokens_wf(s, i + 1, run_start);
            assert forall|k: int| 0 <= k < out.len() implies token_wf(s, #[trigger] out[k]) by {
                assert(out[k] == shatter_from(s, i + 1, run_start)[k]);
            }
        }
    } else {
        lemma_shatter_from_tokens_wf(s, i + 1, run_start);
        assert forall|k: int| 0 <= k < out.len() implies token_wf(s, #[trigger] out[k]) by {
            assert(out[k] == shatter_from(s, i + 1, run_start)[k]);
        }
    }
}

/// One recognized token step of `lemma_shatter_from_tokens_wf`: splice
/// the flushed run, the token, and what follows back together.
proof fn lemma_tokens_wf_step(s: Seq<u8>, i: int, run_start: int, tok: Shard, tend: int)
    requires
        0 <= run_start <= i <= s.len(),
        token_wf(s, tok),
        shatter_from(s, i, run_start) == flushed(run_start, i) + seq![tok] + shatter_from(
            s,
            tend,
            tend,
        ),
        forall|k: int|
            0 <= k < shatter_from(s, tend, tend).len() ==> token_wf(
                s,
                #[trigger] shatter_from(s, tend, tend)[k],
            ),
    ensures
        forall|k: int|
            0 <= k < shatter_from(s, i, run_start).len() ==> token_wf(
                s,
                #[trigger] shatter_from(s, i, run_start)[k],
            ),
{
    let out = shatter_from(s, i, run_start);
    let pre = flushed(run_start, i) + seq![tok];
    let rest = shatter_from(s, tend, tend);
    assert forall|k: int| 0 <= k < out.len() implies token_wf(s, #[trigger] out[k]) by {
        if k >= pre.len() {
            assert(out[k] == rest[k - pre.len()]);
        } else if k < pre.len() - 1 {
            assert(out[k] == flushed(run_start, i)[k]);
            assert(out[k] is Text);
        } else {
            assert(out[k] == tok);
        }
    }
}

/// True of ASCII letters and digits.
pub open spec fn byte_is_ascii_alphanumeric(b: u8) -> bool {
    ||| 0x30 <= b <= 0x39
    ||| 0x41 <= b <= 0x5a
    ||| 0x61 <= b <= 0x7a
}

/// Left-boundary gating: a `#` immediately preceded by an ASCII letter or
/// digit never starts a hashtag or mention — it is absorbed into the
/// surrounding text run. The one exception is the seam where a recognized
/// token just ended: there a new token may begin whatever byte stands
/// before it (two hashtags back to back), so such positions are left out.
pub proof fn lemma_left_boundary_gating(s: Seq<u8>, i: int)
    requires
        s.len() <= u32::MAX,
        0 < i < s.len(),
        s[i] == 0x23u8,
        byte_is_ascii_alphanumeric(s[i - 1]),
        !token_ends_at(shatter(s), i),
    ensures
        forall|k: int|
            0 <= k < shatter(s).len() ==> ((#[trigger] shatter(s)[k] is Hashtag || shatter(
                s,
            )[k] is Mention) ==> shard_start(shatter(s)[k]) != i),
{
    assert(!byte_is_left_boundary(s[i - 1]));
    assert(!left_boundary_at(s, i));
    lemma_gating_from(s, 0, 0, i);
}

/// The other half of left-boundary gating: the gated `#` is absorbed into
/// the surrounding text run — the shard whose extent covers it is a text
/// shard.
pub proof fn lemma_gated_hash_in_text(s: Seq<u8>, i: int)
    requires
        s.len() <= u32::MAX,
        0 < i < s.len(),
        s[i] == 0x23u8,
        byte_is_ascii_alphanumeric(s[i - 1]),
        !token_ends_at(shatter(s), i),
    ensures
        exists|k: int|
            0 <= k < shatter(s).len() && (#[trigger] shatter(s)[k]) is Text && shard_start(
                shatter(s)[k],
            ) <= i < shard_end(shatter(s)[k]),
{
    let out = shatter(s);
    lemma_left_boundary_gating(s, i);
    lemma_shatter_from_tiles(s, 0, 0);
    lemma_shatter_from_tokens_wf(s, 0, 0);
    lemma_tiles_locate(out, 0, s.len() as int, i);
    let k = choose|k: int|
        0 <= k < out.len() && shard_start(#[trigger] out[k]) <= i < shard_end(out[k]);
    match out[k] {
        Shard::Text(_) => {},
        Shard::Hashtag(bs) => {
            // the sigil position is ruled out by the gating law, and a
            // body position cannot hold `#`, a boundary character
            assert(shard_start(out[k]) != i);
            assert(bs.pos <= i < bs.pos + bs.len);
            assert(!char_is_boundary(s[i] as char));
            assert(char_is_boundary(0x23u8 as char));
        },
        Shard::Mention(bs, _) => {
            assert(shard_start(out[k]) != i);
            assert(bs.pos < i < bs.pos + bs.len);
            if i == bs.pos + 1 {
                assert(s[i] == 0x5bu8);
            } else if i == bs.pos + bs.len - 1 {
                assert(s[i] == 0x5du8);
            } else {
                assert(is_ascii_digit(s[i]));
            }
        },
        Shard::Url(_) => {},
    }
}

} // verus!
