use shatter::shard::{is_left_boundary, ByteSlice, Mention, Shard, Shards};

#[test]
fn test_is_boundary() {
    let content = "a";
    let cursor = shatter::cursor::Cursor::new(content.as_bytes());
    let res = cursor.peek_previous_byte();
    assert_eq!(is_left_boundary(&res), true);
}

#[test]
fn test_parse_hashtag_basic() {
    let content = "abc #\u{1f60e}";
    let shards = Shards::parse(content).unwrap();
    let bs = shards.shards;
    assert_eq!(bs.len(), 2);
    assert_eq!(bs[0], Shard::Text(ByteSlice::new(0, 4)));
    assert_eq!(bs[1], Shard::Hashtag(ByteSlice::new(5, 4)));
}

#[test]
fn test_parse_hashtag_adjacent() {
    let content = "aa#abc";
    let shards = Shards::parse(content).unwrap();
    let bs = shards.shards;
    assert_eq!(bs.len(), 1);
    assert_eq!(bs[0], Shard::Text(ByteSlice::new(0, 6)));
}

#[test]
fn test_parse_hashtag_start() {
    let content = "#abc.";
    let shards = Shards::parse(content).unwrap();
    let bs = shards.shards;
    assert_eq!(bs.len(), 2);
    assert_eq!(bs[0], Shard::Hashtag(ByteSlice::new(1, 3)));
    assert_eq!(bs[1], Shard::Text(ByteSlice::new(4, 1)));
}

#[test]
fn test_parse_hashtag_end() {
    let content = "#abc";
    let shards = Shards::parse(content).unwrap();
    let bs = shards.shards;
    assert_eq!(bs.len(), 1);
    assert_eq!(bs[0], Shard::Hashtag(ByteSlice::new(1, 3)));
}

#[test]
fn test_parse_hashtag_punc_before() {
    let content = ".#abc";
    let shards = Shards::parse(content).unwrap();
    let bs = shards.shards;
    assert_eq!(bs.len(), 2);
    assert_eq!(bs[0], Shard::Text(ByteSlice::new(0, 1)));
    assert_eq!(bs[1], Shard::Hashtag(ByteSlice::new(2, 3)));
}

#[test]
fn test_multiple_hashtags() {
    let content = ".#alice.#bob";
    let shards = Shards::parse(content).unwrap();
    let bs = shards.shards;
    assert_eq!(bs.len(), 4);
    assert_eq!(bs[0], Shard::Text(ByteSlice::new(0, 1)));
    assert_eq!(bs[1], Shard::Hashtag(ByteSlice::new(2, 5)));
    assert_eq!(bs[2], Shard::Text(ByteSlice::new(7, 1)));
    assert_eq!(bs[3], Shard::Hashtag(ByteSlice::new(9, 3)));
}

#[test]
fn test_multiple_adjacent_hashtags() {
    let content = "#alice#bob";
    let shards = Shards::parse(content).unwrap();
    let bs = shards.shards;
    assert_eq!(bs.len(), 2);
    assert_eq!(bs[0], Shard::Hashtag(ByteSlice::new(1, 5)));
    assert_eq!(bs[1], Shard::Hashtag(ByteSlice::new(7, 3)));
}

#[test]
fn test_parse_hashtag_emoji_before() {
    // 00000000: f09f 98a4 2361 6263    ....#abc
    let content = "\u{1f624}#abc";
    let shards = Shards::parse(content).unwrap();
    let bs = shards.shards;
    assert_eq!(bs.len(), 2);
    assert_eq!(bs[0], Shard::Text(ByteSlice::new(0, 4)));
    assert_eq!(bs[1], Shard::Hashtag(ByteSlice::new(5, 3)));
}

#[test]
fn test_parse_mention_basic() {
    let content = "this is #[19] #[1 a mention";
    let shards = Shards::parse(content).unwrap();
    let bs = shards.shards;
    assert_eq!(bs.len(), 3);
    assert_eq!(bs[0], Shard::Text(ByteSlice::new(0, 8)));
    assert_eq!(
        bs[1],
        Shard::Mention(ByteSlice::new(8, 5), Mention::Index(19))
    );
    assert_eq!(bs[2], Shard::Text(ByteSlice::new(13, 14)));
}

#[test]
fn test_parse_mention_adjacent_text() {
    let content = "#[7]x";
    let shards = Shards::parse(content).unwrap();
    let bs = shards.shards;
    assert_eq!(bs.len(), 2);
    assert_eq!(bs[0], Shard::Mention(ByteSlice::new(0, 4), Mention::Index(7)));
    assert_eq!(bs[1], Shard::Text(ByteSlice::new(4, 1)));
}

#[test]
fn test_parse_mention_leading_zeros() {
    let content = "#[007]";
    let shards = Shards::parse(content).unwrap();
    let bs = shards.shards;
    assert_eq!(bs.len(), 1);
    assert_eq!(bs[0], Shard::Mention(ByteSlice::new(0, 6), Mention::Index(7)));
}

#[test]
fn test_parse_mention_index_too_large() {
    // 99999 does not fit a 16-bit index: the `#` falls back to plain text.
    let content = "#[99999]";
    let shards = Shards::parse(content).unwrap();
    let bs = shards.shards;
    assert_eq!(bs.len(), 1);
    assert_eq!(bs[0], Shard::Text(ByteSlice::new(0, 8)));
}

#[test]
fn test_parse_empty() {
    let shards = Shards::parse("").unwrap();
    assert_eq!(shards.shards.len(), 0);
}

#[test]
fn test_parse_lone_hash() {
    let shards = Shards::parse("#").unwrap();
    let bs = shards.shards;
    assert_eq!(bs.len(), 1);
    assert_eq!(bs[0], Shard::Text(ByteSlice::new(0, 1)));
}

#[test]
fn test_parse_hash_at_end() {
    let shards = Shards::parse("abc #").unwrap();
    let bs = shards.shards;
    assert_eq!(bs.len(), 1);
    assert_eq!(bs[0], Shard::Text(ByteSlice::new(0, 5)));
}

#[test]
fn test_digit_before_hash() {
    // a digit on the left is no boundary: the `#` never starts a token
    let shards = Shards::parse("9#x").unwrap();
    let bs = shards.shards;
    assert_eq!(bs.len(), 1);
    assert_eq!(bs[0], Shard::Text(ByteSlice::new(0, 3)));
}

fn reconstruct(content: &str) -> Vec<u8> {
    let data = content.as_bytes();
    let shards = Shards::parse(content).unwrap();
    let mut out: Vec<u8> = Vec::new();
    for shard in &shards.shards {
        match shard {
            Shard::Text(bs) => out.extend_from_slice(bs.bytes(data)),
            // a hashtag's span holds only the body; its `#` sigil stands
            // one byte before it
            Shard::Hashtag(bs) => {
                out.push(b'#');
                out.extend_from_slice(bs.bytes(data));
            }
            Shard::Mention(bs, _) => out.extend_from_slice(bs.bytes(data)),
            Shard::Url(bs) => out.extend_from_slice(bs.bytes(data)),
        }
    }
    out
}

#[test]
fn test_coverage_reconstruction() {
    for content in [
        "abc #\u{1f60e}",
        ".#alice.#bob",
        "#alice#bob",
        "this is #[19] #[1 a mention",
        "aa#abc",
        "## #[3]#tag",
        "",
    ] {
        assert_eq!(reconstruct(content), content.as_bytes());
    }
}

#[test]
fn test_rescan_idempotent() {
    for content in [".#alice.#bob", "this is #[19] #[1 a mention", "x #tag"] {
        let first = Shards::parse(content).unwrap();
        let rebuilt = reconstruct(content);
        let rebuilt_str = std::str::from_utf8(&rebuilt).unwrap();
        let second = Shards::parse(rebuilt_str).unwrap();
        assert_eq!(first.shards, second.shards);
    }
}

#[test]
fn test_no_empty_text_shards() {
    for content in ["#a#b##", ".#alice.#bob", "#[1]#[2]", "# # #", "#tag"] {
        let shards = Shards::parse(content).unwrap();
        for shard in &shards.shards {
            if let Shard::Text(bs) = shard {
                assert!(bs.len > 0);
            }
        }
    }
}

#[test]
fn test_adjacent_extents() {
    // each shard's extent ends exactly where the next begins
    let content = "a #tag b #[5] c";
    let shards = Shards::parse(content).unwrap();
    let extent = |shard: &Shard| -> (u32, u32) {
        match shard {
            Shard::Text(bs) => (bs.pos, bs.pos + bs.len),
            Shard::Hashtag(bs) => (bs.pos - 1, bs.pos + bs.len),
            Shard::Mention(bs, _) => (bs.pos, bs.pos + bs.len),
            Shard::Url(bs) => (bs.pos, bs.pos + bs.len),
        }
    };
    let bs = &shards.shards;
    assert!(bs.len() > 1);
    assert_eq!(extent(&bs[0]).0, 0);
    for k in 0..bs.len() - 1 {
        assert_eq!(extent(&bs[k]).1, extent(&bs[k + 1]).0);
    }
    assert_eq!(extent(&bs[bs.len() - 1]).1, content.len() as u32);
}
