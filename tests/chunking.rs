use local_searcher::chunking::{chunk_text, hard_split, segment_sentences};
use local_searcher::text::normalize_ws;

fn char_len(s: &str) -> usize {
    s.chars().count()
}

#[test]
fn hard_split_long_sentence_ascii() {
    let s = "In the Sicilian Defense, Black immediately fights for control of the center \
             by advancing the c-pawn, creating an asymmetrical structure that often leads \
             to sharp, unbalanced middlegames where precise calculation matters.";
    let max = 40;

    let parts = hard_split(s, max);

    assert!(!parts.is_empty(), "should produce at least one part");

    for (i, p) in parts.iter().enumerate() {
        assert!(
            !p.is_empty(),
            "part #{i} should be non-empty"
        );
        assert!(
            char_len(p) <= max,
            "part #{i} too long: {} > {max}",
            char_len(p)
        );
    }

    let joined = parts.concat();
    assert_eq!(joined, s, "joining parts should reconstruct the input");
}

#[test]
fn hard_split_very_long_sentence_reconstructs_exactly() {
    let s = "This is a deliberately long sentence designed to exceed typical chunk limits, \
             containing multiple clauses, commas, and descriptive phrases so that we can \
             validate that hard_split preserves every character in the original string, \
             in the correct order, without dropping or duplicating anything.";
    let max = 25;

    let parts = hard_split(s, max);

    // expect multiple pieces
    assert!(parts.len() >= 3, "should split into multiple parts");

    let joined = parts.concat();
    assert_eq!(joined, s);

    // sanity: first part is exactly max chars unless the string is shorter
    assert_eq!(char_len(&parts[0]), max.min(char_len(s)));
}

#[test]
fn hard_split_handles_unicode_safely() {
    // Contains Unicode characters (em dash, accented, CJK, emoji)
    let s = "Unicode test â€” naÃ¯ve cafÃ© ä¸­æ–‡æ¸¬è©¦ ðŸ™‚. \
             We want to ensure splitting respects UTF-8 boundaries and preserves content.";
    let max = 20;

    let parts = hard_split(s, max);

    assert!(!parts.is_empty());

    for (i, p) in parts.iter().enumerate() {
        assert!(
            char_len(p) <= max,
            "unicode part #{i} too long: {} > {max}",
            char_len(p)
        );
    }

    let joined = parts.concat();
    assert_eq!(joined, s);
}

#[test]
fn hard_split_max_chars_one_splits_into_single_chars() {
    let s = "Longer sentence to test max_chars=1 behavior!";
    let parts = hard_split(s, 1);

    assert_eq!(parts.len(), char_len(s));
    for p in &parts {
        assert_eq!(char_len(p), 1);
    }

    assert_eq!(parts.concat(), s);
}

#[test]
fn hard_split_empty_gives_nothing() {
    assert!(hard_split("", 5).is_empty());
}

#[test]
fn hard_split_fitting_text_is_one_piece() {
    assert_eq!(hard_split("héllo", 5), vec!["héllo"]);
    assert_eq!(hard_split("héllo", 9), vec!["héllo"]);
}

#[test]
fn hard_split_exact_pieces() {
    assert_eq!(hard_split("abcdefg", 3), vec!["abc", "def", "g"]);
    assert_eq!(hard_split("ä中🙂ö", 2), vec!["ä中", "🙂ö"]);
}

#[test]
fn hard_split_single_chars_count() {
    let s = "añ🙂 b";
    let parts = hard_split(s, 1);
    assert_eq!(parts, vec!["a", "ñ", "🙂", " ", "b"]);
    assert_eq!(parts.len(), s.chars().count());
}

#[test]
fn normalize_ws_collapses_and_trims() {
    assert_eq!(normalize_ws("  a\n\t b  c \u{3000}"), "a b c");
    assert_eq!(normalize_ws("   "), "");
    assert_eq!(normalize_ws(""), "");
}

#[test]
fn segment_two_sentences_and_remainder() {
    let seg = segment_sentences("Hello world. This is a test! Remainder with no period");
    assert_eq!(seg.sentences, vec!["Hello world.", "This is a test!"]);
    assert_eq!(seg.remainder, "Remainder with no period");
}

#[test]
fn segment_normalizes_bodies_and_keeps_punctuation_runs() {
    let seg = segment_sentences("What\n  now?!  Fine...\nv1.2 is out.");
    assert_eq!(seg.sentences, vec!["What now?!", "Fine...", "v1.2 is out."]);
    assert_eq!(seg.remainder, "");
}

#[test]
fn segment_drops_empty_bodies() {
    let seg = segment_sentences("  . Next one! tail  ");
    assert_eq!(seg.sentences, vec!["Next one!"]);
    assert_eq!(seg.remainder, "tail");
}

#[test]
fn segment_without_punctuation_is_all_remainder() {
    let seg = segment_sentences("  no end here  ");
    assert!(seg.sentences.is_empty());
    assert_eq!(seg.remainder, "no end here");
}

#[test]
fn chunk_text_splits_long_sentences() {
    let chunks = chunk_text("Short one. A much longer sentence here! rest", 10);
    assert_eq!(
        chunks,
        vec!["Short one.", "A much lon", "ger senten", "ce here!", "rest"]
    );
}

#[test]
fn chunk_text_bounds_and_reconstructs_pieces() {
    let text = "Unicode — naïve café 中文測試 🙂. Another fairly long sentence follows here? end";
    let max = 7;
    let chunks = chunk_text(text, max);
    for c in &chunks {
        assert!(char_len(c) <= max);
        assert!(!c.is_empty());
    }
    let seg = segment_sentences(text);
    let mut pieces = seg.sentences.concat();
    pieces.push_str(&seg.remainder);
    assert_eq!(chunks.concat(), pieces);
}

#[test]
fn chunk_text_empty_document() {
    assert!(chunk_text("", 5).is_empty());
    assert!(chunk_text(" \n ", 5).is_empty());
}
