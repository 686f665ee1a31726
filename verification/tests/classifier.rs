//! Qualification and cleanup behaviour on concrete tokens: one trigger and
//! one near miss per classifier rule, and cleanup samples.

use libtwc::cleanup_word;
use libtwc::word_qualifies;

fn q(s: &str) -> bool {
    word_qualifies(&s.to_string())
}

#[test]
fn rejects_empty_and_single_char() {
    assert!(!q(""));
    assert!(!q("a"));
    assert!(!q("\u{1F600}"));
    assert!(q("ab"));
}

#[test]
fn rejects_mentions() {
    assert!(!q("@alice"));
    assert!(q("alice"));
}

#[test]
fn rejects_hashtags() {
    assert!(!q("#trending"));
    assert!(q("trending"));
}

#[test]
fn rejects_urls_by_prefix() {
    assert!(!q("http://x.co"));
    assert!(!q("https://example.com/a b"));
    assert!(!q("ftp://host"));
    assert!(!q("sftp://host"));
    assert!(!q("data:text/plain,hi"));
    assert!(q("x.co"));
}

#[test]
fn rejects_urls_the_strict_parser_accepts() {
    // no listed prefix, but a well-formed absolute URL
    assert!(!q("mailto:someone@example.com"));
    // no scheme at all: the parser refuses it, so the token is kept
    assert!(q("example.com"));
}

#[test]
fn rejects_numeric_strings() {
    assert!(!q("123"));
    assert!(!q("\u{0661}\u{0662}\u{0663}"));
    assert!(q("12a"));
}

#[test]
fn rejects_emoji_strings() {
    assert!(!q("\u{1F600}\u{1F601}"));
    assert!(!q("\u{1F3FB}\u{1F3FC}"));
    assert!(q("\u{1F600}x"));
}

#[test]
fn rejects_control_strings() {
    assert!(!q("\u{1}\u{2}"));
    assert!(q("\u{1}a"));
}

#[test]
fn rejects_html_escapes() {
    assert!(!q("&amp;"));
    assert!(!q("&gt;"));
    assert!(q("&amp"));
}

#[test]
fn rejects_symbol_strings() {
    assert!(!q("!!"));
    assert!(!q("?!<>"));
    assert!(q("!a"));
}

#[test]
fn rejects_zalgo_text() {
    // four combining marks over one base letter: 80% marks
    assert!(!q("a\u{0300}\u{0301}\u{0302}\u{0303}"));
    // two marks over two base letters: 50% marks, kept
    assert!(q("ab\u{0300}\u{0301}"));
}

#[test]
fn rejects_retweet_marker() {
    assert!(!q("RT"));
    assert!(q("Rt"));
    assert!(q("RTs"));
}

#[test]
fn cleanup_trims_quotes_then_symbols() {
    assert_eq!(cleanup_word("\"hello,\""), "hello");
    assert_eq!(cleanup_word("\u{201E}hi\u{201C}"), "hi");
    assert_eq!(cleanup_word("(hello)"), "hello");
}

#[test]
fn cleanup_trims_whitespace_first() {
    assert_eq!(cleanup_word("  hi!  "), "hi");
    assert_eq!(cleanup_word("\u{3000}word\u{3000}"), "word");
}

#[test]
fn cleanup_leaves_interior_characters() {
    assert_eq!(cleanup_word("don't"), "don't");
    assert_eq!(cleanup_word("a.b"), "a.b");
}

#[test]
fn cleanup_empties_pure_noise() {
    assert_eq!(cleanup_word("..."), "");
    assert_eq!(cleanup_word(""), "");
}

#[test]
fn cleanup_is_idempotent_on_settled_tokens() {
    for s in ["\"hello,\"", "  hi!  ", "don't", "...", "(hello)", "__init__"] {
        let once = cleanup_word(s);
        assert_eq!(cleanup_word(&once), once);
    }
}

#[test]
fn cleanup_second_pass_can_trim_further() {
    // the trailing period shields the quote on the first pass
    let once = cleanup_word("a\".");
    assert_eq!(once, "a\"");
    assert_eq!(cleanup_word(&once), "a");
}
