//! End-to-end runs over in-memory bzip2 files of newline-delimited JSON
//! posts.

use std::io::Read;

use libtwc::tweet_compiler::process_file;
use libtwc::LanguageMap;
use libtwc::TweetCompiler;

fn bz(text: &str) -> Vec<u8> {
    let mut encoder = bzip2::read::BzEncoder::new(text.as_bytes(), bzip2::Compression::default());
    let mut out = Vec::new();
    encoder.read_to_end(&mut out).unwrap();
    out
}

fn count(m: &LanguageMap, lang: &str, w: &str) -> Option<u64> {
    m.get(&lang.to_string()).and_then(|wm| wm.get(&w.to_string()))
}

#[test]
fn end_to_end_two_posts_threshold_one() {
    let file = bz(
        "{\"lang\":\"en\",\"text\":\"hello world hello\"}\n{\"lang\":\"en\",\"text\":\"@bob hello\"}\n",
    );
    let table = TweetCompiler::new(vec![file]).with_threshold(1).compile();
    // two from the first post, one from the second; the mention is dropped
    assert_eq!(count(&table, "en", "hello"), Some(3));
    assert_eq!(count(&table, "en", "world"), Some(1));
    assert_eq!(count(&table, "en", "@bob"), None);
    assert_eq!(table.num_languages(), 1);
    assert_eq!(table.get(&"en".to_string()).unwrap().num_words(), 2);
}

#[test]
fn end_to_end_two_posts_threshold_two() {
    let file = bz(
        "{\"lang\":\"en\",\"text\":\"hello world hello\"}\n{\"lang\":\"en\",\"text\":\"@bob hello\"}\n",
    );
    let table = TweetCompiler::new(vec![file]).with_threshold(2).compile();
    assert_eq!(count(&table, "en", "hello"), Some(3));
    assert_eq!(count(&table, "en", "world"), None);
    assert_eq!(table.get(&"en".to_string()).unwrap().num_words(), 1);
}

#[test]
fn corrupt_file_is_skipped_not_fatal() {
    let good = bz("{\"lang\":\"en\",\"text\":\"good words here\"}\n");
    let corrupt = b"this is not a bzip2 stream".to_vec();
    let table = TweetCompiler::new(vec![good.clone(), corrupt])
        .with_threshold(1)
        .compile();
    let alone = TweetCompiler::new(vec![good]).with_threshold(1).compile();
    for t in [&table, &alone] {
        assert_eq!(count(t, "en", "good"), Some(1));
        assert_eq!(count(t, "en", "words"), Some(1));
        assert_eq!(count(t, "en", "here"), Some(1));
        assert_eq!(t.num_languages(), 1);
    }
}

#[test]
fn process_file_rejects_corrupt_streams() {
    assert!(process_file(&b"garbage".to_vec()).is_none());
}

#[test]
fn process_file_skips_malformed_lines() {
    let mut text = String::new();
    text.push_str("{\"lang\":\"en\",\"text\":\"hi there\"}\n");
    text.push_str("this line is not json\n");
    text.push_str("{\"lang\":\"en\"}\n");
    text.push_str("{\"lang\":\"en\",\"text\":7}\n");
    let file = bz(&text);
    let tweets = process_file(&file).unwrap();
    assert_eq!(tweets.len(), 1);
    assert_eq!(tweets[0].lang, "en");
    assert_eq!(tweets[0].text, "hi there");
}

#[test]
fn languages_are_kept_apart() {
    let file = bz(
        "{\"lang\":\"en\",\"text\":\"water water\"}\n{\"lang\":\"de\",\"text\":\"wasser\"}\n",
    );
    let table = TweetCompiler::new(vec![file]).with_threshold(1).compile();
    assert_eq!(count(&table, "en", "water"), Some(2));
    assert_eq!(count(&table, "de", "wasser"), Some(1));
    assert_eq!(count(&table, "de", "water"), None);
}

#[test]
fn tokens_are_cleaned_before_counting() {
    let file = bz("{\"lang\":\"en\",\"text\":\"\\\"hello,\\\" hello!\"}\n");
    let table = TweetCompiler::new(vec![file]).with_threshold(1).compile();
    assert_eq!(count(&table, "en", "hello"), Some(2));
}

#[test]
fn default_threshold_prunes_below_one_hundred() {
    let mut text = String::new();
    for _ in 0..99 {
        text.push_str("{\"lang\":\"en\",\"text\":\"frequent seldom\"}\n");
    }
    let most = bz(&text);
    let once = bz("{\"lang\":\"en\",\"text\":\"frequent\"}\n");
    let table = TweetCompiler::new(vec![most, once]).compile();
    assert_eq!(count(&table, "en", "frequent"), Some(100));
    assert_eq!(count(&table, "en", "seldom"), None);
    assert_eq!(table.get(&"en".to_string()).unwrap().num_words(), 1);
}

#[test]
fn no_files_yield_an_empty_table() {
    let table = TweetCompiler::new(Vec::new()).compile();
    assert_eq!(table.num_languages(), 0);
}

#[test]
fn multi_space_runs_and_noise_leave_nothing() {
    let file = bz("{\"lang\":\"en\",\"text\":\"RT  @who   123 ?! http://t.co/x\"}\n");
    let table = TweetCompiler::new(vec![file]).with_threshold(1).compile();
    // the language entry exists, but every token was rejected
    assert_eq!(table.num_languages(), 1);
    assert_eq!(table.get(&"en".to_string()).unwrap().num_words(), 0);
}
