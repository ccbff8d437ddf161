use subslay::compile_symbol_corpus;
use subslay::EmojiStylist;
use subslay::EmojiTransformer;

const GLOVE: &str = "pizza 1.0 0.0\nhappy 0.0 1.0\nlove 0.5 0.5\n";
const EMOJI: &str = "\u{1F355} 0.9 0.1\n\u{1F60A} 0.1 0.9\n\u{2764} 0.5 0.5\n";

fn stylist() -> EmojiStylist {
    let bin = compile_symbol_corpus(GLOVE, EMOJI, false);
    EmojiStylist::new(&bin).expect("Failed to load embeddings")
}

#[test]
fn test_vector_matching_single_word() {
    let stylist = stylist();
    let result = stylist.slay("pizza");
    assert_eq!(result.len(), 1);
    assert_ne!(result[0], "@", "Should return a valid emoji for 'pizza'");
}

#[test]
fn test_vector_matching_multiple_words() {
    let stylist = stylist();
    let result = stylist.slay("happy pizza love");
    assert_eq!(result.len(), 3);
    assert!(result.iter().all(|e| e != "@"), "All words should return valid emojis");
}

#[test]
fn test_empty_input() {
    let stylist = stylist();
    let result = stylist.slay("");
    assert!(result.is_empty());
}

#[test]
fn stylist_picks_nearest_symbol_vector() {
    let stylist = stylist();
    assert_eq!(stylist.slay("pizza"), vec!["\u{1F355}".to_string()]);
    assert_eq!(stylist.slay("happy"), vec!["\u{1F60A}".to_string()]);
}

#[test]
fn stylist_unknown_token_is_placeholder() {
    let stylist = stylist();
    assert_eq!(stylist.slay("sushi"), vec!["@".to_string()]);
}

#[test]
fn output_length_matches_token_count() {
    let stylist = stylist();
    assert_eq!(stylist.slay("pizza, happy!! love??").len(), 3);
    assert_eq!(stylist.slay("   \t \n ").len(), 0);
}

#[test]
fn exact_tier_beats_embeddings() {
    // "pizza" has an embedding much closer to Y's vector, but the
    // exact keyword entry must win.
    let dict = "{\"X\": [\"pizza\"], \"Y\": [\"banquet\"]}";
    let corpus = "pizza 0.0 1.0\nbanquet 0.0 1.0\n";
    let t = EmojiTransformer::new(dict, corpus).expect("dictionary should parse");
    assert_eq!(t.slay("pizza"), vec!["X".to_string()]);
}

#[test]
fn semantic_tier_picks_closest_keyword() {
    let dict = "{\"FOO\": [\"foo\"], \"BAR\": [\"bar\"]}";
    let corpus = "foo 1.0 0.0\nbar 0.0 1.0\nbaz 0.9 0.1\n";
    let t = EmojiTransformer::new(dict, corpus).expect("dictionary should parse");
    assert_eq!(t.slay("baz"), vec!["FOO".to_string()]);
}

#[test]
fn edit_distance_fallback_resolves_typo() {
    let dict = "{\"WAVE\": [\"goodbye\"], \"GRIN\": [\"hello\"]}";
    let t = EmojiTransformer::new(dict, "").expect("dictionary should parse");
    assert_eq!(t.slay("helllo"), vec!["GRIN".to_string()]);
}

#[test]
fn edit_distance_tie_takes_lexicographic_first() {
    // "aa" is at distance 1 from both "ab" and "ac"; the
    // lexicographically first keyword "ab" must win.
    let dict = "{\"SECOND\": [\"ac\"], \"FIRST\": [\"ab\"]}";
    let t = EmojiTransformer::new(dict, "").expect("dictionary should parse");
    assert_eq!(t.slay("aa"), vec!["FIRST".to_string()]);
}

#[test]
fn empty_keyword_table_gives_placeholder() {
    let t = EmojiTransformer::new("{}", "").expect("dictionary should parse");
    assert_eq!(t.slay("zzz"), vec!["@".to_string()]);
}

#[test]
fn normalization_strips_and_lowercases() {
    let dict = "{\"OK\": [\"dont\"]}";
    let t = EmojiTransformer::new(dict, "").expect("dictionary should parse");
    assert_eq!(t.slay("DON'T!"), vec!["OK".to_string()]);
}

#[test]
fn duplicate_keyword_last_write_wins() {
    let dict = "{\"EARLY\": [\"shared\"], \"LATE\": [\"shared\"]}";
    let t = EmojiTransformer::new(dict, "").expect("dictionary should parse");
    assert_eq!(t.slay("shared"), vec!["LATE".to_string()]);
}

#[test]
fn identical_inputs_identical_outputs() {
    let a = stylist();
    let b = stylist();
    assert_eq!(a.slay("happy pizza love"), b.slay("happy pizza love"));
    let t1 = EmojiTransformer::new("{\"X\": [\"pizza\"]}", GLOVE).expect("parse");
    let t2 = EmojiTransformer::new("{\"X\": [\"pizza\"]}", GLOVE).expect("parse");
    assert_eq!(t1.slay("pizza love"), t2.slay("pizza love"));
}

#[test]
fn bad_dictionary_is_a_compile_error() {
    assert!(EmojiTransformer::new("not a dictionary", "").is_err());
    assert!(EmojiTransformer::new("{\"X\": [\"a\\\"b\"]}", "").is_err());
    assert!(EmojiTransformer::new("{\"X\": [\"a\"]} trailing", "").is_err());
    assert_eq!(
        EmojiTransformer::new("[1, 2]", "").err(),
        Some(subslay::CompileError::DictSyntax)
    );
}
