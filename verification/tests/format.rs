use subslay::compile_dictionary;
use subslay::compile_symbol_corpus;
use subslay::resolver::ResolverMode;
use subslay::resolver::Resolver;
use subslay::EmojiStylist;
use subslay::EmojiTransformer;
use subslay::ResourceError;

const GLOVE: &str = "pizza 1.0 0.0\nhappy 0.0 1.0\nlove 0.5 0.5\n";
const EMOJI: &str = "\u{1F355} 0.9 0.1\n\u{1F60A} 0.1 0.9\n\u{2764} 0.5 0.5\n";

#[test]
fn compilation_is_byte_deterministic() {
    let a = compile_symbol_corpus(GLOVE, EMOJI, true);
    let b = compile_symbol_corpus(GLOVE, EMOJI, true);
    assert_eq!(a, b);
    let c = compile_dictionary("{\"X\": [\"pizza\"]}", GLOVE, false).expect("parse");
    let d = compile_dictionary("{\"X\": [\"pizza\"]}", GLOVE, false).expect("parse");
    assert_eq!(c, d);
}

#[test]
fn compiled_resource_round_trips_resolution() {
    let dict = "{\"FOO\": [\"foo\"], \"BAR\": [\"bar\"]}";
    let corpus = "foo 1.0 0.0\nbar 0.0 1.0\nbaz 0.9 0.1\n";
    let direct = EmojiTransformer::new(dict, corpus).expect("parse");
    let bin = compile_dictionary(dict, corpus, false).expect("parse");
    let loaded = Resolver::load(&bin, ResolverMode::KeywordDict, true).expect("load");
    for text in ["foo", "baz", "fooo", "foo bar baz qux", ""] {
        assert_eq!(direct.slay(text), loaded.resolve(text));
    }
}

#[test]
fn quantized_resource_keeps_the_top_match() {
    // A well-separated corpus: quantization may move every component a
    // little, but must not reorder the winning symbol.
    let full = compile_symbol_corpus(GLOVE, EMOJI, false);
    let quant = compile_symbol_corpus(GLOVE, EMOJI, true);
    assert!(quant.len() < full.len());
    let sf = EmojiStylist::new(&full).expect("load full");
    let sq = EmojiStylist::new(&quant).expect("load quantized");
    for text in ["pizza", "happy", "love", "pizza happy love"] {
        assert_eq!(sf.slay(text), sq.slay(text));
    }
}

#[test]
fn empty_resource_is_truncated() {
    assert_eq!(EmojiStylist::new(&[]).err(), Some(ResourceError::Truncated));
}

#[test]
fn wrong_magic_is_refused() {
    let bin = [0u8, 0, 0, 0, 1, 0];
    assert_eq!(EmojiStylist::new(&bin).err(), Some(ResourceError::BadMagic));
}

#[test]
fn wrong_version_is_refused() {
    let mut bin = compile_symbol_corpus(GLOVE, EMOJI, false);
    bin[4] = 9;
    assert_eq!(EmojiStylist::new(&bin).err(), Some(ResourceError::BadVersion));
}

#[test]
fn truncated_resource_is_refused() {
    let bin = compile_symbol_corpus(GLOVE, EMOJI, false);
    let cut = &bin[..bin.len() - 3];
    assert_eq!(EmojiStylist::new(cut).err(), Some(ResourceError::Truncated));
}

#[test]
fn trailing_bytes_are_refused() {
    let mut bin = compile_symbol_corpus(GLOVE, EMOJI, false);
    bin.push(0);
    assert_eq!(EmojiStylist::new(&bin).err(), Some(ResourceError::Corrupt));
}

#[test]
fn unknown_flags_are_refused() {
    let mut bin = compile_symbol_corpus(GLOVE, EMOJI, false);
    bin[5] = 2;
    assert_eq!(EmojiStylist::new(&bin).err(), Some(ResourceError::Corrupt));
}

#[test]
fn emoji_symbols_survive_the_round_trip() {
    let bin = compile_symbol_corpus(GLOVE, EMOJI, true);
    let stylist = EmojiStylist::new(&bin).expect("load");
    assert_eq!(stylist.slay("pizza"), vec!["\u{1F355}".to_string()]);
}
