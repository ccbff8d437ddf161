//! Token-to-symbol resolution over keyword tables and word embeddings.
//!
//! The crate maps free-form text to a sequence of iconographic symbols,
//! one symbol per normalized token, through a layered fallback strategy:
//! an exact keyword table, nearest-neighbour search over embedding
//! vectors by cosine similarity, and an edit-distance fallback, each
//! with a deterministic, lexicographic tie-break.  An offline compiler
//! turns the two source texts into a compact, versioned binary resource
//! that the resolver loads at start-up.
//!
//! Embedding components are fixed-point numbers: an `i64` component `c`
//! stands for the real value `c / 4096`.  All similarity arithmetic is
//! exact integer arithmetic in a wider width, so resolution is fully
//! deterministic and free of rounding or iteration-order artifacts.
#![verifier::loop_isolation(false)]

use vstd::prelude::*;

use crate::codec::dec_resource;
use crate::codec::decode_resource;
use crate::codec::emb_strings_bounded;
use crate::codec::enc_resource;
use crate::codec::encode_resource;
use crate::codec::kw_strings_bounded;
use crate::codec::lemma_resource_roundtrip;
use crate::dict::build_keyword_table;
use crate::dict::keyword_table_of;
use crate::dict::parse_dict;
use crate::dict::parse_dict_exec;
use crate::parse::corpus_table;
use crate::parse::parse_corpus;
use crate::resolver::Resolver;
use crate::resolver::ResolverMode;
use crate::table::EmbedTable;
use crate::table::KeywordTable;

pub mod codec;
pub mod dict;
pub mod lev;
pub mod parse;
pub mod resolver;
pub mod sim;
pub mod table;
pub mod text;

verus! {

/// Failure to load the compiled binary resource: the resolver must
/// refuse to start rather than serve degraded answers.
#[derive(Clone, Copy, Debug, PartialEq, Eq, Structural)]
pub enum ResourceError {
    /// The resource ends before the data its header promises.
    Truncated,
    /// The leading magic bytes are not those of a compiled resource.
    BadMagic,
    /// The resource was produced by a format version this build does not read.
    BadVersion,
    /// A structural check failed: a count, a length, an unsorted table,
    /// an out-of-range component, or trailing bytes.
    Corrupt,
}

/// Failure of the offline compiler: the dictionary source text does not
/// parse as the expected structured format.
#[derive(Clone, Copy, Debug, PartialEq, Eq, Structural)]
pub enum CompileError {
    /// The symbol dictionary is not well-formed.
    DictSyntax,
}

impl Resolver {
    /// Load a resolver from a compiled resource, with the tier
    /// composition chosen by the caller; fails with a `ResourceError`
    /// exactly when the resource is absent in part, damaged, or of a
    /// foreign format.
    pub fn load(resource: &[u8], mode: ResolverMode, empty_semantic_to_edit: bool) -> (r: Result<
        Resolver,
        ResourceError,
    >)
        ensures
            r is Ok <==> dec_resource(resource@) is Ok,
            match r {
                Ok(rv) => {
                    &&& rv.wf()
                    &&& rv.mode == mode
                    &&& rv.empty_semantic_to_edit == empty_semantic_to_edit
                    &&& {
                        let d = dec_resource(resource@)->Ok_0;
                        rv.keywords.pairs() == d.0 && rv.embeddings.pairs() == d.1
                            && rv.symbol_vectors.pairs() == d.2
                    }
                },
                Err(e) => dec_resource(resource@) == Err::<
                    (
                        Seq<(Seq<char>, Seq<char>)>,
                        Seq<(Seq<char>, Seq<i64>)>,
                        Seq<(Seq<char>, Seq<i64>)>,
                        bool,
                    ),
                    ResourceError,
                >(e),
            },
    {
        match decode_resource(resource) {
            Ok((kw, emb, sym, _quant)) => Ok(
                Resolver::assemble(kw, emb, sym, mode, empty_semantic_to_edit),
            ),
            Err(e) => Err(e),
        }
    }
}

/// The keyword-dictionary deployment: built directly from the two
/// source texts, resolving through all three tiers.
pub struct EmojiTransformer {
    pub resolver: Resolver,
}

impl EmojiTransformer {
    /// Parse the symbol dictionary and the embedding corpus into a
    /// transformer; fails exactly when the dictionary text is not of
    /// the expected structured format.
    pub fn new(emoji_json: &str, glove_txt: &str) -> (r: Result<EmojiTransformer, CompileError>)
        ensures
            r is Ok <==> parse_dict(emoji_json@) is Some,
            match r {
                Ok(t) => {
                    &&& t.resolver.wf()
                    &&& t.resolver.mode == ResolverMode::KeywordDict
                    &&& t.resolver.empty_semantic_to_edit == true
                    &&& {
                        let d = parse_dict(emoji_json@)->Some_0;
                        t.resolver.keywords.pairs() == keyword_table_of(d.0, d.1)
                    }
                    &&& t.resolver.embeddings.pairs() == corpus_table(glove_txt@)
                    &&& t.resolver.symbol_vectors.pairs().len() == 0
                },
                Err(e) => e == CompileError::DictSyntax,
            },
    {
        match parse_dict_exec(emoji_json) {
            None => Err(CompileError::DictSyntax),
            Some(d) => {
                let kw = build_keyword_table(&d);
                let emb = parse_corpus(glove_txt);
                let sym = EmbedTable::new();
                Ok(
                    EmojiTransformer {
                        resolver: Resolver::assemble(
                            kw,
                            emb,
                            sym,
                            ResolverMode::KeywordDict,
                            true,
                        ),
                    },
                )
            },
        }
    }

    /// One symbol per normalized token of the input text.
    pub fn slay(&self, input_text: &str) -> (r: Vec<String>)
        requires
            self.resolver.wf(),
        ensures
            r.deep_view() == self.resolver.spec_resolve(input_text@),
    {
        self.resolver.resolve(input_text)
    }
}

/// The symbol-embedding deployment: loads a compiled resource and
/// matches token vectors directly against symbol vectors.
pub struct EmojiStylist {
    pub resolver: Resolver,
}

impl EmojiStylist {
    /// Load a stylist from compiled resource bytes; fails exactly when
    /// the resource does not decode.
    pub fn new(resource: &[u8]) -> (r: Result<EmojiStylist, ResourceError>)
        ensures
            r is Ok <==> dec_resource(resource@) is Ok,
            match r {
                Ok(s) => {
                    &&& s.resolver.wf()
                    &&& s.resolver.mode == ResolverMode::SymbolVectors
                    &&& {
                        let d = dec_resource(resource@)->Ok_0;
                        s.resolver.keywords.pairs() == d.0 && s.resolver.embeddings.pairs() == d.1
                            && s.resolver.symbol_vectors.pairs() == d.2
                    }
                },
                Err(e) => dec_resource(resource@) == Err::<
                    (
                        Seq<(Seq<char>, Seq<char>)>,
                        Seq<(Seq<char>, Seq<i64>)>,
                        Seq<(Seq<char>, Seq<i64>)>,
                        bool,
                    ),
                    ResourceError,
                >(e),
            },
    {
        match Resolver::load(resource, ResolverMode::SymbolVectors, false) {
            Ok(rv) => Ok(EmojiStylist { resolver: rv }),
            Err(e) => Err(e),
        }
    }

    /// One symbol per normalized token of the input text.
    pub fn slay(&self, input_text: &str) -> (r: Vec<String>)
        requires
            self.resolver.wf(),
        ensures
            r.deep_view() == self.resolver.spec_resolve(input_text@),
    {
        self.resolver.resolve(input_text)
    }
}

/// Compile a word corpus and a symbol corpus into one resource for the
/// symbol-embedding deployment.  The output is a pure function of the
/// two texts: identical inputs give byte-identical resources.
pub fn compile_symbol_corpus(glove_txt: &str, emoji_txt: &str, quantize: bool) -> (out: Vec<u8>)
    ensures
        out@ == enc_resource(
            Seq::<(Seq<char>, Seq<char>)>::empty(),
            corpus_table(glove_txt@),
            corpus_table(emoji_txt@),
            quantize,
        ),
{
    let kw = KeywordTable::new();
    let emb = parse_corpus(glove_txt);
    let sym = parse_corpus(emoji_txt);
    encode_resource(&kw, &emb, &sym, quantize)
}

/// Compile a symbol dictionary and a word corpus into one resource for
/// the keyword-dictionary deployment; fails exactly when the
/// dictionary text is not of the expected structured format.  The
/// output is a pure function of the two texts.
pub fn compile_dictionary(emoji_json: &str, glove_txt: &str, quantize: bool) -> (r: Result<
    Vec<u8>,
    CompileError,
>)
    ensures
        r is Ok <==> parse_dict(emoji_json@) is Some,
        match r {
            Ok(out) => ({
                let d = parse_dict(emoji_json@)->Some_0;
                out@ == enc_resource(
                    keyword_table_of(d.0, d.1),
                    corpus_table(glove_txt@),
                    Seq::<(Seq<char>, Seq<i64>)>::empty(),
                    quantize,
                )
            }),
            Err(e) => e == CompileError::DictSyntax,
        },
{
    match parse_dict_exec(emoji_json) {
        None => Err(CompileError::DictSyntax),
        Some(d) => {
            let kw = build_keyword_table(&d);
            let emb = parse_corpus(glove_txt);
            let sym = EmbedTable::new();
            Ok(encode_resource(&kw, &emb, &sym, quantize))
        },
    }
}

/// Law: compiling tables into a resource and loading it back
/// reproduces identical resolution outputs to resolving directly
/// against the uncompiled tables.  With full-precision storage the
/// loaded tables are byte-for-byte the compiled ones, so the two
/// resolvers answer every text identically.
pub proof fn lemma_compile_then_load_identical(r1: Resolver, r2: Resolver, text: Seq<char>)
    requires
        r1.wf(),
        kw_strings_bounded(r1.keywords.pairs()),
        emb_strings_bounded(r1.embeddings.pairs()),
        emb_strings_bounded(r1.symbol_vectors.pairs()),
        r1.mode == r2.mode,
        r1.empty_semantic_to_edit == r2.empty_semantic_to_edit,
        dec_resource(
            enc_resource(
                r1.keywords.pairs(),
                r1.embeddings.pairs(),
                r1.symbol_vectors.pairs(),
                false,
            ),
        ) == Ok::<
            (
                Seq<(Seq<char>, Seq<char>)>,
                Seq<(Seq<char>, Seq<i64>)>,
                Seq<(Seq<char>, Seq<i64>)>,
                bool,
            ),
            ResourceError,
        >((r2.keywords.pairs(), r2.embeddings.pairs(), r2.symbol_vectors.pairs(), false)),
    ensures
        r1.spec_resolve(text) == r2.spec_resolve(text),
{
    lemma_resource_roundtrip(
        r1.keywords.pairs(),
        r1.embeddings.pairs(),
        r1.symbol_vectors.pairs(),
        false,
    );
    crate::resolver::lemma_resolution_deterministic(r1, r2, text);
}

} // verus!
