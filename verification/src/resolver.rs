//! The token resolution engine: one symbol per normalized token,
//! through a strict three-tier fallback.
//!
//! Tier one: an exact keyword-table hit wins outright.  Tier two: a
//! token with an embedding is matched against every keyword that also
//! has one, by exact cosine-similarity comparison.  Tier three: the
//! keyword at the least Levenshtein distance.  Every tie resolves to
//! the lexicographically first candidate, because tables are scanned
//! in sorted order and only a strict improvement displaces the
//! incumbent.  When nothing can answer, the fixed placeholder symbol
//! is emitted.
//!
//! An alternate deployment shape has no keyword dictionary: a token
//! with an embedding is matched directly against a symbol-embedding
//! table, and a token without one goes straight to the placeholder.

use vstd::prelude::*;

use crate::lev::lev;
use crate::lev::levenshtein;
use crate::sim::ScoreV;
use crate::sim::SimScore;
use crate::sim::dot;
use crate::sim::score_of;
use crate::sim::sim_lt;
use crate::sim::sim_lt_exec;
use crate::sim::score_make;
use crate::sim::score_in_bounds;
use crate::sim::sq_norm;
use crate::sim::SIM_BOUND;
use crate::table::EmbedTable;
use crate::table::KeywordTable;
use crate::table::find_pair;
use crate::text::norm_tokens;
use crate::text::normalize;

verus! {

/// The placeholder symbol emitted when no candidate exists.
pub open spec fn placeholder() -> Seq<char> {
    seq!['@']
}

/// The placeholder symbol as a string.
pub fn placeholder_exec() -> (r: String)
    ensures
        r@ == placeholder(),
{
    let r = "@".to_owned();
    proof {
        reveal_strlit("@");
        assert(r@ =~= placeholder());
    }
    r
}

/// The similarity score of candidate vector `kv` against query `qv`.
pub open spec fn cand_score(qv: Seq<i64>, kv: Seq<i64>) -> ScoreV {
    score_of(sq_norm(qv), dot(qv, kv), sq_norm(kv))
}

/// Scan the keyword table from index `i` with incumbent `b`: a keyword
/// without an embedding is not scorable and is skipped; a scorable
/// keyword displaces the incumbent only by a strictly greater
/// similarity, so the first of equals wins.
pub open spec fn best_kw_from(
    kw: Seq<(Seq<char>, Seq<char>)>,
    emb: Seq<(Seq<char>, Seq<i64>)>,
    qv: Seq<i64>,
    i: int,
    b: Option<int>,
) -> Option<int>
    decreases kw.len() - i,
{
    if i < 0 || i >= kw.len() {
        b
    } else {
        match find_pair(emb, kw[i].0) {
            Option::None => best_kw_from(kw, emb, qv, i + 1, b),
            Option::Some(kv) => {
                let bnew = match b {
                    Option::None => Option::Some(i),
                    Option::Some(bi) => {
                        let bv = find_pair(emb, kw[bi].0).unwrap();
                        if sim_lt(sq_norm(qv), cand_score(qv, bv), cand_score(qv, kv)) {
                            Option::Some(i)
                        } else {
                            Option::Some(bi)
                        }
                    },
                };
                best_kw_from(kw, emb, qv, i + 1, bnew)
            },
        }
    }
}

/// Scan a symbol-embedding table from index `i` with incumbent `bi`:
/// every entry is a candidate, and only a strictly greater similarity
/// displaces the incumbent.
pub open spec fn best_sym_from(
    sym: Seq<(Seq<char>, Seq<i64>)>,
    qv: Seq<i64>,
    i: int,
    bi: int,
) -> int
    decreases sym.len() - i,
{
    if i < 0 || i >= sym.len() {
        bi
    } else if sim_lt(sq_norm(qv), cand_score(qv, sym[bi].1), cand_score(qv, sym[i].1)) {
        best_sym_from(sym, qv, i + 1, i)
    } else {
        best_sym_from(sym, qv, i + 1, bi)
    }
}

/// Scan the keyword table from index `i` with incumbent `bi`: only a
/// strictly smaller Levenshtein distance displaces the incumbent.
pub open spec fn best_lev_from(kw: Seq<(Seq<char>, Seq<char>)>, t: Seq<char>, i: int, bi: int) -> int
    decreases kw.len() - i,
{
    if i < 0 || i >= kw.len() {
        bi
    } else if lev(t, kw[i].0) < lev(t, kw[bi].0) {
        best_lev_from(kw, t, i + 1, i)
    } else {
        best_lev_from(kw, t, i + 1, bi)
    }
}

/// The edit-distance fallback tier: the symbol of the keyword nearest
/// to the token, ties to the lexicographically first; the placeholder
/// when the table is empty.
pub open spec fn fallback_lev(kw: Seq<(Seq<char>, Seq<char>)>, t: Seq<char>) -> Seq<char> {
    if kw.len() == 0 {
        placeholder()
    } else {
        kw[best_lev_from(kw, t, 1, 0)].1
    }
}

/// One token through the keyword-dictionary pipeline.  The flag
/// decides the open corner of the design: a token that has an
/// embedding but finds no scorable keyword falls through to the
/// edit-distance tier when the flag is set, and straight to the
/// placeholder otherwise.
pub open spec fn resolve_token_kw(
    kw: Seq<(Seq<char>, Seq<char>)>,
    emb: Seq<(Seq<char>, Seq<i64>)>,
    empty_semantic_to_edit: bool,
    t: Seq<char>,
) -> Seq<char> {
    match find_pair(kw, t) {
        Option::Some(sym) => sym,
        Option::None => match find_pair(emb, t) {
            Option::Some(qv) => match best_kw_from(kw, emb, qv, 0, Option::None) {
                Option::Some(bi) => kw[bi].1,
                Option::None => if empty_semantic_to_edit {
                    fallback_lev(kw, t)
                } else {
                    placeholder()
                },
            },
            Option::None => fallback_lev(kw, t),
        },
    }
}

/// One token through the symbol-embedding pipeline: a token with an
/// embedding takes the most similar symbol vector's key; one without
/// goes straight to the placeholder.
pub open spec fn resolve_token_sym(
    sym: Seq<(Seq<char>, Seq<i64>)>,
    emb: Seq<(Seq<char>, Seq<i64>)>,
    t: Seq<char>,
) -> Seq<char> {
    match find_pair(emb, t) {
        Option::Some(qv) => if sym.len() == 0 {
            placeholder()
        } else {
            sym[best_sym_from(sym, qv, 1, 0)].0
        },
        Option::None => placeholder(),
    }
}

/// Which fallback chain the resolver runs.
#[derive(Clone, Copy, Debug, PartialEq, Eq, Structural)]
pub enum ResolverMode {
    /// Keyword table first, then embeddings, then edit distance.
    KeywordDict,
    /// No keyword table: embeddings against symbol vectors only.
    SymbolVectors,
}

/// The resolution engine: immutable tables loaded once, plus the tier
/// configuration chosen at construction.
pub struct Resolver {
    pub keywords: KeywordTable,
    pub embeddings: EmbedTable,
    pub symbol_vectors: EmbedTable,
    pub mode: ResolverMode,
    pub empty_semantic_to_edit: bool,
}

impl Resolver {
    /// Well-formed tables: sorted, unique keys, bounded vectors.
    pub open spec fn wf(&self) -> bool {
        &&& self.keywords.wf()
        &&& self.embeddings.wf()
        &&& self.symbol_vectors.wf()
    }

    /// The symbol this resolver gives one normalized token.
    pub open spec fn spec_resolve_token(self, t: Seq<char>) -> Seq<char> {
        match self.mode {
            ResolverMode::KeywordDict => resolve_token_kw(
                self.keywords.pairs(),
                self.embeddings.pairs(),
                self.empty_semantic_to_edit,
                t,
            ),
            ResolverMode::SymbolVectors => resolve_token_sym(
                self.symbol_vectors.pairs(),
                self.embeddings.pairs(),
                t,
            ),
        }
    }

    /// The full output for a text: one symbol per normalized token, in
    /// token order.
    pub open spec fn spec_resolve(self, text: Seq<char>) -> Seq<Seq<char>> {
        norm_tokens(text).map_values(|t: Seq<char>| self.spec_resolve_token(t))
    }

    /// Assemble a resolver from already-built tables.
    pub fn assemble(
        keywords: KeywordTable,
        embeddings: EmbedTable,
        symbol_vectors: EmbedTable,
        mode: ResolverMode,
        empty_semantic_to_edit: bool,
    ) -> (r: Resolver)
        requires
            keywords.wf(),
            embeddings.wf(),
            symbol_vectors.wf(),
        ensures
            r.wf(),
            r.keywords == keywords,
            r.embeddings == embeddings,
            r.symbol_vectors == symbol_vectors,
            r.mode == mode,
            r.empty_semantic_to_edit == empty_semantic_to_edit,
    {
        Resolver { keywords, embeddings, symbol_vectors, mode, empty_semantic_to_edit }
    }

    /// The edit-distance tier, executable.
    fn fallback_token(&self, tok: &String) -> (r: String)
        requires
            self.wf(),
        ensures
            r@ == fallback_lev(self.keywords.pairs(), tok@),
    {
        let ghost kwp = self.keywords.pairs();
        let n: usize = self.keywords.len();
        if n == 0 {
            return placeholder_exec();
        }
        let mut bi: usize = 0;
        let mut bd: usize = levenshtein(tok.as_str(), self.keywords.keys[0].as_str());
        let mut i: usize = 1;
        while i < n
            invariant
                1 <= i <= n,
                0 <= bi < n,
                n == kwp.len(),
                kwp == self.keywords.pairs(),
                self.keywords.keys@.len() == self.keywords.syms@.len(),
                n == self.keywords.keys@.len(),
                bd == lev(tok@, kwp[bi as int].0),
                best_lev_from(kwp, tok@, i as int, bi as int) == best_lev_from(kwp, tok@, 1, 0),
            decreases n - i,
        {
            let d: usize = levenshtein(tok.as_str(), self.keywords.keys[i].as_str());
            if d < bd {
                bi = i;
                bd = d;
            }
            i = i + 1;
        }
        self.keywords.syms[bi].clone()
    }

    /// Resolve one normalized token to its symbol.
    pub fn resolve_token(&self, tok: &String) -> (r: String)
        requires
            self.wf(),
        ensures
            r@ == self.spec_resolve_token(tok@),
    {
        match self.mode {
            ResolverMode::KeywordDict => self.resolve_token_dict(tok),
            ResolverMode::SymbolVectors => self.resolve_token_vectors(tok),
        }
    }

    /// The keyword-dictionary pipeline for one token.
    fn resolve_token_dict(&self, tok: &String) -> (r: String)
        requires
            self.wf(),
            self.mode == ResolverMode::KeywordDict,
        ensures
            r@ == self.spec_resolve_token(tok@),
    {
        let ghost kwp = self.keywords.pairs();
        let ghost embp = self.embeddings.pairs();
        if let Some(sym) = self.keywords.get(tok) {
            return sym;
        }
        if let Some(qi) = self.embeddings.find_idx(tok) {
            let qv = &self.embeddings.vecs[qi];
            proof {
                assert(embp[qi as int].1 == qv.comps@);
            }
            let qx: i64 = qv.sq_norm();
            let n: usize = self.keywords.len();
            let mut best: Option<usize> = None;
            let mut best_score: SimScore = SimScore::Degenerate;
            let mut i: usize = 0;
            while i < n
                invariant
                    0 <= i <= n,
                    n == kwp.len(),
                    kwp == self.keywords.pairs(),
                    embp == self.embeddings.pairs(),
                    self.wf(),
                    self.keywords.keys@.len() == self.keywords.syms@.len(),
                    n == self.keywords.keys@.len(),
                    qv.wf(),
                    qx as int == sq_norm(qv.comps@),
                    0 <= qx <= SIM_BOUND,
                    best_kw_from(
                        kwp,
                        embp,
                        qv.comps@,
                        i as int,
                        match best {
                            Option::Some(bi) => Option::Some(bi as int),
                            Option::None => Option::None,
                        },
                    ) == best_kw_from(kwp, embp, qv.comps@, 0, Option::None),
                    match best {
                        Option::Some(bi) => {
                            &&& 0 <= bi < n
                            &&& find_pair(embp, kwp[bi as int].0) is Some
                            &&& best_score.view_score() == cand_score(
                                qv.comps@,
                                find_pair(embp, kwp[bi as int].0).unwrap(),
                            )
                            &&& score_in_bounds(qx as int, best_score)
                        },
                        Option::None => true,
                    },
                decreases n - i,
            {
                proof {
                    assert(kwp[i as int].0 == self.keywords.keys@[i as int]@);
                }
                if let Some(ci) = self.embeddings.find_idx(&self.keywords.keys[i]) {
                    let kv = &self.embeddings.vecs[ci];
                    proof {
                        assert(embp[ci as int].1 == kv.comps@);
                        assert(find_pair(embp, kwp[i as int].0) == Some(kv.comps@));
                    }
                    let d: i64 = qv.dot(kv);
                    let q: i64 = kv.sq_norm();
                    let sc: SimScore = score_make(qx, d, q);
                    match best {
                        None => {
                            best = Some(i);
                            best_score = sc;
                        },
                        Some(_) => {
                            if sim_lt_exec(qx, &best_score, &sc) {
                                best = Some(i);
                                best_score = sc;
                            }
                        },
                    }
                }
                i = i + 1;
            }
            match best {
                Some(bi) => {
                    return self.keywords.syms[bi].clone();
                },
                None => {
                    if self.empty_semantic_to_edit {
                        return self.fallback_token(tok);
                    } else {
                        return placeholder_exec();
                    }
                },
            }
        }
        self.fallback_token(tok)
    }

    /// The symbol-embedding pipeline for one token.
    fn resolve_token_vectors(&self, tok: &String) -> (r: String)
        requires
            self.wf(),
            self.mode == ResolverMode::SymbolVectors,
        ensures
            r@ == self.spec_resolve_token(tok@),
    {
        let ghost symp = self.symbol_vectors.pairs();
        let ghost embp = self.embeddings.pairs();
        if let Some(qi) = self.embeddings.find_idx(tok) {
            let qv = &self.embeddings.vecs[qi];
            proof {
                assert(embp[qi as int].1 == qv.comps@);
            }
            let n: usize = self.symbol_vectors.len();
            if n == 0 {
                return placeholder_exec();
            }
            let qx: i64 = qv.sq_norm();
            let mut bi: usize = 0;
            let b0 = &self.symbol_vectors.vecs[0];
            let d0: i64 = qv.dot(b0);
            let q0: i64 = b0.sq_norm();
            let mut best_score: SimScore = score_make(qx, d0, q0);
            proof {
                assert(symp[0].1 == b0.comps@);
            }
            let mut i: usize = 1;
            while i < n
                invariant
                    1 <= i <= n,
                    0 <= bi < n,
                    n == symp.len(),
                    symp == self.symbol_vectors.pairs(),
                    self.wf(),
                    self.symbol_vectors.keys@.len() == self.symbol_vectors.vecs@.len(),
                    n == self.symbol_vectors.keys@.len(),
                    qv.wf(),
                    qx as int == sq_norm(qv.comps@),
                    0 <= qx <= SIM_BOUND,
                    best_score.view_score() == cand_score(qv.comps@, symp[bi as int].1),
                    score_in_bounds(qx as int, best_score),
                    best_sym_from(symp, qv.comps@, i as int, bi as int) == best_sym_from(
                        symp,
                        qv.comps@,
                        1,
                        0,
                    ),
                decreases n - i,
            {
                let kv = &self.symbol_vectors.vecs[i];
                proof {
                    assert(symp[i as int].1 == kv.comps@);
                }
                let d: i64 = qv.dot(kv);
                let q: i64 = kv.sq_norm();
                let sc: SimScore = score_make(qx, d, q);
                if sim_lt_exec(qx, &best_score, &sc) {
                    bi = i;
                    best_score = sc;
                }
                i = i + 1;
            }
            proof {
                assert(symp[bi as int].0 == self.symbol_vectors.keys@[bi as int]@);
            }
            return self.symbol_vectors.keys[bi].clone();
        }
        placeholder_exec()
    }

    /// Resolve a whole text: normalize it, then one symbol per token.
    /// The output length always equals the number of normalized
    /// tokens; the empty text gives the empty output.
    pub fn resolve(&self, text: &str) -> (out: Vec<String>)
        requires
            self.wf(),
        ensures
            out.deep_view() == self.spec_resolve(text@),
            out.deep_view().len() == norm_tokens(text@).len(),
    {
        let toks = normalize(text);
        let nt: usize = toks.len();
        let mut out: Vec<String> = Vec::new();
        let mut i: usize = 0;
        while i < nt
            invariant
                0 <= i <= nt,
                nt == toks@.len(),
                toks.deep_view() == norm_tokens(text@),
                self.wf(),
                out@.len() == i,
                forall|j: int|
                    0 <= j < i ==> #[trigger] out.deep_view()[j] == self.spec_resolve_token(
                        norm_tokens(text@)[j],
                    ),
            decreases nt - i,
        {
            proof {
                assert(toks@[i as int]@ == norm_tokens(text@)[i as int]);
            }
            let s = self.resolve_token(&toks[i]);
            let ghost dv0 = out.deep_view();
            let ghost sv = s@;
            out.push(s);
            proof {
                assert(out.deep_view() =~~= dv0.push(sv));
            }
            i = i + 1;
        }
        proof {
            assert(out.deep_view() =~= self.spec_resolve(text@));
        }
        out
    }
}


/// Law: the output has exactly one symbol per normalized token, and
/// the empty text resolves to the empty output.
pub proof fn lemma_resolution_length(r: Resolver, text: Seq<char>)
    ensures
        r.spec_resolve(text).len() == norm_tokens(text).len(),
        text.len() == 0 ==> r.spec_resolve(text) == Seq::<Seq<char>>::empty(),
{
    if text.len() == 0 {
        crate::text::lemma_norm_tokens_empty(text);
        assert(r.spec_resolve(text) =~= Seq::<Seq<char>>::empty());
    }
}

/// Law: the exact tier always wins.  A normalized token that is a
/// keyword of the table resolves to that keyword's symbol, whatever
/// any embedding says.
pub proof fn lemma_exact_tier_priority(r: Resolver, i: int)
    requires
        r.wf(),
        r.mode == ResolverMode::KeywordDict,
        0 <= i < r.keywords.pairs().len(),
    ensures
        r.spec_resolve_token(r.keywords.pairs()[i].0) == r.keywords.pairs()[i].1,
{
    crate::table::lemma_find_unique(r.keywords.pairs(), i);
}

/// Law: resolution is deterministic.  The output is a function of the
/// loaded tables, the configuration and the text alone — two resolvers
/// holding equal tables and configuration give byte-identical outputs
/// for equal texts, and the executable `resolve` returns exactly this
/// function of its inputs.
pub proof fn lemma_resolution_deterministic(r1: Resolver, r2: Resolver, text: Seq<char>)
    requires
        r1.keywords.pairs() == r2.keywords.pairs(),
        r1.embeddings.pairs() == r2.embeddings.pairs(),
        r1.symbol_vectors.pairs() == r2.symbol_vectors.pairs(),
        r1.mode == r2.mode,
        r1.empty_semantic_to_edit == r2.empty_semantic_to_edit,
    ensures
        r1.spec_resolve(text) == r2.spec_resolve(text),
{
    assert forall|j: int| 0 <= j < norm_tokens(text).len() implies r1.spec_resolve_token(
        norm_tokens(text)[j],
    ) == r2.spec_resolve_token(norm_tokens(text)[j]) by {}
    assert(r1.spec_resolve(text) =~= r2.spec_resolve(text));
}

proof fn lemma_best_lev_props(kw: Seq<(Seq<char>, Seq<char>)>, t: Seq<char>, i: int, bi: int)
    requires
        0 <= bi < kw.len(),
        bi < i <= kw.len() || (bi == 0 && i == 1 && kw.len() >= 1),
        forall|j: int| 0 <= j < i ==> lev(t, kw[bi].0) <= lev(t, #[trigger] kw[j].0),
        forall|j: int| 0 <= j < bi ==> lev(t, #[trigger] kw[j].0) > lev(t, kw[bi].0),
    ensures
        ({
            let b = best_lev_from(kw, t, i, bi);
            &&& 0 <= b < kw.len()
            &&& forall|j: int| 0 <= j < kw.len() ==> lev(t, kw[b].0) <= lev(t, #[trigger] kw[j].0)
            &&& forall|j: int| 0 <= j < b ==> lev(t, #[trigger] kw[j].0) > lev(t, kw[b].0)
        }),
    decreases kw.len() - i,
{
    if i >= kw.len() {
    } else if lev(t, kw[i].0) < lev(t, kw[bi].0) {
        lemma_best_lev_props(kw, t, i + 1, i);
    } else {
        lemma_best_lev_props(kw, t, i + 1, bi);
    }
}

/// Law: the edit-distance fallback picks a keyword at the least
/// Levenshtein distance from the token, and among equally close
/// keywords the lexicographically first, since the scan runs in sorted
/// order and only a strictly smaller distance displaces the incumbent.
pub proof fn lemma_fallback_nearest(kw: Seq<(Seq<char>, Seq<char>)>, t: Seq<char>)
    requires
        kw.len() > 0,
    ensures
        ({
            let b = best_lev_from(kw, t, 1, 0);
            &&& 0 <= b < kw.len()
            &&& fallback_lev(kw, t) == kw[b].1
            &&& forall|j: int| 0 <= j < kw.len() ==> lev(t, kw[b].0) <= lev(t, #[trigger] kw[j].0)
            &&& forall|j: int| 0 <= j < b ==> lev(t, #[trigger] kw[j].0) > lev(t, kw[b].0)
        }),
{
    lemma_best_lev_props(kw, t, 1, 0);
}

/// Law: a token with no embedding resolves to the placeholder when the
/// keyword table is empty — there is never a candidate to offer.
pub proof fn lemma_unknown_token_placeholder(r: Resolver, t: Seq<char>)
    requires
        r.wf(),
        find_pair(r.embeddings.pairs(), t) is None,
        r.mode == ResolverMode::KeywordDict ==> r.keywords.pairs().len() == 0,
    ensures
        r.spec_resolve_token(t) == placeholder(),
{
}

proof fn lemma_best_sym_props(
    sym: Seq<(Seq<char>, Seq<i64>)>,
    qv: Seq<i64>,
    i: int,
    bi: int,
)
    requires
        forall|j: int|
            0 <= j < sym.len() ==> crate::sim::score_ok(
                sq_norm(qv),
                cand_score(qv, (#[trigger] sym[j]).1),
            ),
        0 <= bi < sym.len(),
        bi < i <= sym.len() || (bi == 0 && i == 1 && sym.len() >= 1),
        forall|j: int|
            0 <= j < i ==> !sim_lt(
                sq_norm(qv),
                cand_score(qv, sym[bi].1),
                cand_score(qv, (#[trigger] sym[j]).1),
            ),
        forall|j: int|
            0 <= j < bi ==> sim_lt(
                sq_norm(qv),
                cand_score(qv, (#[trigger] sym[j]).1),
                cand_score(qv, sym[bi].1),
            ),
    ensures
        ({
            let b = best_sym_from(sym, qv, i, bi);
            &&& 0 <= b < sym.len()
            &&& forall|j: int|
                0 <= j < sym.len() ==> !sim_lt(
                    sq_norm(qv),
                    cand_score(qv, sym[b].1),
                    cand_score(qv, (#[trigger] sym[j]).1),
                )
            &&& forall|j: int|
                0 <= j < b ==> sim_lt(
                    sq_norm(qv),
                    cand_score(qv, (#[trigger] sym[j]).1),
                    cand_score(qv, sym[b].1),
                )
        }),
    decreases sym.len() - i,
{
    let qx = sq_norm(qv);
    if i >= sym.len() {
    } else if sim_lt(qx, cand_score(qv, sym[bi].1), cand_score(qv, sym[i].1)) {
        assert forall|j: int| 0 <= j < i + 1 implies !sim_lt(
            qx,
            cand_score(qv, sym[i].1),
            cand_score(qv, (#[trigger] sym[j]).1),
        ) by {
            if j < i && sim_lt(qx, cand_score(qv, sym[i].1), cand_score(qv, sym[j].1)) {
                crate::sim::lemma_sim_lt_trans(
                    qx,
                    cand_score(qv, sym[bi].1),
                    cand_score(qv, sym[i].1),
                    cand_score(qv, sym[j].1),
                );
            }
        }
        assert forall|j: int| 0 <= j < i implies sim_lt(
            qx,
            cand_score(qv, (#[trigger] sym[j]).1),
            cand_score(qv, sym[i].1),
        ) by {
            crate::sim::lemma_sim_nlt_lt_trans(
                qx,
                cand_score(qv, sym[j].1),
                cand_score(qv, sym[bi].1),
                cand_score(qv, sym[i].1),
            );
        }
        lemma_best_sym_props(sym, qv, i + 1, i);
    } else {
        lemma_best_sym_props(sym, qv, i + 1, bi);
    }
}

/// Law: in the symbol-embedding tier, the chosen symbol's similarity
/// is beaten by no candidate, and every earlier candidate in the
/// sorted table is strictly worse — the lexicographically first of the
/// best wins.
pub proof fn lemma_semantic_tier_argmax(sym: Seq<(Seq<char>, Seq<i64>)>, qv: Seq<i64>)
    requires
        sym.len() > 0,
    ensures
        ({
            let b = best_sym_from(sym, qv, 1, 0);
            &&& 0 <= b < sym.len()
            &&& forall|j: int|
                0 <= j < sym.len() ==> !sim_lt(
                    sq_norm(qv),
                    cand_score(qv, sym[b].1),
                    cand_score(qv, (#[trigger] sym[j]).1),
                )
            &&& forall|j: int|
                0 <= j < b ==> sim_lt(
                    sq_norm(qv),
                    cand_score(qv, (#[trigger] sym[j]).1),
                    cand_score(qv, sym[b].1),
                )
        }),
{
    let qx = sq_norm(qv);
    assert forall|j: int| 0 <= j < sym.len() implies crate::sim::score_ok(
        qx,
        cand_score(qv, (#[trigger] sym[j]).1),
    ) by {}
    lemma_best_sym_props(sym, qv, 1, 0);
}


proof fn lemma_best_kw_props(
    kw: Seq<(Seq<char>, Seq<char>)>,
    emb: Seq<(Seq<char>, Seq<i64>)>,
    qv: Seq<i64>,
    i: int,
    b: Option<int>,
)
    requires
        0 <= i <= kw.len(),
        match b {
            Option::None => forall|j: int|
                0 <= j < i ==> find_pair(emb, (#[trigger] kw[j]).0) is None,
            Option::Some(bi) => {
                &&& 0 <= bi < i
                &&& find_pair(emb, kw[bi].0) is Some
                &&& forall|j: int|
                    0 <= j < i && find_pair(emb, (#[trigger] kw[j]).0) is Some ==> !sim_lt(
                        sq_norm(qv),
                        cand_score(qv, find_pair(emb, kw[bi].0).unwrap()),
                        cand_score(qv, find_pair(emb, kw[j].0).unwrap()),
                    )
                &&& forall|j: int|
                    0 <= j < bi && find_pair(emb, (#[trigger] kw[j]).0) is Some ==> sim_lt(
                        sq_norm(qv),
                        cand_score(qv, find_pair(emb, kw[j].0).unwrap()),
                        cand_score(qv, find_pair(emb, kw[bi].0).unwrap()),
                    )
            },
        },
    ensures
        match best_kw_from(kw, emb, qv, i, b) {
            Option::None => forall|j: int|
                0 <= j < kw.len() ==> find_pair(emb, (#[trigger] kw[j]).0) is None,
            Option::Some(bf) => {
                &&& 0 <= bf < kw.len()
                &&& find_pair(emb, kw[bf].0) is Some
                &&& forall|j: int|
                    0 <= j < kw.len() && find_pair(emb, (#[trigger] kw[j]).0) is Some ==> !sim_lt(
                        sq_norm(qv),
                        cand_score(qv, find_pair(emb, kw[bf].0).unwrap()),
                        cand_score(qv, find_pair(emb, kw[j].0).unwrap()),
                    )
                &&& forall|j: int|
                    0 <= j < bf && find_pair(emb, (#[trigger] kw[j]).0) is Some ==> sim_lt(
                        sq_norm(qv),
                        cand_score(qv, find_pair(emb, kw[j].0).unwrap()),
                        cand_score(qv, find_pair(emb, kw[bf].0).unwrap()),
                    )
            },
        },
    decreases kw.len() - i,
{
    let qx = sq_norm(qv);
    if i >= kw.len() {
    } else {
        match find_pair(emb, kw[i].0) {
            Option::None => {
                lemma_best_kw_props(kw, emb, qv, i + 1, b);
            },
            Option::Some(kv) => {
                match b {
                    Option::None => {
                        lemma_best_kw_props(kw, emb, qv, i + 1, Option::Some(i));
                    },
                    Option::Some(bi) => {
                        let sb = cand_score(qv, find_pair(emb, kw[bi].0).unwrap());
                        let si = cand_score(qv, kv);
                        if sim_lt(qx, sb, si) {
                            assert forall|j: int|
                                0 <= j < i + 1 && find_pair(emb, (#[trigger] kw[j]).0) is Some implies !sim_lt(
                                qx,
                                si,
                                cand_score(qv, find_pair(emb, kw[j].0).unwrap()),
                            ) by {
                                if j < i {
                                    let sj = cand_score(qv, find_pair(emb, kw[j].0).unwrap());
                                    if sim_lt(qx, si, sj) {
                                        crate::sim::lemma_sim_lt_trans(qx, sb, si, sj);
                                    }
                                }
                            }
                            assert forall|j: int|
                                0 <= j < i && find_pair(emb, (#[trigger] kw[j]).0) is Some implies sim_lt(
                                qx,
                                cand_score(qv, find_pair(emb, kw[j].0).unwrap()),
                                si,
                            ) by {
                                crate::sim::lemma_sim_nlt_lt_trans(
                                    qx,
                                    cand_score(qv, find_pair(emb, kw[j].0).unwrap()),
                                    sb,
                                    si,
                                );
                            }
                            lemma_best_kw_props(kw, emb, qv, i + 1, Option::Some(i));
                        } else {
                            lemma_best_kw_props(kw, emb, qv, i + 1, Option::Some(bi));
                        }
                    },
                }
            },
        }
    }
}

/// Law: in the keyword-dictionary semantic tier, the scan finds a
/// keyword exactly when some keyword has an embedding; the chosen
/// keyword's similarity to the token is beaten by no scorable keyword,
/// and every earlier scorable keyword in the sorted table is strictly
/// worse — among equals, the lexicographically first wins.
pub proof fn lemma_keyword_tier_argmax(
    kw: Seq<(Seq<char>, Seq<char>)>,
    emb: Seq<(Seq<char>, Seq<i64>)>,
    qv: Seq<i64>,
)
    ensures
        match best_kw_from(kw, emb, qv, 0, Option::None) {
            Option::None => forall|j: int|
                0 <= j < kw.len() ==> find_pair(emb, (#[trigger] kw[j]).0) is None,
            Option::Some(bf) => {
                &&& 0 <= bf < kw.len()
                &&& find_pair(emb, kw[bf].0) is Some
                &&& forall|j: int|
                    0 <= j < kw.len() && find_pair(emb, (#[trigger] kw[j]).0) is Some ==> !sim_lt(
                        sq_norm(qv),
                        cand_score(qv, find_pair(emb, kw[bf].0).unwrap()),
                        cand_score(qv, find_pair(emb, kw[j].0).unwrap()),
                    )
                &&& forall|j: int|
                    0 <= j < bf && find_pair(emb, (#[trigger] kw[j]).0) is Some ==> sim_lt(
                        sq_norm(qv),
                        cand_score(qv, find_pair(emb, kw[j].0).unwrap()),
                        cand_score(qv, find_pair(emb, kw[bf].0).unwrap()),
                    )
            },
        },
{
    lemma_best_kw_props(kw, emb, qv, 0, Option::None);
}

} // verus!


