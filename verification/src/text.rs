//! Input normalization: strip every character that is neither
//! alphabetic nor whitespace, split on whitespace, and fold each token
//! to lowercase.  The resulting token sequence drives resolution, and
//! its length fixes the length of the resolver's output.

use vstd::prelude::*;

verus! {

/// Whether Unicode classifies a character as alphabetic.
pub uninterp spec fn is_alpha_char(c: char) -> bool;

/// Whether Unicode classifies a character as whitespace.
pub uninterp spec fn is_space_char(c: char) -> bool;

/// The Unicode lowercase folding of a character sequence.
pub uninterp spec fn lower_of(s: Seq<char>) -> Seq<char>;

/// Relies on char::is_alphabetic: Unicode alphabetic classification,
/// a function of the character alone.
#[verifier::external_body]
pub(crate) fn char_is_alphabetic(c: char) -> (r: bool)
    ensures
        r == is_alpha_char(c),
{
    c.is_alphabetic()
}

/// Relies on char::is_whitespace: Unicode whitespace classification,
/// a function of the character alone.
#[verifier::external_body]
pub(crate) fn char_is_whitespace(c: char) -> (r: bool)
    ensures
        r == is_space_char(c),
{
    c.is_whitespace()
}

/// Relies on str::to_lowercase: the result depends on the characters
/// alone, and an empty string stays empty.
#[verifier::external_body]
pub(crate) fn to_lowercase(s: &str) -> (r: String)
    ensures
        r@ == lower_of(s@),
        s@.len() == 0 ==> r@.len() == 0,
{
    s.to_lowercase()
}

/// Relies on String's FromIterator<char> implementation: collecting
/// characters builds the string of exactly those characters in order.
#[verifier::external_body]
pub(crate) fn string_from_chars(v: &Vec<char>) -> (r: String)
    ensures
        r@ == v@,
{
    v.iter().collect()
}

/// Append the pending word to the token list, unless it is empty.
pub open spec fn close_word(cur: Seq<char>, acc: Seq<Seq<char>>) -> Seq<Seq<char>> {
    if cur.len() == 0 {
        acc
    } else {
        acc.push(cur)
    }
}

/// Scan the text from position `i` with the pending word `cur` and the
/// tokens `acc` already finished: whitespace closes the pending word,
/// an alphabetic character extends it, anything else is stripped.
pub open spec fn tokens_from(s: Seq<char>, i: int, cur: Seq<char>, acc: Seq<Seq<char>>) -> Seq<
    Seq<char>,
>
    decreases s.len() - i,
{
    if i < 0 || i >= s.len() {
        close_word(cur, acc)
    } else if is_space_char(s[i]) {
        tokens_from(s, i + 1, Seq::empty(), close_word(cur, acc))
    } else if is_alpha_char(s[i]) {
        tokens_from(s, i + 1, cur.push(s[i]), acc)
    } else {
        tokens_from(s, i + 1, cur, acc)
    }
}

/// The tokens of a text, before case folding.
pub open spec fn raw_tokens(s: Seq<char>) -> Seq<Seq<char>> {
    tokens_from(s, 0, Seq::empty(), Seq::empty())
}

/// The normalized tokens of a text: its raw tokens folded to
/// lowercase.  One symbol is resolved per entry of this sequence.
pub open spec fn norm_tokens(s: Seq<char>) -> Seq<Seq<char>> {
    raw_tokens(s).map_values(|t: Seq<char>| lower_of(t))
}

/// Law: the empty text normalizes to no tokens at all, so resolution
/// of the empty text yields the empty output.
pub proof fn lemma_norm_tokens_empty(s: Seq<char>)
    requires
        s.len() == 0,
    ensures
        norm_tokens(s) == Seq::<Seq<char>>::empty(),
{
    assert(raw_tokens(s) =~= Seq::<Seq<char>>::empty());
    assert(norm_tokens(s) =~= Seq::<Seq<char>>::empty());
}

/// Normalize a text into its lowercase alphabetic tokens.
pub fn normalize(text: &str) -> (toks: Vec<String>)
    ensures
        toks.deep_view() == norm_tokens(text@),
{
    let cs = crate::lev::chars_vec(text);
    let n: usize = cs.len();
    let mut toks: Vec<String> = Vec::new();
    let mut cur: Vec<char> = Vec::new();
    let ghost mut racc: Seq<Seq<char>> = Seq::empty();
    let mut i: usize = 0;
    while i < n
        invariant
            0 <= i <= n,
            n == cs@.len(),
            cs@ == text@,
            tokens_from(text@, i as int, cur@, racc) == raw_tokens(text@),
            toks.deep_view() == racc.map_values(|t: Seq<char>| lower_of(t)),
        decreases n - i,
    {
        let ghost cur0 = cur@;
        let ghost racc0 = racc;
        let c = cs[i];
        if char_is_whitespace(c) {
            proof {
                assert(tokens_from(text@, i as int, cur0, racc0) == tokens_from(
                    text@,
                    i + 1,
                    Seq::<char>::empty(),
                    close_word(cur0, racc0),
                ));
            }
            if cur.len() > 0 {
                let w = string_from_chars(&cur);
                let lw = to_lowercase(w.as_str());
                proof {
                    let f = |t: Seq<char>| lower_of(t);
                    assert(racc0.push(cur0).map_values(f) =~= racc0.map_values(f).push(
                        lower_of(cur0),
                    ));
                    assert(toks@.push(lw).map_values(|s: String| s@) =~= toks.deep_view().push(
                        lw@,
                    ));
                }
                toks.push(lw);
                cur = Vec::new();
                proof {
                    racc = racc0.push(cur0);
                    assert(toks.deep_view() =~= racc.map_values(|t: Seq<char>| lower_of(t)));
                    assert(cur@ =~= Seq::<char>::empty());
                }
            } else {
                proof {
                    assert(cur@ =~= Seq::<char>::empty());
                }
            }
        } else if char_is_alphabetic(c) {
            cur.push(c);
            proof {
                assert(tokens_from(text@, i as int, cur0, racc0) == tokens_from(
                    text@,
                    i + 1,
                    cur0.push(text@[i as int]),
                    racc0,
                ));
                assert(cur@ == cur0.push(text@[i as int]));
            }
        } else {
            proof {
                assert(tokens_from(text@, i as int, cur0, racc0) == tokens_from(
                    text@,
                    i + 1,
                    cur0,
                    racc0,
                ));
            }
        }
        i = i + 1;
    }
    proof {
        assert(tokens_from(text@, n as int, cur@, racc) == close_word(cur@, racc));
    }
    if cur.len() > 0 {
        let w = string_from_chars(&cur);
        let lw = to_lowercase(w.as_str());
        proof {
            let f = |t: Seq<char>| lower_of(t);
            assert(racc.push(cur@).map_values(f) =~= racc.map_values(f).push(lower_of(cur@)));
            assert(toks@.push(lw).map_values(|s: String| s@) =~= toks.deep_view().push(lw@));
        }
        let ghost racc0 = racc;
        let ghost cur0 = cur@;
        toks.push(lw);
        proof {
            racc = racc0.push(cur0);
            assert(toks.deep_view() =~= racc.map_values(|t: Seq<char>| lower_of(t)));
        }
    }
    proof {
        assert(toks.deep_view() =~= norm_tokens(text@));
    }
    toks
}

} // verus!
