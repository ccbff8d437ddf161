//! The symbol dictionary: a structured text mapping each symbol to the
//! keywords that stand for it.
//!
//! The accepted shape is an object of string keys to arrays of
//! strings, `{ "symbol": ["keyword", ...], ... }`, with arbitrary
//! whitespace between elements.  A string is any run of characters
//! other than a quote or a backslash — escapes are not part of this
//! dictionary format.  Anything else fails compilation.
//!
//! Entries are processed in document order, and a later entry claiming
//! an already-claimed keyword overwrites the earlier one — the
//! documented, deterministic last-write-wins rule.  Each keyword is
//! put through the same normalization as query tokens; a keyword that
//! does not normalize to exactly one token could never be matched by a
//! query and is skipped.

use vstd::prelude::*;

use crate::table::KeywordTable;
use crate::table::dict_insert;
use crate::text::is_space_char;
use crate::text::norm_tokens;
use crate::text::normalize;
use crate::text::string_from_chars;

verus! {

/// The first position at or after `i` holding a non-whitespace
/// character; the length when none remains.
pub open spec fn skip_ws(s: Seq<char>, i: int) -> int
    decreases s.len() - i,
{
    if i < 0 || i >= s.len() {
        s.len() as int
    } else if is_space_char(s[i]) {
        skip_ws(s, i + 1)
    } else {
        i
    }
}

/// Scan a string body from position `i` (just after the opening
/// quote): the characters up to the closing quote and the position
/// after it.  A backslash or an unterminated string fails.
pub open spec fn scan_string(s: Seq<char>, i: int, acc: Seq<char>) -> Option<(Seq<char>, int)>
    decreases s.len() - i,
{
    if i < 0 || i >= s.len() {
        None
    } else if s[i] == '"' {
        Some((acc, i + 1))
    } else if s[i] == '\\' {
        None
    } else {
        scan_string(s, i + 1, acc.push(s[i]))
    }
}

/// Parse a quoted string at position `i`.
pub open spec fn parse_string(s: Seq<char>, i: int) -> Option<(Seq<char>, int)> {
    if 0 <= i < s.len() && s[i] == '"' {
        scan_string(s, i + 1, Seq::empty())
    } else {
        None
    }
}

/// Positions only move forward through a string body.
pub proof fn lemma_scan_string_bounds(s: Seq<char>, i: int, acc: Seq<char>)
    requires
        0 <= i <= s.len(),
    ensures
        match scan_string(s, i, acc) {
            Some((v, j)) => i < j <= s.len(),
            None => true,
        },
    decreases s.len() - i,
{
    if i < s.len() && s[i] != '"' && s[i] != '\\' {
        lemma_scan_string_bounds(s, i + 1, acc.push(s[i]));
    }
}

/// Positions only move forward through a parsed string.
pub proof fn lemma_parse_string_bounds(s: Seq<char>, i: int)
    ensures
        match parse_string(s, i) {
            Some((v, j)) => i + 1 < j <= s.len(),
            None => true,
        },
{
    if 0 <= i < s.len() && s[i] == '"' {
        lemma_scan_string_bounds(s, i + 1, Seq::empty());
    }
}

/// Whitespace skipping never moves backwards.
pub proof fn lemma_skip_ws_bounds(s: Seq<char>, i: int)
    requires
        0 <= i <= s.len(),
    ensures
        i <= skip_ws(s, i) <= s.len(),
    decreases s.len() - i,
{
    if i < s.len() && is_space_char(s[i]) {
        lemma_skip_ws_bounds(s, i + 1);
    }
}

/// Parse the elements of a non-empty array, standing at the first
/// element's opening quote, with the elements read so far.
pub open spec fn arr_elems(s: Seq<char>, i: int, acc: Seq<Seq<char>>) -> Option<
    (Seq<Seq<char>>, int),
>
    decreases s.len() - i,
    via arr_elems_decreases
{
    if i < 0 {
        None
    } else {
        match parse_string(s, i) {
            None => None,
            Some((e, j)) => {
                let k = skip_ws(s, j);
                if k < s.len() && s[k] == ',' {
                    arr_elems(s, skip_ws(s, k + 1), acc.push(e))
                } else if k < s.len() && s[k] == ']' {
                    Some((acc.push(e), k + 1))
                } else {
                    None
                }
            },
        }
    }
}

#[via_fn]
proof fn arr_elems_decreases(s: Seq<char>, i: int, acc: Seq<Seq<char>>) {
    if i >= 0 {
        lemma_parse_string_bounds(s, i);
        match parse_string(s, i) {
            None => {},
            Some((e, j)) => {
                lemma_skip_ws_bounds(s, j);
                let k = skip_ws(s, j);
                if k < s.len() && s[k] == ',' {
                    lemma_skip_ws_bounds(s, k + 1);
                }
            },
        }
    }
}

/// Parse an array of strings at position `i`.
pub open spec fn parse_array(s: Seq<char>, i: int) -> Option<(Seq<Seq<char>>, int)> {
    if 0 <= i < s.len() && s[i] == '[' {
        let j = skip_ws(s, i + 1);
        if j < s.len() && s[j] == ']' {
            Some((Seq::empty(), j + 1))
        } else {
            arr_elems(s, j, Seq::empty())
        }
    } else {
        None
    }
}

/// Array parsing only moves forward.
pub proof fn lemma_arr_elems_bounds(s: Seq<char>, i: int, acc: Seq<Seq<char>>)
    ensures
        match arr_elems(s, i, acc) {
            Some((v, j)) => i < j <= s.len(),
            None => true,
        },
    decreases s.len() - i,
{
    if i >= 0 {
        lemma_parse_string_bounds(s, i);
        match parse_string(s, i) {
            None => {},
            Some((e, j)) => {
                lemma_skip_ws_bounds(s, j);
                let k = skip_ws(s, j);
                if k < s.len() && s[k] == ',' {
                    lemma_skip_ws_bounds(s, k + 1);
                    lemma_arr_elems_bounds(s, skip_ws(s, k + 1), acc.push(e));
                }
            },
        }
    }
}

/// Parsed arrays end after where they begin.
pub proof fn lemma_parse_array_bounds(s: Seq<char>, i: int)
    ensures
        match parse_array(s, i) {
            Some((v, j)) => i < j <= s.len(),
            None => true,
        },
{
    if 0 <= i < s.len() && s[i] == '[' {
        lemma_skip_ws_bounds(s, i + 1);
        let j = skip_ws(s, i + 1);
        if !(j < s.len() && s[j] == ']') {
            lemma_arr_elems_bounds(s, j, Seq::empty());
        }
    }
}

/// Parse the members of a non-empty object, standing at the first
/// member's opening quote, with the symbols and keyword lists read so
/// far.
pub open spec fn dict_pairs(
    s: Seq<char>,
    i: int,
    syms: Seq<Seq<char>>,
    lists: Seq<Seq<Seq<char>>>,
) -> Option<(Seq<Seq<char>>, Seq<Seq<Seq<char>>>, int)>
    decreases s.len() - i,
    via dict_pairs_decreases
{
    if i < 0 {
        None
    } else {
        match parse_string(s, i) {
            None => None,
            Some((sym, j)) => {
                let k = skip_ws(s, j);
                if k < s.len() && s[k] == ':' {
                    match parse_array(s, skip_ws(s, k + 1)) {
                        None => None,
                        Some((arr, p)) => {
                            let q = skip_ws(s, p);
                            if q < s.len() && s[q] == ',' {
                                dict_pairs(s, skip_ws(s, q + 1), syms.push(sym), lists.push(arr))
                            } else if q < s.len() && s[q] == '}' {
                                Some((syms.push(sym), lists.push(arr), q + 1))
                            } else {
                                None
                            }
                        },
                    }
                } else {
                    None
                }
            },
        }
    }
}

#[via_fn]
proof fn dict_pairs_decreases(s: Seq<char>, i: int, syms: Seq<Seq<char>>, lists: Seq<Seq<Seq<char>>>) {
    if i >= 0 {
        lemma_parse_string_bounds(s, i);
        match parse_string(s, i) {
            None => {},
            Some((sym, j)) => {
                lemma_skip_ws_bounds(s, j);
                let k = skip_ws(s, j);
                if k < s.len() && s[k] == ':' {
                    lemma_skip_ws_bounds(s, k + 1);
                    lemma_parse_array_bounds(s, skip_ws(s, k + 1));
                    match parse_array(s, skip_ws(s, k + 1)) {
                        None => {},
                        Some((arr, p)) => {
                            lemma_skip_ws_bounds(s, p);
                            let q = skip_ws(s, p);
                            if q < s.len() && s[q] == ',' {
                                lemma_skip_ws_bounds(s, q + 1);
                            }
                        },
                    }
                }
            },
        }
    }
}

/// Parse a whole dictionary text: one object of symbol-to-keyword-list
/// members and nothing but whitespace around it.
pub open spec fn parse_dict(s: Seq<char>) -> Option<(Seq<Seq<char>>, Seq<Seq<Seq<char>>>)> {
    let i = skip_ws(s, 0);
    if i < s.len() && s[i] == '{' {
        let j = skip_ws(s, i + 1);
        if j < s.len() && s[j] == '}' {
            if skip_ws(s, j + 1) == s.len() {
                Some((Seq::empty(), Seq::empty()))
            } else {
                None
            }
        } else {
            match dict_pairs(s, j, Seq::empty(), Seq::empty()) {
                None => None,
                Some((syms, lists, p)) => {
                    if skip_ws(s, p) == s.len() {
                        Some((syms, lists))
                    } else {
                        None
                    }
                },
            }
        }
    } else {
        None
    }
}

/// Fold one symbol's keywords into the table from index `j` on: a
/// keyword normalizing to exactly one token maps that token to the
/// symbol, anything else is skipped.
pub open spec fn kw_fold_list(
    acc: Seq<(Seq<char>, Seq<char>)>,
    sym: Seq<char>,
    kws: Seq<Seq<char>>,
    j: int,
) -> Seq<(Seq<char>, Seq<char>)>
    decreases kws.len() - j,
{
    if j < 0 || j >= kws.len() {
        acc
    } else {
        let ts = norm_tokens(kws[j]);
        let acc2 = if ts.len() == 1 {
            dict_insert(acc, ts[0], sym)
        } else {
            acc
        };
        kw_fold_list(acc2, sym, kws, j + 1)
    }
}

/// Fold the dictionary members from index `i` on into the table.
pub open spec fn kw_fold_pairs(
    acc: Seq<(Seq<char>, Seq<char>)>,
    syms: Seq<Seq<char>>,
    lists: Seq<Seq<Seq<char>>>,
    i: int,
) -> Seq<(Seq<char>, Seq<char>)>
    decreases syms.len() - i,
{
    if i < 0 || i >= syms.len() || syms.len() != lists.len() {
        acc
    } else {
        kw_fold_pairs(kw_fold_list(acc, syms[i], lists[i], 0), syms, lists, i + 1)
    }
}

/// The keyword table a parsed dictionary stands for.
pub open spec fn keyword_table_of(syms: Seq<Seq<char>>, lists: Seq<Seq<Seq<char>>>) -> Seq<
    (Seq<char>, Seq<char>),
> {
    kw_fold_pairs(Seq::empty(), syms, lists, 0)
}

/// Skip whitespace, executably.
fn skip_ws_exec(cs: &Vec<char>, from: usize) -> (j: usize)
    requires
        from <= cs@.len(),
    ensures
        j == skip_ws(cs@, from as int),
        from <= j <= cs@.len(),
{
    let n: usize = cs.len();
    let mut i: usize = from;
    while i < n && crate::text::char_is_whitespace(cs[i])
        invariant
            from <= i <= n,
            n == cs@.len(),
            skip_ws(cs@, from as int) == skip_ws(cs@, i as int),
        decreases n - i,
    {
        i = i + 1;
    }
    i
}

/// Parse a quoted string, executably.
fn parse_string_exec(cs: &Vec<char>, from: usize) -> (r: Option<(Vec<char>, usize)>)
    requires
        from <= cs@.len(),
    ensures
        match r {
            Some((v, j)) => parse_string(cs@, from as int) == Some((v@, j as int)) && from < j
                <= cs@.len(),
            None => parse_string(cs@, from as int) is None,
        },
{
    let n: usize = cs.len();
    if from >= n || cs[from] != '"' {
        return None;
    }
    let mut acc: Vec<char> = Vec::new();
    let mut i: usize = from + 1;
    proof {
        assert(acc@ =~= Seq::<char>::empty());
    }
    while i < n && cs[i] != '"' && cs[i] != '\\'
        invariant
            from + 1 <= i <= n,
            n == cs@.len(),
            scan_string(cs@, from + 1, Seq::empty()) == scan_string(cs@, i as int, acc@),
        decreases n - i,
    {
        let c = cs[i];
        acc.push(c);
        i = i + 1;
    }
    if i >= n || cs[i] == '\\' {
        return None;
    }
    Some((acc, i + 1))
}

/// The result of parsing a dictionary text: symbols and their keyword
/// lists, in document order.
pub struct DictEntries {
    pub syms: Vec<String>,
    pub lists: Vec<Vec<String>>,
}

impl DictEntries {
    /// Parallel columns of equal length.
    pub open spec fn wf(&self) -> bool {
        self.syms@.len() == self.lists@.len()
    }
}

/// Parse an array of strings, executably.
fn parse_array_exec(cs: &Vec<char>, from: usize) -> (r: Option<(Vec<String>, usize)>)
    requires
        from <= cs@.len(),
    ensures
        match r {
            Some((v, j)) => parse_array(cs@, from as int) == Some((v.deep_view(), j as int)) && from
                < j <= cs@.len(),
            None => parse_array(cs@, from as int) is None,
        },
{
    let n: usize = cs.len();
    if from >= n || cs[from] != '[' {
        return None;
    }
    let mut i: usize = skip_ws_exec(cs, from + 1);
    if i < n && cs[i] == ']' {
        let out: Vec<String> = Vec::new();
        proof {
            assert(out.deep_view() =~~= Seq::<Seq<char>>::empty());
        }
        return Some((out, i + 1));
    }
    let mut out: Vec<String> = Vec::new();
    let mut i2: usize = i;
    let ghost target = arr_elems(cs@, i as int, Seq::<Seq<char>>::empty());
    proof {
        assert(out.deep_view() =~~= Seq::<Seq<char>>::empty());
    }
    loop
        invariant
            from < i2 <= n,
            n == cs@.len(),
            arr_elems(cs@, i2 as int, out.deep_view()) == target,
            target == parse_array(cs@, from as int),
        decreases n - i2,
    {
        let ghost acc0 = out.deep_view();
        match parse_string_exec(cs, i2) {
            None => {
                return None;
            },
            Some((v, j)) => {
                let k: usize = skip_ws_exec(cs, j);
                let e = string_from_chars(&v);
                if k < n && cs[k] == ',' {
                    out.push(e);
                    proof {
                        assert(out.deep_view() =~~= acc0.push(v@));
                    }
                    let i3: usize = skip_ws_exec(cs, k + 1);
                    proof {
                        assert(arr_elems(cs@, i2 as int, acc0) == arr_elems(
                            cs@,
                            skip_ws(cs@, k + 1),
                            acc0.push(v@),
                        ));
                    }
                    i2 = i3;
                } else if k < n && cs[k] == ']' {
                    out.push(e);
                    proof {
                        assert(out.deep_view() =~~= acc0.push(v@));
                        assert(arr_elems(cs@, i2 as int, acc0) == Some((acc0.push(v@), k + 1)));
                    }
                    return Some((out, k + 1));
                } else {
                    return None;
                }
            },
        }
    }
}

/// Parse a dictionary text, executably.
pub fn parse_dict_exec(text: &str) -> (r: Option<DictEntries>)
    ensures
        match r {
            Some(d) => d.wf() && parse_dict(text@) == Some(
                (d.syms.deep_view(), d.lists.deep_view()),
            ),
            None => parse_dict(text@) is None,
        },
{
    let cs = crate::lev::chars_vec(text);
    let n: usize = cs.len();
    let i: usize = skip_ws_exec(&cs, 0);
    if i >= n || cs[i] != '{' {
        return None;
    }
    let j: usize = skip_ws_exec(&cs, i + 1);
    if j < n && cs[j] == '}' {
        let e: usize = skip_ws_exec(&cs, j + 1);
        if e == n {
            let d = DictEntries { syms: Vec::new(), lists: Vec::new() };
            proof {
                assert(d.syms.deep_view() =~~= Seq::<Seq<char>>::empty());
                assert(d.lists.deep_view() =~~= Seq::<Seq<Seq<char>>>::empty());
            }
            return Some(d);
        } else {
            return None;
        }
    }
    let mut syms: Vec<String> = Vec::new();
    let mut lists: Vec<Vec<String>> = Vec::new();
    let mut i2: usize = j;
    let ghost target = dict_pairs(
        cs@,
        j as int,
        Seq::<Seq<char>>::empty(),
        Seq::<Seq<Seq<char>>>::empty(),
    );
    proof {
        assert(syms.deep_view() =~~= Seq::<Seq<char>>::empty());
        assert(lists.deep_view() =~~= Seq::<Seq<Seq<char>>>::empty());
    }
    loop
        invariant
            0 <= i2 <= n,
            n == cs@.len(),
            cs@ == text@,
            syms@.len() == lists@.len(),
            dict_pairs(cs@, i2 as int, syms.deep_view(), lists.deep_view()) == target,
            ({
                let tail = skip_ws(cs@, skip_ws(cs@, 0) + 1);
                parse_dict(cs@) == match target {
                    None => None::<(Seq<Seq<char>>, Seq<Seq<Seq<char>>>)>,
                    Some((ss, ll, p)) => {
                        if skip_ws(cs@, p) == cs@.len() {
                            Some((ss, ll))
                        } else {
                            None
                        }
                    },
                }
            }),
        decreases n - i2,
    {
        let ghost syms0 = syms.deep_view();
        let ghost lists0 = lists.deep_view();
        match parse_string_exec(&cs, i2) {
            None => {
                return None;
            },
            Some((symv, j1)) => {
                let k: usize = skip_ws_exec(&cs, j1);
                if !(k < n && cs[k] == ':') {
                    return None;
                }
                let m: usize = skip_ws_exec(&cs, k + 1);
                match parse_array_exec(&cs, m) {
                    None => {
                        return None;
                    },
                    Some((arr, p)) => {
                        let q: usize = skip_ws_exec(&cs, p);
                        let sym = string_from_chars(&symv);
                        if q < n && cs[q] == ',' {
                            syms.push(sym);
                            lists.push(arr);
                            proof {
                                assert(syms.deep_view() =~~= syms0.push(symv@));
                                assert(lists.deep_view() =~~= lists0.push(arr.deep_view()));
                            }
                            let i3: usize = skip_ws_exec(&cs, q + 1);
                            i2 = i3;
                        } else if q < n && cs[q] == '}' {
                            syms.push(sym);
                            lists.push(arr);
                            proof {
                                assert(syms.deep_view() =~~= syms0.push(symv@));
                                assert(lists.deep_view() =~~= lists0.push(arr.deep_view()));
                                assert(dict_pairs(cs@, i2 as int, syms0, lists0) == Some(
                                    (syms0.push(symv@), lists0.push(arr.deep_view()), q + 1),
                                ));
                            }
                            let e: usize = skip_ws_exec(&cs, q + 1);
                            if e == n {
                                let d = DictEntries { syms, lists };
                                return Some(d);
                            } else {
                                return None;
                            }
                        } else {
                            return None;
                        }
                    },
                }
            },
        }
    }
}

/// Build the keyword table of a parsed dictionary, in document order
/// with last-write-wins.
pub fn build_keyword_table(d: &DictEntries) -> (t: KeywordTable)
    requires
        d.wf(),
    ensures
        t.wf(),
        t.pairs() == keyword_table_of(d.syms.deep_view(), d.lists.deep_view()),
{
    let ghost ss = d.syms.deep_view();
    let ghost ll = d.lists.deep_view();
    let np: usize = d.syms.len();
    let mut t = KeywordTable::new();
    let mut i: usize = 0;
    while i < np
        invariant
            0 <= i <= np,
            np == ss.len(),
            ss.len() == ll.len(),
            ss == d.syms.deep_view(),
            ll == d.lists.deep_view(),
            d.syms@.len() == d.lists@.len(),
            t.wf(),
            kw_fold_pairs(t.pairs(), ss, ll, i as int) == keyword_table_of(ss, ll),
        decreases np - i,
    {
        let ghost acc0 = t.pairs();
        let nk: usize = d.lists[i].len();
        let mut j: usize = 0;
        proof {
            assert(ll[i as int] == d.lists@[i as int].deep_view());
        }
        while j < nk
            invariant
                0 <= j <= nk,
                0 <= i < np,
                np == ss.len(),
                ss.len() == ll.len(),
                ss == d.syms.deep_view(),
                ll == d.lists.deep_view(),
                d.syms@.len() == d.lists@.len(),
                nk == ll[i as int].len(),
                t.wf(),
                kw_fold_list(t.pairs(), ss[i as int], ll[i as int], j as int) == kw_fold_list(
                    acc0,
                    ss[i as int],
                    ll[i as int],
                    0,
                ),
            decreases nk - j,
        {
            let ghost accj = t.pairs();
            proof {
                assert(ll[i as int][j as int] == d.lists@[i as int]@[j as int]@);
            }
            let toks = normalize(d.lists[i][j].as_str());
            proof {
                assert(toks.deep_view() == norm_tokens(ll[i as int][j as int]));
            }
            if toks.len() == 1 {
                let tok = toks[0].clone();
                let sym = d.syms[i].clone();
                proof {
                    assert(toks.deep_view()[0] == toks@[0]@);
                    assert(sym@ == ss[i as int]);
                }
                t.insert(tok, sym);
                proof {
                    assert(t.pairs() == dict_insert(
                        accj,
                        norm_tokens(ll[i as int][j as int])[0],
                        ss[i as int],
                    ));
                }
            }
            j = j + 1;
        }
        proof {
            assert(kw_fold_list(t.pairs(), ss[i as int], ll[i as int], nk as int) == t.pairs());
            assert(kw_fold_pairs(acc0, ss, ll, i as int) == kw_fold_pairs(
                t.pairs(),
                ss,
                ll,
                i + 1,
            ));
        }
        i = i + 1;
    }
    t
}

} // verus!
