//! Sorted association tables keyed by strings.
//!
//! Both tables of the resolver — keyword to symbol, and token to
//! embedding vector — keep their entries sorted in strictly increasing
//! lexicographic key order.  Scanning a table therefore visits
//! candidates in a fixed, documented order, which is what makes every
//! tie-break deterministic, and sortedness makes keys unique.

use vstd::prelude::*;

use crate::sim::Vector;

verus! {

/// Lexicographic strict order on character sequences, by code point.
pub open spec fn str_lt(a: Seq<char>, b: Seq<char>) -> bool
    decreases a.len(),
{
    if a.len() == 0 {
        b.len() > 0
    } else if b.len() == 0 {
        false
    } else if a[0] == b[0] {
        str_lt(a.drop_first(), b.drop_first())
    } else {
        (a[0] as u32) < (b[0] as u32)
    }
}

/// `str_lt` is irreflexive.
pub proof fn lemma_str_lt_irrefl(a: Seq<char>)
    ensures
        !str_lt(a, a),
    decreases a.len(),
{
    if a.len() > 0 {
        lemma_str_lt_irrefl(a.drop_first());
    }
}

/// `str_lt` is transitive.
pub proof fn lemma_str_lt_trans(a: Seq<char>, b: Seq<char>, c: Seq<char>)
    requires
        str_lt(a, b),
        str_lt(b, c),
    ensures
        str_lt(a, c),
    decreases a.len(),
{
    if a.len() == 0 {
    } else if a[0] == b[0] && b[0] == c[0] {
        lemma_str_lt_trans(a.drop_first(), b.drop_first(), c.drop_first());
    }
}

/// Any two character sequences are ordered or equal.
pub proof fn lemma_str_lt_connex(a: Seq<char>, b: Seq<char>)
    ensures
        str_lt(a, b) || str_lt(b, a) || a == b,
    decreases a.len(),
{
    if a.len() == 0 {
        if b.len() == 0 {
            assert(a =~= b);
        }
    } else if b.len() == 0 {
    } else if a[0] == b[0] {
        lemma_str_lt_connex(a.drop_first(), b.drop_first());
        if a.drop_first() == b.drop_first() {
            assert(a.drop_first().len() == a.len() - 1);
            assert(b.drop_first().len() == b.len() - 1);
            assert(a.len() == b.len());
            assert forall|i: int| 0 <= i < a.len() implies a[i] == b[i] by {
                if i > 0 {
                    assert(a[i] == a.drop_first()[i - 1]);
                    assert(b[i] == b.drop_first()[i - 1]);
                }
            }
            assert(a =~= b);
        }
    } else {
        assert((a[0] as u32) != (b[0] as u32)) by {
            vstd::utf8::char_u32_cast(a[0], a[0] as u32);
            vstd::utf8::char_u32_cast(b[0], b[0] as u32);
        }
    }
}

/// Decide `str_lt` on two string slices.
pub fn str_lt_exec(a: &str, b: &str) -> (r: bool)
    ensures
        r == str_lt(a@, b@),
{
    let la: usize = a.unicode_len();
    let lb: usize = b.unicode_len();
    let mut i: usize = 0;
    proof {
        assert(a@.skip(0) =~= a@);
        assert(b@.skip(0) =~= b@);
    }
    loop
        invariant
            0 <= i <= la,
            0 <= i <= lb,
            la == a@.len(),
            lb == b@.len(),
            str_lt(a@, b@) == str_lt(a@.skip(i as int), b@.skip(i as int)),
        decreases la - i,
    {
        if i >= la || i >= lb {
            break ;
        }
        let ca = a.get_char(i);
        let cb = b.get_char(i);
        proof {
            assert(a@.skip(i as int)[0] == a@[i as int]);
            assert(b@.skip(i as int)[0] == b@[i as int]);
        }
        if ca == cb {
            proof {
                assert(a@.skip(i as int).drop_first() =~= a@.skip(i + 1));
                assert(b@.skip(i as int).drop_first() =~= b@.skip(i + 1));
            }
            i = i + 1;
        } else {
            return (ca as u32) < (cb as u32);
        }
    }
    if i >= la {
        proof {
            assert(a@.skip(i as int).len() == 0);
        }
        i < lb
    } else {
        proof {
            assert(b@.skip(i as int).len() == 0);
            assert(a@.skip(i as int).len() > 0);
        }
        false
    }
}

/// Entries sorted in strictly increasing key order.
pub open spec fn keys_sorted<V>(s: Seq<(Seq<char>, V)>) -> bool {
    forall|i: int, j: int|
        0 <= i < j < s.len() ==> str_lt(#[trigger] s[i].0, #[trigger] s[j].0)
}

/// The value at the first entry whose key is `k`, scanning from `i`.
pub open spec fn find_from<V>(s: Seq<(Seq<char>, V)>, k: Seq<char>, i: int) -> Option<V>
    decreases s.len() - i,
{
    if i < 0 || i >= s.len() {
        None
    } else if s[i].0 == k {
        Some(s[i].1)
    } else {
        find_from(s, k, i + 1)
    }
}

/// The value mapped to key `k`, if any.
pub open spec fn find_pair<V>(s: Seq<(Seq<char>, V)>, k: Seq<char>) -> Option<V> {
    find_from(s, k, 0)
}

/// In a sorted table, an entry's value is what lookup finds: sorted
/// keys are unique, so the entry is the only one with its key.
pub proof fn lemma_find_unique<V>(s: Seq<(Seq<char>, V)>, i: int)
    requires
        keys_sorted(s),
        0 <= i < s.len(),
    ensures
        find_pair(s, s[i].0) == Some(s[i].1),
{
    lemma_find_unique_from(s, i, 0);
}

proof fn lemma_find_unique_from<V>(s: Seq<(Seq<char>, V)>, i: int, j: int)
    requires
        keys_sorted(s),
        0 <= j <= i < s.len(),
    ensures
        find_from(s, s[i].0, j) == Some(s[i].1),
    decreases i - j,
{
    if j < i {
        lemma_str_lt_irrefl(s[i].0);
        assert(str_lt(s[j].0, s[i].0));
        assert(s[j].0 != s[i].0);
        lemma_find_unique_from(s, i, j + 1);
    }
}

/// The position where key `k` belongs: the first entry, scanning from
/// `i`, whose key is not below `k`; the length if every key is below.
pub open spec fn insert_pos<V>(s: Seq<(Seq<char>, V)>, k: Seq<char>, i: int) -> int
    decreases s.len() - i,
{
    if i < 0 || i >= s.len() {
        s.len() as int
    } else if !str_lt(s[i].0, k) {
        i
    } else {
        insert_pos(s, k, i + 1)
    }
}

/// Insertion with last-write-wins on an existing key: replace the
/// entry whose key equals `k`, or place the new entry where it keeps
/// the table sorted.
pub open spec fn dict_insert<V>(s: Seq<(Seq<char>, V)>, k: Seq<char>, v: V) -> Seq<
    (Seq<char>, V),
> {
    let p = insert_pos(s, k, 0);
    if p < s.len() && s[p].0 == k {
        s.update(p, (k, v))
    } else {
        s.insert(p, (k, v))
    }
}

/// What `insert_pos` promises of its answer.
pub proof fn lemma_insert_pos_facts<V>(s: Seq<(Seq<char>, V)>, k: Seq<char>, i: int)
    requires
        0 <= i <= s.len(),
    ensures
        i <= insert_pos(s, k, i) <= s.len(),
        forall|j: int| i <= j < insert_pos(s, k, i) ==> str_lt(#[trigger] s[j].0, k),
        insert_pos(s, k, i) < s.len() ==> !str_lt(s[insert_pos(s, k, i)].0, k),
    decreases s.len() - i,
{
    if i < s.len() && str_lt(s[i].0, k) {
        lemma_insert_pos_facts(s, k, i + 1);
    }
}

/// Inserting into a sorted table keeps it sorted, and afterwards `k`
/// maps to `v` while every other key maps as before.
pub proof fn lemma_dict_insert_sorted<V>(s: Seq<(Seq<char>, V)>, k: Seq<char>, v: V)
    requires
        keys_sorted(s),
    ensures
        keys_sorted(dict_insert(s, k, v)),
        find_pair(dict_insert(s, k, v), k) == Some(v),
{
    let p = insert_pos(s, k, 0);
    lemma_insert_pos_facts(s, k, 0);
    let t = dict_insert(s, k, v);
    if p < s.len() && s[p].0 == k {
        assert forall|i: int, j: int| 0 <= i < j < t.len() implies str_lt(
            #[trigger] t[i].0,
            #[trigger] t[j].0,
        ) by {
            assert(t[i].0 == s[i].0);
            assert(t[j].0 == s[j].0);
        }
        lemma_find_unique(t, p);
    } else {
        if p < s.len() {
            lemma_str_lt_connex(s[p].0, k);
            assert(str_lt(k, s[p].0));
        }
        assert forall|i: int, j: int| 0 <= i < j < t.len() implies str_lt(
            #[trigger] t[i].0,
            #[trigger] t[j].0,
        ) by {
            if i < p && j < p {
            } else if i < p && j == p {
                assert(t[j].0 == k);
            } else if i < p && j > p {
                assert(t[j].0 == s[j - 1].0);
            } else if i == p {
                assert(t[i].0 == k);
                if j > p {
                    assert(t[j].0 == s[j - 1].0);
                    if p < s.len() {
                        if j - 1 > p {
                            lemma_str_lt_trans(k, s[p as int].0, s[j - 1].0);
                        }
                    }
                }
            } else {
                assert(t[i].0 == s[i - 1].0);
                assert(t[j].0 == s[j - 1].0);
            }
        }
        lemma_find_unique(t, p);
    }
}

/// The keyword table: canonical keyword to symbol, sorted by keyword.
pub struct KeywordTable {
    pub keys: Vec<String>,
    pub syms: Vec<String>,
}

impl KeywordTable {
    /// The association this table holds, in storage order.
    pub open spec fn pairs(&self) -> Seq<(Seq<char>, Seq<char>)> {
        Seq::new(self.keys@.len() as nat, |i: int| (self.keys@[i]@, self.syms@[i]@))
    }

    /// Parallel columns of equal length, sorted strictly by key.
    pub open spec fn wf(&self) -> bool {
        &&& self.keys@.len() == self.syms@.len()
        &&& keys_sorted(self.pairs())
    }

    /// The empty table.
    pub fn new() -> (t: KeywordTable)
        ensures
            t.wf(),
            t.pairs() == Seq::<(Seq<char>, Seq<char>)>::empty(),
    {
        let t = KeywordTable { keys: Vec::new(), syms: Vec::new() };
        proof {
            assert(t.pairs() =~= Seq::<(Seq<char>, Seq<char>)>::empty());
        }
        t
    }

    /// How many entries the table holds.
    pub fn len(&self) -> (n: usize)
        requires
            self.wf(),
        ensures
            n == self.pairs().len(),
    {
        self.keys.len()
    }

    /// Insert a keyword, overwriting the symbol of an equal keyword.
    pub fn insert(&mut self, k: String, v: String)
        requires
            old(self).wf(),
        ensures
            final(self).wf(),
            final(self).pairs() == dict_insert(old(self).pairs(), k@, v@),
    {
        let ghost s0 = self.pairs();
        proof {
            lemma_insert_pos_facts(s0, k@, 0);
        }
        let n: usize = self.keys.len();
        let mut i: usize = 0;
        while i < n && str_lt_exec(self.keys[i].as_str(), k.as_str())
            invariant
                0 <= i <= n,
                n == self.keys@.len(),
                self.keys@.len() == self.syms@.len(),
                self.pairs() == s0,
                keys_sorted(s0),
                insert_pos(s0, k@, 0) == insert_pos(s0, k@, i as int),
            decreases n - i,
        {
            i = i + 1;
        }
        proof {
            assert(insert_pos(s0, k@, i as int) == i);
            lemma_dict_insert_sorted(s0, k@, v@);
        }
        if i < n && self.keys[i].eq(&k) {
            self.keys.set(i, k);
            self.syms.set(i, v);
            proof {
                assert(self.pairs() =~= dict_insert(s0, k@, v@));
            }
        } else {
            self.keys.insert(i, k);
            self.syms.insert(i, v);
            proof {
                assert(self.pairs() =~= dict_insert(s0, k@, v@));
            }
        }
    }

    /// Look a normalized token up; `Some` exactly when the token is a
    /// key of the table, with that key's symbol.
    pub fn get(&self, tok: &String) -> (r: Option<String>)
        requires
            self.wf(),
        ensures
            match r {
                Some(sym) => find_pair(self.pairs(), tok@) == Some(sym@),
                None => find_pair(self.pairs(), tok@) is None,
            },
    {
        let n: usize = self.keys.len();
        let mut i: usize = 0;
        while i < n
            invariant
                0 <= i <= n,
                n == self.keys@.len(),
                self.keys@.len() == self.syms@.len(),
                find_pair(self.pairs(), tok@) == find_from(self.pairs(), tok@, i as int),
            decreases n - i,
        {
            if self.keys[i].eq(tok) {
                return Some(self.syms[i].clone());
            }
            i = i + 1;
        }
        None
    }
}

/// An embedding table: token to fixed-point vector, sorted by token.
pub struct EmbedTable {
    pub keys: Vec<String>,
    pub vecs: Vec<Vector>,
}

impl EmbedTable {
    /// The association this table holds, in storage order.
    pub open spec fn pairs(&self) -> Seq<(Seq<char>, Seq<i64>)> {
        Seq::new(self.keys@.len() as nat, |i: int| (self.keys@[i]@, self.vecs@[i].comps@))
    }

    /// Parallel columns of equal length, sorted strictly by key, every
    /// vector within the dimension and component bounds.
    pub open spec fn wf(&self) -> bool {
        &&& self.keys@.len() == self.vecs@.len()
        &&& keys_sorted(self.pairs())
        &&& forall|i: int| 0 <= i < self.vecs@.len() ==> (#[trigger] self.vecs@[i]).wf()
    }

    /// The empty table.
    pub fn new() -> (t: EmbedTable)
        ensures
            t.wf(),
            t.pairs() == Seq::<(Seq<char>, Seq<i64>)>::empty(),
    {
        let t = EmbedTable { keys: Vec::new(), vecs: Vec::new() };
        proof {
            assert(t.pairs() =~= Seq::<(Seq<char>, Seq<i64>)>::empty());
        }
        t
    }

    /// How many entries the table holds.
    pub fn len(&self) -> (n: usize)
        requires
            self.wf(),
        ensures
            n == self.pairs().len(),
    {
        self.keys.len()
    }

    /// Insert a token's vector, overwriting the vector of an equal
    /// token.
    pub fn insert(&mut self, k: String, v: Vector)
        requires
            old(self).wf(),
            v.wf(),
        ensures
            final(self).wf(),
            final(self).pairs() == dict_insert(old(self).pairs(), k@, v.comps@),
    {
        let ghost s0 = self.pairs();
        proof {
            lemma_insert_pos_facts(s0, k@, 0);
        }
        let n: usize = self.keys.len();
        let mut i: usize = 0;
        while i < n && str_lt_exec(self.keys[i].as_str(), k.as_str())
            invariant
                0 <= i <= n,
                n == self.keys@.len(),
                self.keys@.len() == self.vecs@.len(),
                self.pairs() == s0,
                keys_sorted(s0),
                insert_pos(s0, k@, 0) == insert_pos(s0, k@, i as int),
            decreases n - i,
        {
            i = i + 1;
        }
        proof {
            assert(insert_pos(s0, k@, i as int) == i);
            lemma_dict_insert_sorted(s0, k@, v.comps@);
        }
        if i < n && self.keys[i].eq(&k) {
            self.keys.set(i, k);
            self.vecs.set(i, v);
            proof {
                assert(self.pairs() =~= dict_insert(s0, k@, v.comps@));
            }
        } else {
            self.keys.insert(i, k);
            self.vecs.insert(i, v);
            proof {
                assert(self.pairs() =~= dict_insert(s0, k@, v.comps@));
            }
        }
    }

    /// Find the index of a token's entry; `Some` exactly when the
    /// token has a vector.
    pub fn find_idx(&self, tok: &String) -> (r: Option<usize>)
        requires
            self.wf(),
        ensures
            match r {
                Some(i) => {
                    &&& 0 <= i < self.pairs().len()
                    &&& self.pairs()[i as int].0 == tok@
                    &&& find_pair(self.pairs(), tok@) == Some(self.pairs()[i as int].1)
                },
                None => find_pair(self.pairs(), tok@) is None,
            },
    {
        let n: usize = self.keys.len();
        let mut i: usize = 0;
        while i < n
            invariant
                0 <= i <= n,
                n == self.keys@.len(),
                self.keys@.len() == self.vecs@.len(),
                find_pair(self.pairs(), tok@) == find_from(self.pairs(), tok@, i as int),
            decreases n - i,
        {
            if self.keys[i].eq(tok) {
                return Some(i);
            }
            i = i + 1;
        }
        None
    }
}

} // verus!
