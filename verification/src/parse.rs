//! Fault-tolerant parsing of the line-oriented embedding corpus.
//!
//! Each line is a token followed by whitespace-separated decimal
//! numbers.  A number is an optional sign, then digits with an
//! optional fractional part; anything else — including an exponent —
//! is malformed and parses as zero rather than rejecting the line.
//! Values saturate at sixteen units in either direction, fractional
//! digits beyond the ninth are ignored, and components beyond the
//! dimension bound are dropped: the documented capacity limits of the
//! fixed-point representation.

use vstd::prelude::*;

use crate::sim::COMP_LIMIT;
use crate::sim::FIXED_ONE;
use crate::sim::MAX_DIM;
use crate::sim::Vector;
use crate::table::EmbedTable;
use crate::table::dict_insert;
use crate::text::is_space_char;

verus! {

/// Whether a character is a decimal digit.
pub open spec fn is_digit(c: char) -> bool {
    48 <= c as u32 <= 57
}

/// The value of a decimal digit.
pub open spec fn digit_val(c: char) -> int {
    c as u32 - 48
}

/// Accumulate one more integer digit, saturating once the value can no
/// longer matter: anything above the component limit clamps anyway.
pub open spec fn int_digit_step(acc: int, d: int) -> int {
    if acc > COMP_LIMIT {
        acc
    } else {
        acc * 10 + d
    }
}

/// Scan integer digits from position `i`, returning the accumulated
/// value and the position after the last digit.
pub open spec fn scan_int_digits(s: Seq<char>, i: int, acc: int) -> (int, int)
    decreases s.len() - i,
{
    if i < 0 || i >= s.len() || !is_digit(s[i]) {
        (acc, i)
    } else {
        scan_int_digits(s, i + 1, int_digit_step(acc, digit_val(s[i])))
    }
}

/// Scan fractional digits from position `i`: the first nine contribute
/// to the numerator, later ones only move the position.
pub open spec fn scan_frac_digits(s: Seq<char>, i: int, num: int, cnt: int) -> (int, int, int)
    decreases s.len() - i,
{
    if i < 0 || i >= s.len() || !is_digit(s[i]) {
        (num, cnt, i)
    } else if cnt < 9 {
        scan_frac_digits(s, i + 1, num * 10 + digit_val(s[i]), cnt + 1)
    } else {
        scan_frac_digits(s, i + 1, num, cnt)
    }
}

/// Ten to the `k`-th power.
pub open spec fn pow10(k: int) -> int
    decreases k,
{
    if k <= 0 {
        1
    } else {
        10 * pow10(k - 1)
    }
}

/// The fixed-point value of a decimal numeral: sign, integer digits,
/// optionally a dot and fractional digits, nothing else, with at least
/// one digit; any other shape is malformed and stands for zero.  The
/// value is `round-down(numeral * 4096)`, saturated at the component
/// limit.
pub open spec fn parse_fixed_spec(s: Seq<char>) -> int {
    let start: int = if s.len() > 0 && (s[0] == '-' || s[0] == '+') {
        1
    } else {
        0
    };
    let neg = s.len() > 0 && s[0] == '-';
    let (ival, i1) = scan_int_digits(s, start, 0);
    let (fnum, fcnt, i2) = if i1 < s.len() && s[i1] == '.' {
        scan_frac_digits(s, i1 + 1, 0, 0)
    } else {
        (0, 0, i1)
    };
    let digits = (i1 - start) + (if i1 < s.len() && s[i1] == '.' {
        i2 - i1 - 1
    } else {
        0
    });
    if i2 == s.len() && digits >= 1 {
        let mag = ival * (FIXED_ONE as int) + (fnum * (FIXED_ONE as int)) / pow10(fcnt);
        let clamped: int = if mag > COMP_LIMIT {
            COMP_LIMIT as int
        } else {
            mag
        };
        if neg {
            -clamped
        } else {
            clamped
        }
    } else {
        0
    }
}

/// Integer-digit accumulation stays within its saturation band.
proof fn lemma_scan_int_digits_bounds(s: Seq<char>, i: int, acc: int)
    requires
        0 <= acc <= 655369,
    ensures
        ({
            let (v, e) = scan_int_digits(s, i, acc);
            0 <= v <= 655369 && i <= e || (i < 0 && v == acc && e == i)
        }),
    decreases s.len() - i,
{
    if i < 0 || i >= s.len() || !is_digit(s[i]) {
    } else {
        lemma_scan_int_digits_bounds(s, i + 1, int_digit_step(acc, digit_val(s[i])));
    }
}

/// Fractional-digit accumulation stays below ten to the ninth.
proof fn lemma_scan_frac_digits_bounds(s: Seq<char>, i: int, num: int, cnt: int)
    requires
        0 <= num,
        0 <= cnt <= 9,
        num < pow10(cnt),
    ensures
        ({
            let (n, c, e) = scan_frac_digits(s, i, num, cnt);
            0 <= n && cnt <= c <= 9 && n < pow10(c) && (i <= e || (i < 0 && e == i))
        }),
    decreases s.len() - i,
{
    if i < 0 || i >= s.len() || !is_digit(s[i]) {
    } else if cnt < 9 {
        assert(pow10(cnt + 1) == 10 * pow10(cnt));
        lemma_scan_frac_digits_bounds(s, i + 1, num * 10 + digit_val(s[i]), cnt + 1);
    } else {
        lemma_scan_frac_digits_bounds(s, i + 1, num, cnt);
    }
}

/// The ninth power of ten, by unfolding.
proof fn lemma_pow10_9()
    ensures
        pow10(9) == 1000000000,
        pow10(8) == 100000000,
{
    assert(pow10(0) == 1);
    assert(pow10(1) == 10);
    assert(pow10(2) == 100);
    assert(pow10(3) == 1000);
    assert(pow10(4) == 10000);
    assert(pow10(5) == 100000);
    assert(pow10(6) == 1000000);
    assert(pow10(7) == 10000000);
    assert(pow10(8) == 100000000);
    assert(pow10(9) == 1000000000);
}

/// Powers of ten are positive.
proof fn lemma_pow10_pos(k: int)
    ensures
        pow10(k) >= 1,
    decreases k,
{
    if k > 0 {
        lemma_pow10_pos(k - 1);
    }
}

/// Powers of ten grow with the exponent.
proof fn lemma_pow10_mono(k1: int, k2: int)
    requires
        k1 <= k2,
    ensures
        pow10(k1) <= pow10(k2),
    decreases k2,
{
    if k2 > 0 && k1 < k2 {
        lemma_pow10_mono(k1, k2 - 1);
        lemma_pow10_pos(k2 - 1);
    }
}

/// The parsed value always lies within the component bounds.
pub proof fn lemma_parse_fixed_bounds(s: Seq<char>)
    ensures
        -COMP_LIMIT <= parse_fixed_spec(s) <= COMP_LIMIT,
{
    let start: int = if s.len() > 0 && (s[0] == '-' || s[0] == '+') {
        1
    } else {
        0
    };
    lemma_scan_int_digits_bounds(s, start, 0);
    let (ival, i1) = scan_int_digits(s, start, 0);
    if i1 < s.len() && s[i1] == '.' {
        lemma_scan_frac_digits_bounds(s, i1 + 1, 0, 0);
    }
    let (fnum, fcnt, i2) = if i1 < s.len() && s[i1] == '.' {
        scan_frac_digits(s, i1 + 1, 0, 0)
    } else {
        (0, 0, i1)
    };
    lemma_pow10_pos(fcnt);
    assert(fnum * (FIXED_ONE as int) >= 0) by (nonlinear_arith)
        requires
            fnum >= 0,
    ;
    assert((fnum * (FIXED_ONE as int)) / pow10(fcnt) >= 0) by (nonlinear_arith)
        requires
            fnum * (FIXED_ONE as int) >= 0,
            pow10(fcnt) >= 1,
    ;
    assert(ival * (FIXED_ONE as int) >= 0) by (nonlinear_arith)
        requires
            ival >= 0,
    ;
}

/// Parse one whitespace-delimited field as a fixed-point number.
pub fn parse_fixed(w: &Vec<char>) -> (r: i64)
    ensures
        r as int == parse_fixed_spec(w@),
        -COMP_LIMIT <= r <= COMP_LIMIT,
{
    proof {
        lemma_parse_fixed_bounds(w@);
        lemma_pow10_9();
    }
    let n: usize = w.len();
    let mut i: usize = 0;
    let mut neg: bool = false;
    if n > 0 && (w[0] == '-' || w[0] == '+') {
        neg = w[0] == '-';
        i = 1;
    }
    let start_e: usize = i;
    let ghost start = i as int;
    let mut ival: i64 = 0;
    while i < n && 48 <= w[i] as u32 && w[i] as u32 <= 57
        invariant
            0 <= start <= i <= n,
            n == w@.len(),
            0 <= ival <= 655369,
            scan_int_digits(w@, start, 0) == scan_int_digits(w@, i as int, ival as int),
        decreases n - i,
    {
        let d: i64 = (w[i] as u32 as i64) - 48;
        if ival > COMP_LIMIT {
        } else {
            ival = ival * 10 + d;
        }
        i = i + 1;
    }
    proof {
        assert(scan_int_digits(w@, i as int, ival as int) == (ival as int, i as int));
    }
    let ghost i1 = i as int;
    let mut fnum: i64 = 0;
    let mut fcnt: i64 = 0;
    let mut digits: usize = i - start_e;
    let has_dot: bool = i < n && w[i] == '.';
    if has_dot {
        i = i + 1;
        let fstart_e: usize = i;
        let ghost fstart = i as int;
        while i < n && 48 <= w[i] as u32 && w[i] as u32 <= 57
            invariant
                0 <= fstart <= i <= n,
                n == w@.len(),
                0 <= fnum,
                0 <= fcnt <= 9,
                fnum < pow10(fcnt as int),
                pow10(9) == 1000000000,
                scan_frac_digits(w@, fstart, 0, 0) == scan_frac_digits(
                    w@,
                    i as int,
                    fnum as int,
                    fcnt as int,
                ),
            decreases n - i,
        {
            let d: i64 = (w[i] as u32 as i64) - 48;
            if fcnt < 9 {
                proof {
                    assert(pow10(fcnt + 1) == 10 * pow10(fcnt as int));
                    lemma_pow10_mono(fcnt as int, 8);
                    lemma_pow10_9();
                }
                fnum = fnum * 10 + d;
                fcnt = fcnt + 1;
            }
            i = i + 1;
        }
        proof {
            assert(scan_frac_digits(w@, i as int, fnum as int, fcnt as int) == (
                fnum as int,
                fcnt as int,
                i as int,
            ));
        }
        digits = digits + (i - fstart_e);
    }
    if i < n || digits == 0 {
        proof {
            assert(parse_fixed_spec(w@) == 0);
        }
        return 0;
    }
    let mut p: i64 = 1;
    let mut k: i64 = 0;
    while k < fcnt
        invariant
            0 <= k <= fcnt <= 9,
            p == pow10(k as int),
            pow10(9) == 1000000000,
        decreases fcnt - k,
    {
        proof {
            assert(pow10(k + 1) == 10 * pow10(k as int));
            lemma_pow10_mono(k as int, 8);
            lemma_pow10_pos(k as int);
            lemma_pow10_9();
        }
        p = p * 10;
        k = k + 1;
    }
    proof {
        lemma_pow10_mono(fcnt as int, 9);
        lemma_pow10_9();
        assert(fnum * (FIXED_ONE as int) <= 1000000000 * 4096) by (nonlinear_arith)
            requires
                0 <= fnum <= 1000000000,
        ;
        assert(fnum * (FIXED_ONE as int) >= 0) by (nonlinear_arith)
            requires
                fnum >= 0,
        ;
        assert(ival * (FIXED_ONE as int) <= 655369 * 4096) by (nonlinear_arith)
            requires
                0 <= ival <= 655369,
        ;
    }
    let frac: i64 = (fnum * FIXED_ONE) / p;
    let mag: i64 = ival * FIXED_ONE + frac;
    let clamped: i64 = if mag > COMP_LIMIT {
        COMP_LIMIT
    } else {
        mag
    };
    if neg {
        -clamped
    } else {
        clamped
    }
}

/// Split a text into its lines: one segment per newline character,
/// plus the final segment when it is not empty.
pub open spec fn lines_from(s: Seq<char>, i: int, cur: Seq<char>, acc: Seq<Seq<char>>) -> Seq<
    Seq<char>,
>
    decreases s.len() - i,
{
    if i < 0 || i >= s.len() {
        if cur.len() == 0 {
            acc
        } else {
            acc.push(cur)
        }
    } else if s[i] == '\n' {
        lines_from(s, i + 1, Seq::empty(), acc.push(cur))
    } else {
        lines_from(s, i + 1, cur.push(s[i]), acc)
    }
}

/// The lines of a text.
pub open spec fn lines_of(s: Seq<char>) -> Seq<Seq<char>> {
    lines_from(s, 0, Seq::empty(), Seq::empty())
}

/// Split a line into its whitespace-separated fields.
pub open spec fn fields_from(s: Seq<char>, i: int, cur: Seq<char>, acc: Seq<Seq<char>>) -> Seq<
    Seq<char>,
>
    decreases s.len() - i,
{
    if i < 0 || i >= s.len() {
        if cur.len() == 0 {
            acc
        } else {
            acc.push(cur)
        }
    } else if is_space_char(s[i]) {
        fields_from(s, i + 1, Seq::empty(), if cur.len() == 0 {
            acc
        } else {
            acc.push(cur)
        })
    } else {
        fields_from(s, i + 1, cur.push(s[i]), acc)
    }
}

/// The whitespace-separated fields of a line.
pub open spec fn fields_of(s: Seq<char>) -> Seq<Seq<char>> {
    fields_from(s, 0, Seq::empty(), Seq::empty())
}

/// The vector a line's number fields stand for, capped at the
/// dimension bound.
pub open spec fn line_vec(fs: Seq<Seq<char>>) -> Seq<i64> {
    let n: int = if fs.len() - 1 <= MAX_DIM {
        fs.len() - 1
    } else {
        MAX_DIM as int
    };
    Seq::new(n as nat, |j: int| parse_fixed_spec(fs[j + 1]) as i64)
}

/// Fold a line into the table under construction: its first field is
/// the token, the rest its vector; a blank line contributes nothing.
pub open spec fn line_insert(acc: Seq<(Seq<char>, Seq<i64>)>, line: Seq<char>) -> Seq<
    (Seq<char>, Seq<i64>),
> {
    let fs = fields_of(line);
    if fs.len() == 0 {
        acc
    } else {
        dict_insert(acc, fs[0], line_vec(fs))
    }
}

/// Fold the lines from index `i` on into the table `acc`.
pub open spec fn table_from_lines(
    ls: Seq<Seq<char>>,
    i: int,
    acc: Seq<(Seq<char>, Seq<i64>)>,
) -> Seq<(Seq<char>, Seq<i64>)>
    decreases ls.len() - i,
{
    if i < 0 || i >= ls.len() {
        acc
    } else {
        table_from_lines(ls, i + 1, line_insert(acc, ls[i]))
    }
}

/// The embedding table an entire corpus text stands for: lines folded
/// in order, a later line for the same token overwriting the earlier.
pub open spec fn corpus_table(s: Seq<char>) -> Seq<(Seq<char>, Seq<i64>)> {
    table_from_lines(lines_of(s), 0, Seq::empty())
}

/// Split a character vector into its lines.
pub fn split_lines(cs: &Vec<char>) -> (r: Vec<Vec<char>>)
    ensures
        r.deep_view() == lines_of(cs@),
{
    let n: usize = cs.len();
    let mut r: Vec<Vec<char>> = Vec::new();
    let mut cur: Vec<char> = Vec::new();
    let mut i: usize = 0;
    proof {
        assert(r.deep_view() =~~= Seq::<Seq<char>>::empty());
        assert(cur@ =~= Seq::<char>::empty());
    }
    while i < n
        invariant
            0 <= i <= n,
            n == cs@.len(),
            lines_from(cs@, i as int, cur@, r.deep_view()) == lines_of(cs@),
        decreases n - i,
    {
        let ghost acc0 = r.deep_view();
        let ghost cur0 = cur@;
        let c = cs[i];
        if c == '\n' {
            proof {
                assert(lines_from(cs@, i as int, cur0, acc0) == lines_from(
                    cs@,
                    i + 1,
                    Seq::<char>::empty(),
                    acc0.push(cur0),
                ));
            }
            r.push(cur);
            cur = Vec::new();
            proof {
                assert(r.deep_view() =~~= acc0.push(cur0));
                assert(cur@ =~= Seq::<char>::empty());
            }
        } else {
            cur.push(c);
            proof {
                assert(lines_from(cs@, i as int, cur0, acc0) == lines_from(
                    cs@,
                    i + 1,
                    cur0.push(cs@[i as int]),
                    acc0,
                ));
            }
        }
        i = i + 1;
    }
    if cur.len() > 0 {
        let ghost acc0 = r.deep_view();
        let ghost cur0 = cur@;
        r.push(cur);
        proof {
            assert(r.deep_view() =~~= acc0.push(cur0));
        }
    }
    r
}

/// Split a line into its whitespace-separated fields.
pub fn split_fields(line: &Vec<char>) -> (r: Vec<Vec<char>>)
    ensures
        r.deep_view() == fields_of(line@),
{
    let n: usize = line.len();
    let mut r: Vec<Vec<char>> = Vec::new();
    let mut cur: Vec<char> = Vec::new();
    let mut i: usize = 0;
    proof {
        assert(r.deep_view() =~~= Seq::<Seq<char>>::empty());
        assert(cur@ =~= Seq::<char>::empty());
    }
    while i < n
        invariant
            0 <= i <= n,
            n == line@.len(),
            fields_from(line@, i as int, cur@, r.deep_view()) == fields_of(line@),
        decreases n - i,
    {
        let ghost acc0 = r.deep_view();
        let ghost cur0 = cur@;
        let c = line[i];
        if crate::text::char_is_whitespace(c) {
            if cur.len() > 0 {
                r.push(cur);
                cur = Vec::new();
                proof {
                    assert(r.deep_view() =~~= acc0.push(cur0));
                    assert(cur@ =~= Seq::<char>::empty());
                }
            } else {
                proof {
                    assert(cur@ =~= Seq::<char>::empty());
                }
            }
        } else {
            cur.push(c);
            proof {
                assert(fields_from(line@, i as int, cur0, acc0) == fields_from(
                    line@,
                    i + 1,
                    cur0.push(line@[i as int]),
                    acc0,
                ));
            }
        }
        i = i + 1;
    }
    if cur.len() > 0 {
        let ghost acc0 = r.deep_view();
        let ghost cur0 = cur@;
        r.push(cur);
        proof {
            assert(r.deep_view() =~~= acc0.push(cur0));
        }
    }
    r
}

/// Parse an embedding corpus into its table: one entry per non-blank
/// line, token first, vector components after, later lines winning.
pub fn parse_corpus(text: &str) -> (t: EmbedTable)
    ensures
        t.wf(),
        t.pairs() == corpus_table(text@),
{
    let cs = crate::lev::chars_vec(text);
    let ls = split_lines(&cs);
    let nl: usize = ls.len();
    let mut t = EmbedTable::new();
    let mut i: usize = 0;
    while i < nl
        invariant
            0 <= i <= nl,
            nl == ls@.len(),
            ls.deep_view() == lines_of(text@),
            t.wf(),
            table_from_lines(ls.deep_view(), i as int, t.pairs()) == corpus_table(text@),
        decreases nl - i,
    {
        let ghost acc0 = t.pairs();
        let ghost line = ls.deep_view()[i as int];
        proof {
            assert(ls@[i as int]@ == line);
            assert(table_from_lines(ls.deep_view(), i as int, acc0) == table_from_lines(
                ls.deep_view(),
                i + 1,
                line_insert(acc0, line),
            ));
        }
        let fs = split_fields(&ls[i]);
        if fs.len() > 0 {
            proof {
                assert(fs@[0]@ == fields_of(line)[0]);
            }
            let token = crate::text::string_from_chars(&fs[0]);
            let nf: usize = fs.len();
            let cap: usize = if nf - 1 <= MAX_DIM {
                nf - 1
            } else {
                MAX_DIM
            };
            let mut comps: Vec<i64> = Vec::new();
            let mut j: usize = 0;
            while j < cap
                invariant
                    0 <= j <= cap,
                    nf == fs@.len(),
                    cap == (if nf - 1 <= MAX_DIM {
                        nf - 1
                    } else {
                        MAX_DIM as int
                    }),
                    fs.deep_view() == fields_of(line),
                    comps@.len() == j,
                    forall|jj: int|
                        0 <= jj < j ==> #[trigger] comps@[jj] == parse_fixed_spec(
                            fields_of(line)[jj + 1],
                        ) as i64,
                    forall|jj: int|
                        0 <= jj < j ==> -COMP_LIMIT <= #[trigger] comps@[jj] <= COMP_LIMIT,
                decreases cap - j,
            {
                proof {
                    assert(fs@[j + 1]@ == fields_of(line)[j + 1]);
                }
                let v = parse_fixed(&fs[j + 1]);
                comps.push(v);
                j = j + 1;
            }
            let vr = Vector { comps };
            proof {
                assert(vr.comps@ =~= line_vec(fields_of(line)));
                assert(vr.wf());
            }
            t.insert(token, vr);
            proof {
                assert(t.pairs() == line_insert(acc0, line));
            }
        } else {
            proof {
                assert(line_insert(acc0, line) == acc0);
            }
        }
        i = i + 1;
    }
    t
}

} // verus!
