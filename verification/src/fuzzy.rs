use vstd::prelude::*;

use crate::text::{lower_chars_of, lower_seq, str_eq_str};

verus! {

/// Longest word or token the similarity search accepts; keeps every shingle
/// count and cross-multiplied comparison far inside machine arithmetic.
pub const MAX_WORD_LEN: usize = 1_000_000;

/// A two-character shingle; a single character is doubled into a pair.
#[derive(Clone, Copy, PartialEq, Eq, Structural)]
pub struct Sh {
    pub a: char,
    pub b: char,
}

/// The adjacent-pair shingles of a word, in order.
/// The shingle of a word at one position: the character pair starting there.
pub open spec fn sh_at2(s: Seq<char>, i: int) -> Sh {
    Sh { a: s[i], b: s[i + 1] }
}

pub open spec fn sh2(s: Seq<char>) -> Seq<Sh> {
    if s.len() < 2 {
        Seq::empty()
    } else {
        Seq::new((s.len() - 1) as nat, |i: int| sh_at2(s, i))
    }
}

/// The single-character shingles of a word, doubled into pairs.
pub open spec fn sh_at1(s: Seq<char>, i: int) -> Sh {
    Sh { a: s[i], b: s[i] }
}

pub open spec fn sh1(s: Seq<char>) -> Seq<Sh> {
    Seq::new(s.len(), |i: int| sh_at1(s, i))
}

/// How many distinct shingles of `a` also occur in `b`: each shingle counts
/// at its first occurrence in `a`.
pub open spec fn count_shared(a: Seq<Sh>, b: Seq<Sh>) -> int
    decreases a.len(),
{
    if a.len() == 0 {
        0int
    } else {
        count_shared(a.drop_last(), b) + if !a.drop_last().contains(a.last()) && b.contains(
            a.last(),
        ) {
            1int
        } else {
            0int
        }
    }
}

/// How many distinct shingles of `b` occur nowhere in `a`.
pub open spec fn count_only(b: Seq<Sh>, a: Seq<Sh>) -> int
    decreases b.len(),
{
    if b.len() == 0 {
        0int
    } else {
        count_only(b.drop_last(), a) + if !b.drop_last().contains(b.last()) && !a.contains(
            b.last(),
        ) {
            1int
        } else {
            0int
        }
    }
}

/// How many distinct shingles `a` holds.
pub open spec fn count_distinct(a: Seq<Sh>) -> int {
    count_shared(a, a)
}

/// The Jaccard distance of two shingle multisets, as the fraction
/// `(union - shared) / union`, with distance zero when the union is empty.
/// `dist_num` and `dist_den` are its numerator and denominator.
pub open spec fn dist_num(w: Seq<Sh>, t: Seq<Sh>) -> int {
    count_distinct(w) + count_only(t, w) - count_shared(w, t)
}

pub open spec fn dist_den(w: Seq<Sh>, t: Seq<Sh>) -> int {
    let u = count_distinct(w) + count_only(t, w);
    if u <= 0 {
        1int
    } else {
        u
    }
}

/// Distance comparison by cross-multiplication.
pub open spec fn dist_lt(n1: int, d1: int, n2: int, d2: int) -> bool {
    n1 * d2 < n2 * d1
}

pub open spec fn dist_eq(n1: int, d1: int, n2: int, d2: int) -> bool {
    n1 * d2 == n2 * d1
}

proof fn lemma_counts(a: Seq<Sh>, b: Seq<Sh>)
    ensures
        0 <= count_shared(a, b) <= a.len(),
        count_shared(a, b) <= count_distinct(a),
        0 <= count_only(b, a) <= b.len(),
    decreases a.len() + b.len(),
{
    if a.len() > 0 {
        lemma_counts(a.drop_last(), b);
        lemma_counts_pair(a, b);
    }
    if b.len() > 0 {
        lemma_counts(a, b.drop_last());
    }
}

/// A shingle shared with `b` is in particular a first occurrence, so the
/// shared count never exceeds the distinct count.
proof fn lemma_counts_pair(a: Seq<Sh>, b: Seq<Sh>)
    ensures
        count_shared(a, b) <= count_shared(a, a),
        0 <= count_shared(a, b),
    decreases a.len(),
{
    if a.len() > 0 {
        let pre = a.drop_last();
        lemma_counts_pair(pre, b);
        assert forall|x: Sh| pre.contains(x) implies a.contains(x) by {
            let i = choose|i: int| 0 <= i < pre.len() && pre[i] == x;
            assert(a[i] == x);
        };
        lemma_shared_sub(pre, pre, a);
        assert(a[a.len() - 1] == a.last());
        assert(a.contains(a.last()));
    }
}

/// Counting against a larger right-hand side never shrinks the count.
proof fn lemma_shared_sub(a: Seq<Sh>, b: Seq<Sh>, c: Seq<Sh>)
    requires
        forall|x: Sh| b.contains(x) ==> c.contains(x),
    ensures
        count_shared(a, b) <= count_shared(a, c),
    decreases a.len(),
{
    if a.len() > 0 {
        lemma_shared_sub(a.drop_last(), b, c);
    }
}

/// The distance numerator and denominator are a well-formed fraction in
/// `[0, 1]`: `0 <= num <= den` and `den >= 1`.
pub proof fn lemma_dist_wf(w: Seq<Sh>, t: Seq<Sh>)
    ensures
        0 <= dist_num(w, t),
        dist_num(w, t) <= dist_den(w, t),
        1 <= dist_den(w, t),
        dist_den(w, t) <= w.len() + t.len() + 1,
{
    lemma_counts(w, t);
    lemma_counts(w, w);
}

proof fn lemma_rat_lt_trans(n1: int, d1: int, n2: int, d2: int, n3: int, d3: int)
    requires
        d1 >= 1 && d2 >= 1 && d3 >= 1,
        n1 * d2 < n2 * d1,
        n2 * d3 < n3 * d2,
    ensures
        n1 * d3 < n3 * d1,
{
    assert((n1 * d2) * d3 < (n2 * d1) * d3) by (nonlinear_arith)
        requires
            n1 * d2 < n2 * d1,
            d3 >= 1,
    ;
    assert((n2 * d3) * d1 < (n3 * d2) * d1) by (nonlinear_arith)
        requires
            n2 * d3 < n3 * d2,
            d1 >= 1,
    ;
    assert((n1 * d2) * d3 == (n1 * d3) * d2 && (n2 * d1) * d3 == (n2 * d3) * d1 && (n3 * d2) * d1
        == (n3 * d1) * d2) by (nonlinear_arith);
    assert((n1 * d3) * d2 < (n3 * d1) * d2);
    assert(n1 * d3 < n3 * d1) by (nonlinear_arith)
        requires
            (n1 * d3) * d2 < (n3 * d1) * d2,
            d2 >= 1,
    ;
}

proof fn lemma_rat_eq_lt_trans(n1: int, d1: int, n2: int, d2: int, n3: int, d3: int)
    requires
        d1 >= 1 && d2 >= 1 && d3 >= 1,
        n1 * d2 == n2 * d1,
        n2 * d3 < n3 * d2,
    ensures
        n1 * d3 < n3 * d1,
{
    assert((n1 * d2) * d3 == (n2 * d1) * d3) by (nonlinear_arith)
        requires
            n1 * d2 == n2 * d1,
    ;
    assert((n2 * d3) * d1 < (n3 * d2) * d1) by (nonlinear_arith)
        requires
            n2 * d3 < n3 * d2,
            d1 >= 1,
    ;
    assert((n1 * d2) * d3 == (n1 * d3) * d2 && (n2 * d1) * d3 == (n2 * d3) * d1 && (n3 * d2) * d1
        == (n3 * d1) * d2) by (nonlinear_arith);
    assert((n1 * d3) * d2 < (n3 * d1) * d2);
    assert(n1 * d3 < n3 * d1) by (nonlinear_arith)
        requires
            (n1 * d3) * d2 < (n3 * d1) * d2,
            d2 >= 1,
    ;
}

proof fn lemma_rat_lt_eq_trans(n1: int, d1: int, n2: int, d2: int, n3: int, d3: int)
    requires
        d1 >= 1 && d2 >= 1 && d3 >= 1,
        n1 * d2 < n2 * d1,
        n2 * d3 == n3 * d2,
    ensures
        n1 * d3 < n3 * d1,
{
    assert((n1 * d2) * d3 < (n2 * d1) * d3) by (nonlinear_arith)
        requires
            n1 * d2 < n2 * d1,
            d3 >= 1,
    ;
    assert((n2 * d3) * d1 == (n3 * d2) * d1) by (nonlinear_arith)
        requires
            n2 * d3 == n3 * d2,
    ;
    assert((n1 * d2) * d3 == (n1 * d3) * d2 && (n2 * d1) * d3 == (n2 * d3) * d1 && (n3 * d2) * d1
        == (n3 * d1) * d2) by (nonlinear_arith);
    assert((n1 * d3) * d2 < (n3 * d1) * d2);
    assert(n1 * d3 < n3 * d1) by (nonlinear_arith)
        requires
            (n1 * d3) * d2 < (n3 * d1) * d2,
            d2 >= 1,
    ;
}

proof fn lemma_rat_eq_trans(n1: int, d1: int, n2: int, d2: int, n3: int, d3: int)
    requires
        d1 >= 1 && d2 >= 1 && d3 >= 1,
        n1 * d2 == n2 * d1,
        n2 * d3 == n3 * d2,
    ensures
        n1 * d3 == n3 * d1,
{
    assert(((n1 * d3) - (n3 * d1)) * d2 == ((n1 * d2) - (n2 * d1)) * d3 + ((n2 * d3) - (n3 * d2))
        * d1) by (nonlinear_arith);
    assert(((n1 * d3) - (n3 * d1)) * d2 == 0);
    assert(n1 * d3 == n3 * d1) by (nonlinear_arith)
        requires
            ((n1 * d3) - (n3 * d1)) * d2 == 0,
            d2 >= 1,
    ;
}

/// The suggestion vocabulary: the distinct alias keys, in first-seen order.
pub struct Autocorrecter {
    vocab: Vec<String>,
}

/// The given words with later duplicates dropped: each word kept at its
/// first occurrence, in order.
pub open spec fn dedup_first(s: Seq<Seq<char>>) -> Seq<Seq<char>>
    decreases s.len(),
{
    if s.len() == 0 {
        Seq::empty()
    } else if s.drop_last().contains(s.last()) {
        dedup_first(s.drop_last())
    } else {
        dedup_first(s.drop_last()).push(s.last())
    }
}

pub proof fn lemma_dedup_first(s: Seq<Seq<char>>)
    ensures
        forall|x: Seq<char>| #[trigger] dedup_first(s).contains(x) <==> s.contains(x),
        forall|i: int, j: int|
            0 <= i < j < dedup_first(s).len() ==> dedup_first(s)[i] != dedup_first(s)[j],
    decreases s.len(),
{
    if s.len() > 0 {
        let pre = s.drop_last();
        lemma_dedup_first(pre);
        assert forall|x: Seq<char>| #[trigger] s.contains(x) implies (pre.contains(x) || x
            == s.last()) by {
            let i = choose|i: int| 0 <= i < s.len() && s[i] == x;
            if i < s.len() - 1 {
                assert(pre[i] == x);
            }
        };
        assert forall|x: Seq<char>| pre.contains(x) implies #[trigger] s.contains(x) by {
            let i = choose|i: int| 0 <= i < pre.len() && pre[i] == x;
            assert(s[i] == x);
        };
        assert(s[s.len() - 1] == s.last());
        assert(s.contains(s.last()));
        if pre.contains(s.last()) {
            assert(dedup_first(s) == dedup_first(pre));
        } else {
            let d = dedup_first(s);
            let dp = dedup_first(pre);
            assert(d == dp.push(s.last()));
            assert forall|x: Seq<char>| #[trigger] d.contains(x) implies s.contains(x) by {
                let i = choose|i: int| 0 <= i < d.len() && d[i] == x;
                if i < d.len() - 1 {
                    assert(dp[i] == x);
                    assert(dp.contains(x));
                }
            };
            assert forall|x: Seq<char>| s.contains(x) implies #[trigger] d.contains(x) by {
                if pre.contains(x) {
                    assert(dp.contains(x));
                    let i = choose|i: int| 0 <= i < dp.len() && dp[i] == x;
                    assert(d[i] == x);
                } else {
                    assert(x == s.last());
                    assert(d[d.len() - 1] == x);
                }
            };
            assert forall|i: int, j: int| 0 <= i < j < d.len() implies d[i] != d[j] by {
                if j == d.len() - 1 {
                    assert(d[i] == dp[i]);
                    assert(dp.contains(dp[i]));
                    assert(pre.contains(d[i]));
                } else {
                    assert(d[i] == dp[i] && d[j] == dp[j]);
                }
            };
        }
    }
}

impl Autocorrecter {
    /// The vocabulary words, in stored order.
    pub closed spec fn vocab_model(self) -> Seq<Seq<char>> {
        self.vocab.deep_view()
    }

    /// Distinct words, none longer than the accepted maximum.
    pub open spec fn wf(self) -> bool {
        &&& forall|i: int, j: int|
            0 <= i < j < self.vocab_model().len() ==> self.vocab_model()[i]
                != self.vocab_model()[j]
        &&& forall|i: int|
            0 <= i < self.vocab_model().len() ==> (#[trigger] self.vocab_model()[i]).len()
                <= MAX_WORD_LEN
    }

    /// Candidate order for one shingle kind: ascending by Jaccard distance
    /// to the token, ties broken by vocabulary position.
    pub open spec fn cand_lt(self, t: Seq<char>, two: bool, i: int, j: int) -> bool {
        let wi = if two {
            sh2(self.vocab_model()[i])
        } else {
            sh1(self.vocab_model()[i])
        };
        let wj = if two {
            sh2(self.vocab_model()[j])
        } else {
            sh1(self.vocab_model()[j])
        };
        let ts = if two {
            sh2(t)
        } else {
            sh1(t)
        };
        dist_lt(dist_num(wi, ts), dist_den(wi, ts), dist_num(wj, ts), dist_den(wj, ts)) || (
        dist_eq(dist_num(wi, ts), dist_den(wi, ts), dist_num(wj, ts), dist_den(wj, ts)) && i < j)
    }

    /// `m` is the best vocabulary position for the token, outside the
    /// excluded positions, under the given shingle kind.
    pub open spec fn is_best(self, t: Seq<char>, two: bool, excl: Seq<int>, m: int) -> bool {
        &&& 0 <= m < self.vocab_model().len()
        &&& !excl.contains(m)
        &&& forall|v: int|
            0 <= v < self.vocab_model().len() && v != m && !excl.contains(v)
                ==> self.cand_lt(t, two, m, v)
    }

    pub proof fn lemma_cand_lt_trans(self, t: Seq<char>, two: bool, i: int, j: int, k: int)
        requires
            self.cand_lt(t, two, i, j),
            self.cand_lt(t, two, j, k),
        ensures
            self.cand_lt(t, two, i, k),
    {
        let wi = if two {
            sh2(self.vocab_model()[i])
        } else {
            sh1(self.vocab_model()[i])
        };
        let wj = if two {
            sh2(self.vocab_model()[j])
        } else {
            sh1(self.vocab_model()[j])
        };
        let wk = if two {
            sh2(self.vocab_model()[k])
        } else {
            sh1(self.vocab_model()[k])
        };
        let ts = if two {
            sh2(t)
        } else {
            sh1(t)
        };
        lemma_dist_wf(wi, ts);
        lemma_dist_wf(wj, ts);
        lemma_dist_wf(wk, ts);
        let n1 = dist_num(wi, ts);
        let d1 = dist_den(wi, ts);
        let n2 = dist_num(wj, ts);
        let d2 = dist_den(wj, ts);
        let n3 = dist_num(wk, ts);
        let d3 = dist_den(wk, ts);
        if dist_lt(n1, d1, n2, d2) && dist_lt(n2, d2, n3, d3) {
            lemma_rat_lt_trans(n1, d1, n2, d2, n3, d3);
        } else if dist_lt(n1, d1, n2, d2) && dist_eq(n2, d2, n3, d3) {
            lemma_rat_lt_eq_trans(n1, d1, n2, d2, n3, d3);
        } else if dist_eq(n1, d1, n2, d2) && dist_lt(n2, d2, n3, d3) {
            lemma_rat_eq_lt_trans(n1, d1, n2, d2, n3, d3);
        } else {
            lemma_rat_eq_trans(n1, d1, n2, d2, n3, d3);
        }
    }
}

} // verus!

verus! {

fn shingles2(v: &Vec<char>) -> (r: Vec<Sh>)
    ensures
        r@ == sh2(v@),
{
    let mut r: Vec<Sh> = Vec::new();
    if v.len() < 2 {
        proof {
            assert(r@ =~= sh2(v@));
        }
        return r;
    }
    let n: usize = v.len() - 1;
    for i in 0..n
        invariant
            n == v@.len() - 1 && v@.len() >= 2,
            r@ == sh2(v@).subrange(0, i as int),
    {
        r.push(Sh { a: v[i], b: v[i + 1] });
        proof {
            assert(sh2(v@).len() == v@.len() - 1);
            assert(sh2(v@)[i as int] == sh_at2(v@, i as int));
            assert(r@ =~= sh2(v@).subrange(0, i + 1));
        }
    }
    proof {
        assert(r@ =~= sh2(v@));
    }
    r
}

fn shingles1(v: &Vec<char>) -> (r: Vec<Sh>)
    ensures
        r@ == sh1(v@),
{
    let mut r: Vec<Sh> = Vec::new();
    let n: usize = v.len();
    for i in 0..n
        invariant
            n == v@.len(),
            r@ == sh1(v@).subrange(0, i as int),
    {
        r.push(Sh { a: v[i], b: v[i] });
        proof {
            assert(sh1(v@).len() == v@.len());
            assert(sh1(v@)[i as int] == sh_at1(v@, i as int));
            assert(r@ =~= sh1(v@).subrange(0, i + 1));
        }
    }
    proof {
        assert(r@ =~= sh1(v@));
    }
    r
}

fn seq_has(v: &Vec<Sh>, upto: usize, x: Sh) -> (r: bool)
    requires
        upto <= v@.len(),
    ensures
        r == v@.subrange(0, upto as int).contains(x),
{
    for j in 0..upto
        invariant
            upto <= v@.len(),
            forall|k: int| 0 <= k < j ==> v@[k] != x,
    {
        if v[j] == x {
            proof {
                assert(v@.subrange(0, upto as int)[j as int] == x);
            }
            return true;
        }
    }
    proof {
        if v@.subrange(0, upto as int).contains(x) {
            let k = choose|k: int| 0 <= k < upto && v@.subrange(0, upto as int)[k] == x;
            assert(v@[k] == x);
            assert(false);
        }
    }
    false
}

#[verifier::loop_isolation(false)]
fn count_shared_exec(a: &Vec<Sh>, b: &Vec<Sh>) -> (r: usize)
    ensures
        r == count_shared(a@, b@),
        r <= a@.len(),
{
    let mut r: usize = 0;
    let n: usize = a.len();
    let bn: usize = b.len();
    proof {
        assert(a@.subrange(0, 0) =~= Seq::<Sh>::empty());
    }
    for i in 0..n
        invariant
            r == count_shared(a@.subrange(0, i as int), b@),
            r <= i,
    {
        let ghost pre = a@.subrange(0, i as int);
        let ghost cur = a@.subrange(0, i + 1);
        proof {
            assert(cur.drop_last() =~= pre);
            assert(cur.last() == a@[i as int]);
        }
        let first: bool = !seq_has(a, i, a[i]);
        let inb: bool = seq_has(b, bn, a[i]);
        proof {
            assert(b@.subrange(0, bn as int) =~= b@);
        }
        if first && inb {
            r = r + 1;
        }
    }
    proof {
        assert(a@.subrange(0, n as int) =~= a@);
    }
    r
}

#[verifier::loop_isolation(false)]
fn count_only_exec(b: &Vec<Sh>, a: &Vec<Sh>) -> (r: usize)
    ensures
        r == count_only(b@, a@),
        r <= b@.len(),
{
    let mut r: usize = 0;
    let n: usize = b.len();
    let an: usize = a.len();
    proof {
        assert(b@.subrange(0, 0) =~= Seq::<Sh>::empty());
    }
    for i in 0..n
        invariant
            r == count_only(b@.subrange(0, i as int), a@),
            r <= i,
    {
        let ghost pre = b@.subrange(0, i as int);
        let ghost cur = b@.subrange(0, i + 1);
        proof {
            assert(cur.drop_last() =~= pre);
            assert(cur.last() == b@[i as int]);
        }
        let first: bool = !seq_has(b, i, b[i]);
        let ina: bool = seq_has(a, an, b[i]);
        proof {
            assert(a@.subrange(0, an as int) =~= a@);
        }
        if first && !ina {
            r = r + 1;
        }
    }
    proof {
        assert(b@.subrange(0, n as int) =~= b@);
    }
    r
}

/// The distance fraction of one word's shingles against the token's.
fn dist_pair_exec(w: &Vec<Sh>, t: &Vec<Sh>) -> (r: (u64, u64))
    requires
        w@.len() <= MAX_WORD_LEN,
        t@.len() <= MAX_WORD_LEN,
    ensures
        r.0 as int == dist_num(w@, t@),
        r.1 as int == dist_den(w@, t@),
        1 <= r.1 <= 2 * MAX_WORD_LEN + 1,
        r.0 <= r.1,
{
    let cs: usize = count_shared_exec(w, t);
    let cd: usize = count_shared_exec(w, w);
    let co: usize = count_only_exec(t, w);
    proof {
        lemma_counts(w@, t@);
        lemma_counts(w@, w@);
        lemma_dist_wf(w@, t@);
    }
    let u: usize = cd + co;
    let num: usize = u - cs;
    let den: usize = if u == 0 {
        1
    } else {
        u
    };
    (num as u64, den as u64)
}

fn cand_lt_exec(n1: u64, d1: u64, n2: u64, d2: u64, i: usize, j: usize) -> (r: bool)
    requires
        n1 <= 0x4000_0000 && d1 <= 0x4000_0000 && n2 <= 0x4000_0000 && d2 <= 0x4000_0000,
    ensures
        r == (dist_lt(n1 as int, d1 as int, n2 as int, d2 as int) || (dist_eq(
            n1 as int,
            d1 as int,
            n2 as int,
            d2 as int,
        ) && (i as int) < (j as int))),
{
    proof {
        assert((n1 as int) * (d2 as int) <= 0x4000_0000 * 0x4000_0000 && (n2 as int) * (d1 as int)
            <= 0x4000_0000 * 0x4000_0000 && (n1 as int) * (d2 as int) >= 0 && (n2 as int) * (
        d1 as int) >= 0) by (nonlinear_arith)
            requires
                n1 <= 0x4000_0000 && d1 <= 0x4000_0000 && n2 <= 0x4000_0000 && d2 <= 0x4000_0000,
        ;
    }
    let a: u128 = (n1 as u128) * (d2 as u128);
    let b: u128 = (n2 as u128) * (d1 as u128);
    proof {
        assert(a as int == (n1 as int) * (d2 as int) && b as int == (n2 as int) * (d1 as int))
            by (nonlinear_arith)
            requires
                a == (n1 as u128) * (d2 as u128),
                b == (n2 as u128) * (d1 as u128),
        ;
    }
    a < b || (a == b && i < j)
}

proof fn lemma_exists_free(n: int, excl: Seq<int>)
    requires
        n >= 5,
        excl.len() <= 4,
    ensures
        exists|v: int| 0 <= v < n && !excl.contains(v),
{
    if !excl.contains(0) {
        assert(0 <= 0 < n && !excl.contains(0));
    } else if !excl.contains(1) {
        assert(!excl.contains(1));
    } else if !excl.contains(2) {
        assert(!excl.contains(2));
    } else if !excl.contains(3) {
        assert(!excl.contains(3));
    } else if !excl.contains(4) {
        assert(!excl.contains(4));
    } else {
        let p0 = choose|p: int| 0 <= p < excl.len() && excl[p] == 0;
        let p1 = choose|p: int| 0 <= p < excl.len() && excl[p] == 1;
        let p2 = choose|p: int| 0 <= p < excl.len() && excl[p] == 2;
        let p3 = choose|p: int| 0 <= p < excl.len() && excl[p] == 3;
        let p4 = choose|p: int| 0 <= p < excl.len() && excl[p] == 4;
        assert(false);
    }
}

impl Autocorrecter {
    /// The shingles a candidate comparison uses for one vocabulary word.
    pub open spec fn word_sh(self, two: bool, i: int) -> Seq<Sh> {
        if two {
            sh2(self.vocab_model()[i])
        } else {
            sh1(self.vocab_model()[i])
        }
    }

    /// Whether a distance table matches the vocabulary for one shingle kind.
    pub open spec fn pairs_ok(self, t: Seq<char>, two: bool, pairs: Seq<(u64, u64)>) -> bool {
        let ts = if two {
            sh2(t)
        } else {
            sh1(t)
        };
        &&& pairs.len() == self.vocab_model().len()
        &&& forall|i: int|
            0 <= i < pairs.len() ==> (#[trigger] pairs[i]).0 as int == dist_num(
                self.word_sh(two, i),
                ts,
            ) && pairs[i].1 as int == dist_den(self.word_sh(two, i), ts) && pairs[i].1 >= 1
                && pairs[i].1 <= 0x4000_0000 && pairs[i].0 <= pairs[i].1
    }

    /// Finds the best non-excluded vocabulary position for the token.
    #[verifier::loop_isolation(false)]
    fn find_best(
        &self,
        Ghost(t): Ghost<Seq<char>>,
        Ghost(two): Ghost<bool>,
        pairs: &Vec<(u64, u64)>,
        excl: &Vec<usize>,
        Ghost(excl_g): Ghost<Seq<int>>,
    ) -> (m: usize)
        requires
            self.pairs_ok(t, two, pairs@),
            excl_g.len() == excl@.len(),
            forall|k: int| 0 <= k < excl@.len() ==> #[trigger] excl_g[k] == excl@[k] as int,
            exists|v: int| 0 <= v < pairs@.len() && !excl_g.contains(v),
        ensures
            m < self.vocab_model().len(),
            self.is_best(t, two, excl_g, m as int),
    {
        let n: usize = pairs.len();
        let en: usize = excl.len();
        let mut have: bool = false;
        let mut best: usize = 0;
        for i in 0..n
            invariant
                !have ==> forall|v: int| 0 <= v < i ==> excl_g.contains(v),
                have ==> (best < i && !excl_g.contains(best as int) && forall|v: int|
                    0 <= v < i && v != best && !excl_g.contains(v) ==> self.cand_lt(
                        t,
                        two,
                        best as int,
                        v,
                    )),
        {
            let mut inx: bool = false;
            for k in 0..en
                invariant
                    inx <==> exists|l: int| 0 <= l < k && excl@[l] == i,
            {
                if excl[k] == i {
                    inx = true;
                }
            }
            proof {
                assert(inx <==> excl_g.contains(i as int)) by {
                    if inx {
                        let l = choose|l: int| 0 <= l < en && excl@[l] == i;
                        assert(excl_g[l] == i as int);
                    }
                    if excl_g.contains(i as int) {
                        let l = choose|l: int| 0 <= l < excl_g.len() && excl_g[l] == i as int;
                        assert(excl@[l] == i);
                        assert(inx);
                    }
                };
            }
            if !inx {
                if !have {
                    have = true;
                    best = i;
                } else {
                    let pi = pairs[i];
                    let pb = pairs[best];
                    if cand_lt_exec(pi.0, pi.1, pb.0, pb.1, i, best) {
                        proof {
                            assert(self.cand_lt(t, two, i as int, best as int));
                            assert forall|v: int|
                                0 <= v < i && v != i as int && !excl_g.contains(v) implies self
                                .cand_lt(t, two, i as int, v) by {
                                if v == best as int {
                                } else {
                                    self.lemma_cand_lt_trans(t, two, i as int, best as int, v);
                                }
                            };
                        }
                        best = i;
                    } else {
                        proof {
                            assert(self.cand_lt(t, two, best as int, i as int));
                        }
                    }
                }
            }
        }
        proof {
            if !have {
                let v = choose|v: int| 0 <= v < pairs@.len() && !excl_g.contains(v);
                assert(false);
            }
        }
        best
    }

    /// Builds the suggestion vocabulary from the given words, keeping each
    /// distinct word once, in first-seen order.
    #[verifier::loop_isolation(false)]
    pub fn new(words: Vec<String>) -> (r: Autocorrecter)
        requires
            forall|i: int|
                0 <= i < words@.len() ==> (#[trigger] words@[i])@.len() <= MAX_WORD_LEN,
        ensures
            r.wf(),
            r.vocab_model() == dedup_first(words.deep_view()),
    {
        let ghost dv = words.deep_view();
        proof {
            crate::text::lemma_deep_view_strings(words);
            assert(dv.subrange(0, 0) =~= Seq::<Seq<char>>::empty());
            assert(dedup_first(dv.subrange(0, 0)) =~= Seq::<Seq<char>>::empty());
        }
        let mut vocab: Vec<String> = Vec::new();
        let n: usize = words.len();
        for i in 0..n
            invariant
                n == words@.len() && dv.len() == n,
                vocab.deep_view() == dedup_first(dv.subrange(0, i as int)),
                forall|k: int| 0 <= k < vocab@.len() ==> #[trigger] vocab@[k]@
                    == vocab.deep_view()[k],
        {
            let ghost pre = dv.subrange(0, i as int);
            let ghost cur = dv.subrange(0, i + 1);
            proof {
                assert(cur.drop_last() =~= pre);
                assert(cur.last() == dv[i as int]);
                lemma_dedup_first(pre);
            }
            let vn: usize = vocab.len();
            let mut seen: bool = false;
            for k in 0..vn
                invariant
                    seen <==> exists|l: int| 0 <= l < k && vocab@[l]@ == dv[i as int],
            {
                if str_eq_str(vocab[k].as_str(), words[i].as_str()) {
                    proof {
                        assert(vocab@[k as int]@ == dv[i as int]);
                    }
                    seen = true;
                }
            }
            proof {
                assert(seen <==> pre.contains(dv[i as int])) by {
                    lemma_dedup_first(pre);
                    if seen {
                        let l = choose|l: int| 0 <= l < vn && vocab@[l]@ == dv[i as int];
                        assert(vocab.deep_view()[l] == dv[i as int]);
                        assert(dedup_first(pre).contains(dv[i as int]));
                    }
                    if pre.contains(dv[i as int]) {
                        assert(dedup_first(pre).contains(dv[i as int]));
                        let l = choose|l: int|
                            0 <= l < dedup_first(pre).len() && dedup_first(pre)[l] == dv[i as int];
                        assert(vocab.deep_view()[l] == dv[i as int]);
                        assert(vocab@[l]@ == dv[i as int]);
                        assert(seen);
                    }
                };
            }
            if !seen {
                vocab.push(words[i].clone());
                proof {
                    assert(vocab.deep_view() =~= dedup_first(pre).push(dv[i as int]));
                }
            }
        }
        proof {
            assert(dv.subrange(0, n as int) =~= dv);
            lemma_dedup_first(dv);
        }
        let r = Autocorrecter { vocab };
        proof {
            assert forall|i: int|
                0 <= i < r.vocab_model().len() implies (#[trigger] r.vocab_model()[i]).len()
                <= MAX_WORD_LEN by {
                assert(r.vocab_model() == dedup_first(dv));
                assert(dedup_first(dv).contains(r.vocab_model()[i]));
                assert(dv.contains(r.vocab_model()[i]));
                let l = choose|l: int| 0 <= l < dv.len() && dv[l] == r.vocab_model()[i];
                assert(words@[l]@ == dv[l]);
            };
        }
        r
    }

    /// The five suggestions for a shortlist: the token's index-tied best
    /// matches under the two-shingle ranking in slots 0, 2, 3 and 4, and the
    /// best remaining one-shingle match in slot 1.
    pub open spec fn shortlist_ok(
        self,
        t: Seq<char>,
        g: Seq<Seq<char>>,
        i0: int,
        i1: int,
        i2: int,
        i3: int,
        i4: int,
    ) -> bool {
        &&& g.len() == 5
        &&& g[0] == self.vocab_model()[i0]
        &&& g[1] == self.vocab_model()[i1]
        &&& g[2] == self.vocab_model()[i2]
        &&& g[3] == self.vocab_model()[i3]
        &&& g[4] == self.vocab_model()[i4]
        &&& self.is_best(t, true, Seq::empty(), i0)
        &&& self.is_best(t, true, seq![i0], i2)
        &&& self.is_best(t, true, seq![i0, i2], i3)
        &&& self.is_best(t, true, seq![i0, i2, i3], i4)
        &&& self.is_best(t, false, seq![i0, i2, i3, i4], i1)
    }

    /// Suggests corrections for a token the alias table does not know.
    ///
    /// Returns None exactly when the lowercased token is itself a vocabulary
    /// word; otherwise the five-entry shortlist described by `shortlist_ok`.
    #[verifier::loop_isolation(false)]
    #[verifier::rlimit(60)]
    pub fn correct(&self, input_word: &str) -> (r: Option<Vec<String>>)
        requires
            self.wf(),
            self.vocab_model().len() >= 5,
            input_word@.len() <= MAX_WORD_LEN,
        ensures
            r is None ==> self.vocab_model().contains(lower_seq(input_word@)),
            r is Some ==> !self.vocab_model().contains(lower_seq(input_word@)),
            r is Some ==> exists|i0: int, i1: int, i2: int, i3: int, i4: int|
                #![trigger self.shortlist_ok(lower_seq(input_word@), r.unwrap().deep_view(), i0, i1, i2, i3, i4)]
                self.shortlist_ok(
                    lower_seq(input_word@),
                    r.unwrap().deep_view(),
                    i0,
                    i1,
                    i2,
                    i3,
                    i4,
                ),
    {
        let lw: Vec<char> = lower_chars_of(input_word);
        let ghost lws = lower_seq(input_word@);
        let n: usize = self.vocab.len();
        proof {
            crate::text::lemma_deep_view_strings(self.vocab);
        }
        for i in 0..n
            invariant
                n == self.vocab@.len(),
                forall|k: int| 0 <= k < i ==> self.vocab_model()[k] != lws,
        {
            if crate::text::str_eq_chars(self.vocab[i].as_str(), &lw) {
                proof {
                    assert(self.vocab_model()[i as int] == lws);
                    assert(self.vocab_model().contains(lws));
                }
                return None;
            }
        }
        proof {
            if self.vocab_model().contains(lws) {
                let k = choose|k: int|
                    0 <= k < self.vocab_model().len() && self.vocab_model()[k] == lws;
                assert(false);
            }
        }
        let t2: Vec<Sh> = shingles2(&lw);
        let t1: Vec<Sh> = shingles1(&lw);
        let mut pairs2: Vec<(u64, u64)> = Vec::new();
        let mut pairs1: Vec<(u64, u64)> = Vec::new();
        for i in 0..n
            invariant
                n == self.vocab@.len(),
                t2@ == sh2(lws) && t1@ == sh1(lws),
                lws.len() <= MAX_WORD_LEN,
                pairs2@.len() == i && pairs1@.len() == i,
                forall|k: int|
                    0 <= k < i ==> (#[trigger] pairs2@[k]).0 as int == dist_num(
                        self.word_sh(true, k),
                        sh2(lws),
                    ) && pairs2@[k].1 as int == dist_den(self.word_sh(true, k), sh2(lws))
                        && pairs2@[k].1 >= 1 && pairs2@[k].1 <= 0x4000_0000 && pairs2@[k].0
                        <= pairs2@[k].1,
                forall|k: int|
                    0 <= k < i ==> (#[trigger] pairs1@[k]).0 as int == dist_num(
                        self.word_sh(false, k),
                        sh1(lws),
                    ) && pairs1@[k].1 as int == dist_den(self.word_sh(false, k), sh1(lws))
                        && pairs1@[k].1 >= 1 && pairs1@[k].1 <= 0x4000_0000 && pairs1@[k].0
                        <= pairs1@[k].1,
        {
            let wv: Vec<char> = crate::text::chars_of(self.vocab[i].as_str());
            proof {
                assert(wv@ == self.vocab_model()[i as int]);
                assert(wv@.len() <= MAX_WORD_LEN);
                assert(sh2(wv@).len() <= wv@.len());
                assert(sh1(wv@).len() == wv@.len());
                assert(sh2(lws).len() <= lws.len());
                assert(sh1(lws).len() == lws.len());
            }
            let w2: Vec<Sh> = shingles2(&wv);
            let w1: Vec<Sh> = shingles1(&wv);
            let p2: (u64, u64) = dist_pair_exec(&w2, &t2);
            let p1: (u64, u64) = dist_pair_exec(&w1, &t1);
            pairs2.push(p2);
            pairs1.push(p1);
        }
        proof {
            assert(self.pairs_ok(lws, true, pairs2@));
            assert(self.pairs_ok(lws, false, pairs1@));
        }
        let mut excl: Vec<usize> = Vec::new();
        proof {
            lemma_exists_free(n as int, Seq::<int>::empty());
        }
        let ghost e0: Seq<int> = Seq::<int>::empty();
        let i0: usize = self.find_best(Ghost(lws), Ghost(true), &pairs2, &excl, Ghost(e0));
        excl.push(i0);
        proof {
            assert(excl@ =~= seq![i0]);
            lemma_exists_free(n as int, seq![i0 as int]);
        }
        let ghost e1: Seq<int> = seq![i0 as int];
        let i2: usize = self.find_best(Ghost(lws), Ghost(true), &pairs2, &excl, Ghost(e1));
        excl.push(i2);
        proof {
            assert(excl@ =~= seq![i0, i2]);
            lemma_exists_free(n as int, seq![i0 as int, i2 as int]);
        }
        let ghost e2: Seq<int> = seq![i0 as int, i2 as int];
        let i3: usize = self.find_best(Ghost(lws), Ghost(true), &pairs2, &excl, Ghost(e2));
        excl.push(i3);
        proof {
            assert(excl@ =~= seq![i0, i2, i3]);
            lemma_exists_free(n as int, seq![i0 as int, i2 as int, i3 as int]);
        }
        let ghost e3: Seq<int> = seq![i0 as int, i2 as int, i3 as int];
        let i4: usize = self.find_best(Ghost(lws), Ghost(true), &pairs2, &excl, Ghost(e3));
        excl.push(i4);
        proof {
            assert(excl@ =~= seq![i0, i2, i3, i4]);
            lemma_exists_free(n as int, seq![i0 as int, i2 as int, i3 as int, i4 as int]);
        }
        let ghost e4: Seq<int> = seq![i0 as int, i2 as int, i3 as int, i4 as int];
        let i1: usize = self.find_best(Ghost(lws), Ghost(false), &pairs1, &excl, Ghost(e4));
        let mut g: Vec<String> = Vec::new();
        g.push(self.vocab[i0].clone());
        g.push(self.vocab[i1].clone());
        g.push(self.vocab[i2].clone());
        g.push(self.vocab[i3].clone());
        g.push(self.vocab[i4].clone());
        proof {
            crate::text::lemma_deep_view_strings(g);
            assert(g.deep_view() =~= seq![
                self.vocab_model()[i0 as int],
                self.vocab_model()[i1 as int],
                self.vocab_model()[i2 as int],
                self.vocab_model()[i3 as int],
                self.vocab_model()[i4 as int],
            ]);
            assert(self.shortlist_ok(
                lws,
                g.deep_view(),
                i0 as int,
                i1 as int,
                i2 as int,
                i3 as int,
                i4 as int,
            ));
        }
        let res: Option<Vec<String>> = Some(g);
        proof {
            assert(self.shortlist_ok(
                lws,
                res.unwrap().deep_view(),
                i0 as int,
                i1 as int,
                i2 as int,
                i3 as int,
                i4 as int,
            ));
            assert(exists|a0: int, a1: int, a2: int, a3: int, a4: int|
                #![trigger self.shortlist_ok(lws, res.unwrap().deep_view(), a0, a1, a2, a3, a4)]
                self.shortlist_ok(lws, res.unwrap().deep_view(), a0, a1, a2, a3, a4));
        }
        res
    }

    /// How many words the vocabulary holds.
    pub fn vocab_len(&self) -> (r: usize)
        ensures
            r == self.vocab_model().len(),
    {
        self.vocab.len()
    }
}

/// Every shortlist holds five pairwise distinct vocabulary words, and the
/// one-shingle suggestion in slot 1 never repeats any of the two-shingle
/// suggestions in slots 0, 2, 3 and 4.
pub proof fn lemma_shortlist_distinct(
    ac: Autocorrecter,
    t: Seq<char>,
    g: Seq<Seq<char>>,
    i0: int,
    i1: int,
    i2: int,
    i3: int,
    i4: int,
)
    requires
        ac.wf(),
        ac.shortlist_ok(t, g, i0, i1, i2, i3, i4),
    ensures
        forall|p: int, q: int| 0 <= p < q < 5 ==> g[p] != g[q],
{
    let ex2 = seq![i0, i2];
    let ex3 = seq![i0, i2, i3];
    let ex4 = seq![i0, i2, i3, i4];
    assert(seq![i0][0] == i0);
    assert(ex2[0] == i0 && ex2[1] == i2);
    assert(ex3[0] == i0 && ex3[1] == i2 && ex3[2] == i3);
    assert(ex4[0] == i0 && ex4[1] == i2 && ex4[2] == i3 && ex4[3] == i4);
    assert(i2 != i0) by {
        if i2 == i0 {
            assert(seq![i0].contains(i2));
        }
    };
    assert(i3 != i0 && i3 != i2) by {
        if i3 == i0 || i3 == i2 {
            assert(ex2.contains(i3));
        }
    };
    assert(i4 != i0 && i4 != i2 && i4 != i3) by {
        if i4 == i0 || i4 == i2 || i4 == i3 {
            assert(ex3.contains(i4));
        }
    };
    assert(i1 != i0 && i1 != i2 && i1 != i3 && i1 != i4) by {
        if i1 == i0 || i1 == i2 || i1 == i3 || i1 == i4 {
            assert(ex4.contains(i1));
        }
    };
    assert forall|p: int, q: int| 0 <= p < q < 5 implies g[p] != g[q] by {
        let ip = if p == 0 {
            i0
        } else if p == 1 {
            i1
        } else if p == 2 {
            i2
        } else if p == 3 {
            i3
        } else {
            i4
        };
        let iq = if q == 0 {
            i0
        } else if q == 1 {
            i1
        } else if q == 2 {
            i2
        } else if q == 3 {
            i3
        } else {
            i4
        };
        assert(ip != iq);
        assert(g[p] == ac.vocab_model()[ip] && g[q] == ac.vocab_model()[iq]);
        if ip < iq {
            assert(ac.vocab_model()[ip] != ac.vocab_model()[iq]);
        } else {
            assert(ac.vocab_model()[iq] != ac.vocab_model()[ip]);
        }
    };
}

} // verus!
