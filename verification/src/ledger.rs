use vstd::prelude::*;

use crate::scoring::MAX_SCORE;
use crate::text::{
    lemma_deep_view_strings, lemma_lex_lt_total, lemma_lex_lt_trans, lex_lt, lex_lt_str,
    str_eq_str,
};

verus! {

/// Adds a signed delta to a name's total, starting from zero for a new name.
pub open spec fn bump_map(m: Map<Seq<char>, int>, k: Seq<char>, d: int) -> Map<Seq<char>, int> {
    m.insert(
        k,
        (if m.contains_key(k) {
            m[k]
        } else {
            0
        }) + d,
    )
}

/// Credits every distinct name once, skipping the negation marker; each name
/// counts at its first occurrence.
pub open spec fn credit_each(
    m: Map<Seq<char>, int>,
    names: Seq<Seq<char>>,
    p: int,
) -> Map<Seq<char>, int>
    decreases names.len(),
{
    if names.len() == 0 {
        m
    } else {
        let prev = credit_each(m, names.drop_last(), p);
        if names.last() == "not"@ || names.drop_last().contains(names.last()) {
            prev
        } else {
            bump_map(prev, names.last(), p)
        }
    }
}

/// Folds one validated line into the totals: `[A, not, B]` credits A and
/// penalizes B, `[not, B]` penalizes B, and any other shape credits every
/// distinct name once.
pub open spec fn apply_line(
    m: Map<Seq<char>, int>,
    p: int,
    names: Seq<Seq<char>>,
) -> Map<Seq<char>, int> {
    if names.len() == 3 && names[1] == "not"@ {
        bump_map(bump_map(m, names[0], p), names[2], -p)
    } else if names.len() == 2 && names[0] == "not"@ {
        bump_map(m, names[1], -p)
    } else {
        credit_each(m, names, p)
    }
}

/// The name-to-total mapping after folding a whole line sequence, in order.
pub open spec fn fold_model(lines: Seq<(i64, Seq<Seq<char>>)>) -> Map<Seq<char>, int>
    decreases lines.len(),
{
    if lines.len() == 0 {
        Map::empty()
    } else {
        apply_line(fold_model(lines.drop_last()), lines.last().0 as int, lines.last().1)
    }
}

/// The token views of a batch of (points, names) lines.
pub open spec fn lines_fold_model(s: Seq<(i64, Vec<String>)>) -> Seq<(i64, Seq<Seq<char>>)> {
    s.map_values(|p: (i64, Vec<String>)| (p.0, p.1.deep_view()))
}

pub open spec fn keys_distinct(s: Seq<(String, i128)>) -> bool {
    forall|i: int, j: int| 0 <= i < j < s.len() ==> s[i].0@ != s[j].0@
}

/// The mapping an association list stands for, later entries winning.
pub open spec fn entries_map(s: Seq<(String, i128)>) -> Map<Seq<char>, int>
    decreases s.len(),
{
    if s.len() == 0 {
        Map::empty()
    } else {
        entries_map(s.drop_last()).insert(s.last().0@, s.last().1 as int)
    }
}

/// Every total lies within the bound.
pub open spec fn model_bounded(m: Map<Seq<char>, int>, b: int) -> bool {
    forall|k: Seq<char>| #[trigger] m.contains_key(k) ==> -b <= m[k] <= b
}

/// The accumulated name-to-points totals of one run.
pub struct Ledger {
    entries: Vec<(String, i128)>,
}

proof fn lemma_entries_map_props(s: Seq<(String, i128)>)
    requires
        keys_distinct(s),
    ensures
        forall|k: Seq<char>|
            #[trigger] entries_map(s).contains_key(k) <==> exists|i: int|
                0 <= i < s.len() && #[trigger] s[i].0@ == k,
        forall|i: int| 0 <= i < s.len() ==> entries_map(s)[#[trigger] s[i].0@] == s[i].1 as int,
    decreases s.len(),
{
    if s.len() > 0 {
        let pre = s.drop_last();
        lemma_entries_map_props(pre);
        assert(forall|i: int| 0 <= i < pre.len() ==> pre[i] == s[i]);
        assert forall|k: Seq<char>| #[trigger] entries_map(s).contains_key(k) implies exists|
            i: int,
        | 0 <= i < s.len() && #[trigger] s[i].0@ == k by {
            if k == s.last().0@ {
                assert(s[s.len() - 1].0@ == k);
            } else {
                assert(entries_map(pre).contains_key(k));
                let i = choose|i: int| 0 <= i < pre.len() && #[trigger] pre[i].0@ == k;
                assert(s[i].0@ == k);
            }
        };
        assert forall|k: Seq<char>|
            (exists|i: int| 0 <= i < s.len() && #[trigger] s[i].0@ == k) implies #[trigger]
        entries_map(s).contains_key(k) by {
            let i = choose|i: int| 0 <= i < s.len() && #[trigger] s[i].0@ == k;
            if i < s.len() - 1 {
                assert(pre[i].0@ == k);
                assert(entries_map(pre).contains_key(k));
            }
        };
        assert forall|i: int| 0 <= i < s.len() implies entries_map(s)[#[trigger] s[i].0@]
            == s[i].1 as int by {
            if i < s.len() - 1 {
                assert(pre[i].0@ == s[i].0@);
                assert(s[i].0@ != s.last().0@);
            }
        };
    }
}

proof fn lemma_entries_map_remove(s: Seq<(String, i128)>, j: int)
    requires
        keys_distinct(s),
        0 <= j < s.len(),
    ensures
        keys_distinct(s.remove(j)),
        entries_map(s.remove(j)) == entries_map(s).remove(s[j].0@),
    decreases s.len(),
{
    lemma_entries_map_props(s);
    let t = s.remove(j);
    assert(t.len() == s.len() - 1);
    assert(forall|i: int| 0 <= i < j ==> t[i] == s[i]);
    assert(forall|i: int| j <= i < t.len() ==> t[i] == s[i + 1]);
    assert(keys_distinct(t));
    if j == s.len() - 1 {
        assert(t =~= s.drop_last());
        lemma_entries_map_props(s.drop_last());
        assert(!entries_map(s.drop_last()).contains_key(s[j].0@)) by {
            if entries_map(s.drop_last()).contains_key(s[j].0@) {
                let i = choose|i: int|
                    0 <= i < s.drop_last().len() && #[trigger] s.drop_last()[i].0@ == s[j].0@;
                assert(s[i].0@ == s[j].0@);
                assert(false);
            }
        };
        assert(entries_map(t) =~= entries_map(s).remove(s[j].0@));
    } else {
        lemma_entries_map_remove(s.drop_last(), j);
        assert(t.drop_last() =~= s.drop_last().remove(j));
        assert(t.last() == s.last());
        assert(s.drop_last()[j] == s[j]);
        assert(entries_map(t) == entries_map(s.drop_last()).remove(s[j].0@).insert(
            s.last().0@,
            s.last().1 as int,
        ));
        assert(s[j].0@ != s.last().0@);
        assert(entries_map(s.drop_last()).remove(s[j].0@).insert(s.last().0@, s.last().1 as int)
            =~= entries_map(s).remove(s[j].0@));
    }
}

impl Ledger {
    /// The totals as a mapping from name to signed points.
    pub closed spec fn model(self) -> Map<Seq<char>, int> {
        entries_map(self.entries@)
    }

    pub closed spec fn wf(self) -> bool {
        keys_distinct(self.entries@)
    }

    /// Adds `delta` to one name's total.
    #[verifier::loop_isolation(false)]
    fn bump(&mut self, name: &String, delta: i128)
        requires
            old(self).wf(),
            forall|k: Seq<char>|
                #[trigger] old(self).model().contains_key(k) ==> i128::MIN <= old(self).model()[k]
                    + delta <= i128::MAX,
        ensures
            final(self).wf(),
            final(self).model() == bump_map(old(self).model(), name@, delta as int),
    {
        proof {
            lemma_entries_map_props(self.entries@);
        }
        let n: usize = self.entries.len();
        for j in 0..n
            invariant
                self == old(self),
                n == self.entries@.len(),
                forall|i: int| 0 <= i < j ==> #[trigger] self.entries@[i].0@ != name@,
        {
            if str_eq_str(self.entries[j].0.as_str(), name.as_str()) {
                let ghost s_old = self.entries@;
                proof {
                    assert(s_old[j as int].0@ == name@);
                    assert(self.model().contains_key(name@));
                    assert(self.model()[name@] == s_old[j as int].1 as int);
                }
                let old_v: i128 = self.entries[j].1;
                let nv: i128 = old_v + delta;
                let _ = self.entries.remove(j);
                self.entries.push((name.clone(), nv));
                proof {
                    lemma_entries_map_remove(s_old, j as int);
                    let t = s_old.remove(j as int);
                    assert(self.entries@.drop_last() =~= t);
                    assert(self.entries@.last().0@ == name@);
                    assert(self.entries@.last().1 == nv);
                    assert forall|i: int, i2: int|
                        0 <= i < i2 < self.entries@.len() implies self.entries@[i].0@
                        != self.entries@[i2].0@ by {
                        if i2 == self.entries@.len() - 1 {
                            assert(self.entries@[i] == t[i]);
                            if i < j {
                                assert(t[i] == s_old[i]);
                                assert(s_old[i].0@ != s_old[j as int].0@);
                            } else {
                                assert(t[i] == s_old[i + 1]);
                                assert(s_old[j as int].0@ != s_old[i + 1].0@);
                            }
                        } else {
                            assert(self.entries@[i] == t[i]);
                            assert(self.entries@[i2] == t[i2]);
                        }
                    };
                    assert(entries_map(self.entries@) == entries_map(t).insert(name@, nv as int));
                    assert(entries_map(t) == entries_map(s_old).remove(name@));
                    assert(entries_map(self.entries@) =~= bump_map(
                        entries_map(s_old),
                        name@,
                        delta as int,
                    ));
                }
                return;
            }
        }
        proof {
            assert(!self.model().contains_key(name@)) by {
                if self.model().contains_key(name@) {
                    let i = choose|i: int|
                        0 <= i < self.entries@.len() && #[trigger] self.entries@[i].0@ == name@;
                    assert(false);
                }
            };
        }
        let ghost s_old = self.entries@;
        self.entries.push((name.clone(), delta));
        proof {
            assert(self.entries@.drop_last() =~= s_old);
            assert forall|i: int, i2: int|
                0 <= i < i2 < self.entries@.len() implies self.entries@[i].0@
                != self.entries@[i2].0@ by {
                if i2 == self.entries@.len() - 1 {
                    assert(self.entries@[i] == s_old[i]);
                } else {
                    assert(self.entries@[i] == s_old[i]);
                    assert(self.entries@[i2] == s_old[i2]);
                }
            };
            assert(entries_map(self.entries@) =~= bump_map(
                entries_map(s_old),
                name@,
                delta as int,
            ));
        }
    }
}

/// Crediting each distinct name changes exactly the credited names, each by
/// the line's points, and touches no other total.
pub proof fn lemma_credit_each_char(m: Map<Seq<char>, int>, names: Seq<Seq<char>>, p: int)
    ensures
        forall|k: Seq<char>|
            #[trigger] credit_each(m, names, p).contains_key(k) <==> (m.contains_key(k) || (
            names.contains(k) && k != "not"@)),
        forall|k: Seq<char>|
            #[trigger] credit_each(m, names, p).contains_key(k) ==> credit_each(m, names, p)[k]
                == (if m.contains_key(k) {
                m[k]
            } else {
                0
            }) + (if names.contains(k) && k != "not"@ {
                p
            } else {
                0
            }),
    decreases names.len(),
{
    if names.len() > 0 {
        let pre = names.drop_last();
        let last = names.last();
        lemma_credit_each_char(m, pre, p);
        assert forall|k: Seq<char>| #[trigger] names.contains(k) implies (pre.contains(k) || k
            == last) by {
            let i = choose|i: int| 0 <= i < names.len() && names[i] == k;
            if i < names.len() - 1 {
                assert(pre[i] == k);
            }
        };
        assert forall|k: Seq<char>| pre.contains(k) implies #[trigger] names.contains(k) by {
            let i = choose|i: int| 0 <= i < pre.len() && pre[i] == k;
            assert(names[i] == k);
        };
        assert(names.contains(last)) by {
            assert(names[names.len() - 1] == last);
        };
        let cur = credit_each(m, names, p);
        let prev = credit_each(m, pre, p);
        let skip_last = last == "not"@ || pre.contains(last);
        assert forall|k: Seq<char>| #[trigger] cur.contains_key(k) implies (m.contains_key(k)
            || (names.contains(k) && k != "not"@)) by {
            if skip_last {
                assert(prev.contains_key(k));
            } else {
                if k != last {
                    assert(prev.contains_key(k));
                }
            }
        };
        assert forall|k: Seq<char>| (m.contains_key(k) || (names.contains(k) && k != "not"@))
            implies #[trigger] cur.contains_key(k) by {
            if skip_last {
                if names.contains(k) && k != "not"@ && !pre.contains(k) {
                    assert(k == last);
                    assert(pre.contains(last) || last == "not"@);
                    assert(false);
                }
                assert(prev.contains_key(k));
            } else {
                if k != last {
                    assert(m.contains_key(k) || (pre.contains(k) && k != "not"@));
                    assert(prev.contains_key(k));
                }
            }
        };
        assert forall|k: Seq<char>| #[trigger] cur.contains_key(k) implies cur[k] == (if m
            .contains_key(k) {
            m[k]
        } else {
            0
        }) + (if names.contains(k) && k != "not"@ {
            p
        } else {
            0
        }) by {
            let base = if m.contains_key(k) {
                m[k]
            } else {
                0
            };
            if skip_last {
                assert(cur == prev);
                assert(prev.contains_key(k));
                if k == last {
                    if last == "not"@ {
                        assert(prev[k] == base);
                    } else {
                        assert(pre.contains(last));
                        assert(prev[k] == base + p);
                    }
                } else {
                    assert((names.contains(k) && k != "not"@) == (pre.contains(k) && k
                        != "not"@));
                }
            } else {
                if k == last {
                    assert(!pre.contains(last));
                    if prev.contains_key(last) {
                        assert(m.contains_key(last));
                        assert(prev[last] == base);
                    }
                    assert(cur[k] == (if prev.contains_key(last) {
                        prev[last]
                    } else {
                        0
                    }) + p);
                    if !prev.contains_key(last) {
                        assert(!m.contains_key(last));
                        assert(base == 0);
                    }
                } else {
                    assert(cur[k] == prev[k]);
                    assert((names.contains(k) && k != "not"@) == (pre.contains(k) && k
                        != "not"@));
                }
            }
        };
    }
}

/// Folding one line moves each total by at most twice the line's points.
pub proof fn lemma_apply_line_bounded(
    m: Map<Seq<char>, int>,
    p: int,
    names: Seq<Seq<char>>,
    b: int,
    d: int,
)
    requires
        model_bounded(m, b),
        -d <= p <= d,
        0 <= d,
        0 <= b,
    ensures
        model_bounded(apply_line(m, p, names), b + 2 * d),
{
    let r = apply_line(m, p, names);
    if names.len() == 3 && names[1] == "not"@ {
        let m1 = bump_map(m, names[0], p);
        assert forall|k: Seq<char>| #[trigger] r.contains_key(k) implies -(b + 2 * d) <= r[k]
            <= b + 2 * d by {
            assert(-(b + d) <= m1[names[0]] <= b + d) by {
                if m.contains_key(names[0]) {
                    assert(-b <= m[names[0]] <= b);
                }
            };
            if k == names[2] {
                let base2 = if m1.contains_key(names[2]) {
                    m1[names[2]]
                } else {
                    0
                };
                assert(r[k] == base2 + (-p));
                if m1.contains_key(names[2]) && names[2] != names[0] {
                    assert(m1[names[2]] == m[names[2]] && m.contains_key(names[2]));
                }
            } else if k == names[0] {
                assert(r[k] == m1[k]);
            } else {
                assert(r[k] == m[k] && m.contains_key(k));
            }
        };
    } else if names.len() == 2 && names[0] == "not"@ {
        assert forall|k: Seq<char>| #[trigger] r.contains_key(k) implies -(b + 2 * d) <= r[k]
            <= b + 2 * d by {
            if k == names[1] {
                if m.contains_key(names[1]) {
                    assert(-b <= m[names[1]] <= b);
                }
            } else {
                assert(r[k] == m[k] && m.contains_key(k));
            }
        };
    } else {
        lemma_credit_each_char(m, names, p);
        assert forall|k: Seq<char>| #[trigger] r.contains_key(k) implies -(b + 2 * d) <= r[k]
            <= b + 2 * d by {
            assert(r.contains_key(k));
            if m.contains_key(k) {
                assert(-b <= m[k] <= b);
            }
        };
    }
}

/// Inserts a pair into a name-sorted vector, keeping it sorted; the new key
/// must differ from every present key.
#[verifier::loop_isolation(false)]
fn insert_sorted(out: &mut Vec<(String, i128)>, key: String, val: i128) -> (pos: usize)
    requires
        forall|i: int, j: int|
            0 <= i < j < old(out)@.len() ==> lex_lt(old(out)@[i].0@, old(out)@[j].0@),
        forall|i: int| 0 <= i < old(out)@.len() ==> (#[trigger] old(out)@[i]).0@ != key@,
    ensures
        pos <= old(out)@.len(),
        final(out)@ == old(out)@.insert(pos as int, (key, val)),
        forall|i: int, j: int|
            0 <= i < j < final(out)@.len() ==> lex_lt(final(out)@[i].0@, final(out)@[j].0@),
{
    let ghost key_s = key@;
    let m: usize = out.len();
    let mut pos: usize = 0;
    while pos < m && lex_lt_str(out[pos].0.as_str(), key.as_str())
        invariant
            pos <= m && m == out@.len(),
            forall|i: int| 0 <= i < pos ==> lex_lt(#[trigger] out@[i].0@, key_s),
        decreases m - pos,
    {
        pos = pos + 1;
    }
    proof {
        assert forall|i: int| pos <= i < out@.len() implies lex_lt(key_s, #[trigger] out@[i].0@)
            by {
            lemma_lex_lt_total(key_s, out@[i].0@);
            if (pos as int) < i {
                if lex_lt(out@[i].0@, key_s) {
                    assert(!lex_lt(out@[pos as int].0@, key_s));
                    lemma_lex_lt_trans(out@[pos as int].0@, out@[i].0@, key_s);
                    assert(false);
                }
            }
        };
    }
    let ghost out_old = out@;
    out.insert(pos, (key, val));
    proof {
        out_old.insert_ensures(pos as int, out@[pos as int]);
        assert(out@ =~= out_old.insert(pos as int, out@[pos as int]));
        assert forall|i: int, j: int|
            0 <= i < j < out@.len() implies lex_lt(out@[i].0@, out@[j].0@) by {
            if i < pos && j == pos {
                assert(out@[i] == out_old[i]);
            } else if i == pos && j > pos {
                assert(out@[j] == out_old[j - 1]);
            } else if i < pos && j > pos {
                assert(out@[i] == out_old[i]);
                assert(out@[j] == out_old[j - 1]);
            } else if i > pos && j > pos {
                assert(out@[i] == out_old[i - 1]);
                assert(out@[j] == out_old[j - 1]);
            } else if i < pos && j < pos {
                assert(out@[i] == out_old[i]);
                assert(out@[j] == out_old[j]);
            }
        };
    }
    pos
}

impl Ledger {
    /// Folds validated (points, names) lines into a fresh ledger.
    ///
    /// The totals are exactly `fold_model` of the lines: each line either
    /// credits its distinct names once, or applies the negation patterns.
    #[verifier::loop_isolation(false)]
    #[verifier::rlimit(60)]
    pub fn fold(lines: &Vec<(i64, Vec<String>)>) -> (r: Ledger)
        requires
            forall|i: int|
                0 <= i < lines@.len() ==> -MAX_SCORE <= (#[trigger] lines@[i]).0 <= MAX_SCORE,
        ensures
            r.wf(),
            r.model() == fold_model(lines_fold_model(lines@)),
    {
        let mut led = Ledger { entries: Vec::new() };
        let ghost lfm = lines_fold_model(lines@);
        let n: usize = lines.len();
        proof {
            assert(lfm.len() == lines@.len());
            assert(lfm.subrange(0, 0) =~= Seq::<(i64, Seq<Seq<char>>)>::empty());
            assert(led.model() =~= Map::<Seq<char>, int>::empty());
        }
        let ghost mbound = 2 * (MAX_SCORE as int);
        for li in 0..n
            invariant
                n == lines@.len() && lfm.len() == n,
                led.wf(),
                led.model() == fold_model(lfm.subrange(0, li as int)),
                model_bounded(led.model(), li * mbound),
                mbound == 2 * (MAX_SCORE as int),
        {
            let ghost pre = lfm.subrange(0, li as int);
            let ghost cur = lfm.subrange(0, li + 1);
            let ghost m0 = led.model();
            proof {
                assert(cur.drop_last() =~= pre);
                assert(cur.last() == lfm[li as int]);
                assert(lfm[li as int] == (lines@[li as int].0, lines@[li as int].1.deep_view()));
                assert((li as int) * mbound + 2 * mbound <= i128::MAX) by (nonlinear_arith)
                    requires
                        0 <= li as int <= 0xFFFF_FFFF_FFFF_FFFFu64 as int,
                        mbound == 32_000_000_000int,
                ;
            }
            let p: i64 = lines[li].0;
            let names: &Vec<String> = &lines[li].1;
            let ghost nm = names.deep_view();
            proof {
                lemma_deep_view_strings(*names);
            }
            let pd: i128 = p as i128;
            let nn: usize = names.len();
            let is_not3: bool = nn == 3 && str_eq_str(names[1].as_str(), "not");
            let is_not2: bool = nn == 2 && str_eq_str(names[0].as_str(), "not");
            if is_not3 {
                led.bump(&names[0], pd);
                proof {
                    assert forall|k: Seq<char>| #[trigger] led.model().contains_key(k) implies
                        i128::MIN <= led.model()[k] + (-pd) <= i128::MAX by {
                        if k == nm[0] {
                        } else {
                            assert(m0.contains_key(k) && led.model()[k] == m0[k]);
                        }
                    };
                }
                led.bump(&names[2], -pd);
                proof {
                    assert(led.model() =~= apply_line(m0, p as int, nm));
                }
            } else if is_not2 {
                led.bump(&names[1], -pd);
                proof {
                    assert(led.model() =~= apply_line(m0, p as int, nm));
                }
            } else {
                for i in 0..nn
                    invariant
                        nn == nm.len() && nn == names@.len(),
                        led.wf(),
                        led.model() == credit_each(m0, nm.subrange(0, i as int), p as int),
                        model_bounded(m0, li * mbound),
                {
                    let ghost npre = nm.subrange(0, i as int);
                    let ghost ncur = nm.subrange(0, i + 1);
                    proof {
                        assert(ncur.drop_last() =~= npre);
                        assert(ncur.last() == nm[i as int]);
                        assert(nm[i as int] == names@[i as int]@);
                    }
                    let is_not_tok: bool = str_eq_str(names[i].as_str(), "not");
                    let mut dup: bool = false;
                    for j in 0..i
                        invariant
                            dup <==> exists|l: int| 0 <= l < j && nm[l] == nm[i as int],
                    {
                        if str_eq_str(names[j].as_str(), names[i].as_str()) {
                            proof {
                                assert(nm[j as int] == nm[i as int]);
                            }
                            dup = true;
                        }
                    }
                    proof {
                        assert(dup <==> npre.contains(nm[i as int])) by {
                            if dup {
                                let l = choose|l: int| 0 <= l < i && nm[l] == nm[i as int];
                                assert(npre[l] == nm[i as int]);
                            }
                            if npre.contains(nm[i as int]) {
                                let l = choose|l: int|
                                    0 <= l < npre.len() && npre[l] == nm[i as int];
                                assert(nm[l] == nm[i as int]);
                                assert(dup);
                            }
                        };
                    }
                    if !is_not_tok && !dup {
                        proof {
                            lemma_credit_each_char(m0, npre, p as int);
                            assert forall|k: Seq<char>|
                                #[trigger] led.model().contains_key(k) implies i128::MIN
                                <= led.model()[k] + pd <= i128::MAX by {};
                        }
                        led.bump(&names[i], pd);
                        proof {
                            assert(led.model() =~= credit_each(m0, ncur, p as int));
                        }
                    } else {
                        proof {
                            assert(credit_each(m0, ncur, p as int) == credit_each(
                                m0,
                                npre,
                                p as int,
                            ));
                        }
                    }
                }
                proof {
                    assert(nm.subrange(0, nn as int) =~= nm);
                    assert(led.model() == credit_each(m0, nm, p as int));
                    assert(!(nm.len() == 3 && nm[1] == "not"@) && !(nm.len() == 2 && nm[0]
                        == "not"@));
                    assert(led.model() == apply_line(m0, p as int, nm));
                }
            }
            proof {
                assert(led.model() == fold_model(cur));
                lemma_apply_line_bounded(m0, p as int, nm, (li as int) * mbound, MAX_SCORE as int);
                assert(model_bounded(led.model(), (li + 1) * mbound));
            }
        }
        proof {
            assert(lfm.subrange(0, n as int) =~= lfm);
        }
        led
    }

    /// The externally visible ledger: every name with a positive total, in
    /// ascending name order.
    #[verifier::loop_isolation(false)]
    #[verifier::rlimit(100)]
    pub fn finalize(&self) -> (out: Vec<(String, i128)>)
        requires
            self.wf(),
        ensures
            forall|i: int, j: int| 0 <= i < j < out@.len() ==> lex_lt(out@[i].0@, out@[j].0@),
            forall|i: int|
                0 <= i < out@.len() ==> self.model().contains_key(#[trigger] out@[i].0@)
                    && self.model()[out@[i].0@] == out@[i].1 as int && out@[i].1 > 0,
            forall|k: Seq<char>|
                self.model().contains_key(k) && self.model()[k] > 0 ==> exists|i: int|
                    0 <= i < out@.len() && #[trigger] out@[i].0@ == k,
    {
        proof {
            lemma_entries_map_props(self.entries@);
        }
        let mut out: Vec<(String, i128)> = Vec::new();
        let n: usize = self.entries.len();
        for e in 0..n
            invariant
                n == self.entries@.len(),
                forall|i: int, j: int| 0 <= i < j < out@.len() ==> lex_lt(out@[i].0@, out@[j].0@),
                forall|i: int|
                    0 <= i < out@.len() ==> exists|l: int|
                        0 <= l < e && self.entries@[l] == #[trigger] out@[i],
                forall|i: int| 0 <= i < out@.len() ==> (#[trigger] out@[i]).1 > 0,
                forall|l: int|
                    0 <= l < e && (#[trigger] self.entries@[l]).1 > 0 ==> exists|i: int|
                        0 <= i < out@.len() && out@[i].0@ == self.entries@[l].0@,
        {
            if self.entries[e].1 > 0 {
                let key: String = self.entries[e].0.clone();
                let val: i128 = self.entries[e].1;
                proof {
                    assert forall|i: int| 0 <= i < out@.len() implies (#[trigger] out@[i]).0@
                        != key@ by {
                        let l0 = choose|l: int|
                            0 <= l < e && self.entries@[l] == #[trigger] out@[i];
                        assert(self.entries@[l0].0@ != self.entries@[e as int].0@);
                    };
                }
                let ghost out_old = out@;
                let pos: usize = insert_sorted(&mut out, key, val);
                proof {
                    out_old.insert_ensures(pos as int, (self.entries@[e as int].0, val));
                    assert(out@[pos as int].0@ == self.entries@[e as int].0@);
                    assert(out@[pos as int].1 == self.entries@[e as int].1);
                    assert forall|i: int| 0 <= i < out@.len() implies exists|l: int|
                        0 <= l < e + 1 && self.entries@[l] == #[trigger] out@[i] by {
                        if i == pos {
                            assert((out@[i].0@, out@[i].1) == (self.entries@[e as int].0@, self.entries@[e as int].1));
                            assert(out@[i].0@ == self.entries@[e as int].0@);
                            assert(self.entries@[e as int] == out@[i]);
                        } else if i < pos {
                            assert(out@[i] == out_old[i]);
                            let l = choose|l: int|
                                0 <= l < e && self.entries@[l] == #[trigger] out_old[i];
                            assert(self.entries@[l] == out@[i]);
                        } else {
                            assert(out@[i] == out_old[i - 1]);
                            let l = choose|l: int|
                                0 <= l < e && self.entries@[l] == #[trigger] out_old[i - 1];
                            assert(self.entries@[l] == out@[i]);
                        }
                    };
                    assert forall|l: int|
                        0 <= l < e + 1 && (#[trigger] self.entries@[l]).1 > 0 implies exists|
                        i: int,
                    | 0 <= i < out@.len() && out@[i].0@ == self.entries@[l].0@ by {
                        if l == e {
                            assert(out@[pos as int].0@ == self.entries@[l].0@);
                        } else {
                            let i = choose|i: int|
                                0 <= i < out_old.len() && out_old[i].0@ == self.entries@[l].0@;
                            if i < pos {
                                assert(out@[i].0@ == self.entries@[l].0@);
                            } else {
                                assert(out@[i + 1].0@ == self.entries@[l].0@);
                            }
                        }
                    };
                }
            } else {
                proof {
                    assert forall|l: int|
                        0 <= l < e + 1 && (#[trigger] self.entries@[l]).1 > 0 implies exists|
                        i: int,
                    | 0 <= i < out@.len() && out@[i].0@ == self.entries@[l].0@ by {}
                }
            }
        }
        proof {
            assert forall|i: int| 0 <= i < out@.len() implies self.model().contains_key(
                #[trigger] out@[i].0@,
            ) && self.model()[out@[i].0@] == out@[i].1 as int && out@[i].1 > 0 by {
                let l = choose|l: int| 0 <= l < n && self.entries@[l] == #[trigger] out@[i];
                assert(self.entries@[l].0@ == out@[i].0@);
            };
            assert forall|k: Seq<char>|
                self.model().contains_key(k) && self.model()[k] > 0 implies exists|i: int|
                0 <= i < out@.len() && #[trigger] out@[i].0@ == k by {
                let l = choose|l: int|
                    0 <= l < self.entries@.len() && #[trigger] self.entries@[l].0@ == k;
                assert(self.entries@[l].1 > 0);
            };
        }
        out
    }
}

/// Folding is a pure function of the validated lines: two runs of the fold
/// over the same line sequence yield the same totals.
pub proof fn lemma_fold_pure(
    a: Map<Seq<char>, int>,
    b: Map<Seq<char>, int>,
    lines: Seq<(i64, Seq<Seq<char>>)>,
)
    requires
        a == fold_model(lines),
        b == fold_model(lines),
    ensures
        a == b,
{
}

} // verus!
