use vstd::prelude::*;

use crate::fuzzy::{Autocorrecter, MAX_WORD_LEN};
use crate::text::{
    all_digits, all_digits_exec, chars_of, lower_chars_of, lower_seq, str_eq_str, string_of,
    trim_digits, trim_digits_exec,
};

verus! {

/// The alias table: observed tokens mapped to canonical names. Later
/// bindings for the same token win.
pub struct AliasTable {
    entries: Vec<(String, String)>,
}

/// The mapping an entry list stands for, later entries winning.
pub open spec fn alias_map(s: Seq<(Seq<char>, Seq<char>)>) -> Map<Seq<char>, Seq<char>>
    decreases s.len(),
{
    if s.len() == 0 {
        Map::empty()
    } else {
        alias_map(s.drop_last()).insert(s.last().0, s.last().1)
    }
}

impl AliasTable {
    /// The bindings in insertion order.
    pub closed spec fn entries_model(self) -> Seq<(Seq<char>, Seq<char>)> {
        self.entries@.map_values(|p: (String, String)| (p.0@, p.1@))
    }

    /// The token-to-name mapping the table stands for.
    pub open spec fn model(self) -> Map<Seq<char>, Seq<char>> {
        alias_map(self.entries_model())
    }

    pub fn new() -> (r: AliasTable)
        ensures
            r.entries_model() == Seq::<(Seq<char>, Seq<char>)>::empty(),
    {
        let r = AliasTable { entries: Vec::new() };
        proof {
            assert(r.entries_model() =~= Seq::<(Seq<char>, Seq<char>)>::empty());
        }
        r
    }

    /// Binds a token to a canonical name; a later binding shadows an earlier
    /// one.
    pub fn insert(&mut self, token: String, name: String)
        ensures
            final(self).entries_model() == old(self).entries_model().push((token@, name@)),
            final(self).model() == old(self).model().insert(token@, name@),
    {
        let ghost t = token@;
        let ghost n = name@;
        self.entries.push((token, name));
        proof {
            assert(self.entries_model() =~= old(self).entries_model().push((t, n)));
            assert(self.entries_model().drop_last() =~= old(self).entries_model());
        }
    }

    /// Looks a token up, returning the latest binding.
    #[verifier::loop_isolation(false)]
    pub fn lookup(&self, token: &str) -> (r: Option<String>)
        ensures
            match r {
                Some(n) => self.model().contains_key(token@) && self.model()[token@] == n@,
                None => !self.model().contains_key(token@),
            },
    {
        let n: usize = self.entries.len();
        let mut j: usize = n;
        proof {
            assert(self.entries_model().subrange(0, n as int) =~= self.entries_model());
        }
        while j > 0
            invariant
                j <= n && n == self.entries@.len(),
                alias_map(self.entries_model()).contains_key(token@) == alias_map(
                    self.entries_model().subrange(0, j as int),
                ).contains_key(token@),
                alias_map(self.entries_model()).contains_key(token@) ==> alias_map(
                    self.entries_model(),
                )[token@] == alias_map(self.entries_model().subrange(0, j as int))[token@],
            decreases j,
        {
            let ghost cur = self.entries_model().subrange(0, j as int);
            proof {
                assert(cur.drop_last() =~= self.entries_model().subrange(0, j - 1));
                assert(cur.last() == self.entries_model()[j - 1]);
                assert(self.entries_model()[j - 1] == (self.entries@[j - 1].0@, self.entries@[j
                    - 1].1@));
            }
            if str_eq_str(self.entries[j - 1].0.as_str(), token) {
                return Some(self.entries[j - 1].1.clone());
            }
            j = j - 1;
        }
        proof {
            assert(self.entries_model().subrange(0, 0) =~= Seq::<(Seq<char>, Seq<char>)>::empty());
        }
        None
    }

    /// The observed tokens, in insertion order; the suggestion vocabulary.
    #[verifier::loop_isolation(false)]
    pub fn keys(&self) -> (r: Vec<String>)
        ensures
            r@.len() == self.entries_model().len(),
            forall|i: int|
                0 <= i < r@.len() ==> (#[trigger] r@[i])@ == self.entries_model()[i].0,
    {
        let mut r: Vec<String> = Vec::new();
        let n: usize = self.entries.len();
        for i in 0..n
            invariant
                n == self.entries@.len(),
                r@.len() == i,
                forall|k: int|
                    0 <= k < i ==> (#[trigger] r@[k])@ == self.entries_model()[k].0,
        {
            r.push(self.entries[i].0.clone());
        }
        r
    }

    /// How many bindings the table holds.
    pub fn len(&self) -> (r: usize)
        ensures
            r == self.entries_model().len(),
    {
        self.entries.len()
    }
}

/// The first space-separated word of a name.
pub open spec fn first_word(s: Seq<char>) -> Seq<char>
    decreases s.len(),
{
    if s.len() == 0 {
        s
    } else if s.first() == ' ' {
        Seq::empty()
    } else {
        seq![s.first()] + first_word(s.drop_first())
    }
}

/// The name with every space removed.
pub open spec fn strip_spaces(s: Seq<char>) -> Seq<char>
    decreases s.len(),
{
    if s.len() == 0 {
        s
    } else if s.first() == ' ' {
        strip_spaces(s.drop_first())
    } else {
        seq![s.first()] + strip_spaces(s.drop_first())
    }
}

fn first_word_exec(v: &Vec<char>) -> (r: Vec<char>)
    ensures
        r@ == first_word(v@),
{
    let mut r: Vec<char> = Vec::new();
    let n: usize = v.len();
    proof {
        assert(v@.skip(0) =~= v@);
        assert(first_word(v@) =~= r@ + first_word(v@.skip(0)));
    }
    for i in 0..n
        invariant
            n == v@.len(),
            forall|k: int| 0 <= k < i ==> v@[k] != ' ',
            first_word(v@) == r@ + first_word(v@.skip(i as int)),
    {
        proof {
            assert(v@.skip(i as int).first() == v@[i as int]);
            assert(v@.skip(i as int).drop_first() =~= v@.skip(i + 1));
        }
        if v[i] == ' ' {
            proof {
                assert(first_word(v@.skip(i as int)) =~= Seq::<char>::empty());
                assert(first_word(v@) =~= r@);
            }
            return r;
        }
        r.push(v[i]);
        proof {
            assert(r@ =~= r@.drop_last() + seq![v@[i as int]] + Seq::<char>::empty());
            assert(r@.drop_last() + (seq![v@[i as int]] + first_word(v@.skip(i + 1))) =~= (
            r@.drop_last() + seq![v@[i as int]]) + first_word(v@.skip(i + 1)));
        }
    }
    proof {
        assert(v@.skip(n as int) =~= Seq::<char>::empty());
        assert(first_word(v@.skip(n as int)) =~= Seq::<char>::empty());
        assert(first_word(v@) =~= r@);
    }
    r
}

fn strip_spaces_exec(v: &Vec<char>) -> (r: Vec<char>)
    ensures
        r@ == strip_spaces(v@),
{
    let mut r: Vec<char> = Vec::new();
    let n: usize = v.len();
    proof {
        assert(v@.skip(0) =~= v@);
        assert(strip_spaces(v@) =~= r@ + strip_spaces(v@.skip(0)));
    }
    for i in 0..n
        invariant
            n == v@.len(),
            strip_spaces(v@) == r@ + strip_spaces(v@.skip(i as int)),
    {
        proof {
            assert(v@.skip(i as int).first() == v@[i as int]);
            assert(v@.skip(i as int).drop_first() =~= v@.skip(i + 1));
        }
        if v[i] != ' ' {
            r.push(v[i]);
            proof {
                assert(r@.drop_last() + (seq![v@[i as int]] + strip_spaces(v@.skip(i + 1))) =~= (
                r@.drop_last() + seq![v@[i as int]]) + strip_spaces(v@.skip(i + 1)));
            }
        }
    }
    proof {
        assert(v@.skip(n as int) =~= Seq::<char>::empty());
        assert(strip_spaces(v@) =~= r@);
    }
    r
}

/// The alias bindings one roster name contributes, in order: for a spaced
/// name its lowercased first word, its lowercased spaceless form and that
/// form with trailing digits removed; for a single word the lowercased word
/// and, unless the word is all digits, its digit-trimmed form.
pub open spec fn name_bindings(name: Seq<char>) -> Seq<(Seq<char>, Seq<char>)> {
    if name.contains(' ') {
        seq![
            (lower_seq(first_word(name)), name),
            (lower_seq(strip_spaces(name)), name),
            (lower_seq(trim_digits(strip_spaces(name))), name),
        ]
    } else {
        if all_digits(name) && name.len() > 0 {
            seq![(lower_seq(name), name)]
        } else {
            seq![(lower_seq(name), name), (lower_seq(trim_digits(name)), name)]
        }
    }
}

/// All bindings the roster contributes, in roster order.
pub open spec fn roster_bindings(names: Seq<Seq<char>>) -> Seq<(Seq<char>, Seq<char>)>
    decreases names.len(),
{
    if names.len() == 0 {
        Seq::empty()
    } else {
        roster_bindings(names.drop_last()) + name_bindings(names.last())
    }
}

/// Builds the alias table for a run: the seed bindings in order, then the
/// bindings every roster name contributes.
#[verifier::loop_isolation(false)]
#[verifier::rlimit(60)]
pub fn build_aliases(seed: Vec<(String, String)>, names: Vec<String>) -> (r: AliasTable)
    ensures
        r.entries_model() == seed@.map_values(|p: (String, String)| (p.0@, p.1@))
            + roster_bindings(names.deep_view()),
{
    let mut table = AliasTable::new();
    let ghost seed_m = seed@.map_values(|p: (String, String)| (p.0@, p.1@));
    let sn: usize = seed.len();
    for i in 0..sn
        invariant
            sn == seed@.len(),
            table.entries_model() == seed_m.subrange(0, i as int),
    {
        proof {
            assert(seed_m[i as int] == (seed@[i as int].0@, seed@[i as int].1@));
        }
        table.insert(seed[i].0.clone(), seed[i].1.clone());
        proof {
            assert(table.entries_model() =~= seed_m.subrange(0, i + 1));
        }
    }
    proof {
        assert(seed_m.subrange(0, sn as int) =~= seed_m);
    }
    let ghost dv = names.deep_view();
    proof {
        crate::text::lemma_deep_view_strings(names);
        assert(dv.subrange(0, 0) =~= Seq::<Seq<char>>::empty());
        assert(table.entries_model() =~= seed_m + roster_bindings(dv.subrange(0, 0)));
    }
    let nn: usize = names.len();
    for i in 0..nn
        invariant
            nn == names@.len() && dv.len() == nn,
            table.entries_model() == seed_m + roster_bindings(dv.subrange(0, i as int)),
    {
        let ghost pre = dv.subrange(0, i as int);
        let ghost cur = dv.subrange(0, i + 1);
        proof {
            assert(cur.drop_last() =~= pre);
            assert(cur.last() == dv[i as int]);
        }
        let name: &String = &names[i];
        let nv: Vec<char> = chars_of(name.as_str());
        let mut spaced: bool = false;
        let m: usize = nv.len();
        for k in 0..m
            invariant
                m == nv@.len(),
                spaced <==> exists|l: int| 0 <= l < k && nv@[l] == ' ',
        {
            if nv[k] == ' ' {
                spaced = true;
            }
        }
        proof {
            assert(spaced <==> nv@.contains(' ')) by {
                if spaced {
                    let l = choose|l: int| 0 <= l < m && nv@[l] == ' ';
                    assert(nv@[l] == ' ');
                }
                if nv@.contains(' ') {
                    let l = choose|l: int| 0 <= l < nv@.len() && nv@[l] == ' ';
                    assert(spaced);
                }
            };
            assert(nv@ == dv[i as int]);
        }
        if spaced {
            let fw: Vec<char> = first_word_exec(&nv);
            let lfw: Vec<char> = lower_vec(&fw);
            table.insert(string_of(&lfw), name.clone());
            let ss: Vec<char> = strip_spaces_exec(&nv);
            let lss: Vec<char> = lower_vec(&ss);
            table.insert(string_of(&lss), name.clone());
            let ts: Vec<char> = trim_digits_exec(&ss);
            let lts: Vec<char> = lower_vec(&ts);
            table.insert(string_of(&lts), name.clone());
            proof {
                assert(table.entries_model() =~= seed_m + roster_bindings(cur));
            }
        } else {
            let ln: Vec<char> = lower_vec(&nv);
            table.insert(string_of(&ln), name.clone());
            if nv.len() > 0 && all_digits_exec(&nv) {
                proof {
                    assert(table.entries_model() =~= seed_m + roster_bindings(cur));
                }
            } else {
                let td: Vec<char> = trim_digits_exec(&nv);
                let ltd: Vec<char> = lower_vec(&td);
                table.insert(string_of(&ltd), name.clone());
                proof {
                    assert(table.entries_model() =~= seed_m + roster_bindings(cur));
                }
            }
        }
    }
    proof {
        assert(dv.subrange(0, nn as int) =~= dv);
    }
    table
}

/// Lowercases a character vector.
fn lower_vec(v: &Vec<char>) -> (r: Vec<char>)
    ensures
        r@ == lower_seq(v@),
{
    let mut r: Vec<char> = Vec::new();
    let n: usize = v.len();
    for i in 0..n
        invariant
            n == v@.len(),
            r@ == lower_seq(v@).subrange(0, i as int),
    {
        r.push(crate::text::lower_char_exec(v[i]));
        proof {
            assert(r@ =~= lower_seq(v@).subrange(0, i + 1));
        }
    }
    proof {
        assert(r@ =~= lower_seq(v@));
    }
    r
}

} // verus!

verus! {

/// One operator decision at the primary prompt, with any free text already
/// collected.
pub enum PrimaryCmd {
    /// Adopt shortlist entry 1 to 5.
    Pick(usize),
    /// A typed replacement name.
    Manual(String),
    /// Two typed names standing for two people.
    Split(String, String),
    /// Register a brand-new alias for the token.
    NewName(String),
    /// Silently drop this token for the rest of the run.
    Discard,
    /// Abort the whole run.
    Quit,
    /// Anything else: re-prompt.
    Invalid,
}

/// One operator decision at the secondary prompt.
pub enum SecondaryCmd {
    PickFirst,
    PickSecond,
    Manual(String),
    DiscardToken,
    Invalid,
}

/// The resolver's state for one token.
pub enum RState {
    /// The token resolved to zero or more canonical names.
    Resolved { names: Vec<String> },
    /// The operator must choose among five suggestions.
    AwaitingPrimary { shortlist: Vec<String> },
    /// A correction candidate was not recognized; the operator must choose
    /// between two suggestions for it, type a replacement, or discard.
    AwaitingSecondary {
        from_split: bool,
        candidate: String,
        shortlist2: Vec<String>,
        pending: Vec<String>,
        resolved: Vec<String>,
    },
    /// The token was dropped for this run.
    Discarded,
    /// The operator ended the whole run.
    Aborted,
}

/// Classifies a raw primary answer: `q` aborts, `1`-`5` pick a suggestion,
/// `6` asks for a typed name, `7` splits into two names, `8` registers a new
/// alias, the empty answer discards, and anything else re-prompts.
pub fn classify_primary(answer: &str) -> (r: PrimaryCmd)
    ensures
        r == (if answer@ == "q"@ {
            PrimaryCmd::Quit
        } else if answer@ == "1"@ {
            PrimaryCmd::Pick(1usize)
        } else if answer@ == "2"@ {
            PrimaryCmd::Pick(2usize)
        } else if answer@ == "3"@ {
            PrimaryCmd::Pick(3usize)
        } else if answer@ == "4"@ {
            PrimaryCmd::Pick(4usize)
        } else if answer@ == "5"@ {
            PrimaryCmd::Pick(5usize)
        } else if answer@ == ""@ {
            PrimaryCmd::Discard
        } else {
            PrimaryCmd::Invalid
        }),
{
    if str_eq_str(answer, "q") {
        PrimaryCmd::Quit
    } else if str_eq_str(answer, "1") {
        PrimaryCmd::Pick(1)
    } else if str_eq_str(answer, "2") {
        PrimaryCmd::Pick(2)
    } else if str_eq_str(answer, "3") {
        PrimaryCmd::Pick(3)
    } else if str_eq_str(answer, "4") {
        PrimaryCmd::Pick(4)
    } else if str_eq_str(answer, "5") {
        PrimaryCmd::Pick(5)
    } else if str_eq_str(answer, "") {
        PrimaryCmd::Discard
    } else {
        PrimaryCmd::Invalid
    }
}

/// Classifies a raw secondary answer: `1` and `2` pick a suggestion, `3`
/// asks for a typed name, `4` discards the token, anything else re-prompts.
pub fn classify_secondary(answer: &str) -> (r: SecondaryCmd)
    ensures
        r == (if answer@ == "1"@ {
            SecondaryCmd::PickFirst
        } else if answer@ == "2"@ {
            SecondaryCmd::PickSecond
        } else if answer@ == "4"@ {
            SecondaryCmd::DiscardToken
        } else {
            SecondaryCmd::Invalid
        }),
{
    if str_eq_str(answer, "1") {
        SecondaryCmd::PickFirst
    } else if str_eq_str(answer, "2") {
        SecondaryCmd::PickSecond
    } else if str_eq_str(answer, "4") {
        SecondaryCmd::DiscardToken
    } else {
        SecondaryCmd::Invalid
    }
}

/// Every vocabulary word of the matcher is a key of the alias table.
pub open spec fn vocab_sub(matcher: Autocorrecter, aliases: AliasTable) -> bool {
    forall|w: Seq<char>|
        #[trigger] matcher.vocab_model().contains(w) ==> aliases.model().contains_key(w)
}

/// What processing the pending correction candidates does, one at a time:
/// a candidate whose lowercased form the table knows is adopted (and, unless
/// it came from a split, memoized for the token); the first unknown
/// candidate stops the run for a secondary prompt. Returns the new alias
/// map, the adopted names, the candidates still pending, and whether all
/// candidates were consumed.
pub open spec fn advance_spec(
    am: Map<Seq<char>, Seq<char>>,
    token: Seq<char>,
    from_split: bool,
    pending: Seq<Seq<char>>,
    resolved: Seq<Seq<char>>,
) -> (Map<Seq<char>, Seq<char>>, Seq<Seq<char>>, Seq<Seq<char>>, bool)
    decreases pending.len(),
{
    if pending.len() == 0 {
        (am, resolved, pending, true)
    } else {
        let lc = lower_seq(pending.first());
        if am.contains_key(lc) {
            let n = am[lc];
            advance_spec(
                if from_split {
                    am
                } else {
                    am.insert(token, n)
                },
                token,
                from_split,
                pending.drop_first(),
                resolved.push(n),
            )
        } else {
            (am, resolved, pending, false)
        }
    }
}

/// Processes pending correction candidates against the alias table.
#[verifier::loop_isolation(false)]
#[verifier::rlimit(60)]
pub fn advance_candidates(
    aliases: &mut AliasTable,
    matcher: &Autocorrecter,
    token: &String,
    from_split: bool,
    pending: Vec<String>,
    resolved: Vec<String>,
) -> (r: RState)
    requires
        matcher.wf(),
        matcher.vocab_model().len() >= 5,
        vocab_sub(*matcher, *old(aliases)),
        forall|i: int|
            0 <= i < pending@.len() ==> (#[trigger] pending@[i])@.len() <= MAX_WORD_LEN,
    ensures
        ({
            let st = advance_spec(
                old(aliases).model(),
                token@,
                from_split,
                pending.deep_view(),
                resolved.deep_view(),
            );
            &&& final(aliases).model() == st.0
            &&& vocab_sub(*matcher, *final(aliases))
            &&& if st.3 {
                r matches RState::Resolved { names } && names.deep_view() == st.1
            } else {
                r matches RState::AwaitingSecondary {
                    from_split: fs,
                    candidate,
                    shortlist2,
                    pending: pend,
                    resolved: res,
                } && fs == from_split && candidate@ == st.2.first() && pend.deep_view()
                    == st.2.drop_first() && res.deep_view() == st.1 && shortlist2@.len() == 2
                    && (forall|k: int|
                    0 <= k < 2 ==> matcher.vocab_model().contains(
                        (#[trigger] shortlist2@[k])@,
                    ))
            }
        }),
{
    let ghost am0 = old(aliases).model();
    let ghost pd = pending.deep_view();
    let ghost rd = resolved.deep_view();
    proof {
        crate::text::lemma_deep_view_strings(pending);
        crate::text::lemma_deep_view_strings(resolved);
        assert(pd.skip(0) =~= pd);
        assert(advance_spec(am0, token@, from_split, pd, rd) == advance_spec(
            aliases.model(),
            token@,
            from_split,
            pd.skip(0),
            resolved.deep_view(),
        ));
    }
    let mut res: Vec<String> = resolved;
    let n: usize = pending.len();
    for i in 0..n
        invariant
            n == pending@.len() && pd.len() == n,
            matcher.wf() && matcher.vocab_model().len() >= 5,
            vocab_sub(*matcher, *aliases),
            advance_spec(am0, token@, from_split, pd, rd) == advance_spec(
                aliases.model(),
                token@,
                from_split,
                pd.skip(i as int),
                res.deep_view(),
            ),
    {
        let ghost rest = pd.skip(i as int);
        proof {
            crate::text::lemma_deep_view_strings(res);
            assert(rest.first() == pd[i as int]);
            assert(rest.drop_first() =~= pd.skip(i + 1));
            assert(pd[i as int] == pending@[i as int]@);
        }
        let lc: Vec<char> = lower_chars_of(pending[i].as_str());
        let ls: String = string_of(&lc);
        let ghost am_b = aliases.model();
        let ghost res_b = res.deep_view();
        match aliases.lookup(ls.as_str()) {
            Some(canon) => {
                let ghost cn = canon@;
                proof {
                    assert(am_b.contains_key(lower_seq(pd[i as int])));
                    assert(am_b[lower_seq(pd[i as int])] == cn);
                }
                if !from_split {
                    aliases.insert(token.clone(), canon.clone());
                }
                res.push(canon);
                proof {
                    crate::text::lemma_deep_view_strings(res);
                    assert(res.deep_view() =~= res_b.push(cn));
                    assert(aliases.model() == if from_split {
                        am_b
                    } else {
                        am_b.insert(token@, cn)
                    });
                    assert(advance_spec(am_b, token@, from_split, rest, res_b) == advance_spec(
                        aliases.model(),
                        token@,
                        from_split,
                        pd.skip(i + 1),
                        res.deep_view(),
                    ));
                }
            },
            None => {
                match matcher.correct(pending[i].as_str()) {
                    Some(g) => {
                        proof {
                            let gi0 = choose|
                                a0: int,
                                a1: int,
                                a2: int,
                                a3: int,
                                a4: int,
                            |
                                matcher.shortlist_ok(
                                    lower_seq(pending@[i as int]@),
                                    g.deep_view(),
                                    a0,
                                    a1,
                                    a2,
                                    a3,
                                    a4,
                                );
                            crate::text::lemma_deep_view_strings(g);
                            assert(g.deep_view().len() == 5);
                            assert(g@.len() == 5);
                        }
                        let mut s2: Vec<String> = Vec::new();
                        s2.push(g[0].clone());
                        s2.push(g[1].clone());
                        let mut pend: Vec<String> = Vec::new();
                        for k in (i + 1)..n
                            invariant
                                i < n && n == pending@.len(),
                                pend@.len() == k - i - 1,
                                forall|l: int|
                                    0 <= l < pend@.len() ==> (#[trigger] pend@[l])@ == pd[i + 1
                                        + l],
                        {
                            pend.push(pending[k].clone());
                        }
                        proof {
                            crate::text::lemma_deep_view_strings(pend);
                            crate::text::lemma_deep_view_strings(res);
                            crate::text::lemma_deep_view_strings(s2);
                            assert(pend.deep_view() =~= rest.drop_first());
                            let gd = g.deep_view();
                            let gi = choose|
                                a0: int,
                                a1: int,
                                a2: int,
                                a3: int,
                                a4: int,
                            |
                                matcher.shortlist_ok(
                                    lower_seq(pending@[i as int]@),
                                    gd,
                                    a0,
                                    a1,
                                    a2,
                                    a3,
                                    a4,
                                );
                            assert(matcher.vocab_model().contains(gd[0]) && matcher.vocab_model()
                                .contains(gd[1])) by {
                                let (a0, a1, a2, a3, a4) = gi;
                                assert(matcher.vocab_model()[a0] == gd[0]);
                                assert(matcher.vocab_model()[a1] == gd[1]);
                            };
                            assert(s2@[0]@ == gd[0] && s2@[1]@ == gd[1]);
                        }
                        return RState::AwaitingSecondary {
                            from_split,
                            candidate: pending[i].clone(),
                            shortlist2: s2,
                            pending: pend,
                            resolved: res,
                        };
                    },
                    None => {
                        proof {
                            assert(matcher.vocab_model().contains(
                                lower_seq(pending@[i as int]@),
                            ));
                            assert(aliases.model().contains_key(lower_seq(pending@[i as int]@)));
                            assert(false);
                        }
                        return RState::Aborted;
                    },
                }
            },
        }
    }
    proof {
        assert(pd.skip(n as int) =~= Seq::<Seq<char>>::empty());
        crate::text::lemma_deep_view_strings(res);
    }
    RState::Resolved { names: res }
}

/// A processed candidate list that consumed at least one candidate outside a
/// split leaves the token bound in the alias table: the next occurrence of
/// the same token is answered from the table, with no prompt.
pub proof fn lemma_resolution_memoizes(
    am: Map<Seq<char>, Seq<char>>,
    token: Seq<char>,
    pending: Seq<Seq<char>>,
    resolved: Seq<Seq<char>>,
)
    requires
        pending.len() > 0,
        advance_spec(am, token, false, pending, resolved).3,
    ensures
        advance_spec(am, token, false, pending, resolved).0.contains_key(token),
    decreases pending.len(),
{
    let lc = lower_seq(pending.first());
    let am1 = am.insert(token, am[lc]);
    if pending.len() == 1 {
        assert(advance_spec(am1, token, false, pending.drop_first(), resolved.push(am[lc])).0
            == am1);
    } else {
        lemma_resolution_memoizes(
            am1,
            token,
            pending.drop_first(),
            resolved.push(am[lc]),
        );
    }
}

} // verus!

verus! {

/// Starts resolving one lowercase token: the negation marker passes through,
/// a discarded or single-character token resolves to nothing, a known token
/// resolves from the alias table with no prompt, and anything else needs the
/// operator, with the five suggestions of the fuzzy matcher.
#[verifier::loop_isolation(false)]
pub fn begin_token(
    aliases: &AliasTable,
    discard: &Vec<String>,
    matcher: &Autocorrecter,
    token: &str,
) -> (r: RState)
    requires
        matcher.wf(),
        matcher.vocab_model().len() >= 5,
        vocab_sub(*matcher, *aliases),
        lower_seq(token@) == token@,
        token@.len() <= MAX_WORD_LEN,
    ensures
        token@ == "not"@ ==> (r matches RState::Resolved { names } && names.deep_view() == seq![
            "not"@,
        ]),
        token@ != "not"@ && discard.deep_view().contains(token@) ==> (r
            matches RState::Resolved { names } && names.deep_view() == Seq::<Seq<char>>::empty()),
        token@ != "not"@ && !discard.deep_view().contains(token@) && token@.len() <= 1 ==> (r
            matches RState::Resolved { names } && names.deep_view() == Seq::<Seq<char>>::empty()),
        token@ != "not"@ && !discard.deep_view().contains(token@) && token@.len() > 1
            && aliases.model().contains_key(token@) ==> (r matches RState::Resolved { names }
            && names.deep_view() == seq![aliases.model()[token@]]),
        token@ != "not"@ && !discard.deep_view().contains(token@) && token@.len() > 1
            && !aliases.model().contains_key(token@) ==> (r matches RState::AwaitingPrimary {
            shortlist,
        } && shortlist@.len() == 5 && (forall|k: int|
            0 <= k < 5 ==> matcher.vocab_model().contains((#[trigger] shortlist@[k])@)
                && shortlist@[k]@.len() <= MAX_WORD_LEN)),
{
    proof {
        crate::text::lemma_deep_view_strings(*discard);
    }
    if str_eq_str(token, "not") {
        let mut names: Vec<String> = Vec::new();
        names.push(String::from_str("not"));
        proof {
            crate::text::lemma_deep_view_strings(names);
            assert(names.deep_view() =~= seq!["not"@]);
        }
        return RState::Resolved { names };
    }
    let dn: usize = discard.len();
    for k in 0..dn
        invariant
            dn == discard@.len(),
            forall|l: int| 0 <= l < k ==> (#[trigger] discard@[l])@ != token@,
    {
        if str_eq_str(discard[k].as_str(), token) {
            proof {
                assert(discard.deep_view()[k as int] == token@);
            }
            let names: Vec<String> = Vec::new();
            proof {
                crate::text::lemma_deep_view_strings(names);
                assert(names.deep_view() =~= Seq::<Seq<char>>::empty());
            }
            return RState::Resolved { names };
        }
    }
    proof {
        if discard.deep_view().contains(token@) {
            let l = choose|l: int|
                0 <= l < discard.deep_view().len() && discard.deep_view()[l] == token@;
            assert(discard@[l]@ == token@);
            assert(false);
        }
    }
    if token.unicode_len() <= 1 {
        let names: Vec<String> = Vec::new();
        proof {
            crate::text::lemma_deep_view_strings(names);
            assert(names.deep_view() =~= Seq::<Seq<char>>::empty());
        }
        return RState::Resolved { names };
    }
    match aliases.lookup(token) {
        Some(canon) => {
            let ghost cn = canon@;
            let mut names: Vec<String> = Vec::new();
            names.push(canon);
            proof {
                crate::text::lemma_deep_view_strings(names);
                assert(names.deep_view() =~= seq![cn]);
            }
            RState::Resolved { names }
        },
        None => {
            match matcher.correct(token) {
                Some(g) => {
                    proof {
                        let gi = choose|a0: int, a1: int, a2: int, a3: int, a4: int|
                            matcher.shortlist_ok(
                                lower_seq(token@),
                                g.deep_view(),
                                a0,
                                a1,
                                a2,
                                a3,
                                a4,
                            );
                        crate::text::lemma_deep_view_strings(g);
                        assert(g.deep_view().len() == 5);
                        let (a0, a1, a2, a3, a4) = gi;
                        assert(matcher.vocab_model()[a0] == g.deep_view()[0]);
                        assert(matcher.vocab_model()[a1] == g.deep_view()[1]);
                        assert(matcher.vocab_model()[a2] == g.deep_view()[2]);
                        assert(matcher.vocab_model()[a3] == g.deep_view()[3]);
                        assert(matcher.vocab_model()[a4] == g.deep_view()[4]);
                        assert(forall|k: int|
                            0 <= k < 5 ==> matcher.vocab_model().contains(
                                #[trigger] g.deep_view()[k],
                            ));
                        assert forall|k: int|
                            0 <= k < 5 implies matcher.vocab_model().contains(
                            (#[trigger] g@[k])@,
                        ) && g@[k]@.len() <= MAX_WORD_LEN by {
                            assert(g@[k]@ == g.deep_view()[k]);
                            assert(matcher.vocab_model().contains(g.deep_view()[k]));
                            let l = choose|l: int|
                                0 <= l < matcher.vocab_model().len() && matcher.vocab_model()[l]
                                    == g.deep_view()[k];
                            assert(matcher.vocab_model()[l].len() <= MAX_WORD_LEN);
                        };
                    }
                    RState::AwaitingPrimary { shortlist: g }
                },
                None => {
                    proof {
                        assert(matcher.vocab_model().contains(lower_seq(token@)));
                        assert(aliases.model().contains_key(token@));
                        assert(false);
                    }
                    RState::Aborted
                },
            }
        },
    }
}

/// Applies one primary-prompt decision for the token whose shortlist is
/// shown: abort, re-prompt, discard, bind a brand-new alias, or hand the
/// chosen correction candidates to candidate processing.
pub fn apply_primary(
    aliases: &mut AliasTable,
    discard: &mut Vec<String>,
    matcher: &Autocorrecter,
    token: &String,
    shortlist: &Vec<String>,
    cmd: PrimaryCmd,
) -> (r: RState)
    requires
        matcher.wf(),
        matcher.vocab_model().len() >= 5,
        vocab_sub(*matcher, *old(aliases)),
        shortlist@.len() == 5,
        forall|k: int| 0 <= k < 5 ==> (#[trigger] shortlist@[k])@.len() <= MAX_WORD_LEN,
        cmd matches PrimaryCmd::Pick(i) ==> 1 <= i <= 5,
        cmd matches PrimaryCmd::Manual(s) ==> s@.len() <= MAX_WORD_LEN,
        cmd matches PrimaryCmd::Split(a, b) ==> a@.len() <= MAX_WORD_LEN && b@.len()
            <= MAX_WORD_LEN,
    ensures
        vocab_sub(*matcher, *final(aliases)),
        cmd matches PrimaryCmd::Quit ==> r matches RState::Aborted && *final(aliases) == *old(aliases)
            && *final(discard) == *old(discard),
        cmd matches PrimaryCmd::Invalid ==> (r matches RState::AwaitingPrimary { shortlist: sl }
            && sl.deep_view() == shortlist.deep_view() && *final(aliases) == *old(aliases)
            && *final(discard) == *old(discard)),
        cmd matches PrimaryCmd::Discard ==> (r matches RState::Discarded && final(discard)@
            == old(discard)@.push(*token) && *final(aliases) == *old(aliases)),
        (cmd matches PrimaryCmd::NewName(s) ==> (r matches RState::Resolved { names }
            && names.deep_view() == seq![s@] && final(aliases).model() == old(
            aliases,
        ).model().insert(token@, s@))),
        (cmd matches PrimaryCmd::Pick(i) ==> ({
            let st = advance_spec(
                old(aliases).model(),
                token@,
                false,
                seq![shortlist@[i - 1]@],
                Seq::empty(),
            );
            final(aliases).model() == st.0 && (st.3 ==> (r matches RState::Resolved { names }
                && names.deep_view() == st.1))
        })),
        (cmd matches PrimaryCmd::Manual(s) ==> ({
            let st = advance_spec(old(aliases).model(), token@, false, seq![s@], Seq::empty());
            final(aliases).model() == st.0 && (st.3 ==> (r matches RState::Resolved { names }
                && names.deep_view() == st.1))
        })),
        (cmd matches PrimaryCmd::Split(a, b) ==> ({
            let st = advance_spec(
                old(aliases).model(),
                token@,
                true,
                seq![a@, b@],
                Seq::empty(),
            );
            final(aliases).model() == st.0 && (st.3 ==> (r matches RState::Resolved { names }
                && names.deep_view() == st.1))
        })),
{
    match cmd {
        PrimaryCmd::Quit => RState::Aborted,
        PrimaryCmd::Invalid => {
            let mut sl: Vec<String> = Vec::new();
            for k in 0..5usize
                invariant
                    shortlist@.len() == 5,
                    sl@.len() == k,
                    forall|l: int| 0 <= l < k ==> (#[trigger] sl@[l])@ == shortlist@[l]@,
            {
                sl.push(shortlist[k].clone());
            }
            proof {
                crate::text::lemma_deep_view_strings(sl);
                crate::text::lemma_deep_view_strings(*shortlist);
                assert(sl.deep_view() =~= shortlist.deep_view());
            }
            RState::AwaitingPrimary { shortlist: sl }
        },
        PrimaryCmd::Discard => {
            discard.push(token.clone());
            proof {
                assert(discard@ =~= old(discard)@.push(*token));
            }
            RState::Discarded
        },
        PrimaryCmd::NewName(s) => {
            let ghost sv = s@;
            aliases.insert(token.clone(), s.clone());
            let mut names: Vec<String> = Vec::new();
            names.push(s);
            proof {
                crate::text::lemma_deep_view_strings(names);
                assert(names.deep_view() =~= seq![sv]);
            }
            RState::Resolved { names }
        },
        PrimaryCmd::Pick(i) => {
            let mut pending: Vec<String> = Vec::new();
            pending.push(shortlist[i - 1].clone());
            let resolved0: Vec<String> = Vec::new();
            proof {
                crate::text::lemma_deep_view_strings(pending);
                crate::text::lemma_deep_view_strings(resolved0);
                assert(pending.deep_view() =~= seq![shortlist@[i - 1]@]);
                assert(resolved0.deep_view() =~= Seq::<Seq<char>>::empty());
            }
            advance_candidates(aliases, matcher, token, false, pending, resolved0)
        },
        PrimaryCmd::Manual(s) => {
            let ghost sv = s@;
            let mut pending: Vec<String> = Vec::new();
            pending.push(s);
            let resolved0: Vec<String> = Vec::new();
            proof {
                crate::text::lemma_deep_view_strings(pending);
                crate::text::lemma_deep_view_strings(resolved0);
                assert(pending.deep_view() =~= seq![sv]);
                assert(resolved0.deep_view() =~= Seq::<Seq<char>>::empty());
            }
            advance_candidates(aliases, matcher, token, false, pending, resolved0)
        },
        PrimaryCmd::Split(a, b) => {
            let ghost av = a@;
            let ghost bv = b@;
            let mut pending: Vec<String> = Vec::new();
            pending.push(a);
            pending.push(b);
            let resolved0: Vec<String> = Vec::new();
            proof {
                crate::text::lemma_deep_view_strings(pending);
                crate::text::lemma_deep_view_strings(resolved0);
                assert(pending.deep_view() =~= seq![av, bv]);
                assert(resolved0.deep_view() =~= Seq::<Seq<char>>::empty());
            }
            advance_candidates(aliases, matcher, token, true, pending, resolved0)
        },
    }
}

/// Applies one secondary-prompt decision: retry with a suggested or typed
/// replacement candidate, discard the token and go on with the remaining
/// candidates, or re-prompt.
pub fn apply_secondary(
    aliases: &mut AliasTable,
    discard: &mut Vec<String>,
    matcher: &Autocorrecter,
    token: &String,
    from_split: bool,
    candidate: &String,
    shortlist2: &Vec<String>,
    pending: Vec<String>,
    resolved: Vec<String>,
    cmd: SecondaryCmd,
) -> (r: RState)
    requires
        matcher.wf(),
        matcher.vocab_model().len() >= 5,
        vocab_sub(*matcher, *old(aliases)),
        shortlist2@.len() == 2,
        forall|k: int| 0 <= k < 2 ==> (#[trigger] shortlist2@[k])@.len() <= MAX_WORD_LEN,
        forall|i: int|
            0 <= i < pending@.len() ==> (#[trigger] pending@[i])@.len() <= MAX_WORD_LEN,
        cmd matches SecondaryCmd::Manual(s) ==> s@.len() <= MAX_WORD_LEN,
    ensures
        vocab_sub(*matcher, *final(aliases)),
        (cmd matches SecondaryCmd::PickFirst ==> ({
            let st = advance_spec(
                old(aliases).model(),
                token@,
                from_split,
                seq![shortlist2@[0]@] + pending.deep_view(),
                resolved.deep_view(),
            );
            final(aliases).model() == st.0 && (st.3 ==> (r matches RState::Resolved { names }
                && names.deep_view() == st.1))
        })),
        (cmd matches SecondaryCmd::PickSecond ==> ({
            let st = advance_spec(
                old(aliases).model(),
                token@,
                from_split,
                seq![shortlist2@[1]@] + pending.deep_view(),
                resolved.deep_view(),
            );
            final(aliases).model() == st.0 && (st.3 ==> (r matches RState::Resolved { names }
                && names.deep_view() == st.1))
        })),
        (cmd matches SecondaryCmd::Manual(s) ==> ({
            let st = advance_spec(
                old(aliases).model(),
                token@,
                from_split,
                seq![s@] + pending.deep_view(),
                resolved.deep_view(),
            );
            final(aliases).model() == st.0 && (st.3 ==> (r matches RState::Resolved { names }
                && names.deep_view() == st.1))
        })),
        (cmd matches SecondaryCmd::Invalid ==> *final(aliases) == *old(aliases) && *final(discard)
            == *old(discard) && (r matches RState::AwaitingSecondary {
            from_split: fs,
            candidate: c,
            shortlist2: s2,
            pending: pend,
            resolved: res,
        } && fs == from_split && c@ == candidate@ && s2.deep_view() == shortlist2.deep_view()
            && pend@ == pending@ && res@ == resolved@)),
        (cmd matches SecondaryCmd::DiscardToken ==> final(discard)@ == old(discard)@.push(*token)
            && ({
            let st = advance_spec(
                old(aliases).model(),
                token@,
                from_split,
                pending.deep_view(),
                resolved.deep_view(),
            );
            final(aliases).model() == st.0 && (st.3 ==> (r matches RState::Resolved { names }
                && names.deep_view() == st.1))
        })),
{
    proof {
        crate::text::lemma_deep_view_strings(pending);
    }
    match cmd {
        SecondaryCmd::PickFirst => {
            retry_with(aliases, matcher, token, from_split, shortlist2[0].clone(), pending, resolved)
        },
        SecondaryCmd::PickSecond => {
            retry_with(aliases, matcher, token, from_split, shortlist2[1].clone(), pending, resolved)
        },
        SecondaryCmd::Manual(s) => {
            retry_with(aliases, matcher, token, from_split, s, pending, resolved)
        },
        SecondaryCmd::DiscardToken => {
            discard.push(token.clone());
            proof {
                assert(discard@ =~= old(discard)@.push(*token));
            }
            advance_candidates(aliases, matcher, token, from_split, pending, resolved)
        },
        SecondaryCmd::Invalid => {
            let mut s2: Vec<String> = Vec::new();
            s2.push(shortlist2[0].clone());
            s2.push(shortlist2[1].clone());
            RState::AwaitingSecondary {
                from_split,
                candidate: candidate.clone(),
                shortlist2: s2,
                pending,
                resolved,
            }
        },
    }
}

/// Puts a replacement candidate at the front of the pending list and goes on
/// processing.
fn retry_with(
    aliases: &mut AliasTable,
    matcher: &Autocorrecter,
    token: &String,
    from_split: bool,
    candidate: String,
    pending: Vec<String>,
    resolved: Vec<String>,
) -> (r: RState)
    requires
        matcher.wf(),
        matcher.vocab_model().len() >= 5,
        vocab_sub(*matcher, *old(aliases)),
        candidate@.len() <= MAX_WORD_LEN,
        forall|i: int|
            0 <= i < pending@.len() ==> (#[trigger] pending@[i])@.len() <= MAX_WORD_LEN,
    ensures
        vocab_sub(*matcher, *final(aliases)),
        ({
            let st = advance_spec(
                old(aliases).model(),
                token@,
                from_split,
                seq![candidate@] + pending.deep_view(),
                resolved.deep_view(),
            );
            final(aliases).model() == st.0 && (st.3 ==> (r matches RState::Resolved { names }
                && names.deep_view() == st.1))
        }),
{
    let ghost cv = candidate@;
    let mut pend: Vec<String> = Vec::new();
    pend.push(candidate);
    let pn: usize = pending.len();
    proof {
        crate::text::lemma_deep_view_strings(pending);
    }
    for k in 0..pn
        invariant
            pn == pending@.len(),
            pend@.len() == k + 1,
            pend@[0]@ == cv,
            forall|l: int| 1 <= l < pend@.len() ==> (#[trigger] pend@[l])@ == pending@[l - 1]@,
    {
        pend.push(pending[k].clone());
    }
    proof {
        crate::text::lemma_deep_view_strings(pend);
        assert(pend.deep_view() =~= seq![cv] + pending.deep_view());
        assert forall|i: int|
            0 <= i < pend@.len() implies (#[trigger] pend@[i])@.len() <= MAX_WORD_LEN by {
            if i > 0 {
                assert(pend@[i]@ == pending@[i - 1]@);
            }
        };
    }
    advance_candidates(aliases, matcher, token, from_split, pend, resolved)
}

} // verus!
