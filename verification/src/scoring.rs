use vstd::prelude::*;

use crate::text::{
    all_digits, chars_of, contains_chars, contains_seq, digit_val, digits_val, digits_val_sat,
    copy_range, digit_val_exec, eq_chars, is_digit, is_digit_exec, lemma_digits_val_nonneg,
    str_eq_chars, LEVEL_CAP,
};

verus! {

/// Largest magnitude a configured point value (or tier threshold) may have.
/// Keeping configured values inside this bound keeps every score computation
/// far away from machine overflow.
pub const MAX_RULE_VALUE: i64 = 1_000_000_000;

/// One tier of a tier-family rule: the minimum level at which it applies and
/// the values awarded at the two star grades.
#[derive(Clone, Copy, PartialEq, Eq, Structural, Debug)]
pub struct Tier {
    pub level: i64,
    pub at5: i64,
    pub at6: i64,
}

/// A scoring rule as handed in by the configuration collaborator.
#[derive(Debug)]
pub enum RawRule {
    /// A fixed value for one event key.
    Flat(i64),
    /// A ring family: per-unit values keyed by star-grade label ("5" or "6").
    Rings(Vec<(String, i64)>),
    /// A tier family, consulted in the stored order.
    Tiers(Vec<Tier>),
}

#[derive(Clone, Copy, PartialEq, Eq, Structural, Debug)]
pub enum ConfigError {
    /// Two catalog entries share a key.
    DuplicateKey,
    /// A configured value or threshold lies outside the accepted range.
    ValueOutOfRange,
    /// A ring family lacks a per-unit value for label "5" or "6".
    RingShapeIncomplete,
    /// A second ring family or a second tier family was given.
    DuplicateFamily,
}

pub struct FlatEntry {
    pub key: Vec<char>,
    pub value: i64,
}

/// The indexed catalog: flat-value entries in their given order, at most one
/// ring family and at most one tier family.
pub struct Catalog {
    flats: Vec<FlatEntry>,
    ring: Option<(i64, i64)>,
    tiers: Option<Vec<Tier>>,
}

pub open spec fn value_in_range(v: int) -> bool {
    -MAX_RULE_VALUE <= v <= MAX_RULE_VALUE
}

pub open spec fn tier_in_range(t: Tier) -> bool {
    value_in_range(t.level as int) && value_in_range(t.at5 as int) && value_in_range(t.at6 as int)
}

/// The per-unit value a ring map gives for a one-character label, taking the
/// first matching entry.
pub open spec fn find_label(m: Seq<(String, i64)>, c: char) -> Option<i64>
    decreases m.len(),
{
    if m.len() == 0 {
        None
    } else if m.first().0@ == seq![c] {
        Some(m.first().1)
    } else {
        find_label(m.drop_first(), c)
    }
}

/// Whether one catalog entry is acceptable given which families were already
/// seen; mirrors the order in which `Catalog::build` checks an entry.
pub open spec fn entry_error(
    rule: RawRule,
    have_ring: bool,
    have_tiers: bool,
) -> Option<ConfigError> {
    match rule {
        RawRule::Flat(v) => if !value_in_range(v as int) {
            Some(ConfigError::ValueOutOfRange)
        } else {
            None
        },
        RawRule::Rings(m) => if have_ring {
            Some(ConfigError::DuplicateFamily)
        } else {
            match (find_label(m@, '5'), find_label(m@, '6')) {
                (Some(p5), Some(p6)) => if !value_in_range(p5 as int) || !value_in_range(
                    p6 as int,
                ) {
                    Some(ConfigError::ValueOutOfRange)
                } else {
                    None
                },
                _ => Some(ConfigError::RingShapeIncomplete),
            }
        },
        RawRule::Tiers(ts) => if have_tiers {
            Some(ConfigError::DuplicateFamily)
        } else if exists|i: int| 0 <= i < ts@.len() && !tier_in_range(#[trigger] ts@[i]) {
            Some(ConfigError::ValueOutOfRange)
        } else {
            None
        },
    }
}

/// The first configuration error found when the entries are scanned in order,
/// starting from the given already-seen state.
pub open spec fn build_scan(
    input: Seq<(String, RawRule)>,
    seen: Seq<Seq<char>>,
    have_ring: bool,
    have_tiers: bool,
) -> Option<ConfigError>
    decreases input.len(),
{
    if input.len() == 0 {
        None
    } else {
        let key = input.first().0@;
        let rule = input.first().1;
        if seen.contains(key) {
            Some(ConfigError::DuplicateKey)
        } else {
            match entry_error(rule, have_ring, have_tiers) {
                Some(e) => Some(e),
                None => build_scan(
                    input.drop_first(),
                    seen.push(key),
                    have_ring || rule is Rings,
                    have_tiers || rule is Tiers,
                ),
            }
        }
    }
}

/// The first error in a full scan of the input, if any.
pub open spec fn build_error(input: Seq<(String, RawRule)>) -> Option<ConfigError> {
    build_scan(input, Seq::empty(), false, false)
}

/// The flat entries of the input, as (key, value) pairs in order.
pub open spec fn input_flats(input: Seq<(String, RawRule)>) -> Seq<(Seq<char>, i64)>
    decreases input.len(),
{
    if input.len() == 0 {
        Seq::empty()
    } else {
        let rest = input_flats(input.drop_first());
        match input.first().1 {
            RawRule::Flat(v) => seq![(input.first().0@, v)] + rest,
            _ => rest,
        }
    }
}

/// The first ring family of the input, resolved to its two per-unit values.
pub open spec fn input_ring(input: Seq<(String, RawRule)>) -> Option<(i64, i64)>
    decreases input.len(),
{
    if input.len() == 0 {
        None
    } else {
        match input.first().1 {
            RawRule::Rings(m) => match (find_label(m@, '5'), find_label(m@, '6')) {
                (Some(p5), Some(p6)) => Some((p5, p6)),
                _ => input_ring(input.drop_first()),
            },
            _ => input_ring(input.drop_first()),
        }
    }
}

/// The first tier family of the input.
pub open spec fn input_tiers(input: Seq<(String, RawRule)>) -> Option<Seq<Tier>>
    decreases input.len(),
{
    if input.len() == 0 {
        None
    } else {
        match input.first().1 {
            RawRule::Tiers(ts) => Some(ts@),
            _ => input_tiers(input.drop_first()),
        }
    }
}

impl Catalog {
    /// The flat entries as (key characters, value) pairs.
    pub closed spec fn flats_model(self) -> Seq<(Seq<char>, i64)> {
        self.flats@.map_values(|e: FlatEntry| (e.key@, e.value))
    }

    pub closed spec fn ring_model(self) -> Option<(i64, i64)> {
        self.ring
    }

    pub closed spec fn tiers_model(self) -> Option<Seq<Tier>> {
        match self.tiers {
            Some(ts) => Some(ts@),
            None => None,
        }
    }

    /// Every stored value is in range and the flat keys are distinct.
    pub closed spec fn wf(self) -> bool {
        &&& forall|i: int|
            0 <= i < self.flats@.len() ==> value_in_range(#[trigger] self.flats@[i].value as int)
        &&& forall|i: int, j: int|
            0 <= i < j < self.flats@.len() ==> self.flats@[i].key@ != self.flats@[j].key@
        &&& match self.ring {
            Some((p5, p6)) => value_in_range(p5 as int) && value_in_range(p6 as int),
            None => true,
        }
        &&& match self.tiers {
            Some(ts) => forall|i: int| 0 <= i < ts@.len() ==> tier_in_range(#[trigger] ts@[i]),
            None => true,
        }
    }

    /// Builds the catalog index from raw configuration entries.
    ///
    /// Succeeds exactly when the scan of the entries finds no error: no
    /// duplicate key, every value in range, each ring family complete, and at
    /// most one family of each kind.
    #[verifier::loop_isolation(false)]
    pub fn build(input: &Vec<(String, RawRule)>) -> (r: Result<Catalog, ConfigError>)
        ensures
            match r {
                Ok(c) => {
                    &&& build_error(input@) is None
                    &&& c.wf()
                    &&& c.flats_model() == input_flats(input@)
                    &&& c.ring_model() == input_ring(input@)
                    &&& c.tiers_model() == input_tiers(input@)
                },
                Err(e) => build_error(input@) == Some(e),
            },
    {
        let mut flats: Vec<FlatEntry> = Vec::new();
        let mut ring: Option<(i64, i64)> = None;
        let mut tiers: Option<Vec<Tier>> = None;
        let mut all_keys: Vec<Vec<char>> = Vec::new();
        let n: usize = input.len();
        proof {
            assert(input@.skip(0) =~= input@);
            assert(all_keys@.map_values(|k: Vec<char>| k@) =~= Seq::<Seq<char>>::empty());
            assert(flats@.map_values(|e: FlatEntry| (e.key@, e.value)) =~= Seq::<(
                Seq<char>,
                i64,
            )>::empty());
        }
        for idx in 0..n
            invariant
                n == input@.len(),
                build_error(input@) == build_scan(
                    input@.skip(idx as int),
                    all_keys@.map_values(|k: Vec<char>| k@),
                    ring is Some,
                    tiers is Some,
                ),
                input_flats(input@) == flats@.map_values(|e: FlatEntry| (e.key@, e.value))
                    + input_flats(input@.skip(idx as int)),
                input_ring(input@) == if ring is Some {
                    ring
                } else {
                    input_ring(input@.skip(idx as int))
                },
                input_tiers(input@) == match tiers {
                    Some(ts) => Some(ts@),
                    None => input_tiers(input@.skip(idx as int)),
                },
                forall|i: int|
                    0 <= i < flats@.len() ==> value_in_range(#[trigger] flats@[i].value as int),
                forall|i: int, j: int|
                    0 <= i < j < flats@.len() ==> flats@[i].key@ != flats@[j].key@,
                match ring {
                    Some((p5, p6)) => value_in_range(p5 as int) && value_in_range(p6 as int),
                    None => true,
                },
                match tiers {
                    Some(ts) => forall|i: int|
                        0 <= i < ts@.len() ==> tier_in_range(#[trigger] ts@[i]),
                    None => true,
                },
                forall|i: int|
                    0 <= i < flats@.len() ==> all_keys@.map_values(|k: Vec<char>| k@).contains(
                        #[trigger] flats@[i].key@,
                    ),
        {
            let ghost rest = input@.skip(idx as int);
            let ghost seen0 = all_keys@.map_values(|k: Vec<char>| k@);
            let ghost ring0 = ring is Some;
            let ghost tiers0 = tiers is Some;
            proof {
                assert(rest.first() == input@[idx as int]);
                assert(rest.drop_first() =~= input@.skip(idx + 1));
            }
            let key: Vec<char> = chars_of(input[idx].0.as_str());
            let mut dup: bool = false;
            let m: usize = all_keys.len();
            for j in 0..m
                invariant
                    m == all_keys@.len(),
                    (idx as int) < input@.len(),
                    key@ == input@[idx as int].0@,
                    dup <==> exists|k: int| 0 <= k < j && all_keys@[k]@ == key@,
            {
                if eq_chars(&all_keys[j], &key) {
                    dup = true;
                }
            }
            proof {
                assert(dup <==> seen0.contains(key@)) by {
                    if dup {
                        let k = choose|k: int| 0 <= k < m && all_keys@[k]@ == key@;
                        assert(seen0[k] == key@);
                    }
                    if seen0.contains(key@) {
                        let k = choose|k: int| 0 <= k < seen0.len() && #[trigger] seen0[k] == key@;
                        assert(all_keys@[k]@ == key@);
                        assert(dup);
                    }
                };
            }
            if dup {
                proof {
                    assert(build_scan(rest, seen0, ring0, tiers0) == Some(
                        ConfigError::DuplicateKey,
                    ));
                }
                return Err(ConfigError::DuplicateKey);
            }
            let ghost cur_rule = input@[idx as int].1;
            match &input[idx].1 {
                RawRule::Flat(v) => {
                    if *v < -MAX_RULE_VALUE || *v > MAX_RULE_VALUE {
                        proof {
                            assert(entry_error(cur_rule, ring0, tiers0) == Some(
                                ConfigError::ValueOutOfRange,
                            ));
                        }
                        return Err(ConfigError::ValueOutOfRange);
                    }
                    flats.push(FlatEntry { key: key.clone(), value: *v });
                    proof {
                        assert(entry_error(cur_rule, ring0, tiers0) is None);
                        assert(flats@.map_values(|e: FlatEntry| (e.key@, e.value))
                            =~= flats@.drop_last().map_values(|e: FlatEntry| (e.key@, e.value))
                            + seq![(key@, *v)]);
                    }
                },
                RawRule::Rings(rm) => {
                    if ring.is_some() {
                        proof {
                            assert(entry_error(cur_rule, ring0, tiers0) == Some(
                                ConfigError::DuplicateFamily,
                            ));
                        }
                        return Err(ConfigError::DuplicateFamily);
                    }
                    let p5: Option<i64> = ring_label(rm, '5');
                    let p6: Option<i64> = ring_label(rm, '6');
                    match (p5, p6) {
                        (Some(a), Some(b)) => {
                            if a < -MAX_RULE_VALUE || a > MAX_RULE_VALUE || b < -MAX_RULE_VALUE
                                || b > MAX_RULE_VALUE {
                                proof {
                                    assert(entry_error(cur_rule, ring0, tiers0) == Some(
                                        ConfigError::ValueOutOfRange,
                                    ));
                                }
                                return Err(ConfigError::ValueOutOfRange);
                            }
                            ring = Some((a, b));
                            proof {
                                assert(entry_error(cur_rule, ring0, tiers0) is None);
                            }
                        },
                        _ => {
                            proof {
                                assert(entry_error(cur_rule, ring0, tiers0) == Some(
                                    ConfigError::RingShapeIncomplete,
                                ));
                            }
                            return Err(ConfigError::RingShapeIncomplete);
                        },
                    }
                },
                RawRule::Tiers(ts) => {
                    if tiers.is_some() {
                        proof {
                            assert(entry_error(cur_rule, ring0, tiers0) == Some(
                                ConfigError::DuplicateFamily,
                            ));
                        }
                        return Err(ConfigError::DuplicateFamily);
                    }
                    let mut copy: Vec<Tier> = Vec::new();
                    let tn: usize = ts.len();
                    for j in 0..tn
                        invariant
                            tn == ts@.len(),
                            copy@ =~= ts@.subrange(0, j as int),
                            forall|k: int| 0 <= k < j ==> tier_in_range(#[trigger] ts@[k]),
                    {
                        let t: Tier = ts[j];
                        if t.level < -MAX_RULE_VALUE || t.level > MAX_RULE_VALUE || t.at5
                            < -MAX_RULE_VALUE || t.at5 > MAX_RULE_VALUE || t.at6 < -MAX_RULE_VALUE
                            || t.at6 > MAX_RULE_VALUE {
                            proof {
                                assert(!tier_in_range(ts@[j as int]));
                                assert(cur_rule is Tiers && cur_rule->Tiers_0@ == ts@);
                                assert(entry_error(cur_rule, ring0, tiers0) == Some(
                                    ConfigError::ValueOutOfRange,
                                ));
                            }
                            return Err(ConfigError::ValueOutOfRange);
                        }
                        copy.push(t);
                        proof {
                            assert(copy@ =~= ts@.subrange(0, j + 1));
                        }
                    }
                    proof {
                        assert(copy@ =~= ts@);
                        assert(forall|k: int| 0 <= k < ts@.len() ==> tier_in_range(#[trigger] ts@[k]));
                        assert(entry_error(cur_rule, ring0, tiers0) is None);
                    }
                    tiers = Some(copy);
                },
            }
            all_keys.push(key);
            proof {
                assert(all_keys@.map_values(|k: Vec<char>| k@) =~= seen0.push(key@));
                assert(build_scan(rest, seen0, ring0, tiers0) == build_scan(
                    input@.skip(idx + 1),
                    seen0.push(key@),
                    ring is Some,
                    tiers is Some,
                ));
                assert forall|i: int| 0 <= i < flats@.len() implies all_keys@.map_values(
                    |k: Vec<char>| k@,
                ).contains(#[trigger] flats@[i].key@) by {
                    let mapped = all_keys@.map_values(|k: Vec<char>| k@);
                    if flats@[i].key@ == key@ {
                        assert(mapped[mapped.len() - 1] == key@);
                    } else {
                        assert(seen0.contains(flats@[i].key@));
                        let k = choose|k: int|
                            0 <= k < seen0.len() && #[trigger] seen0[k] == flats@[i].key@;
                        assert(mapped[k] == flats@[i].key@);
                    }
                };
            }
        }
        proof {
            assert(input@.skip(n as int) =~= Seq::<(String, RawRule)>::empty());
            assert(input_flats(input@) =~= flats@.map_values(|e: FlatEntry| (e.key@, e.value)));
        }
        Ok(Catalog { flats, ring, tiers })
    }
}

/// Finds the per-unit value stored under a one-character star label.
fn ring_label(m: &Vec<(String, i64)>, c: char) -> (r: Option<i64>)
    ensures
        r == find_label(m@, c),
{
    let n: usize = m.len();
    proof {
        assert(m@.skip(0) =~= m@);
    }
    for i in 0..n
        invariant
            n == m@.len(),
            find_label(m@, c) == find_label(m@.skip(i as int), c),
    {
        proof {
            assert(m@.skip(i as int).first() == m@[i as int]);
            assert(m@.skip(i as int).drop_first() =~= m@.skip(i + 1));
        }
        let lab: &String = &m[i].0;
        if lab.as_str().unicode_len() == 1 && lab.as_str().get_char(0) == c {
            proof {
                assert(m@[i as int].0@ =~= seq![c]);
            }
            return Some(m[i].1);
        }
        proof {
            if m@[i as int].0@ == seq![c] {
                assert(m@[i as int].0@.len() == 1);
                assert(m@[i as int].0@[0] == c);
                assert(false);
            }
        }
    }
    proof {
        assert(m@.skip(n as int) =~= Seq::<(String, i64)>::empty());
    }
    None
}

} // verus!

verus! {

#[derive(Clone, Copy, PartialEq, Eq, Structural, Debug)]
pub enum PatternError {
    /// A catalog key holds a parenthesis, which the token grammar reserves
    /// for the modifier suffix.
    UnsafeKey,
}

/// The composite matching pattern: the literal flat-value keys, compiled once
/// from the catalog. The family shapes and the modifier suffix are fixed
/// parts of the grammar.
pub struct CompositePattern {
    keys: Vec<Vec<char>>,
}

pub open spec fn paren_free(s: Seq<char>) -> bool {
    forall|i: int| 0 <= i < s.len() ==> #[trigger] s[i] != '(' && s[i] != ')'
}

impl Catalog {
    /// The flat keys, in stored order.
    pub open spec fn flat_keys(self) -> Seq<Seq<char>> {
        self.flats_model().map_values(|p: (Seq<char>, i64)| p.0)
    }
}

impl CompositePattern {
    pub closed spec fn keys_model(self) -> Seq<Seq<char>> {
        self.keys@.map_values(|k: Vec<char>| k@)
    }

    /// The pattern lists exactly the catalog's flat keys, in order.
    pub open spec fn consistent(self, cat: Catalog) -> bool {
        self.keys_model() == cat.flat_keys()
    }

    /// Compiles the composite pattern from a built catalog.
    ///
    /// Fails exactly when some flat key holds a parenthesis: such a key could
    /// never be told apart from the modifier suffix.
    #[verifier::loop_isolation(false)]
    pub fn compile(cat: &Catalog) -> (r: Result<CompositePattern, PatternError>)
        ensures
            match r {
                Ok(p) => p.consistent(*cat) && forall|i: int|
                    0 <= i < cat.flat_keys().len() ==> paren_free(#[trigger] cat.flat_keys()[i]),
                Err(e) => e == PatternError::UnsafeKey && exists|i: int|
                    0 <= i < cat.flat_keys().len() && !paren_free(#[trigger] cat.flat_keys()[i]),
            },
    {
        let mut keys: Vec<Vec<char>> = Vec::new();
        let n: usize = cat.flats.len();
        for i in 0..n
            invariant
                n == cat.flats@.len(),
                keys@.len() == i,
                forall|j: int| 0 <= j < i ==> keys@[j]@ == cat.flat_keys()[j],
                forall|j: int| 0 <= j < i ==> paren_free(#[trigger] cat.flat_keys()[j]),
        {
            let key: &Vec<char> = &cat.flats[i].key;
            let m: usize = key.len();
            for j in 0..m
                invariant
                    m == key@.len(),
                    forall|k: int| 0 <= k < j ==> #[trigger] key@[k] != '(' && key@[k] != ')',
            {
                let c: char = key[j];
                if c == '(' || c == ')' {
                    proof {
                        assert(cat.flat_keys()[i as int] == key@);
                        assert(!paren_free(key@));
                    }
                    return Err(PatternError::UnsafeKey);
                }
            }
            proof {
                assert(cat.flat_keys()[i as int] == key@);
                assert(paren_free(key@));
            }
            keys.push(key.clone());
        }
        let p = CompositePattern { keys };
        proof {
            assert(p.keys_model() =~= cat.flat_keys());
        }
        Ok(p)
    }
}

/// The index of the first opening parenthesis, if any.
pub open spec fn first_open(s: Seq<char>) -> Option<int>
    decreases s.len(),
{
    if s.len() == 0 {
        None
    } else if s[0] == '(' {
        Some(0)
    } else {
        match first_open(s.drop_first()) {
            Some(i) => Some(i + 1),
            None => None,
        }
    }
}

pub proof fn lemma_first_open(s: Seq<char>)
    ensures
        match first_open(s) {
            Some(i) => 0 <= i < s.len() && s[i] == '(' && forall|j: int|
                0 <= j < i ==> #[trigger] s[j] != '(',
            None => forall|j: int| 0 <= j < s.len() ==> #[trigger] s[j] != '(',
        },
    decreases s.len(),
{
    if s.len() > 0 && s[0] != '(' {
        lemma_first_open(s.drop_first());
        match first_open(s.drop_first()) {
            Some(i) => {
                assert(s.drop_first()[i] == s[i + 1]);
                assert forall|j: int| 0 <= j < i + 1 implies #[trigger] s[j] != '(' by {
                    if j > 0 {
                        assert(s.drop_first()[j - 1] == s[j]);
                    }
                };
            },
            None => {
                assert forall|j: int| 0 <= j < s.len() implies #[trigger] s[j] != '(' by {
                    if j > 0 {
                        assert(s.drop_first()[j - 1] == s[j]);
                    }
                };
            },
        }
    }
}

/// The base identifier of a token: everything before the first parenthesis.
pub open spec fn token_base(token: Seq<char>) -> Seq<char> {
    match first_open(token) {
        None => token,
        Some(i) => token.subrange(0, i),
    }
}

/// The rest of a token from the first parenthesis on; empty when the token
/// has none.
pub open spec fn token_rest(token: Seq<char>) -> Seq<char> {
    match first_open(token) {
        None => Seq::empty(),
        Some(i) => token.subrange(i, token.len() as int),
    }
}

/// What a recognized modifier does to the base value.
#[derive(Clone, Copy, PartialEq, Eq, Structural, Debug)]
pub enum ModKind {
    /// Adds a fixed bonus.
    Bonus,
    /// Doubles the value.
    Double,
    /// Halves the value, rounding halves up.
    Half,
    /// Gates the match on the priority list.
    Cond,
}

/// The effect of a modifier name, or None for an unrecognized name.
pub open spec fn mod_kind(m: Seq<char>) -> Option<ModKind> {
    if m == "brucybonus"@ {
        Some(ModKind::Bonus)
    } else if m == "double"@ || m == "doublepoints"@ || m == "multiplier"@ {
        Some(ModKind::Double)
    } else if m == "fail"@ || m == "penalty"@ {
        Some(ModKind::Half)
    } else if m == "comp"@ || m == "conditional"@ {
        Some(ModKind::Cond)
    } else {
        None
    }
}

/// Whether a rest of the shape `(<modifier>)` carries a recognized modifier.
pub open spec fn rest_kind(rest: Seq<char>) -> Option<ModKind> {
    if rest.len() >= 2 && rest.last() == ')' {
        mod_kind(rest.subrange(1, rest.len() - 1))
    } else {
        None
    }
}

/// The first flat entry stored under the key, if any.
pub open spec fn flat_lookup(flats: Seq<(Seq<char>, i64)>, key: Seq<char>) -> Option<i64>
    decreases flats.len(),
{
    if flats.len() == 0 {
        None
    } else if flats.first().0 == key {
        Some(flats.first().1)
    } else {
        flat_lookup(flats.drop_first(), key)
    }
}

/// The shape `ring<digit 1-4>x<5|6>`.
pub open spec fn is_ring_shape(s: Seq<char>) -> bool {
    s.len() == 7 && s[0] == 'r' && s[1] == 'i' && s[2] == 'n' && s[3] == 'g' && '1' <= s[4]
        && s[4] <= '4' && s[5] == 'x' && (s[6] == '5' || s[6] == '6')
}

/// The shape `tier<digits>.<5|6>` with at least one digit.
pub open spec fn is_tier_shape(s: Seq<char>) -> bool {
    s.len() >= 7 && s[0] == 't' && s[1] == 'i' && s[2] == 'e' && s[3] == 'r' && s[s.len() - 2]
        == '.' && (s.last() == '5' || s.last() == '6') && all_digits(
        s.subrange(4, s.len() - 2),
    )
}

/// The level asked for by a tier-shaped token.
pub open spec fn tier_level(s: Seq<char>) -> int {
    digits_val(s.subrange(4, s.len() - 2))
}

/// The shape `root<digits?>`.
pub open spec fn is_root_shape(s: Seq<char>) -> bool {
    s.len() >= 4 && s[0] == 'r' && s[1] == 'o' && s[2] == 'o' && s[3] == 't' && all_digits(
        s.skip(4),
    )
}

/// The first tier whose minimum level is at or below the asked level,
/// scanning in stored order.
pub open spec fn tier_pick(ts: Seq<Tier>, level: int) -> Option<Tier>
    decreases ts.len(),
{
    if ts.len() == 0 {
        None
    } else if ts.first().level <= level {
        Some(ts.first())
    } else {
        tier_pick(ts.drop_first(), level)
    }
}

/// The fixed value of the wildcard-count family.
pub const ROOT_VALUE: i64 = 4;

/// The fixed bonus the bonus modifier adds.
pub const BONUS_VALUE: i64 = 5;

/// Every score the engine can produce fits well inside this bound.
pub const MAX_SCORE: i64 = 16_000_000_000;

/// The value of a bare identifier under the catalog: flat keys first, then
/// the ring, tier and wildcard-count shapes.
pub open spec fn base_value(cat: Catalog, base: Seq<char>) -> Option<int> {
    match flat_lookup(cat.flats_model(), base) {
        Some(v) => Some(v as int),
        None => if is_ring_shape(base) {
            match cat.ring_model() {
                Some((p5, p6)) => Some(
                    (if base[6] == '5' {
                        p5 as int
                    } else {
                        p6 as int
                    }) * digit_val(base[4]),
                ),
                None => None,
            }
        } else if is_tier_shape(base) {
            match cat.tiers_model() {
                Some(ts) => match tier_pick(ts, tier_level(base)) {
                    Some(t) => Some(
                        if base.last() == '5' {
                            t.at5 as int
                        } else {
                            t.at6 as int
                        },
                    ),
                    None => None,
                },
                None => None,
            }
        } else if is_root_shape(base) {
            Some(ROOT_VALUE as int)
        } else {
            None
        },
    }
}

/// Whether some priority entry occurs in the base identifier.
pub open spec fn has_prio(base: Seq<char>, prios: Seq<Seq<char>>) -> bool {
    exists|i: int| 0 <= i < prios.len() && contains_seq(base, #[trigger] prios[i])
}

/// The score of one raw event token: the whole scoring rule engine as one
/// function of the token, the catalog and the priority list.
pub open spec fn score_spec(cat: Catalog, token: Seq<char>, prios: Seq<Seq<char>>) -> Option<
    int,
> {
    let base = token_base(token);
    let rest = token_rest(token);
    if rest.len() > 0 && rest_kind(rest) is None {
        None
    } else if rest_kind(rest) == Some(ModKind::Cond) && !has_prio(base, prios) {
        None
    } else {
        match base_value(cat, base) {
            None => None,
            Some(v) => match rest_kind(rest) {
                None => Some(v),
                Some(ModKind::Bonus) => Some(v + BONUS_VALUE),
                Some(ModKind::Double) => Some(2 * v),
                Some(ModKind::Half) => Some((v + 1) / 2),
                Some(ModKind::Cond) => Some(v),
            },
        }
    }
}

} // verus!

verus! {

/// Ceiling of half the value: `(v + 1) / 2` with division rounding toward
/// negative infinity, which rounds halves up for every integer.
pub fn half_round_up(v: i64) -> (r: i64)
    requires
        v < i64::MAX,
    ensures
        r == (v + 1) / 2,
{
    let w: i64 = v + 1;
    if w >= 0 {
        w / 2
    } else if w % 2 == 0 {
        w / 2
    } else {
        w / 2 - 1
    }
}

pub(crate) fn classify_mod(m: &Vec<char>) -> (r: Option<ModKind>)
    ensures
        r == mod_kind(m@),
{
    if str_eq_chars("brucybonus", m) {
        Some(ModKind::Bonus)
    } else if str_eq_chars("double", m) || str_eq_chars("doublepoints", m) || str_eq_chars(
        "multiplier",
        m,
    ) {
        Some(ModKind::Double)
    } else if str_eq_chars("fail", m) || str_eq_chars("penalty", m) {
        Some(ModKind::Half)
    } else if str_eq_chars("comp", m) || str_eq_chars("conditional", m) {
        Some(ModKind::Cond)
    } else {
        None
    }
}

/// Picking a tier compares the asked level only against thresholds inside the
/// configured range, so any two levels at or above that range pick alike.
proof fn lemma_tier_pick_high(ts: Seq<Tier>, a: int, b: int)
    requires
        forall|i: int| 0 <= i < ts.len() ==> tier_in_range(#[trigger] ts[i]),
        a == b || (a >= MAX_RULE_VALUE && b >= MAX_RULE_VALUE),
    ensures
        tier_pick(ts, a) == tier_pick(ts, b),
    decreases ts.len(),
{
    if ts.len() > 0 {
        assert(tier_in_range(ts[0]));
        lemma_tier_pick_high(ts.drop_first(), a, b);
    }
}

proof fn lemma_tier_pick_in(ts: Seq<Tier>, level: int)
    ensures
        match tier_pick(ts, level) {
            Some(t) => ts.contains(t),
            None => true,
        },
    decreases ts.len(),
{
    if ts.len() > 0 && !(ts.first().level <= level) {
        lemma_tier_pick_in(ts.drop_first(), level);
        match tier_pick(ts.drop_first(), level) {
            Some(t) => {
                let i = choose|i: int|
                    0 <= i < ts.drop_first().len() && ts.drop_first()[i] == t;
                assert(ts[i + 1] == t);
            },
            None => {},
        }
    }
}

fn pick_tier(ts: &Vec<Tier>, level: i64) -> (r: Option<Tier>)
    ensures
        r == tier_pick(ts@, level as int),
{
    let n: usize = ts.len();
    proof {
        assert(ts@.skip(0) =~= ts@);
    }
    for i in 0..n
        invariant
            n == ts@.len(),
            tier_pick(ts@, level as int) == tier_pick(ts@.skip(i as int), level as int),
    {
        proof {
            assert(ts@.skip(i as int).first() == ts@[i as int]);
            assert(ts@.skip(i as int).drop_first() =~= ts@.skip(i + 1));
        }
        if ts[i].level <= level {
            return Some(ts[i]);
        }
    }
    proof {
        assert(ts@.skip(n as int) =~= Seq::<Tier>::empty());
    }
    None
}

/// Matches the bare identifier and computes its base value under the catalog.
#[verifier::loop_isolation(false)]
fn base_value_exec(base: &Vec<char>, catalog: &Catalog, pattern: &CompositePattern) -> (r: Option<
    i64,
>)
    requires
        catalog.wf(),
        pattern.consistent(*catalog),
    ensures
        match r {
            Some(v) => base_value(*catalog, base@) == Some(v as int) && -4 * MAX_RULE_VALUE <= v
                <= 4 * MAX_RULE_VALUE,
            None => base_value(*catalog, base@) is None,
        },
{
    // Flat keys first, in stored order.
    let nk: usize = pattern.keys.len();
    proof {
        assert(pattern.keys_model().len() == pattern.keys@.len());
        assert(catalog.flat_keys().len() == catalog.flats@.len());
        assert(nk == catalog.flats@.len());
        assert(catalog.flats_model().skip(0) =~= catalog.flats_model());
    }
    for i in 0..nk
        invariant
            nk == pattern.keys@.len(),
            flat_lookup(catalog.flats_model(), base@) == flat_lookup(
                catalog.flats_model().skip(i as int),
                base@,
            ),
    {
        proof {
            assert(pattern.keys_model()[i as int] == pattern.keys@[i as int]@);
            assert(catalog.flat_keys()[i as int] == catalog.flats_model()[i as int].0);
            assert(catalog.flats_model()[i as int] == (catalog.flats@[i as int].key@, catalog.flats@[i as int].value));
            assert(catalog.flats_model().skip(i as int).first() == catalog.flats_model()[i as int]);
            assert(catalog.flats_model().skip(i as int).drop_first() =~= catalog.flats_model().skip(
                i + 1,
            ));
        }
        if eq_chars(&pattern.keys[i], base) {
            let v: i64 = catalog.flats[i].value;
            proof {
                assert(flat_lookup(catalog.flats_model(), base@) == Some(v));
            }
            return Some(v);
        }
    }
    proof {
        assert(catalog.flats_model().skip(nk as int) =~= Seq::<(Seq<char>, i64)>::empty());
        assert(flat_lookup(catalog.flats_model(), base@) is None);
    }
    // Ring family shape.
    let bn: usize = base.len();
    if bn == 7 && base[0] == 'r' && base[1] == 'i' && base[2] == 'n' && base[3] == 'g' && '1'
        <= base[4] && base[4] <= '4' && base[5] == 'x' && (base[6] == '5' || base[6] == '6') {
        assert(is_ring_shape(base@));
        match catalog.ring {
            Some((p5, p6)) => {
                let per: i64 = if base[6] == '5' {
                    p5
                } else {
                    p6
                };
                let d: u64 = digit_val_exec(base[4]);
                proof {
                    assert(1 <= digit_val(base@[4]) <= 4);
                    assert(-4 * MAX_RULE_VALUE <= per * (d as i64) <= 4 * MAX_RULE_VALUE)
                        by (nonlinear_arith)
                        requires
                            -MAX_RULE_VALUE <= per <= MAX_RULE_VALUE,
                            1 <= d <= 4,
                    ;
                }
                return Some(per * (d as i64));
            },
            None => {
                return None;
            },
        }
    }
    // Tier family shape.
    if bn >= 7 && base[0] == 't' && base[1] == 'i' && base[2] == 'e' && base[3] == 'r'
        && base[bn - 2] == '.' && (base[bn - 1] == '5' || base[bn - 1] == '6') {
        let mut digits_ok: bool = true;
        for i in 4..bn - 2
            invariant
                digits_ok <==> forall|k: int| 4 <= k < i ==> is_digit(#[trigger] base@[k]),
        {
            if !is_digit_exec(base[i]) {
                digits_ok = false;
            }
        }
        if digits_ok {
            assert(is_tier_shape(base@));
            match &catalog.tiers {
                Some(ts) => {
                    let lv: u64 = digits_val_sat(base, 4, bn - 2);
                    let lvl: i64 = #[verifier::truncate] (lv as i64);
                    proof {
                        assert(lv <= LEVEL_CAP);
                        assert(lvl == lv as int);
                        lemma_digits_val_nonneg(base@.subrange(4, bn - 2));
                        lemma_tier_pick_high(ts@, lvl as int, tier_level(base@));
                        lemma_tier_pick_in(ts@, lvl as int);
                    }
                    match pick_tier(ts, lvl) {
                        Some(t) => {
                            let v: i64 = if base[bn - 1] == '5' {
                                t.at5
                            } else {
                                t.at6
                            };
                            proof {
                                assert(tier_pick(ts@, tier_level(base@)) == Some(t));
                            }
                            return Some(v);
                        },
                        None => {
                            return None;
                        },
                    }
                },
                None => {
                    return None;
                },
            }
        } else {
            proof {
                let k = choose|k: int| 4 <= k < bn - 2 && !is_digit(#[trigger] base@[k]);
                assert(base@.subrange(4, bn - 2)[k - 4] == base@[k]);
                assert(!is_tier_shape(base@));
                assert(!is_ring_shape(base@));
                assert(!is_root_shape(base@));
            }
            return None;
        }
    }
    // Wildcard-count family shape.
    if bn >= 4 && base[0] == 'r' && base[1] == 'o' && base[2] == 'o' && base[3] == 't' {
        let mut digits_ok: bool = true;
        for i in 4..bn
            invariant
                digits_ok <==> forall|k: int| 4 <= k < i ==> is_digit(#[trigger] base@[k]),
        {
            if !is_digit_exec(base[i]) {
                digits_ok = false;
            }
        }
        if digits_ok {
            proof {
                assert(forall|k: int|
                    0 <= k < base@.skip(4).len() ==> #[trigger] base@.skip(4)[k] == base@[k + 4]);
                assert(is_root_shape(base@));
            }
            return Some(ROOT_VALUE);
        } else {
            proof {
                let k = choose|k: int| 4 <= k < bn && !is_digit(#[trigger] base@[k]);
                assert(base@.skip(4)[k - 4] == base@[k]);
                assert(!is_root_shape(base@));
            }
            return None;
        }
    }
    proof {
        assert(!is_ring_shape(base@));
        assert(!is_tier_shape(base@));
        assert(!is_root_shape(base@));
    }
    None
}

/// The bare identifier of a token: its characters up to the first opening
/// parenthesis.
#[verifier::loop_isolation(false)]
pub fn token_base_exec(tv: &Vec<char>) -> (b: Vec<char>)
    ensures
        b@ == token_base(tv@),
{
    let n: usize = tv.len();
    let mut oi: usize = 0;
    while oi < n && tv[oi] != '('
        invariant
            oi <= n,
            forall|j: int| 0 <= j < oi ==> #[trigger] tv@[j] != '(',
        decreases n - oi,
    {
        oi = oi + 1;
    }
    proof {
        lemma_first_open(tv@);
        if oi == n {
            assert(first_open(tv@) is None);
        } else {
            assert(tv@[oi as int] == '(');
            match first_open(tv@) {
                Some(i) => {
                    assert(i <= oi);
                    assert(oi <= i);
                },
                None => {
                    assert(false);
                },
            }
        }
    }
    let b: Vec<char> = copy_range(tv, 0, oi);
    proof {
        if oi == n {
            assert(b@ =~= tv@);
        }
    }
    b
}

/// Whether a bare identifier resolves to some base value.
pub fn base_value_probe(base: &Vec<char>, catalog: &Catalog, pattern: &CompositePattern) -> (r:
    bool)
    requires
        catalog.wf(),
        pattern.consistent(*catalog),
    ensures
        r == (base_value(*catalog, base@) is Some),
{
    match base_value_exec(base, catalog, pattern) {
        Some(_) => true,
        None => false,
    }
}

/// Scores one raw event token against the catalog and composite pattern.
///
/// Returns None exactly when the scoring rule engine does not recognize the
/// token: the grammar does not match, the identifier resolves to no rule, or
/// a conditional modifier finds no priority entry in the identifier.
#[verifier::loop_isolation(false)]
pub fn get_points(
    boss: &str,
    catalog: &Catalog,
    pattern: &CompositePattern,
    prios: &Vec<String>,
) -> (r: Option<i64>)
    requires
        catalog.wf(),
        pattern.consistent(*catalog),
    ensures
        match r {
            Some(v) => score_spec(*catalog, boss@, prios.deep_view()) == Some(v as int)
                && -MAX_SCORE <= v <= MAX_SCORE,
            None => score_spec(*catalog, boss@, prios.deep_view()) is None,
        },
{
    let tv: Vec<char> = chars_of(boss);
    let n: usize = tv.len();
    let mut oi: usize = 0;
    while oi < n && tv[oi] != '('
        invariant
            oi <= n,
            forall|j: int| 0 <= j < oi ==> #[trigger] tv@[j] != '(',
        decreases n - oi,
    {
        oi = oi + 1;
    }
    proof {
        lemma_first_open(tv@);
        if oi == n {
            assert(first_open(tv@) is None);
        } else {
            assert(tv@[oi as int] == '(');
            match first_open(tv@) {
                Some(i) => {
                    assert(i <= oi);
                    assert(oi <= i);
                },
                None => {
                    assert(false);
                },
            }
        }
    }
    let ghost base_s = token_base(boss@);
    let ghost rest_s = token_rest(boss@);
    let base: Vec<char> = copy_range(&tv, 0, oi);
    proof {
        if oi == n {
            assert(base@ =~= base_s);
            assert(rest_s.len() == 0);
        } else {
            assert(base@ == base_s);
            assert(rest_s.len() == n - oi);
        }
    }
    let mut kind: Option<ModKind> = None;
    if oi < n {
        if n - oi < 2 || tv[n - 1] != ')' {
            proof {
                if rest_s.len() >= 2 {
                    assert(rest_s.last() == tv@[n - 1]);
                }
                assert(rest_kind(rest_s) is None);
            }
            return None;
        }
        let interior: Vec<char> = copy_range(&tv, oi + 1, n - 1);
        proof {
            assert(rest_s.last() == tv@[n - 1]);
            assert(interior@ =~= rest_s.subrange(1, rest_s.len() - 1));
        }
        match classify_mod(&interior) {
            Some(k) => {
                kind = Some(k);
            },
            None => {
                proof {
                    assert(rest_kind(rest_s) is None);
                }
                return None;
            },
        }
    }
    proof {
        if oi == n {
            assert(rest_kind(rest_s) is None);
        }
        assert(rest_s.len() > 0 ==> rest_kind(rest_s) == kind);
    }
    // The conditional modifier gates the whole resolution on the priority
    // list.
    let is_cond: bool = match kind {
        Some(k) => match k {
            ModKind::Cond => true,
            _ => false,
        },
        None => false,
    };
    if is_cond {
        let np: usize = prios.len();
        let mut prio_hit: bool = false;
        for j in 0..np
            invariant
                np == prios@.len(),
                prio_hit <==> exists|k: int|
                    0 <= k < j && contains_seq(base@, #[trigger] prios@[k]@),
        {
            let pv: Vec<char> = chars_of(prios[j].as_str());
            if contains_chars(&base, &pv) {
                prio_hit = true;
            }
        }
        proof {
            let dv = prios.deep_view();
            assert(dv.len() == prios@.len());
            assert forall|k: int| 0 <= k < prios@.len() implies #[trigger] dv[k] == prios@[k]@ by {}
            if prio_hit {
                let k = choose|k: int|
                    0 <= k < prios@.len() && contains_seq(base@, #[trigger] prios@[k]@);
                assert(contains_seq(base_s, dv[k]));
                assert(has_prio(base_s, dv));
            }
            if has_prio(base_s, dv) {
                let k = choose|k: int| 0 <= k < dv.len() && contains_seq(base_s, #[trigger] dv[k]);
                assert(contains_seq(base@, prios@[k]@));
                assert(prio_hit);
            }
        }
        if !prio_hit {
            return None;
        }
    }
    let bv: Option<i64> = base_value_exec(&base, catalog, pattern);
    match bv {
        None => None,
        Some(v) => {
            match kind {
                None => Some(v),
                Some(k) => match k {
                    ModKind::Bonus => Some(v + BONUS_VALUE),
                    ModKind::Double => Some(2 * v),
                    ModKind::Half => Some(half_round_up(v)),
                    ModKind::Cond => Some(v),
                },
            }
        },
    }
}

} // verus!

verus! {

proof fn lemma_first_open_paren_free(s: Seq<char>)
    requires
        forall|j: int| 0 <= j < s.len() ==> #[trigger] s[j] != '(',
    ensures
        first_open(s) is None,
{
    lemma_first_open(s);
    match first_open(s) {
        Some(i) => {
            assert(false);
        },
        None => {},
    }
}

proof fn lemma_first_open_at(token: Seq<char>, n: int)
    requires
        0 <= n < token.len(),
        token[n] == '(',
        forall|j: int| 0 <= j < n ==> #[trigger] token[j] != '(',
    ensures
        first_open(token) == Some(n),
{
    lemma_first_open(token);
    match first_open(token) {
        Some(i) => {
            assert(i <= n);
            assert(n <= i);
        },
        None => {
            assert(false);
        },
    }
}

/// A flat-value key scores its declared value, and a modifier suffix changes
/// it in exactly the declared way: a fixed bonus, doubling, halving rounded
/// up, or the conditional gate on the priority list.
pub proof fn lemma_flat_key_scores(
    cat: Catalog,
    prios: Seq<Seq<char>>,
    key: Seq<char>,
    v: i64,
)
    requires
        flat_lookup(cat.flats_model(), key) == Some(v),
        paren_free(key),
    ensures
        score_spec(cat, key, prios) == Some(v as int),
{
    lemma_first_open_paren_free(key);
    assert(token_base(key) == key);
    assert(token_rest(key).len() == 0);
}

/// A flat-value key with a modifier suffix `(<m>)` scores the declared value
/// transformed by the modifier; an unrecognized modifier name makes the whole
/// token unrecognized.
pub proof fn lemma_flat_key_scores_modified(
    cat: Catalog,
    prios: Seq<Seq<char>>,
    key: Seq<char>,
    v: i64,
    m: Seq<char>,
)
    requires
        flat_lookup(cat.flats_model(), key) == Some(v),
        paren_free(key),
    ensures
        ({
            let token = key + seq!['('] + m + seq![')'];
            score_spec(cat, token, prios) == match mod_kind(m) {
                Some(ModKind::Bonus) => Some(v + BONUS_VALUE),
                Some(ModKind::Double) => Some(2 * (v as int)),
                Some(ModKind::Half) => Some((v + 1) / 2 as int),
                Some(ModKind::Cond) => if has_prio(key, prios) {
                    Some(v as int)
                } else {
                    None
                },
                None => None,
            }
        }),
{
    let token = key + seq!['('] + m + seq![')'];
    let n = key.len() as int;
    assert(token[n] == '(');
    assert(forall|j: int| 0 <= j < n ==> #[trigger] token[j] == key[j]);
    lemma_first_open_at(token, n);
    let base = token_base(token);
    let rest = token_rest(token);
    assert(base =~= key);
    assert(rest =~= seq!['('] + m + seq![')']);
    assert(rest.last() == ')');
    assert(rest.subrange(1, rest.len() - 1) =~= m);
    assert(rest_kind(rest) == mod_kind(m));
}

/// Scoring a ring token `ring3x5`: three units at the five-star per-unit
/// value of the catalog's ring family.
pub proof fn lemma_ring3x5_scores(cat: Catalog, prios: Seq<Seq<char>>, p5: i64, p6: i64)
    requires
        cat.ring_model() == Some((p5, p6)),
        flat_lookup(cat.flats_model(), "ring3x5"@) is None,
    ensures
        score_spec(cat, "ring3x5"@, prios) == Some(3 * (p5 as int)),
{
    reveal_strlit("ring3x5");
    let tok = "ring3x5"@;
    assert(tok.len() == 7);
    assert(tok[0] == 'r' && tok[1] == 'i' && tok[2] == 'n' && tok[3] == 'g' && tok[4] == '3'
        && tok[5] == 'x' && tok[6] == '5');
    lemma_first_open_paren_free(tok);
    assert(token_base(tok) == tok);
    assert(token_rest(tok).len() == 0);
    assert(is_ring_shape(tok));
    assert(digit_val(tok[4]) == 3);
}

/// The conditional modifier gates the whole resolution: with a priority entry
/// somewhere in the bare identifier the token scores as the bare identifier
/// does, and without one it is unrecognized.
pub proof fn lemma_conditional_gates(cat: Catalog, prios: Seq<Seq<char>>, x: Seq<char>)
    requires
        paren_free(x),
    ensures
        score_spec(cat, x + "(conditional)"@, prios) == if has_prio(x, prios) {
            score_spec(cat, x, prios)
        } else {
            None::<int>
        },
{
    reveal_strlit("(conditional)");
    reveal_strlit("conditional");
    reveal_strlit("brucybonus");
    reveal_strlit("double");
    reveal_strlit("doublepoints");
    reveal_strlit("multiplier");
    reveal_strlit("fail");
    reveal_strlit("penalty");
    reveal_strlit("comp");
    let suffix = "(conditional)"@;
    assert(suffix.len() == 13);
    assert(suffix[0] == '(');
    assert(suffix.last() == ')');
    let token = x + suffix;
    let n = x.len() as int;
    assert(token[n] == '(');
    assert(forall|j: int| 0 <= j < n ==> #[trigger] token[j] == x[j]);
    lemma_first_open_at(token, n);
    let base = token_base(token);
    let rest = token_rest(token);
    assert(base =~= x);
    assert(rest =~= suffix);
    let interior = rest.subrange(1, rest.len() - 1);
    assert(interior =~= "conditional"@);
    assert(interior.len() == 11);
    assert(mod_kind(interior) == Some(ModKind::Cond));
    assert(rest_kind(rest) == Some(ModKind::Cond));
    lemma_first_open_paren_free(x);
    assert(token_base(x) == x);
    assert(token_rest(x).len() == 0);
}

} // verus!
