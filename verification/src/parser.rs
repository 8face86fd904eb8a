use vstd::prelude::*;

use crate::scoring::{
    base_value, classify_mod, mod_kind, score_spec, token_base, Catalog, CompositePattern,
};
use crate::text::{chars_of, lemma_deep_view_strings, str_eq_str};

verus! {

/// One validated log line: its signed point value, the participant tokens in
/// order, and the originating line index.
#[derive(Debug)]
pub struct ParsedLine {
    pub points: i64,
    pub names: Vec<String>,
    pub index: usize,
}

/// The categorized line numbers of a failed validation pass.
#[derive(Debug)]
pub struct ErrorReport {
    /// Lines whose date could not be read (found by the date collaborator).
    pub date_lines: Vec<usize>,
    /// Lines whose event token the scoring engine does not recognize.
    pub boss_lines: Vec<usize>,
    /// Lines with a stray literal token "at" among the names.
    pub at_lines: Vec<usize>,
    /// Lines using the negation marker "not" in an invalid position.
    pub not_lines: Vec<usize>,
    /// One entry per single-character name found on a line.
    pub single_lines: Vec<usize>,
    /// Lines too short to hold an event and a participant.
    pub general_lines: Vec<usize>,
}

/// Whether the bare part of a token resolves to some base value under the
/// catalog.
pub open spec fn bare_match(cat: Catalog, t: Seq<char>) -> bool {
    base_value(cat, token_base(t)) is Some
}

/// The position of the first token that the scoring rules can resolve.
pub open spec fn locate_rec(cat: Catalog, toks: Seq<Seq<char>>) -> Option<int>
    decreases toks.len(),
{
    if toks.len() == 0 {
        None
    } else if bare_match(cat, toks.first()) {
        Some(0)
    } else {
        match locate_rec(cat, toks.drop_first()) {
            Some(i) => Some(i + 1),
            None => None,
        }
    }
}

/// Where the event token is taken to start: the first resolvable token, or
/// the line start when none resolves.
pub open spec fn locate_spec(cat: Catalog, toks: Seq<Seq<char>>) -> int {
    match locate_rec(cat, toks) {
        Some(i) => i,
        None => 0,
    }
}

/// The tokens from the event token on.
pub open spec fn line_rest(cat: Catalog, toks: Seq<Seq<char>>) -> Seq<Seq<char>> {
    toks.skip(locate_spec(cat, toks))
}

/// A line is too short when fewer than two tokens remain from the event
/// token on.
pub open spec fn line_too_short(cat: Catalog, toks: Seq<Seq<char>>) -> bool {
    line_rest(cat, toks).len() < 2
}

/// Whether a token is a recognized modifier wrapped in parentheses.
pub open spec fn wrapped_mod(m: Seq<char>) -> bool {
    m.len() >= 2 && m[0] == '(' && m.last() == ')' && mod_kind(m.subrange(1, m.len() - 1))
        is Some
}

/// The event token of a line: the first remaining token, with the following
/// token appended when that token is a wrapped modifier.
pub open spec fn line_boss(cat: Catalog, toks: Seq<Seq<char>>) -> Seq<char> {
    let rest = line_rest(cat, toks);
    if wrapped_mod(rest[1]) {
        rest[0] + rest[1]
    } else {
        rest[0]
    }
}

/// The participant tokens of a line: what remains after the event token and
/// an optional wrapped modifier.
pub open spec fn line_names(cat: Catalog, toks: Seq<Seq<char>>) -> Seq<Seq<char>> {
    let rest = line_rest(cat, toks);
    if wrapped_mod(rest[1]) {
        rest.skip(2)
    } else {
        rest.skip(1)
    }
}

/// The score of a line's event token.
pub open spec fn line_points(cat: Catalog, prios: Seq<Seq<char>>, toks: Seq<Seq<char>>) -> Option<
    int,
> {
    score_spec(cat, line_boss(cat, toks), prios)
}

/// A stray literal "at" among the names hints at a date fragment.
pub open spec fn line_at_error(cat: Catalog, toks: Seq<Seq<char>>) -> bool {
    line_names(cat, toks).contains("at"@)
}

/// The negation marker is valid only as the sole first token of two, or the
/// middle token of exactly three.
pub open spec fn not_usage_ok(names: Seq<Seq<char>>) -> bool {
    if names.len() == 3 {
        names[1] == "not"@
    } else if names.len() == 2 {
        names[0] == "not"@
    } else {
        false
    }
}

pub open spec fn line_not_error(cat: Catalog, toks: Seq<Seq<char>>) -> bool {
    line_names(cat, toks).contains("not"@) && !not_usage_ok(line_names(cat, toks))
}

/// How many single-character names a line holds.
pub open spec fn count_singles(names: Seq<Seq<char>>) -> int
    decreases names.len(),
{
    if names.len() == 0 {
        0int
    } else {
        count_singles(names.drop_last()) + if names.last().len() == 1 {
            1int
        } else {
            0int
        }
    }
}

pub open spec fn line_single_count(cat: Catalog, toks: Seq<Seq<char>>) -> int {
    count_singles(line_names(cat, toks))
}

/// The outcome of parsing one line.
pub enum LineOutcome {
    /// Fewer than two tokens remain from the event token on.
    TooShort,
    /// The event token is not recognized by the scoring rules.
    UnknownBoss,
    /// The line scored; the flags record the anomalies found among the names.
    Scored {
        points: i64,
        names: Vec<String>,
        at_flag: bool,
        not_flag: bool,
        single_count: usize,
    },
}

/// Locates the event token of a tokenized line.
#[verifier::loop_isolation(false)]
fn locate_event(
    toks: &Vec<String>,
    catalog: &Catalog,
    pattern: &CompositePattern,
) -> (r: usize)
    requires
        catalog.wf(),
        pattern.consistent(*catalog),
    ensures
        r == locate_spec(*catalog, toks.deep_view()),
        r < toks@.len() || toks@.len() == 0 || r == 0,
{
    let ghost dv = toks.deep_view();
    proof {
        lemma_deep_view_strings(*toks);
        assert(dv.skip(0) =~= dv);
    }
    let n: usize = toks.len();
    for i in 0..n
        invariant
            n == dv.len(),
            locate_rec(*catalog, dv) == match locate_rec(*catalog, dv.skip(i as int)) {
                Some(j) => Some(j + i),
                None => None::<int>,
            },
    {
        proof {
            assert(dv.skip(i as int).first() == dv[i as int]);
            assert(dv.skip(i as int).drop_first() =~= dv.skip(i + 1));
        }
        let tv: Vec<char> = chars_of(toks[i].as_str());
        let base: Vec<char> = crate::scoring::token_base_exec(&tv);
        if crate::scoring::base_value_probe(&base, catalog, pattern) {
            proof {
                assert(bare_match(*catalog, dv[i as int]));
                assert(locate_rec(*catalog, dv) == Some(i as int));
            }
            return i;
        }
        proof {
            assert(!bare_match(*catalog, dv[i as int]));
        }
    }
    proof {
        assert(dv.skip(n as int) =~= Seq::<Seq<char>>::empty());
        assert(locate_rec(*catalog, dv) is None);
    }
    0
}

/// Parses and scores one tokenized line.
#[verifier::loop_isolation(false)]
#[verifier::rlimit(60)]
pub fn parse_line(
    toks: &Vec<String>,
    catalog: &Catalog,
    pattern: &CompositePattern,
    prios: &Vec<String>,
) -> (r: LineOutcome)
    requires
        catalog.wf(),
        pattern.consistent(*catalog),
    ensures
        ({
            let dv = toks.deep_view();
            let pv = prios.deep_view();
            match r {
                LineOutcome::TooShort => line_too_short(*catalog, dv),
                LineOutcome::UnknownBoss => !line_too_short(*catalog, dv) && line_points(
                    *catalog,
                    pv,
                    dv,
                ) is None,
                LineOutcome::Scored { points, names, at_flag, not_flag, single_count } => {
                    &&& !line_too_short(*catalog, dv)
                    &&& line_points(*catalog, pv, dv) == Some(points as int)
                    &&& names.deep_view() == line_names(*catalog, dv)
                    &&& at_flag == line_at_error(*catalog, dv)
                    &&& not_flag == line_not_error(*catalog, dv)
                    &&& single_count == line_single_count(*catalog, dv)
                },
            }
        }),
{
    let ghost dv = toks.deep_view();
    proof {
        lemma_deep_view_strings(*toks);
    }
    let start: usize = locate_event(toks, catalog, pattern);
    let n: usize = toks.len();
    if n < start || n - start < 2 {
        proof {
            assert(line_rest(*catalog, dv).len() == dv.len() - locate_spec(*catalog, dv));
        }
        return LineOutcome::TooShort;
    }
    let ghost rest = line_rest(*catalog, dv);
    proof {
        assert(rest.len() == n - start);
        assert(forall|j: int| 0 <= j < rest.len() ==> #[trigger] rest[j] == dv[start + j]);
    }
    // Decide whether the second remaining token is a wrapped modifier.
    let second: &String = &toks[start + 1];
    let sv: Vec<char> = chars_of(second.as_str());
    let sn: usize = sv.len();
    let mut is_mod: bool = false;
    if sn >= 2 {
        let first_c: char = sv[0];
        let last_c: char = sv[sn - 1];
        if first_c == '(' && last_c == ')' {
            let interior: Vec<char> = crate::text::copy_range(&sv, 1, sn - 1);
            proof {
                assert(interior@ =~= sv@.subrange(1, sv@.len() - 1));
            }
            match classify_mod(&interior) {
                Some(_) => {
                    is_mod = true;
                },
                None => {},
            }
        }
    }
    proof {
        assert(sv@ == rest[1]);
        assert(is_mod == wrapped_mod(rest[1]));
    }
    // Assemble the event token and the name list.
    let mut boss_tok: String = toks[start].clone();
    let mut names: Vec<String> = Vec::new();
    let name_start: usize = if is_mod {
        boss_tok.append(second.as_str());
        start + 2
    } else {
        start + 1
    };
    proof {
        assert(boss_tok@ == line_boss(*catalog, dv));
    }
    for i in name_start..n
        invariant
            name_start <= i <= n,
            names@.len() == i - name_start,
            forall|j: int| 0 <= j < names@.len() ==> #[trigger] names@[j]@ == dv[name_start + j],
    {
        names.push(toks[i].clone());
    }
    proof {
        lemma_deep_view_strings(names);
        if is_mod {
            assert(names.deep_view() =~= rest.skip(2));
        } else {
            assert(names.deep_view() =~= rest.skip(1));
        }
        assert(names.deep_view() == line_names(*catalog, dv));
    }
    // Score the assembled event token.
    let points: i64 = match crate::scoring::get_points(
        boss_tok.as_str(),
        catalog,
        pattern,
        prios,
    ) {
        Some(p) => p,
        None => {
            return LineOutcome::UnknownBoss;
        },
    };
    // Scan the names for anomalies.
    let ghost nm = names.deep_view();
    let nn: usize = names.len();
    let mut at_flag: bool = false;
    let mut not_flag_contains: bool = false;
    let mut single_count: usize = 0;
    for i in 0..nn
        invariant
            nn == nm.len() && nn == names@.len(),
            at_flag <==> exists|j: int| 0 <= j < i && nm[j] == "at"@,
            not_flag_contains <==> exists|j: int| 0 <= j < i && nm[j] == "not"@,
            single_count == count_singles(nm.subrange(0, i as int)),
            single_count <= i,
    {
        proof {
            assert(nm[i as int] == names@[i as int]@);
            assert(nm.subrange(0, i + 1).drop_last() =~= nm.subrange(0, i as int));
        }
        let name: &String = &names[i];
        if str_eq_str(name.as_str(), "at") {
            at_flag = true;
        }
        if str_eq_str(name.as_str(), "not") {
            not_flag_contains = true;
        }
        if name.as_str().unicode_len() == 1 {
            single_count = single_count + 1;
        }
    }
    proof {
        assert(nm.subrange(0, nn as int) =~= nm);
        if at_flag {
            assert(nm.contains("at"@));
        }
        if nm.contains("at"@) {
            let j = choose|j: int| 0 <= j < nm.len() && nm[j] == "at"@;
            assert(at_flag);
        }
        if not_flag_contains {
            assert(nm.contains("not"@));
        }
        if nm.contains("not"@) {
            let j = choose|j: int| 0 <= j < nm.len() && nm[j] == "not"@;
            assert(not_flag_contains);
        }
    }
    // Validate the negation marker's position.
    let mut not_flag: bool = false;
    if not_flag_contains {
        let ok: bool = if nn == 3 {
            str_eq_str(names[1].as_str(), "not")
        } else if nn == 2 {
            str_eq_str(names[0].as_str(), "not")
        } else {
            false
        };
        proof {
            if nn == 3 {
                assert(nm[1] == names@[1]@);
            }
            if nn == 2 {
                assert(nm[0] == names@[0]@);
            }
        }
        not_flag = !ok;
    }
    LineOutcome::Scored { points, names, at_flag, not_flag, single_count }
}

} // verus!

verus! {

/// The token views of a batch of (line index, tokens) pairs.
pub open spec fn lines_model(s: Seq<(usize, Vec<String>)>) -> Seq<(usize, Seq<Seq<char>>)> {
    s.map_values(|p: (usize, Vec<String>)| (p.0, p.1.deep_view()))
}

pub proof fn lemma_count_singles_nonneg(names: Seq<Seq<char>>)
    ensures
        count_singles(names) >= 0,
    decreases names.len(),
{
    if names.len() > 0 {
        lemma_count_singles_nonneg(names.drop_last());
    }
}

/// The validated lines of a batch: for every line that locates an event and
/// scores, its points, names and index, in order.
pub open spec fn parsed_model(
    cat: Catalog,
    prios: Seq<Seq<char>>,
    lines: Seq<(usize, Seq<Seq<char>>)>,
) -> Seq<(int, Seq<Seq<char>>, usize)>
    decreases lines.len(),
{
    if lines.len() == 0 {
        Seq::empty()
    } else {
        let l = lines.last();
        let head = parsed_model(cat, prios, lines.drop_last());
        if !line_too_short(cat, l.1) && line_points(cat, prios, l.1) is Some {
            head + seq![(line_points(cat, prios, l.1)->0, line_names(cat, l.1), l.0)]
        } else {
            head
        }
    }
}

/// The indices of lines too short to score.
pub open spec fn general_model(cat: Catalog, lines: Seq<(usize, Seq<Seq<char>>)>) -> Seq<usize>
    decreases lines.len(),
{
    if lines.len() == 0 {
        Seq::empty()
    } else {
        let l = lines.last();
        general_model(cat, lines.drop_last()) + if line_too_short(cat, l.1) {
            seq![l.0]
        } else {
            Seq::empty()
        }
    }
}

/// The indices of lines whose event token the engine does not recognize.
pub open spec fn boss_model(
    cat: Catalog,
    prios: Seq<Seq<char>>,
    lines: Seq<(usize, Seq<Seq<char>>)>,
) -> Seq<usize>
    decreases lines.len(),
{
    if lines.len() == 0 {
        Seq::empty()
    } else {
        let l = lines.last();
        boss_model(cat, prios, lines.drop_last()) + if !line_too_short(cat, l.1) && line_points(
            cat,
            prios,
            l.1,
        ) is None {
            seq![l.0]
        } else {
            Seq::empty()
        }
    }
}

/// The indices of scored lines holding a stray "at" token.
pub open spec fn at_model(
    cat: Catalog,
    prios: Seq<Seq<char>>,
    lines: Seq<(usize, Seq<Seq<char>>)>,
) -> Seq<usize>
    decreases lines.len(),
{
    if lines.len() == 0 {
        Seq::empty()
    } else {
        let l = lines.last();
        at_model(cat, prios, lines.drop_last()) + if !line_too_short(cat, l.1) && line_points(
            cat,
            prios,
            l.1,
        ) is Some && line_at_error(cat, l.1) {
            seq![l.0]
        } else {
            Seq::empty()
        }
    }
}

/// The indices of scored lines misusing the negation marker.
pub open spec fn not_model(
    cat: Catalog,
    prios: Seq<Seq<char>>,
    lines: Seq<(usize, Seq<Seq<char>>)>,
) -> Seq<usize>
    decreases lines.len(),
{
    if lines.len() == 0 {
        Seq::empty()
    } else {
        let l = lines.last();
        not_model(cat, prios, lines.drop_last()) + if !line_too_short(cat, l.1) && line_points(
            cat,
            prios,
            l.1,
        ) is Some && line_not_error(cat, l.1) {
            seq![l.0]
        } else {
            Seq::empty()
        }
    }
}

/// One index entry per single-character name on each scored line.
pub open spec fn single_model(
    cat: Catalog,
    prios: Seq<Seq<char>>,
    lines: Seq<(usize, Seq<Seq<char>>)>,
) -> Seq<usize>
    decreases lines.len(),
{
    if lines.len() == 0 {
        Seq::empty()
    } else {
        let l = lines.last();
        single_model(cat, prios, lines.drop_last()) + if !line_too_short(cat, l.1)
            && line_points(cat, prios, l.1) is Some {
            Seq::new(
                (if line_single_count(cat, l.1) >= 0 {
                    line_single_count(cat, l.1)
                } else {
                    0
                }) as nat,
                |k: int| l.0,
            )
        } else {
            Seq::empty()
        }
    }
}

impl ErrorReport {
    /// A report with no entries in any category.
    pub open spec fn is_empty_spec(self) -> bool {
        self.date_lines@.len() == 0 && self.boss_lines@.len() == 0 && self.at_lines@.len() == 0
            && self.not_lines@.len() == 0 && self.single_lines@.len() == 0
            && self.general_lines@.len() == 0
    }

    /// Whether any category holds an entry.
    pub fn has_errors(&self) -> (r: bool)
        ensures
            r == !self.is_empty_spec(),
    {
        self.date_lines.len() > 0 || self.boss_lines.len() > 0 || self.at_lines.len() > 0
            || self.not_lines.len() > 0 || self.single_lines.len() > 0
            || self.general_lines.len() > 0
    }
}

/// Validates a whole batch of tokenized lines against the catalog.
///
/// The pass is all-or-nothing: the validated lines come back only when no
/// line fails any check and the date collaborator reported no bad line;
/// otherwise the categorized report of every offending line comes back and
/// no line is scored.
#[verifier::loop_isolation(false)]
#[verifier::rlimit(60)]
pub fn get_valid_lines(
    lines: &Vec<(usize, Vec<String>)>,
    catalog: &Catalog,
    pattern: &CompositePattern,
    prios: &Vec<String>,
    date_error_lines: Vec<usize>,
) -> (r: Result<Vec<ParsedLine>, ErrorReport>)
    requires
        catalog.wf(),
        pattern.consistent(*catalog),
    ensures
        ({
            let lm = lines_model(lines@);
            let pv = prios.deep_view();
            match r {
                Ok(v) => {
                    &&& date_error_lines@.len() == 0
                    &&& general_model(*catalog, lm).len() == 0
                    &&& boss_model(*catalog, pv, lm).len() == 0
                    &&& at_model(*catalog, pv, lm).len() == 0
                    &&& not_model(*catalog, pv, lm).len() == 0
                    &&& single_model(*catalog, pv, lm).len() == 0
                    &&& v@.len() == parsed_model(*catalog, pv, lm).len()
                    &&& forall|i: int|
                        0 <= i < v@.len() ==> {
                            &&& (#[trigger] v@[i]).points as int == parsed_model(
                                *catalog,
                                pv,
                                lm,
                            )[i].0
                            &&& v@[i].names.deep_view() == parsed_model(*catalog, pv, lm)[i].1
                            &&& v@[i].index == parsed_model(*catalog, pv, lm)[i].2
                        }
                },
                Err(rep) => {
                    &&& rep.date_lines@ == date_error_lines@
                    &&& rep.general_lines@ == general_model(*catalog, lm)
                    &&& rep.boss_lines@ == boss_model(*catalog, pv, lm)
                    &&& rep.at_lines@ == at_model(*catalog, pv, lm)
                    &&& rep.not_lines@ == not_model(*catalog, pv, lm)
                    &&& rep.single_lines@ == single_model(*catalog, pv, lm)
                    &&& !rep.is_empty_spec()
                },
            }
        }),
{
    let ghost lm = lines_model(lines@);
    let ghost pv = prios.deep_view();
    let mut parsed: Vec<ParsedLine> = Vec::new();
    let mut boss_vec: Vec<usize> = Vec::new();
    let mut at_vec: Vec<usize> = Vec::new();
    let mut not_vec: Vec<usize> = Vec::new();
    let mut single_vec: Vec<usize> = Vec::new();
    let mut general_vec: Vec<usize> = Vec::new();
    let n: usize = lines.len();
    proof {
        assert(lm.len() == lines@.len());
        assert(lm.subrange(0, 0) =~= Seq::<(usize, Seq<Seq<char>>)>::empty());
    }
    for li in 0..n
        invariant
            n == lines@.len() && lm.len() == n,
            parsed@.len() == parsed_model(*catalog, pv, lm.subrange(0, li as int)).len(),
            forall|i: int|
                0 <= i < parsed@.len() ==> {
                    &&& (#[trigger] parsed@[i]).points as int == parsed_model(
                        *catalog,
                        pv,
                        lm.subrange(0, li as int),
                    )[i].0
                    &&& parsed@[i].names.deep_view() == parsed_model(
                        *catalog,
                        pv,
                        lm.subrange(0, li as int),
                    )[i].1
                    &&& parsed@[i].index == parsed_model(
                        *catalog,
                        pv,
                        lm.subrange(0, li as int),
                    )[i].2
                },
            general_vec@ == general_model(*catalog, lm.subrange(0, li as int)),
            boss_vec@ == boss_model(*catalog, pv, lm.subrange(0, li as int)),
            at_vec@ == at_model(*catalog, pv, lm.subrange(0, li as int)),
            not_vec@ == not_model(*catalog, pv, lm.subrange(0, li as int)),
            single_vec@ == single_model(*catalog, pv, lm.subrange(0, li as int)),
    {
        let ghost pre = lm.subrange(0, li as int);
        let ghost cur = lm.subrange(0, li + 1);
        proof {
            assert(cur.drop_last() =~= pre);
            assert(cur.last() == lm[li as int]);
            assert(lm[li as int] == (lines@[li as int].0, lines@[li as int].1.deep_view()));
        }
        let index: usize = lines[li].0;
        let outcome: LineOutcome = parse_line(&lines[li].1, catalog, pattern, prios);
        match outcome {
            LineOutcome::TooShort => {
                general_vec.push(index);
                proof {
                    assert(general_vec@ =~= general_model(*catalog, cur));
                    assert(parsed_model(*catalog, pv, cur) == parsed_model(*catalog, pv, pre));
                    assert(boss_model(*catalog, pv, cur) =~= boss_model(*catalog, pv, pre));
                    assert(at_model(*catalog, pv, cur) =~= at_model(*catalog, pv, pre));
                    assert(not_model(*catalog, pv, cur) =~= not_model(*catalog, pv, pre));
                    assert(single_model(*catalog, pv, cur) =~= single_model(*catalog, pv, pre));
                }
            },
            LineOutcome::UnknownBoss => {
                boss_vec.push(index);
                proof {
                    assert(boss_vec@ =~= boss_model(*catalog, pv, cur));
                    assert(parsed_model(*catalog, pv, cur) == parsed_model(*catalog, pv, pre));
                    assert(general_model(*catalog, cur) =~= general_model(*catalog, pre));
                    assert(at_model(*catalog, pv, cur) =~= at_model(*catalog, pv, pre));
                    assert(not_model(*catalog, pv, cur) =~= not_model(*catalog, pv, pre));
                    assert(single_model(*catalog, pv, cur) =~= single_model(*catalog, pv, pre));
                }
            },
            LineOutcome::Scored { points, names, at_flag, not_flag, single_count } => {
                if at_flag {
                    at_vec.push(index);
                }
                if not_flag {
                    not_vec.push(index);
                }
                let ghost single_pre = single_vec@;
                for k in 0..single_count
                    invariant
                        single_vec@ == single_pre + Seq::new(k as nat, |j: int| index),
                {
                    single_vec.push(index);
                    proof {
                        assert(single_vec@ =~= single_pre + Seq::new((k + 1) as nat, |j: int| index));
                    }
                }
                parsed.push(ParsedLine { points, names, index });
                proof {
                    lemma_count_singles_nonneg(line_names(*catalog, lm[li as int].1));
                    assert(single_vec@ =~= single_model(*catalog, pv, cur));
                    assert(parsed@ =~= parsed@.drop_last().push(parsed@.last()));
                    assert(parsed_model(*catalog, pv, cur) == parsed_model(*catalog, pv, pre)
                        + seq![(line_points(*catalog, pv, lm[li as int].1)->0, line_names(*catalog, lm[li as int].1), index)]);
                    assert(at_model(*catalog, pv, cur) =~= if at_flag {
                        at_model(*catalog, pv, pre).push(index)
                    } else {
                        at_model(*catalog, pv, pre)
                    });
                    assert(not_model(*catalog, pv, cur) =~= if not_flag {
                        not_model(*catalog, pv, pre).push(index)
                    } else {
                        not_model(*catalog, pv, pre)
                    });
                    assert(general_model(*catalog, cur) =~= general_model(*catalog, pre));
                    assert(boss_model(*catalog, pv, cur) =~= boss_model(*catalog, pv, pre));
                }
            },
        }
    }
    proof {
        assert(lm.subrange(0, n as int) =~= lm);
    }
    let report = ErrorReport {
        date_lines: date_error_lines,
        boss_lines: boss_vec,
        at_lines: at_vec,
        not_lines: not_vec,
        single_lines: single_vec,
        general_lines: general_vec,
    };
    if report.has_errors() {
        Err(report)
    } else {
        Ok(parsed)
    }
}

} // verus!
