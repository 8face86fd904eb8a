use vstd::prelude::*;

verus! {

/// Appends one character to a string.
/// Relies on std's String::push: the documentation says it appends the given
/// char to the end of this String.
pub assume_specification[ String::push ](s: &mut String, c: char)
    ensures
        final(s)@ == old(s)@.push(c),
;

/// The lowercase form of an ASCII letter; any other character is unchanged.
pub open spec fn lower_char(c: char) -> char {
    match c {
        'A' => 'a',
        'B' => 'b',
        'C' => 'c',
        'D' => 'd',
        'E' => 'e',
        'F' => 'f',
        'G' => 'g',
        'H' => 'h',
        'I' => 'i',
        'J' => 'j',
        'K' => 'k',
        'L' => 'l',
        'M' => 'm',
        'N' => 'n',
        'O' => 'o',
        'P' => 'p',
        'Q' => 'q',
        'R' => 'r',
        'S' => 's',
        'T' => 't',
        'U' => 'u',
        'V' => 'v',
        'W' => 'w',
        'X' => 'x',
        'Y' => 'y',
        'Z' => 'z',
        _ => c,
    }
}

/// Character-wise ASCII lowercasing of a character sequence.
pub open spec fn lower_seq(s: Seq<char>) -> Seq<char> {
    s.map_values(|c: char| lower_char(c))
}

pub fn lower_char_exec(c: char) -> (r: char)
    ensures
        r == lower_char(c),
{
    match c {
        'A' => 'a',
        'B' => 'b',
        'C' => 'c',
        'D' => 'd',
        'E' => 'e',
        'F' => 'f',
        'G' => 'g',
        'H' => 'h',
        'I' => 'i',
        'J' => 'j',
        'K' => 'k',
        'L' => 'l',
        'M' => 'm',
        'N' => 'n',
        'O' => 'o',
        'P' => 'p',
        'Q' => 'q',
        'R' => 'r',
        'S' => 's',
        'T' => 't',
        'U' => 'u',
        'V' => 'v',
        'W' => 'w',
        'X' => 'x',
        'Y' => 'y',
        'Z' => 'z',
        _ => c,
    }
}

/// The characters of a string slice, in order.
pub fn chars_of(s: &str) -> (v: Vec<char>)
    ensures
        v@ == s@,
{
    let n: usize = s.unicode_len();
    let mut v: Vec<char> = Vec::new();
    for i in 0..n
        invariant
            n == s@.len(),
            v@ == s@.subrange(0, i as int),
    {
        v.push(s.get_char(i));
        proof {
            assert(v@ =~= s@.subrange(0, i + 1));
        }
    }
    proof {
        assert(v@ =~= s@);
    }
    v
}

/// A freshly allocated string holding exactly the given characters.
pub fn string_of(v: &Vec<char>) -> (s: String)
    ensures
        s@ == v@,
{
    let mut s: String = String::new();
    let n: usize = v.len();
    for i in 0..n
        invariant
            n == v@.len(),
            s@ == v@.subrange(0, i as int),
    {
        s.push(v[i]);
        proof {
            assert(s@ =~= v@.subrange(0, i + 1));
        }
    }
    proof {
        assert(s@ =~= v@);
    }
    s
}

/// The ASCII-lowercased characters of a string slice.
pub fn lower_chars_of(s: &str) -> (v: Vec<char>)
    ensures
        v@ == lower_seq(s@),
{
    let n: usize = s.unicode_len();
    let mut v: Vec<char> = Vec::new();
    for i in 0..n
        invariant
            n == s@.len(),
            v@ == lower_seq(s@).subrange(0, i as int),
    {
        v.push(lower_char_exec(s.get_char(i)));
        proof {
            assert(v@ =~= lower_seq(s@).subrange(0, i + 1));
        }
    }
    proof {
        assert(v@ =~= lower_seq(s@));
    }
    v
}

pub fn eq_chars(a: &Vec<char>, b: &Vec<char>) -> (r: bool)
    ensures
        r <==> a@ == b@,
{
    if a.len() != b.len() {
        proof {
            assert(a@ != b@);
        }
        return false;
    }
    let n: usize = a.len();
    for i in 0..n
        invariant
            n == a@.len() && n == b@.len(),
            forall|j: int| 0 <= j < i ==> a@[j] == b@[j],
    {
        if a[i] != b[i] {
            return false;
        }
    }
    proof {
        assert(a@ =~= b@);
    }
    true
}

/// Whether a string slice holds exactly the given characters.
pub fn str_eq_chars(s: &str, b: &Vec<char>) -> (r: bool)
    ensures
        r <==> s@ == b@,
{
    let n: usize = s.unicode_len();
    if n != b.len() {
        proof {
            assert(s@ != b@);
        }
        return false;
    }
    for i in 0..n
        invariant
            n == s@.len() && n == b@.len(),
            forall|j: int| 0 <= j < i ==> s@[j] == b@[j],
    {
        if s.get_char(i) != b[i] {
            return false;
        }
    }
    proof {
        assert(s@ =~= b@);
    }
    true
}

/// The deep view of a vector of strings indexes to the view of each string.
pub proof fn lemma_deep_view_strings(v: Vec<String>)
    ensures
        v.deep_view().len() == v@.len(),
        forall|i: int| 0 <= i < v@.len() ==> #[trigger] v.deep_view()[i] == v@[i]@,
{
    assert(v.deep_view().len() == v@.len());
}

/// Compares two string slices character for character.
pub fn str_eq_str(a: &str, b: &str) -> (r: bool)
    ensures
        r <==> a@ == b@,
{
    let n: usize = a.unicode_len();
    if n != b.unicode_len() {
        proof {
            assert(a@ != b@);
        }
        return false;
    }
    for i in 0..n
        invariant
            n == a@.len() && n == b@.len(),
            forall|j: int| 0 <= j < i ==> a@[j] == b@[j],
    {
        if a.get_char(i) != b.get_char(i) {
            return false;
        }
    }
    proof {
        assert(a@ =~= b@);
    }
    true
}

/// Whether `sub` occurs in `s` starting at position `i`.
pub open spec fn occurs_at(s: Seq<char>, sub: Seq<char>, i: int) -> bool {
    0 <= i && i + sub.len() <= s.len() && s.subrange(i, i + sub.len()) == sub
}

/// Whether `sub` occurs anywhere in `s` as a contiguous substring.
pub open spec fn contains_seq(s: Seq<char>, sub: Seq<char>) -> bool {
    exists|i: int| occurs_at(s, sub, i)
}

fn matches_at(s: &Vec<char>, sub: &Vec<char>, i: usize) -> (r: bool)
    requires
        i + sub@.len() <= s@.len(),
    ensures
        r <==> occurs_at(s@, sub@, i as int),
{
    let m: usize = sub.len();
    let n: usize = s.len();
    for j in 0..m
        invariant
            i + m <= n && m == sub@.len() && n == s@.len(),
            forall|k: int| 0 <= k < j ==> s@[i + k] == sub@[k],
    {
        if s[i + j] != sub[j] {
            proof {
                assert(s@.subrange(i as int, i + sub@.len())[j as int] == s@[i + j]);
            }
            return false;
        }
    }
    proof {
        assert(s@.subrange(i as int, i + sub@.len()) =~= sub@);
    }
    true
}

/// Naive substring search.
pub fn contains_chars(s: &Vec<char>, sub: &Vec<char>) -> (r: bool)
    ensures
        r <==> contains_seq(s@, sub@),
{
    if sub.len() > s.len() {
        proof {
            assert(forall|i: int| !occurs_at(s@, sub@, i));
        }
        return false;
    }
    if sub.len() == 0 {
        proof {
            assert(s@.subrange(0, 0) =~= sub@);
            assert(occurs_at(s@, sub@, 0));
        }
        return true;
    }
    let end: usize = s.len() - sub.len() + 1;
    for i in 0..end
        invariant
            0 < sub@.len() <= s@.len(),
            end == s@.len() - sub@.len() + 1,
            forall|k: int| 0 <= k < i ==> !occurs_at(s@, sub@, k),
    {
        if matches_at(s, sub, i) {
            return true;
        }
    }
    proof {
        assert(forall|i: int| i >= end ==> !occurs_at(s@, sub@, i));
    }
    false
}

/// Copies the characters of `v` from `from` (inclusive) to `to` (exclusive).
pub fn copy_range(v: &Vec<char>, from: usize, to: usize) -> (r: Vec<char>)
    requires
        from <= to && to <= v@.len(),
    ensures
        r@ == v@.subrange(from as int, to as int),
{
    let mut r: Vec<char> = Vec::new();
    for i in from..to
        invariant
            from <= i <= to && to <= v@.len(),
            r@ == v@.subrange(from as int, i as int),
    {
        r.push(v[i]);
        proof {
            assert(r@ =~= v@.subrange(from as int, i + 1));
        }
    }
    r
}

pub open spec fn is_digit(c: char) -> bool {
    '0' <= c && c <= '9'
}

pub fn is_digit_exec(c: char) -> (r: bool)
    ensures
        r == is_digit(c),
{
    '0' <= c && c <= '9'
}

/// The numeric value of a decimal digit character.
pub open spec fn digit_val(c: char) -> int {
    match c {
        '0' => 0,
        '1' => 1,
        '2' => 2,
        '3' => 3,
        '4' => 4,
        '5' => 5,
        '6' => 6,
        '7' => 7,
        '8' => 8,
        '9' => 9,
        _ => 0,
    }
}

pub fn digit_val_exec(c: char) -> (r: u64)
    ensures
        r == digit_val(c),
        r <= 9,
{
    match c {
        '0' => 0,
        '1' => 1,
        '2' => 2,
        '3' => 3,
        '4' => 4,
        '5' => 5,
        '6' => 6,
        '7' => 7,
        '8' => 8,
        '9' => 9,
        _ => 0,
    }
}

/// The value of a run of decimal digits, most significant first.
pub open spec fn digits_val(s: Seq<char>) -> int
    decreases s.len(),
{
    if s.len() == 0 {
        0
    } else {
        digits_val(s.drop_last()) * 10 + digit_val(s.last())
    }
}

/// A cap on parsed numeric levels: any level at or above it compares the same
/// way against every configured tier threshold.
pub const LEVEL_CAP: u64 = 2_000_000_000_000;

/// Parses a run of digits, saturating at `LEVEL_CAP`.
pub fn digits_val_sat(s: &Vec<char>, from: usize, to: usize) -> (r: u64)
    requires
        from <= to && to <= s@.len(),
        forall|k: int| from <= k < to ==> is_digit(#[trigger] s@[k]),
    ensures
        r == digits_val(s@.subrange(from as int, to as int)) || (r == LEVEL_CAP
            && digits_val(s@.subrange(from as int, to as int)) >= LEVEL_CAP),
        r <= LEVEL_CAP,
{
    let mut acc: u64 = 0;
    let ghost whole = s@.subrange(from as int, to as int);
    for i in from..to
        invariant
            from <= i <= to && to <= s@.len(),
            whole == s@.subrange(from as int, to as int),
            forall|k: int| from <= k < to ==> is_digit(#[trigger] s@[k]),
            acc == digits_val(s@.subrange(from as int, i as int)) || (acc == LEVEL_CAP
                && digits_val(s@.subrange(from as int, i as int)) >= LEVEL_CAP),
            acc <= LEVEL_CAP,
    {
        let ghost pre = s@.subrange(from as int, i as int);
        let ghost cur = s@.subrange(from as int, i + 1);
        proof {
            assert(cur.drop_last() =~= pre);
            assert(cur.last() == s@[i as int]);
            lemma_digits_val_nonneg(pre);
        }
        let d: u64 = digit_val_exec(s[i]);
        if acc >= LEVEL_CAP / 10 {
            proof {
                if acc < LEVEL_CAP {
                    assert(digits_val(cur) == digits_val(pre) * 10 + digit_val(cur.last()));
                    assert(digits_val(pre) * 10 >= (LEVEL_CAP / 10) * 10) by (nonlinear_arith)
                        requires
                            digits_val(pre) >= LEVEL_CAP / 10,
                    ;
                }
            }
            acc = LEVEL_CAP;
        } else {
            acc = acc * 10 + d;
        }
    }
    proof {
        assert(s@.subrange(from as int, to as int) =~= whole);
    }
    acc
}

pub proof fn lemma_digits_val_nonneg(s: Seq<char>)
    ensures
        digits_val(s) >= 0,
    decreases s.len(),
{
    if s.len() > 0 {
        lemma_digits_val_nonneg(s.drop_last());
        assert(digits_val(s.drop_last()) * 10 >= 0) by (nonlinear_arith)
            requires
                digits_val(s.drop_last()) >= 0,
        ;
    }
}

/// The sequence with any trailing decimal digits removed.
pub open spec fn trim_digits(s: Seq<char>) -> Seq<char>
    decreases s.len(),
{
    if s.len() > 0 && is_digit(s.last()) {
        trim_digits(s.drop_last())
    } else {
        s
    }
}

/// Removes trailing decimal digits.
pub fn trim_digits_exec(v: &Vec<char>) -> (r: Vec<char>)
    ensures
        r@ == trim_digits(v@),
{
    let mut end: usize = v.len();
    proof {
        assert(v@.subrange(0, v@.len() as int) =~= v@);
    }
    while end > 0 && is_digit_exec(v[end - 1])
        invariant
            end <= v@.len(),
            trim_digits(v@) == trim_digits(v@.subrange(0, end as int)),
        decreases end,
    {
        proof {
            let cur = v@.subrange(0, end as int);
            assert(cur.last() == v@[end - 1]);
            assert(cur.drop_last() =~= v@.subrange(0, end - 1));
        }
        end = end - 1;
    }
    let mut r: Vec<char> = Vec::new();
    for i in 0..end
        invariant
            end <= v@.len(),
            trim_digits(v@) == trim_digits(v@.subrange(0, end as int)),
            end > 0 ==> !is_digit(v@[end - 1]),
            r@ == v@.subrange(0, i as int),
    {
        r.push(v[i]);
        proof {
            assert(r@ =~= v@.subrange(0, i + 1));
        }
    }
    proof {
        let cur = v@.subrange(0, end as int);
        if end > 0 {
            assert(cur.last() == v@[end - 1]);
        }
        assert(trim_digits(cur) == cur);
        assert(r@ =~= cur);
    }
    r
}

/// Whether every character of the sequence is a decimal digit.
pub open spec fn all_digits(s: Seq<char>) -> bool {
    forall|i: int| 0 <= i < s.len() ==> is_digit(#[trigger] s[i])
}

pub fn all_digits_exec(v: &Vec<char>) -> (r: bool)
    ensures
        r == all_digits(v@),
{
    let n: usize = v.len();
    for i in 0..n
        invariant
            n == v@.len(),
            forall|j: int| 0 <= j < i ==> is_digit(#[trigger] v@[j]),
    {
        if !is_digit_exec(v[i]) {
            return false;
        }
    }
    true
}

} // verus!

verus! {

/// Strict lexicographic order on character sequences, by code point.
pub open spec fn lex_lt(a: Seq<char>, b: Seq<char>) -> bool
    decreases a.len(),
{
    if b.len() == 0 {
        false
    } else if a.len() == 0 {
        true
    } else if a.first() < b.first() {
        true
    } else if b.first() < a.first() {
        false
    } else {
        lex_lt(a.drop_first(), b.drop_first())
    }
}

pub proof fn lemma_lex_lt_irreflexive(a: Seq<char>)
    ensures
        !lex_lt(a, a),
    decreases a.len(),
{
    if a.len() > 0 {
        lemma_lex_lt_irreflexive(a.drop_first());
    }
}

pub proof fn lemma_lex_lt_total(a: Seq<char>, b: Seq<char>)
    ensures
        lex_lt(a, b) || lex_lt(b, a) || a == b,
    decreases a.len(),
{
    if a.len() > 0 && b.len() > 0 && a.first() == b.first() {
        lemma_lex_lt_total(a.drop_first(), b.drop_first());
        if a.drop_first() == b.drop_first() {
            assert(a.drop_first().len() == b.drop_first().len());
            assert(a.len() == b.len());
            assert forall|i: int| 0 <= i < a.len() implies a[i] == b[i] by {
                if i > 0 {
                    assert(a.drop_first()[i - 1] == a[i]);
                    assert(b.drop_first()[i - 1] == b[i]);
                }
            };
            assert(a =~= b);
        }
    }
}

pub proof fn lemma_lex_lt_trans(a: Seq<char>, b: Seq<char>, c: Seq<char>)
    requires
        lex_lt(a, b),
        lex_lt(b, c),
    ensures
        lex_lt(a, c),
    decreases a.len(),
{
    if a.len() > 0 && b.len() > 0 && c.len() > 0 && a.first() == b.first() && b.first()
        == c.first() {
        lemma_lex_lt_trans(a.drop_first(), b.drop_first(), c.drop_first());
    }
}

/// Compares two string slices in lexicographic order.
pub fn lex_lt_str(a: &str, b: &str) -> (r: bool)
    ensures
        r == lex_lt(a@, b@),
{
    let an: usize = a.unicode_len();
    let bn: usize = b.unicode_len();
    let mut i: usize = 0;
    proof {
        assert(a@.skip(0) =~= a@);
        assert(b@.skip(0) =~= b@);
    }
    while i < an && i < bn && a.get_char(i) == b.get_char(i)
        invariant
            i <= an && i <= bn,
            an == a@.len() && bn == b@.len(),
            lex_lt(a@, b@) == lex_lt(a@.skip(i as int), b@.skip(i as int)),
        decreases an - i,
    {
        proof {
            assert(a@.skip(i as int).first() == a@[i as int]);
            assert(b@.skip(i as int).first() == b@[i as int]);
            assert(a@.skip(i as int).drop_first() =~= a@.skip(i + 1));
            assert(b@.skip(i as int).drop_first() =~= b@.skip(i + 1));
        }
        i = i + 1;
    }
    proof {
        if i < an {
            assert(a@.skip(i as int).first() == a@[i as int]);
        }
        if i < bn {
            assert(b@.skip(i as int).first() == b@[i as int]);
        }
        if i == an {
            assert(a@.skip(i as int).len() == 0);
        }
        if i == bn {
            assert(b@.skip(i as int).len() == 0);
        }
    }
    if i == an {
        i < bn
    } else if i == bn {
        false
    } else {
        a.get_char(i) < b.get_char(i)
    }
}

} // verus!
