//! File mode bits from the text of `--mode`: an octal number, or
//! comma-separated symbolic clauses such as `u+x` or `go=r`.

use vstd::prelude::*;
use vstd::string::*;

use crate::paths::{lemma_split_extend, lemma_split_shape, split_on, split_text};

verus! {

/// The largest mode that a number may give: every permission bit with the
/// set-user-ID, set-group-ID and sticky bits.
pub const MAX_NUMERIC_MODE: u32 = 0o7777;

pub open spec fn is_octal_digit(c: char) -> bool {
    '0' <= c && c <= '7'
}

/// The value of a string of octal digits.
pub open spec fn octal_value(s: Seq<char>) -> nat
    decreases s.len(),
{
    if s.len() == 0 {
        0
    } else {
        (octal_value(s.drop_last()) * 8 + (s.last() as nat - '0' as nat)) as nat
    }
}

/// A mode written as a number: one or more octal digits, of value at most
/// `MAX_NUMERIC_MODE`.
pub open spec fn is_numeric_mode(s: Seq<char>) -> bool {
    &&& s.len() > 0
    &&& forall|i: int| 0 <= i < s.len() ==> is_octal_digit(#[trigger] s[i])
    &&& octal_value(s) <= MAX_NUMERIC_MODE
}

/// `u`, `g`, `o` or `a`: whose permissions a clause changes.
pub open spec fn is_who(c: char) -> bool {
    c == 'u' || c == 'g' || c == 'o' || c == 'a'
}

/// `-`, `=` or `+`: how a clause changes them.
pub open spec fn is_op(c: char) -> bool {
    c == '-' || c == '=' || c == '+'
}

/// `r`, `w` or `x`: which permissions a clause names.
pub open spec fn is_perm(c: char) -> bool {
    c == 'r' || c == 'w' || c == 'x'
}

/// `clause` is a run of `u`, `g`, `o`, `a`, then the operator at `k`, then a
/// run of `r`, `w`, `x`.
pub open spec fn op_at(clause: Seq<char>, k: int) -> bool {
    &&& 0 <= k < clause.len()
    &&& is_op(clause[k])
    &&& forall|j: int| 0 <= j < k ==> is_who(#[trigger] clause[j])
    &&& forall|j: int| k < j < clause.len() ==> is_perm(#[trigger] clause[j])
}

/// A symbolic clause: who, one operator, permissions.
pub open spec fn is_symbolic_clause(clause: Seq<char>) -> bool {
    exists|k: int| op_at(clause, k)
}

/// The permissions a clause names, as one octal digit: read 4, write 2,
/// execute 1.
pub open spec fn perm_digit(clause: Seq<char>) -> u32 {
    ((if clause.contains('r') { 4int } else { 0 }) + (if clause.contains('w') { 2int } else { 0 })
        + (if clause.contains('x') { 1int } else { 0 })) as u32
}

/// The mode bits a clause names: its permissions for the user (`u`), the
/// group (`g`) and others (`o`) that it names, `a` naming all three.
pub open spec fn clause_bits(clause: Seq<char>) -> u32 {
    let p = perm_digit(clause);
    let all = clause.contains('a');
    ((if all || clause.contains('u') { p * 64 } else { 0 }) + (if all || clause.contains('g') {
        p * 8
    } else {
        0
    }) + (if all || clause.contains('o') { p } else { 0 })) as u32
}

/// A clause applied to `mode`: `+` adds its bits, `-` removes them, `=` sets
/// the mode to them.
pub open spec fn apply_clause(mode: u32, clause: Seq<char>) -> u32 {
    if clause.contains('+') {
        mode | clause_bits(clause)
    } else if clause.contains('-') {
        mode & !clause_bits(clause)
    } else {
        clause_bits(clause)
    }
}

/// The clauses applied in order, starting from no permission at all.
pub open spec fn symbolic_mode(clauses: Seq<Seq<char>>) -> u32
    decreases clauses.len(),
{
    if clauses.len() == 0 {
        0
    } else {
        apply_clause(symbolic_mode(clauses.drop_last()), clauses.last())
    }
}

/// The mode that the text of `--mode` gives: a number read in octal, or the
/// clauses between commas applied in order; `None` where the text is
/// neither.
pub open spec fn spec_parse_mode(s: Seq<char>) -> Option<u32> {
    if is_numeric_mode(s) {
        Some(octal_value(s) as u32)
    } else if forall|i: int|
        0 <= i < split_on(s, ',').len() ==> is_symbolic_clause(#[trigger] split_on(s, ',')[i]) {
        Some(symbolic_mode(split_on(s, ',')))
    } else {
        None
    }
}

/// Whether `ch` occurs in `s`.
fn has_char(s: &str, ch: char) -> (found: bool)
    ensures
        found == s@.contains(ch),
{
    let n = s.unicode_len();
    let mut i: usize = 0;
    while i < n
        invariant
            n == s@.len(),
            i <= n,
            forall|j: int| 0 <= j < i ==> s@[j] != ch,
        decreases n - i,
    {
        if s.get_char(i) == ch {
            assert(s@[i as int] == ch);
            return true;
        }
        i = i + 1;
    }
    false
}

/// Whether `c` names whose permissions change.
fn who_char(c: char) -> (who: bool)
    ensures
        who == is_who(c),
{
    c == 'u' || c == 'g' || c == 'o' || c == 'a'
}

/// Whether `clause` is a symbolic clause.
fn check_clause(clause: &str) -> (valid: bool)
    ensures
        valid == is_symbolic_clause(clause@),
{
    let n = clause.unicode_len();
    let mut k: usize = 0;
    while k < n && who_char(clause.get_char(k))
        invariant
            n == clause@.len(),
            k <= n,
            forall|j: int| 0 <= j < k ==> is_who(#[trigger] clause@[j]),
        decreases n - k,
    {
        k = k + 1;
    }
    assert(k == n || !is_who(clause@[k as int]));
    let found_op = if k < n {
        let c = clause.get_char(k);
        c == '-' || c == '=' || c == '+'
    } else {
        false
    };
    if !found_op {
        assert(!is_symbolic_clause(clause@)) by {
            if exists|k2: int| op_at(clause@, k2) {
                let k2 = choose|k2: int| op_at(clause@, k2);
                if k2 < k {
                    assert(is_who(clause@[k2]));
                } else if k2 > k {
                    assert(is_who(clause@[k as int]));
                }
            }
        }
        return false;
    }
    let mut j: usize = k + 1;
    while j < n
        invariant
            n == clause@.len(),
            k < j <= n,
            is_op(clause@[k as int]),
            forall|m: int| 0 <= m < k ==> is_who(#[trigger] clause@[m]),
            forall|m: int| k < m < j ==> is_perm(#[trigger] clause@[m]),
        decreases n - j,
    {
        let c = clause.get_char(j);
        if !(c == 'r' || c == 'w' || c == 'x') {
            assert(!is_symbolic_clause(clause@)) by {
                if exists|k2: int| op_at(clause@, k2) {
                    let k2 = choose|k2: int| op_at(clause@, k2);
                    if k2 < k {
                        assert(is_who(clause@[k2]));
                    } else if k2 > k {
                        assert(is_who(clause@[k as int]));
                    } else {
                        assert(is_perm(clause@[j as int]));
                    }
                }
            }
            return false;
        }
        j = j + 1;
    }
    assert(op_at(clause@, k as int));
    true
}

/// The mode bits that `clause` names.
fn bits_of_clause(clause: &str) -> (bits: u32)
    ensures
        bits == clause_bits(clause@),
{
    let p: u32 = (if has_char(clause, 'r') { 4 } else { 0 }) + (if has_char(clause, 'w') {
        2
    } else {
        0
    }) + (if has_char(clause, 'x') { 1 } else { 0 });
    let all = has_char(clause, 'a');
    let u: u32 = if all || has_char(clause, 'u') { p * 64 } else { 0 };
    let g: u32 = if all || has_char(clause, 'g') { p * 8 } else { 0 };
    let o: u32 = if all || has_char(clause, 'o') { p } else { 0 };
    u + g + o
}

/// Reads the text of `--mode`: a number of octal digits, at most
/// `MAX_NUMERIC_MODE`, or symbolic clauses separated by commas, each applied
/// in turn to a mode that starts with no permission. `None` where the text
/// is neither.
pub fn parse_mode(text: &str) -> (mode: Option<u32>)
    ensures
        mode == spec_parse_mode(text@),
{
    let n = text.unicode_len();
    let mut all_digits = n > 0;
    let mut value: u32 = 0;
    let mut i: usize = 0;
    while i < n && all_digits
        invariant
            n == text@.len(),
            i <= n,
            all_digits ==> n > 0,
            all_digits ==> forall|j: int| 0 <= j < i ==> is_octal_digit(#[trigger] text@[j]),
            all_digits ==> value as int == if octal_value(text@.take(i as int))
                <= MAX_NUMERIC_MODE {
                octal_value(text@.take(i as int)) as int
            } else {
                MAX_NUMERIC_MODE + 1
            },
            !all_digits ==> !is_numeric_mode(text@),
        decreases n - i + (if all_digits { 1int } else { 0 }),
    {
        let c = text.get_char(i);
        if '0' <= c && c <= '7' {
            let d = (c as u32) - ('0' as u32);
            proof {
                let prefix = text@.take(i + 1);
                assert(prefix.drop_last() =~= text@.take(i as int));
                assert(prefix.last() == c);
            }
            value = if value > MAX_NUMERIC_MODE || value * 8 + d > MAX_NUMERIC_MODE {
                MAX_NUMERIC_MODE + 1
            } else {
                value * 8 + d
            };
            i = i + 1;
        } else {
            all_digits = false;
        }
    }
    if all_digits {
        assert(text@.take(n as int) =~= text@);
        if value <= MAX_NUMERIC_MODE {
            return Some(value);
        }
        proof {
            lemma_split_extend(Seq::empty(), text@, ',');
            assert(Seq::<char>::empty() + text@ =~= text@);
            assert(split_on(Seq::<char>::empty(), ',') =~= seq![Seq::<char>::empty()]);
            assert(split_on(text@, ',')[0] =~= text@);
            if is_symbolic_clause(text@) {
                let k = choose|k: int| op_at(text@, k);
                assert(is_octal_digit(text@[k]));
            }
        }
        return None;
    }
    let clauses = split_text(text, ',');
    let mut mode: u32 = 0;
    let mut k: usize = 0;
    assert(clauses.deep_view().take(0) =~= Seq::<Seq<char>>::empty());
    while k < clauses.len()
        invariant
            !is_numeric_mode(text@),
            clauses.deep_view() == split_on(text@, ','),
            k <= clauses.len(),
            forall|m: int| 0 <= m < k ==> is_symbolic_clause(#[trigger] clauses.deep_view()[m]),
            mode == symbolic_mode(clauses.deep_view().take(k as int)),
        decreases clauses.len() - k,
    {
        let clause = clauses[k].as_str();
        assert(clause@ == clauses.deep_view()[k as int]);
        if !check_clause(clause) {
            return None;
        }
        let bits = bits_of_clause(clause);
        mode = if has_char(clause, '+') {
            mode | bits
        } else if has_char(clause, '-') {
            mode & !bits
        } else {
            bits
        };
        assert(clauses.deep_view().take(k + 1).drop_last() =~= clauses.deep_view().take(k as int));
        k = k + 1;
    }
    assert(clauses.deep_view().take(clauses.len() as int) =~= clauses.deep_view());
    Some(mode)
}

/// The operator of a symbolic clause is its only character that is `-`, `=`
/// or `+`.
pub proof fn lemma_clause_operator(clause: Seq<char>, k: int, c: char)
    requires
        op_at(clause, k),
        is_op(c),
    ensures
        clause.contains(c) <==> clause[k] == c,
{
    if clause.contains(c) {
        let j = choose|j: int| 0 <= j < clause.len() && clause[j] == c;
        if j < k {
            assert(is_who(clause[j]));
        } else if j > k {
            assert(is_perm(clause[j]));
        }
    }
}

/// A `-` clause only clears bits: whatever the mode it is applied to, the
/// result holds none of the clause's bits and no bit that the mode lacked,
/// and it keeps every other bit of the mode.
pub proof fn lemma_minus_clause_clears(mode: u32, clause: Seq<char>, k: int)
    requires
        op_at(clause, k),
        clause[k] == '-',
    ensures
        apply_clause(mode, clause) & clause_bits(clause) == 0,
        apply_clause(mode, clause) | mode == mode,
        apply_clause(mode, clause) & !clause_bits(clause) == mode & !clause_bits(clause),
{
    lemma_clause_operator(clause, k, '+');
    lemma_clause_operator(clause, k, '-');
    let b = clause_bits(clause);
    let r = apply_clause(mode, clause);
    assert(r == mode & !b);
    assert((mode & !b) & b == 0) by (bit_vector);
    assert((mode & !b) | mode == mode) by (bit_vector);
    assert((mode & !b) & !b == mode & !b) by (bit_vector);
}

/// A `+` clause only sets bits: the result holds every bit of the clause,
/// and outside the clause's bits it equals the mode, so adding bits that
/// are already present changes nothing.
pub proof fn lemma_plus_clause_sets(mode: u32, clause: Seq<char>, k: int)
    requires
        op_at(clause, k),
        clause[k] == '+',
    ensures
        apply_clause(mode, clause) & clause_bits(clause) == clause_bits(clause),
        apply_clause(mode, clause) & !clause_bits(clause) == mode & !clause_bits(clause),
        mode & clause_bits(clause) == clause_bits(clause) ==> apply_clause(mode, clause) == mode,
        apply_clause(mode, clause) | mode == apply_clause(mode, clause),
{
    lemma_clause_operator(clause, k, '+');
    let b = clause_bits(clause);
    let r = apply_clause(mode, clause);
    assert(r == mode | b);
    assert((mode | b) & b == b) by (bit_vector);
    assert((mode | b) & !b == mode & !b) by (bit_vector);
    assert(mode & b == b ==> (mode | b) == mode) by (bit_vector);
    assert((mode | b) | mode == mode | b) by (bit_vector);
}

/// A `=` clause sets the mode to the clause's bits, whatever it was before.
pub proof fn lemma_equals_clause_replaces(mode: u32, other: u32, clause: Seq<char>, k: int)
    requires
        op_at(clause, k),
        clause[k] == '=',
    ensures
        apply_clause(mode, clause) == apply_clause(other, clause),
        apply_clause(mode, clause) == clause_bits(clause),
{
    lemma_clause_operator(clause, k, '+');
    lemma_clause_operator(clause, k, '-');
}

/// Appending a comma and one more symbolic clause to a symbolic mode applies
/// that clause to the mode the text gave before.
pub proof fn lemma_parse_mode_appends_clause(text: Seq<char>, clause: Seq<char>)
    requires
        spec_parse_mode(text) is Some,
        !is_numeric_mode(text),
        is_symbolic_clause(clause),
    ensures
        spec_parse_mode(text + seq![','] + clause) == Some(apply_clause(
            spec_parse_mode(text)->0,
            clause,
        )),
{
    let longer = text + seq![','] + clause;
    let k = choose|k: int| op_at(clause, k);
    assert forall|j: int| 0 <= j < clause.len() implies clause[j] != ',' by {
        if j < k {
            assert(is_who(clause[j]));
        } else if j > k {
            assert(is_perm(clause[j]));
        }
    }
    let stem = text + seq![','];
    assert(stem.drop_last() =~= text);
    assert(stem.last() == ',');
    lemma_split_extend(stem, clause, ',');
    lemma_split_shape(text, ',');
    assert(Seq::<char>::empty() + clause =~= clause);
    let before = split_on(text, ',');
    assert(split_on(stem, ',') == before.push(Seq::empty()));
    assert(split_on(longer, ',') =~= before.push(clause));
    assert(!is_numeric_mode(longer)) by {
        assert(longer[text.len() as int] == ',');
    }
    let after = split_on(longer, ',');
    assert(after.drop_last() =~= before);
    assert forall|i: int| 0 <= i < after.len() implies is_symbolic_clause(#[trigger] after[i]) by {
        if i < before.len() {
            assert(after[i] == before[i]);
        }
    }
}

/// Once the text of a mode is not a number, adding a `-` clause gives a mode
/// that holds none of the clause's bits and no bit beyond the earlier mode.
pub proof fn lemma_parse_mode_minus(text: Seq<char>, clause: Seq<char>, k: int)
    requires
        spec_parse_mode(text) is Some,
        !is_numeric_mode(text),
        op_at(clause, k),
        clause[k] == '-',
    ensures
        spec_parse_mode(text + seq![','] + clause) matches Some(r) && r & clause_bits(clause) == 0
            && r | spec_parse_mode(text)->0 == spec_parse_mode(text)->0,
{
    lemma_parse_mode_appends_clause(text, clause);
    lemma_minus_clause_clears(spec_parse_mode(text)->0, clause, k);
}

/// Once the text of a mode is not a number, adding a `+` clause gives a mode
/// that holds the clause's bits and equals the earlier mode elsewhere.
pub proof fn lemma_parse_mode_plus(text: Seq<char>, clause: Seq<char>, k: int)
    requires
        spec_parse_mode(text) is Some,
        !is_numeric_mode(text),
        op_at(clause, k),
        clause[k] == '+',
    ensures
        spec_parse_mode(text + seq![','] + clause) matches Some(r) && r & clause_bits(clause)
            == clause_bits(clause) && r & !clause_bits(clause) == spec_parse_mode(text)->0
            & !clause_bits(clause),
{
    lemma_parse_mode_appends_clause(text, clause);
    lemma_plus_clause_sets(spec_parse_mode(text)->0, clause, k);
}

} // verus!
