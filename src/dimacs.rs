use std::collections::{HashMap, HashSet};
use crate::sat::{Clause, Formula};
use vstd::prelude::*;
use vstd::std_specs::iter::IteratorSpec;

verus! {

broadcast use vstd::std_specs::hash::group_hash_axioms;

/// Where the reader of a clause line stands: between numbers, after a sign,
/// or inside the digits of a number (its magnitude so far).
pub enum Token {
    Between,
    Sign { negative: bool },
    Digits { negative: bool, value: u32 },
}

/// The largest magnitude that a literal may have (that of `i32::MAX`).
pub const MAX_LITERAL: u32 = 2147483647;

/// The characters of Unicode's White_Space property, which separate the
/// numbers of a clause line.
pub open spec fn is_blank(c: char) -> bool {
    let n = c as u32;
    (9 <= n <= 13) || n == 32 || n == 0x85 || n == 0xa0 || n == 0x1680 || (0x2000 <= n <= 0x200a)
        || n == 0x2028 || n == 0x2029 || n == 0x202f || n == 0x205f || n == 0x3000
}

/// An ASCII decimal digit.
pub open spec fn is_digit(c: char) -> bool {
    48 <= c as u32 <= 57
}

/// True when `c` separates the numbers of a clause line.
pub fn is_blank_char(c: char) -> (r: bool)
    ensures
        r == is_blank(c),
{
    let n = c as u32;
    (9 <= n && n <= 13) || n == 32 || n == 0x85 || n == 0xa0 || n == 0x1680 || (0x2000 <= n && n
        <= 0x200a) || n == 0x2028 || n == 0x2029 || n == 0x202f || n == 0x205f || n == 0x3000
}

/// Adds the literal `±value` to a clause: `+n` requires literal `n - 1` to be
/// true and `-n` requires it to be false. The number 0 adds nothing.
pub open spec fn add_literal(literals: Map<usize, bool>, negative: bool, value: u32) -> Map<usize, bool> {
    if value == 0 {
        literals
    } else {
        literals.insert((value - 1) as usize, !negative)
    }
}

/// One character of a clause line read in the given state; `None` when the
/// line is malformed (a stray character or sign, or a magnitude over
/// `MAX_LITERAL`).
pub open spec fn step(literals: Map<usize, bool>, token: Token, b: char) -> Option<(Map<usize, bool>, Token)> {
    if is_blank(b) {
        match token {
            Token::Between => Some((literals, Token::Between)),
            Token::Sign { .. } => None,
            Token::Digits { negative, value } => Some((add_literal(literals, negative, value), Token::Between)),
        }
    } else if b == '-' || b == '+' {
        match token {
            Token::Between => Some((literals, Token::Sign { negative: b == '-' })),
            _ => None,
        }
    } else if is_digit(b) {
        let d = (b as u32 - 48) as u32;
        match token {
            Token::Between => Some((literals, Token::Digits { negative: false, value: d })),
            Token::Sign { negative } => Some((literals, Token::Digits { negative, value: d })),
            Token::Digits { negative, value } => if value * 10 + d <= MAX_LITERAL {
                Some((literals, Token::Digits { negative, value: (value * 10 + d) as u32 }))
            } else {
                None
            },
        }
    } else {
        None
    }
}

/// The state after reading the characters `s` of a clause line from the
/// start.
pub open spec fn scan(s: Seq<char>) -> Option<(Map<usize, bool>, Token)>
    decreases s.len(),
{
    if s.len() == 0 {
        Some((Map::empty(), Token::Between))
    } else {
        match scan(s.drop_last()) {
            None => None,
            Some((literals, token)) => step(literals, token, s.last()),
        }
    }
}

/// The clause that a line of whitespace-separated signed integers denotes,
/// or `None` when the line is malformed.
pub open spec fn parsed_clause(s: Seq<char>) -> Option<Map<usize, bool>> {
    match scan(s) {
        None => None,
        Some((literals, Token::Between)) => Some(literals),
        Some((literals, Token::Digits { negative, value })) => Some(add_literal(literals, negative, value)),
        Some((_, Token::Sign { .. })) => None,
    }
}

/// Once a line is malformed, no further characters mend it.
proof fn lemma_scan_fails_onward(s: Seq<char>, k: int)
    requires
        0 <= k <= s.len(),
        scan(s.take(k)) is None,
    ensures
        scan(s) is None,
        parsed_clause(s) is None,
    decreases s.len() - k,
{
    if k < s.len() {
        assert(s.take(k + 1).drop_last() == s.take(k));
        lemma_scan_fails_onward(s, k + 1);
    } else {
        assert(s.take(k) == s);
    }
}

/// Reads one clause from a line of signed integers separated by
/// whitespace: `n` requires literal `n - 1` to be true, `-n` requires it to
/// be false, and `0` is skipped. `None` when the line holds anything else.
pub fn parse_clause(clause_as_string: &str) -> (r: Option<Clause>)
    ensures
        match parsed_clause(clause_as_string@) {
            None => r is None,
            Some(c) => r matches Some(clause) && clause@ == c,
        },
{
    let characters = characters_of(clause_as_string);
    parse_clause_characters(&characters)
}

/// The characters of a string, in order.
fn characters_of(s: &str) -> (r: Vec<char>)
    ensures
        r@ == s@,
{
    let mut characters: Vec<char> = Vec::new();
    let chars = s.chars();
    proof {
        broadcast use vstd::string::axiom_spec_iter;
    }
    for c in it: chars
        invariant
            it.seq() == s@,
            characters@ == it.seq().take(it.index() as int),
    {
        proof {
            assert(it.seq().take(it.index() + 1) == it.seq().take(it.index() as int).push(c));
        }
        characters.push(c);
    }
    assert(characters@ == s@);
    characters
}

/// Reads one clause from the characters of a line.
fn parse_clause_characters(characters: &Vec<char>) -> (r: Option<Clause>)
    ensures
        match parsed_clause(characters@) {
            None => r is None,
            Some(c) => r matches Some(clause) && clause@ == c,
        },
{
    let ghost text = characters@;
    let mut literals: HashMap<usize, bool> = HashMap::new();
    let mut token = Token::Between;
    let mut i: usize = 0;
    while i < characters.len()
        invariant
            characters@ == text,
            i <= text.len(),
            scan(text.take(i as int)) == Some((literals@, token)),
        decreases text.len() - i,
    {
        assert(text.take(i + 1).drop_last() == text.take(i as int));
        assert(text.take(i + 1).last() == text[i as int]);
        let b = characters[i];
        if is_blank_char(b) {
            match token {
                Token::Between => {},
                Token::Sign { .. } => {
                    proof {
                        lemma_scan_fails_onward(text, i + 1);
                    }
                    return None;
                },
                Token::Digits { negative, value } => {
                    if value != 0 {
                        literals.insert((value - 1) as usize, !negative);
                    }
                    token = Token::Between;
                },
            }
        } else if b == '-' || b == '+' {
            match token {
                Token::Between => {
                    token = Token::Sign { negative: b == '-' };
                },
                _ => {
                    proof {
                        lemma_scan_fails_onward(text, i + 1);
                    }
                    return None;
                },
            }
        } else if 48 <= (b as u32) && (b as u32) <= 57 {
            let d = (b as u32) - 48;
            match token {
                Token::Between => {
                    token = Token::Digits { negative: false, value: d };
                },
                Token::Sign { negative } => {
                    token = Token::Digits { negative, value: d };
                },
                Token::Digits { negative, value } => {
                    let next: u64 = (value as u64) * 10 + (d as u64);
                    if next <= MAX_LITERAL as u64 {
                        token = Token::Digits { negative, value: next as u32 };
                    } else {
                        proof {
                            lemma_scan_fails_onward(text, i + 1);
                        }
                        return None;
                    }
                },
            }
        } else {
            proof {
                lemma_scan_fails_onward(text, i + 1);
            }
            return None;
        }
        i = i + 1;
    }
    assert(text.take(i as int) == text);
    match token {
        Token::Between => Some(Clause { literals }),
        Token::Digits { negative, value } => {
            if value != 0 {
                literals.insert((value - 1) as usize, !negative);
            }
            Some(Clause { literals })
        },
        Token::Sign { .. } => None,
    }
}

/// A comment or problem line (it starts with `c` or `p`).
pub open spec fn is_comment_line(line: Seq<char>) -> bool {
    line.len() > 0 && (line[0] == 'c' || line[0] == 'p')
}

/// A line that ends the formula (it holds `%`).
pub open spec fn is_end_line(line: Seq<char>) -> bool {
    line.contains('%')
}

/// `Some(prefix + rest)`, or `None` when `rest` is `None`.
pub open spec fn prepend(prefix: Seq<Map<usize, bool>>, rest: Option<Seq<Map<usize, bool>>>) -> Option<Seq<Map<usize, bool>>> {
    match rest {
        None => None,
        Some(r) => Some(prefix + r),
    }
}

/// The clauses of a DIMACS text given as lines: comment and problem lines
/// are skipped, the first line holding `%` ends the formula, and every other
/// line is one clause. `None` when one of those lines is malformed.
pub open spec fn parsed_clauses(lines: Seq<Seq<char>>) -> Option<Seq<Map<usize, bool>>>
    decreases lines.len(),
{
    if lines.len() == 0 {
        Some(seq![])
    } else if is_comment_line(lines[0]) {
        parsed_clauses(lines.drop_first())
    } else if is_end_line(lines[0]) {
        Some(seq![])
    } else {
        match parsed_clause(lines[0]) {
            None => None,
            Some(c) => prepend(seq![c], parsed_clauses(lines.drop_first())),
        }
    }
}

/// Every literal index that occurs in the clauses.
pub open spec fn all_literals(clauses: Seq<Map<usize, bool>>) -> Set<usize>
    decreases clauses.len(),
{
    if clauses.len() == 0 {
        Set::empty()
    } else {
        all_literals(clauses.drop_last()).union(clauses.last().dom())
    }
}

/// The character views of a list of lines.
pub open spec fn line_views(lines: Seq<String>) -> Seq<Seq<char>> {
    lines.map_values(|l: String| l@)
}

proof fn lemma_clause_views_push(s: Seq<Clause>, c: Clause)
    ensures
        s.push(c).map_values(|x: Clause| x@) == s.map_values(|x: Clause| x@).push(c@),
{
    assert(s.push(c).map_values(|x: Clause| x@) =~= s.map_values(|x: Clause| x@).push(c@));
}

/// Reads a formula from the lines of a DIMACS text: the clauses as
/// `parsed_clauses` reads them, and the number of distinct literal indices
/// that occur in them. `None` when a clause line is malformed.
pub fn parse_dimacs_formula(lines: &Vec<String>) -> (r: Option<Formula>)
    ensures
        match parsed_clauses(line_views(lines@)) {
            None => r is None,
            Some(cs) => r matches Some(f) && f.clauses_view() == cs && f.number_of_literals
                == all_literals(cs).len(),
        },
{
    let ghost all = line_views(lines@);
    let mut clauses: Vec<Clause> = Vec::new();
    let mut all_literal_indices: HashSet<usize> = HashSet::new();
    let mut i: usize = 0;
    let mut ended = false;
    proof {
        assert(all.skip(0) == all);
        if parsed_clauses(all) is Some {
            assert(Seq::<Map<usize, bool>>::empty() + parsed_clauses(all)->0 == parsed_clauses(all)->0);
        }
    }
    while i < lines.len() && !ended
        invariant
            all == line_views(lines@),
            i <= lines@.len(),
            !ended ==> parsed_clauses(all) == prepend(
                clauses@.map_values(|x: Clause| x@),
                parsed_clauses(all.skip(i as int)),
            ),
            ended ==> parsed_clauses(all) == Some(clauses@.map_values(|x: Clause| x@)),
            all_literal_indices@ == all_literals(clauses@.map_values(|x: Clause| x@)),
        decreases lines@.len() - i + if ended { 0int } else { 1int },
    {
        let ghost acc = clauses@.map_values(|x: Clause| x@);
        let ghost rest = all.skip(i as int);
        assert(rest.drop_first() == all.skip(i + 1));
        assert(rest[0] == lines@[i as int]@);
        let line = characters_of(lines[i].as_str());
        if line.len() > 0 && (line[0] == 'c' || line[0] == 'p') {
            i = i + 1;
            continue;
        }
        let mut has_end_mark = false;
        let mut j: usize = 0;
        while j < line.len()
            invariant
                j <= line@.len(),
                has_end_mark == line@.take(j as int).contains('%'),
            decreases line@.len() - j,
        {
            if line[j] == '%' {
                has_end_mark = true;
            }
            proof {
                assert(line@.take(j + 1) == line@.take(j as int).push(line@[j as int]));
                if line@.take(j as int).contains('%') {
                    let w = choose|w: int| 0 <= w < j && line@.take(j as int)[w] == '%';
                    assert(line@.take(j + 1)[w] == '%');
                }
                if line@[j as int] == '%' {
                    assert(line@.take(j + 1)[j as int] == '%');
                }
            }
            j = j + 1;
        }
        assert(line@.take(j as int) == line@);
        if has_end_mark {
            assert(acc + seq![] == acc);
            ended = true;
            continue;
        }
        match parse_clause_characters(&line) {
            None => {
                assert(parsed_clauses(all) is None);
                return None;
            },
            Some(clause) => {
                let ghost before = all_literal_indices@;
                let entries = clause.literals.iter();
                proof {
                    broadcast use vstd::std_specs::hash::axiom_spec_hash_map_iter;
                }
                let ghost pairs = entries.remaining();
                for (literal_number, literal_value) in it: entries
                    invariant
                        it.seq() == pairs,
                        forall|k: usize|
                            #[trigger] clause@.contains_key(k) ==> pairs.contains((&k, &clause@[k])),
                        forall|t: int|
                            0 <= t < pairs.len() ==> clause@.contains_key(*(#[trigger] pairs[t]).0),
                        before <= all_literal_indices@,
                        all_literal_indices@ <= before.union(clause@.dom()),
                        forall|t: int|
                            0 <= t < it.index() ==> all_literal_indices@.contains(*(#[trigger] pairs[t]).0),
                {
                    all_literal_indices.insert(*literal_number);
                }
                assert(all_literal_indices@ =~= before.union(clause@.dom())) by {
                    assert forall|k: usize| clause@.dom().contains(k) implies all_literal_indices@.contains(k) by {
                        assert(clause@.contains_key(k));
                        assert(pairs.contains((&k, &clause@[k])));
                        let t = choose|t: int| 0 <= t < pairs.len() && pairs[t] == (&k, &clause@[k]);
                        assert(*pairs[t].0 == k);
                    }
                }
                proof {
                    lemma_clause_views_push(clauses@, clause);
                    let c = clause@;
                    assert(parsed_clause(rest[0]) == Some(c));
                    assert(acc.push(c).drop_last() == acc);
                    assert(acc + (seq![c] + parsed_clauses(all.skip(i + 1))->0) == acc.push(c) + parsed_clauses(all.skip(i + 1))->0);
                }
                clauses.push(clause);
            },
        }
        i = i + 1;
    }
    proof {
        if !ended {
            assert(all.skip(i as int) == Seq::<Seq<char>>::empty());
        }
        assert(clauses@.map_values(|x: Clause| x@) + seq![] == clauses@.map_values(|x: Clause| x@));
    }
    let number_of_literals = all_literal_indices.len();
    Some(Formula { clauses, number_of_literals })
}

} // verus!
