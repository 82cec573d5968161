use vstd::prelude::*;
use crate::text::{alphanumeric, is_alnum, chars_of, trim, trim_chars, slice_of, string_of};
use crate::tree::sexpr;
use crate::parse::{parse_text, parse_expr_str};

verus! {

broadcast use vstd::string::group_string_axioms;

/// The decimal digits of `n`.
pub open spec fn decimal(n: nat) -> Seq<char>
    decreases n,
{
    if n < 10 {
        seq![digit(n)]
    } else {
        decimal(n / 10) + seq![digit(n % 10)]
    }
}

/// The character of a decimal digit.
pub open spec fn digit(d: nat) -> char {
    if d == 0 { '0' } else if d == 1 { '1' } else if d == 2 { '2' } else if d == 3 { '3' }
    else if d == 4 { '4' } else if d == 5 { '5' } else if d == 6 { '6' } else if d == 7 { '7' }
    else if d == 8 { '8' } else { '9' }
}

fn digit_char(d: usize) -> (c: char)
    requires
        d < 10,
    ensures
        c == digit(d as nat),
{
    match d {
        0 => '0',
        1 => '1',
        2 => '2',
        3 => '3',
        4 => '4',
        5 => '5',
        6 => '6',
        7 => '7',
        8 => '8',
        _ => '9',
    }
}

/// Appends the decimal digits of `n` to `s`.
pub fn push_decimal(s: &mut String, n: usize)
    ensures
        final(s)@ == old(s)@ + decimal(n as nat),
    decreases n,
{
    if n >= 10 {
        push_decimal(s, n / 10);
    }
    s.push(digit_char(n % 10));
    assert(final(s)@ =~= old(s)@ + decimal(n as nat));
}

/// The index of the first `c` in `s` at or after `i`.
pub open spec fn find_char_from(s: Seq<char>, c: char, i: int) -> Option<int>
    decreases s.len() - i,
{
    if i < 0 || i >= s.len() {
        None
    } else if s[i] == c {
        Some(i)
    } else {
        find_char_from(s, c, i + 1)
    }
}

proof fn lemma_find_char_in_range(s: Seq<char>, c: char, i: int)
    ensures
        find_char_from(s, c, i) matches Some(j) ==> 0 <= j < s.len(),
    decreases s.len() - i,
{
    if 0 <= i < s.len() && s[i] != c {
        lemma_find_char_in_range(s, c, i + 1);
    }
}

/// The index of the first `=>` in `s` at or after `i`.
pub open spec fn find_arrow_from(s: Seq<char>, i: int) -> Option<int>
    decreases s.len() - i,
{
    if i < 0 || i + 1 >= s.len() {
        None
    } else if s[i] == '=' && s[i + 1] == '>' {
        Some(i)
    } else {
        find_arrow_from(s, i + 1)
    }
}

/// Characters allowed in a rule's name.
pub open spec fn is_name_char(c: char) -> bool {
    alphanumeric(c) || c == '_' || c == '-'
}

/// The name that a rule line gives itself, with the text after its colon:
/// the trimmed text before the first `:`, if that is non-empty and made of
/// name characters.
pub open spec fn declared_name(line: Seq<char>) -> Option<(Seq<char>, Seq<char>)> {
    match find_char_from(line, ':', 0) {
        Some(colon) => {
            let maybe = trim(line.take(colon));
            if maybe.len() > 0 && (forall|k: int| 0 <= k < maybe.len() ==> is_name_char(#[trigger] maybe[k])) {
                Some((maybe, line.skip(colon + 1)))
            } else {
                None
            }
        },
        None => None,
    }
}

/// The message for a rule line without `=>`.
pub open spec fn no_arrow_message(line: Seq<char>) -> Seq<char> {
    "в правиле «"@ + line + "» нет стрелки «=>» (пример: idemp: (+ ?x 0) => ?x)"@
}

/// The message for a rule line with an empty side.
pub open spec fn empty_side_message(line: Seq<char>) -> Seq<char> {
    "пустая сторона в правиле «"@ + line + "»"@
}

/// What reading the rule line `line` (the `idx`-th rule) gives: its name
/// and both sides in s-expression form, or the error message.
pub open spec fn rule_parse(line: Seq<char>, idx: nat) -> Result<(Seq<char>, Seq<char>, Seq<char>), Seq<char>> {
    let (name, rest) = match declared_name(line) {
        Some((n, r)) => (n, r),
        None => ("custom-"@ + decimal(idx), line),
    };
    match find_arrow_from(rest, 0) {
        None => Err(no_arrow_message(line)),
        Some(arrow) => {
            let lhs = trim(rest.take(arrow));
            let rhs = trim(rest.skip(arrow + 2));
            if lhs.len() == 0 || rhs.len() == 0 {
                Err(empty_side_message(line))
            } else {
                match parse_text(lhs) {
                    Err(e) => Err(e),
                    Ok(l) => match parse_text(rhs) {
                        Err(e) => Err(e),
                        Ok(r) => Ok((name, sexpr(l), sexpr(r))),
                    },
                }
            }
        },
    }
}

fn find_char(s: &Vec<char>, c: char) -> (r: Option<usize>)
    ensures
        match r {
            Some(i) => find_char_from(s@, c, 0) == Some(i as int) && i < s@.len(),
            None => find_char_from(s@, c, 0) is None,
        },
{
    let n = s.len();
    let mut i: usize = 0;
    while i < n
        invariant
            i <= n == s@.len(),
            find_char_from(s@, c, 0) == find_char_from(s@, c, i as int),
        decreases n - i,
    {
        if s[i] == c {
            proof {
                lemma_find_char_in_range(s@, c, 0);
            }
            return Some(i);
        }
        i = i + 1;
    }
    None
}

fn find_arrow(s: &Vec<char>) -> (r: Option<usize>)
    ensures
        match r {
            Some(i) => find_arrow_from(s@, 0) == Some(i as int) && i + 2 <= s@.len(),
            None => find_arrow_from(s@, 0) is None,
        },
{
    let n = s.len();
    let mut i: usize = 0;
    while n > 0 && i < n - 1
        invariant
            i <= n == s@.len(),
            find_arrow_from(s@, 0) == find_arrow_from(s@, i as int),
        decreases n - i,
    {
        if s[i] == '=' && s[i + 1] == '>' {
            return Some(i);
        }
        i = i + 1;
    }
    None
}

fn all_name_chars(s: &Vec<char>) -> (r: bool)
    ensures
        r == (forall|k: int| 0 <= k < s@.len() ==> is_name_char(#[trigger] s@[k])),
{
    let n = s.len();
    let mut i: usize = 0;
    while i < n
        invariant
            i <= n == s@.len(),
            forall|k: int| 0 <= k < i ==> is_name_char(#[trigger] s@[k]),
        decreases n - i,
    {
        let c = s[i];
        if !(is_alnum(c) || c == '_' || c == '-') {
            return false;
        }
        i = i + 1;
    }
    true
}

/// Reads a rule line `name: lhs => rhs`, where each side is infix or an
/// s-expression and `?x` are pattern variables. Without a name the rule
/// is called `custom-<idx>`. The sides come back as s-expressions.
pub fn parse_rule_str(line: &str, idx: usize) -> (r: Result<(String, String, String), String>)
    ensures
        match r {
            Ok((name, lhs, rhs)) => rule_parse(line@, idx as nat) == Ok::<(Seq<char>, Seq<char>, Seq<char>), Seq<char>>((name@, lhs@, rhs@)),
            Err(e) => rule_parse(line@, idx as nat) == Err::<(Seq<char>, Seq<char>, Seq<char>), Seq<char>>(e@),
        },
{
    let cs = chars_of(line);
    let mut name = String::from_str("custom-");
    push_decimal(&mut name, idx);
    let mut rest = slice_of(&cs, 0, cs.len());
    assert(rest@ =~= line@);
    if let Some(colon) = find_char(&cs, ':') {
        let before = slice_of(&cs, 0, colon);
        let maybe = trim_chars(&before);
        assert(before@ =~= line@.take(colon as int));
        if maybe.len() > 0 && all_name_chars(&maybe) {
            name = string_of(&maybe, 0, maybe.len());
            rest = slice_of(&cs, colon + 1, cs.len());
            assert(name@ =~= maybe@);
            assert(rest@ =~= line@.skip(colon + 1));
        }
    }
    let arrow = match find_arrow(&rest) {
        Some(a) => a,
        None => {
            let mut e = String::from_str("в правиле «");
            e.append(line);
            e.append("» нет стрелки «=>» (пример: idemp: (+ ?x 0) => ?x)");
            return Err(e);
        },
    };
    let left = slice_of(&rest, 0, arrow);
    let right = slice_of(&rest, arrow + 2, rest.len());
    assert(left@ =~= rest@.take(arrow as int));
    assert(right@ =~= rest@.skip(arrow + 2));
    let lhs = trim_chars(&left);
    let rhs = trim_chars(&right);
    if lhs.len() == 0 || rhs.len() == 0 {
        let mut e = String::from_str("пустая сторона в правиле «");
        e.append(line);
        e.append("»");
        return Err(e);
    }
    let lhs_text = string_of(&lhs, 0, lhs.len());
    let rhs_text = string_of(&rhs, 0, rhs.len());
    assert(lhs@.subrange(0, lhs@.len() as int) =~= lhs@);
    assert(rhs@.subrange(0, rhs@.len() as int) =~= rhs@);
    let lhs_s = parse_expr_str(lhs_text.as_str())?;
    let rhs_s = parse_expr_str(rhs_text.as_str())?;
    Ok((name, lhs_s, rhs_s))
}

} // verus!
