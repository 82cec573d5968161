use vstd::prelude::*;
use crate::text::{alphanumeric, is_alnum, string_of, chars_of, trim, trim_chars};
use crate::tree::{Tree, Term, terms_of, sexpr, tree_to_sexpr};

verus! {

/// A lexical token, as the parsers see it.
pub enum Token {
    Atom(Seq<char>),
    Op(char),
    LParen,
    RParen,
}

/// A lexical token of the input.
#[derive(Debug)]
enum Tok {
    Atom(String),
    Op(char),
    LParen,
    RParen,
}

impl View for Tok {
    type V = Token;

    closed spec fn view(&self) -> Token {
        match self {
            Tok::Atom(s) => Token::Atom(s@),
            Tok::Op(c) => Token::Op(*c),
            Tok::LParen => Token::LParen,
            Tok::RParen => Token::RParen,
        }
    }
}

spec fn tok_views(ts: Seq<Tok>) -> Seq<Token> {
    ts.map_values(|t: Tok| t@)
}

/// Characters that separate tokens.
pub open spec fn is_blank(c: char) -> bool {
    c == ' ' || c == '\t' || c == '\n' || c == '\r'
}

/// The four operator characters, each a token of its own.
pub open spec fn is_op_char(c: char) -> bool {
    c == '+' || c == '-' || c == '*' || c == '/'
}

/// Characters that make up atoms (names, numbers, pattern variables).
pub open spec fn is_word_char(c: char) -> bool {
    alphanumeric(c) || c == '_' || c == '?'
}

/// The index just past the run of word characters that starts at `i`.
pub open spec fn word_end(s: Seq<char>, i: int) -> int
    decreases s.len() - i,
{
    if 0 <= i < s.len() && is_word_char(s[i]) {
        word_end(s, i + 1)
    } else {
        i
    }
}

pub proof fn lemma_word_end(s: Seq<char>, i: int)
    requires
        0 <= i <= s.len(),
    ensures
        i <= word_end(s, i) <= s.len(),
        forall|j: int| i <= j < word_end(s, i) ==> is_word_char(#[trigger] s[j]),
        word_end(s, i) < s.len() ==> !is_word_char(s[word_end(s, i)]),
    decreases s.len() - i,
{
    if i < s.len() && is_word_char(s[i]) {
        lemma_word_end(s, i + 1);
    }
}

/// `t` in front of the tokens of `r`, or the error of `r`.
pub open spec fn cons_tokens(t: Token, r: Result<Seq<Token>, char>) -> Result<Seq<Token>, char> {
    match r {
        Ok(ts) => Ok(seq![t] + ts),
        Err(c) => Err(c),
    }
}

/// The tokens of `s` from index `i` on, or the first character that
/// belongs to no token.
pub open spec fn tokens_from(s: Seq<char>, i: int) -> Result<Seq<Token>, char>
    decreases s.len() - i,
{
    if i < 0 || i >= s.len() {
        Ok(seq![])
    } else {
        let c = s[i];
        if is_blank(c) {
            tokens_from(s, i + 1)
        } else if c == '(' {
            cons_tokens(Token::LParen, tokens_from(s, i + 1))
        } else if c == ')' {
            cons_tokens(Token::RParen, tokens_from(s, i + 1))
        } else if is_op_char(c) {
            cons_tokens(Token::Op(c), tokens_from(s, i + 1))
        } else if is_word_char(c) {
            let j = word_end(s, i);
            if i < j <= s.len() {
                cons_tokens(Token::Atom(s.subrange(i, j)), tokens_from(s, j))
            } else {
                Err(c)
            }
        } else {
            Err(c)
        }
    }
}

/// The tokens of `s`, or the first character that belongs to no token.
pub open spec fn tokens(s: Seq<char>) -> Result<Seq<Token>, char> {
    tokens_from(s, 0)
}

/// `done` in front of the tokens of `r`, or the error of `r`.
pub open spec fn append_tokens(done: Seq<Token>, r: Result<Seq<Token>, char>) -> Result<Seq<Token>, char> {
    match r {
        Ok(ts) => Ok(done + ts),
        Err(c) => Err(c),
    }
}

/// The message for a character that belongs to no token.
pub open spec fn unexpected_char_message(c: char) -> Seq<char> {
    "неожиданный символ '"@ + seq![c, '\'']
}

fn is_word(c: char) -> (r: bool)
    ensures
        r == is_word_char(c),
{
    is_alnum(c) || c == '_' || c == '?'
}

/// Splits `cs` into tokens.
fn tokenize(cs: &Vec<char>) -> (r: Result<Vec<Tok>, String>)
    ensures
        match r {
            Ok(ts) => tokens(cs@) == Ok::<Seq<Token>, char>(tok_views(ts@)),
            Err(e) => tokens(cs@) matches Err(c) && e@ == unexpected_char_message(c),
        },
{
    let n = cs.len();
    let mut out: Vec<Tok> = Vec::new();
    let mut i: usize = 0;
    while i < n
        invariant
            i <= n == cs@.len(),
            tokens(cs@) == append_tokens(tok_views(out@), tokens_from(cs@, i as int)),
        decreases n - i,
    {
        let c = cs[i];
        let ghost before = tok_views(out@);
        if c == ' ' || c == '\t' || c == '\n' || c == '\r' {
            i = i + 1;
        } else if c == '(' {
            out.push(Tok::LParen);
            i = i + 1;
            assert(tok_views(out@) =~= before + seq![Token::LParen]);
        } else if c == ')' {
            out.push(Tok::RParen);
            i = i + 1;
            assert(tok_views(out@) =~= before + seq![Token::RParen]);
        } else if c == '+' || c == '-' || c == '*' || c == '/' {
            out.push(Tok::Op(c));
            i = i + 1;
            assert(tok_views(out@) =~= before + seq![Token::Op(c)]);
        } else if is_word(c) {
            let start = i;
            proof {
                lemma_word_end(cs@, start as int);
            }
            let mut j = i;
            while j < n && is_word(cs[j])
                invariant
                    start <= j <= n == cs@.len(),
                    word_end(cs@, j as int) == word_end(cs@, start as int),
                decreases n - j,
            {
                j = j + 1;
            }
            let atom = string_of(cs, start, j);
            out.push(Tok::Atom(atom));
            i = j;
            assert(tok_views(out@) =~= before + seq![Token::Atom(cs@.subrange(start as int, j as int))]);
        } else {
            let mut e = String::from_str("неожиданный символ '");
            e.push(c);
            e.push('\'');
            assert(e@ =~= unexpected_char_message(c));
            return Err(e);
        }
        assert(tokens(cs@) == append_tokens(tok_views(out@), tokens_from(cs@, i as int))) by {
            assert forall|a: Seq<Token>, b: Seq<Token>, x: Token| (a + seq![x]) + b =~= a + (seq![x] + b) by {}
        }
    }
    assert(tok_views(out@) + seq![] =~= tok_views(out@));
    Ok(out)
}

// ---------------------------------------------------------------------------
// s-expressions

/// An s-expression starting at token `pos`: the term and the position after it.
pub open spec fn sexpr_at(ts: Seq<Token>, pos: int) -> Option<(Term, int)>
    decreases ts.len() - pos, 0nat,
{
    if pos < 0 || pos >= ts.len() {
        None
    } else {
        match ts[pos] {
            Token::LParen => list_at(ts, pos + 1, seq![]),
            Token::Atom(a) => Some((Term::Leaf(a), pos + 1)),
            Token::Op(c) => Some((Term::Leaf(seq![c]), pos + 1)),
            Token::RParen => None,
        }
    }
}

/// The rest of a parenthesised list whose items so far are `items`:
/// further items up to the closing parenthesis; the first item must be a
/// leaf, which becomes the operator of the node.
pub open spec fn list_at(ts: Seq<Token>, pos: int, items: Seq<Term>) -> Option<(Term, int)>
    decreases ts.len() - pos, 1nat,
{
    if pos < 0 || pos >= ts.len() {
        None
    } else if ts[pos] is RParen {
        if items.len() == 0 {
            None
        } else {
            match items[0] {
                Term::Leaf(op) => Some((Term::Node(op, items.drop_first()), pos + 1)),
                Term::Node(..) => None,
            }
        }
    } else {
        match sexpr_at(ts, pos) {
            Some((k, p)) => if pos < p <= ts.len() {
                list_at(ts, p, items.push(k))
            } else {
                None
            },
            None => None,
        }
    }
}

/// The message of a failed s-expression at `pos`.
pub open spec fn sexpr_error(ts: Seq<Token>, pos: int) -> Seq<char>
    decreases ts.len() - pos, 0nat,
{
    if 0 <= pos < ts.len() && ts[pos] is LParen {
        list_error(ts, pos + 1, seq![])
    } else {
        "ожидался атом или список"@
    }
}

/// The message of a failed list whose items so far are `items`: the input
/// ends before the closing parenthesis, the list is empty, its first item
/// is not a leaf, or an item fails.
pub open spec fn list_error(ts: Seq<Token>, pos: int, items: Seq<Term>) -> Seq<char>
    decreases ts.len() - pos, 1nat,
{
    if pos < 0 || pos >= ts.len() {
        "незакрытая скобка"@
    } else if ts[pos] is RParen {
        if items.len() == 0 {
            "пустые скобки ()"@
        } else {
            "первый элемент списка должен быть операцией"@
        }
    } else {
        match sexpr_at(ts, pos) {
            Some((k, p)) => if pos < p <= ts.len() {
                list_error(ts, p, items.push(k))
            } else {
                Seq::empty()
            },
            None => sexpr_error(ts, pos),
        }
    }
}

// ---------------------------------------------------------------------------
// infix notation: expr := term (('+' | '-') term)*,
// term := factor (('*' | '/') factor)*, factor := atom | '(' expr ')'

pub open spec fn is_add_op(t: Token) -> bool {
    t matches Token::Op(c) && (c == '+' || c == '-')
}

pub open spec fn is_mul_op(t: Token) -> bool {
    t matches Token::Op(c) && (c == '*' || c == '/')
}

/// The operator character of an operator token.
pub open spec fn op_of(t: Token) -> char {
    match t {
        Token::Op(c) => c,
        _ => ' ',
    }
}

pub open spec fn expr_at(ts: Seq<Token>, pos: int) -> Option<(Term, int)>
    decreases ts.len() - pos, 3nat,
{
    if pos < 0 || pos > ts.len() {
        None
    } else {
        match term_at(ts, pos) {
            Some((l, p)) => if pos < p <= ts.len() {
                expr_rest(ts, l, p)
            } else {
                None
            },
            None => None,
        }
    }
}

/// Folds further `+`/`-` terms into `left`, from the left.
pub open spec fn expr_rest(ts: Seq<Token>, left: Term, pos: int) -> Option<(Term, int)>
    decreases ts.len() - pos, 2nat,
{
    if 0 <= pos < ts.len() && is_add_op(ts[pos]) {
        match term_at(ts, pos + 1) {
            Some((r, p)) => if pos < p <= ts.len() {
                expr_rest(ts, Term::Node(seq![op_of(ts[pos])], seq![left, r]), p)
            } else {
                None
            },
            None => None,
        }
    } else {
        Some((left, pos))
    }
}

pub open spec fn term_at(ts: Seq<Token>, pos: int) -> Option<(Term, int)>
    decreases ts.len() - pos, 1nat,
{
    if pos < 0 || pos > ts.len() {
        None
    } else {
        match factor_at(ts, pos) {
            Some((l, p)) => if pos < p <= ts.len() {
                term_rest(ts, l, p)
            } else {
                None
            },
            None => None,
        }
    }
}

/// Folds further `*`/`/` factors into `left`, from the left.
pub open spec fn term_rest(ts: Seq<Token>, left: Term, pos: int) -> Option<(Term, int)>
    decreases ts.len() - pos, 1nat,
{
    if 0 <= pos < ts.len() && is_mul_op(ts[pos]) {
        match factor_at(ts, pos + 1) {
            Some((r, p)) => if pos < p <= ts.len() {
                term_rest(ts, Term::Node(seq![op_of(ts[pos])], seq![left, r]), p)
            } else {
                None
            },
            None => None,
        }
    } else {
        Some((left, pos))
    }
}

pub open spec fn factor_at(ts: Seq<Token>, pos: int) -> Option<(Term, int)>
    decreases ts.len() - pos, 0nat,
{
    if pos < 0 || pos >= ts.len() {
        None
    } else {
        match ts[pos] {
            Token::Atom(a) => Some((Term::Leaf(a), pos + 1)),
            Token::LParen => match expr_at(ts, pos + 1) {
                Some((t, p)) => if 0 <= p < ts.len() && ts[p] is RParen {
                    Some((t, p + 1))
                } else {
                    None
                },
                None => None,
            },
            _ => None,
        }
    }
}

/// The message of a failed infix expression at `pos`.
pub open spec fn expr_error(ts: Seq<Token>, pos: int) -> Seq<char>
    decreases ts.len() - pos, 3nat,
{
    match term_at(ts, pos) {
        Some((l, p)) => if pos < p <= ts.len() {
            expr_rest_error(ts, l, p)
        } else {
            Seq::empty()
        },
        None => term_error(ts, pos),
    }
}

/// The message of a failed `+`/`-` continuation at `pos`.
pub open spec fn expr_rest_error(ts: Seq<Token>, left: Term, pos: int) -> Seq<char>
    decreases ts.len() - pos, 2nat,
{
    if 0 <= pos < ts.len() && is_add_op(ts[pos]) {
        match term_at(ts, pos + 1) {
            Some((r, p)) => if pos < p <= ts.len() {
                expr_rest_error(ts, Term::Node(seq![op_of(ts[pos])], seq![left, r]), p)
            } else {
                Seq::empty()
            },
            None => term_error(ts, pos + 1),
        }
    } else {
        Seq::empty()
    }
}

/// The message of a failed term at `pos`.
pub open spec fn term_error(ts: Seq<Token>, pos: int) -> Seq<char>
    decreases ts.len() - pos, 1nat,
{
    match factor_at(ts, pos) {
        Some((l, p)) => if pos < p <= ts.len() {
            term_rest_error(ts, l, p)
        } else {
            Seq::empty()
        },
        None => factor_error(ts, pos),
    }
}

/// The message of a failed `*`/`/` continuation at `pos`.
pub open spec fn term_rest_error(ts: Seq<Token>, left: Term, pos: int) -> Seq<char>
    decreases ts.len() - pos, 1nat,
{
    if 0 <= pos < ts.len() && is_mul_op(ts[pos]) {
        match factor_at(ts, pos + 1) {
            Some((r, p)) => if pos < p <= ts.len() {
                term_rest_error(ts, Term::Node(seq![op_of(ts[pos])], seq![left, r]), p)
            } else {
                Seq::empty()
            },
            None => factor_error(ts, pos + 1),
        }
    } else {
        Seq::empty()
    }
}

/// The message of a failed factor at `pos`: no atom or parenthesis there,
/// a failed expression inside the parentheses, or no closing parenthesis.
pub open spec fn factor_error(ts: Seq<Token>, pos: int) -> Seq<char>
    decreases ts.len() - pos, 0nat,
{
    if 0 <= pos < ts.len() && ts[pos] is LParen {
        match expr_at(ts, pos + 1) {
            Some(_) => "незакрытая скобка"@,
            None => expr_error(ts, pos + 1),
        }
    } else {
        "ожидался атом или скобка"@
    }
}

// ---------------------------------------------------------------------------
// every successful parse consumes at least one token and stays in bounds

pub proof fn lemma_sexpr_advances(ts: Seq<Token>, pos: int)
    ensures
        sexpr_at(ts, pos) matches Some((_, p)) ==> pos < p <= ts.len(),
    decreases ts.len() - pos, 0nat,
{
    if 0 <= pos < ts.len() && ts[pos] is LParen {
        lemma_list_advances(ts, pos + 1, seq![]);
    }
}

pub proof fn lemma_list_advances(ts: Seq<Token>, pos: int, items: Seq<Term>)
    ensures
        list_at(ts, pos, items) matches Some((_, p)) ==> pos < p <= ts.len(),
    decreases ts.len() - pos, 1nat,
{
    if 0 <= pos < ts.len() && !(ts[pos] is RParen) {
        lemma_sexpr_advances(ts, pos);
        if let Some((k, p)) = sexpr_at(ts, pos) {
            if pos < p <= ts.len() {
                lemma_list_advances(ts, p, items.push(k));
            }
        }
    }
}

pub proof fn lemma_expr_advances(ts: Seq<Token>, pos: int)
    ensures
        expr_at(ts, pos) matches Some((_, p)) ==> pos < p <= ts.len(),
    decreases ts.len() - pos, 3nat,
{
    if 0 <= pos <= ts.len() {
        lemma_term_advances(ts, pos);
        if let Some((l, p)) = term_at(ts, pos) {
            if pos < p <= ts.len() {
                lemma_expr_rest_advances(ts, l, p);
            }
        }
    }
}

pub proof fn lemma_expr_rest_advances(ts: Seq<Token>, left: Term, pos: int)
    requires
        0 <= pos <= ts.len(),
    ensures
        expr_rest(ts, left, pos) matches Some((_, p)) ==> pos <= p <= ts.len(),
    decreases ts.len() - pos, 2nat,
{
    if 0 <= pos < ts.len() && is_add_op(ts[pos]) {
        lemma_term_advances(ts, pos + 1);
        if let Some((r, p)) = term_at(ts, pos + 1) {
            if pos < p <= ts.len() {
                lemma_expr_rest_advances(ts, Term::Node(seq![op_of(ts[pos])], seq![left, r]), p);
            }
        }
    }
}

pub proof fn lemma_term_advances(ts: Seq<Token>, pos: int)
    ensures
        term_at(ts, pos) matches Some((_, p)) ==> pos < p <= ts.len(),
    decreases ts.len() - pos, 1nat,
{
    if 0 <= pos <= ts.len() {
        lemma_factor_advances(ts, pos);
        if let Some((l, p)) = factor_at(ts, pos) {
            if pos < p <= ts.len() {
                lemma_term_rest_advances(ts, l, p);
            }
        }
    }
}

pub proof fn lemma_term_rest_advances(ts: Seq<Token>, left: Term, pos: int)
    requires
        0 <= pos <= ts.len(),
    ensures
        term_rest(ts, left, pos) matches Some((_, p)) ==> pos <= p <= ts.len(),
    decreases ts.len() - pos, 1nat,
{
    if 0 <= pos < ts.len() && is_mul_op(ts[pos]) {
        lemma_factor_advances(ts, pos + 1);
        if let Some((r, p)) = factor_at(ts, pos + 1) {
            if pos < p <= ts.len() {
                lemma_term_rest_advances(ts, Term::Node(seq![op_of(ts[pos])], seq![left, r]), p);
            }
        }
    }
}

pub proof fn lemma_factor_advances(ts: Seq<Token>, pos: int)
    ensures
        factor_at(ts, pos) matches Some((_, p)) ==> pos < p <= ts.len(),
    decreases ts.len() - pos, 0nat,
{
    if 0 <= pos < ts.len() && ts[pos] is LParen {
        lemma_expr_advances(ts, pos + 1);
    }
}

// ---------------------------------------------------------------------------
// the parsers

fn op_string(c: char) -> (s: String)
    ensures
        s@ == seq![c],
{
    let mut s = String::new();
    s.push(c);
    assert(s@ =~= seq![c]);
    s
}

fn binary_node(c: char, left: Tree, right: Tree) -> (t: Tree)
    ensures
        t@ == Term::Node(seq![c], seq![left@, right@]),
{
    let o = op_string(c);
    let kids = vec![left, right];
    let t = Tree::node(o.as_str(), kids);
    assert(kids@.map_values(|k: Tree| k@) =~= seq![left@, right@]);
    t
}

/// Parses one s-expression at `*pos`: an atom, an operator, or a
/// parenthesised list whose first item is a leaf.
fn parse_sexpr(toks: &Vec<Tok>, pos: &mut usize) -> (r: Result<Tree, String>)
    requires
        *old(pos) <= toks@.len(),
    ensures
        match r {
            Ok(t) => sexpr_at(tok_views(toks@), *old(pos) as int) == Some((t@, *final(pos) as int)),
            Err(e) => sexpr_at(tok_views(toks@), *old(pos) as int) is None
                && e@ == sexpr_error(tok_views(toks@), *old(pos) as int),
        },
    decreases toks@.len() - *old(pos), 0nat,
{
    let ghost ts = tok_views(toks@);
    let ghost start = *pos as int;
    let n = toks.len();
    if *pos >= n {
        return Err(String::from_str("ожидался атом или список"));
    }
    match &toks[*pos] {
        Tok::LParen => {
            *pos = *pos + 1;
            let mut kids: Vec<Tree> = Vec::new();
            assert(terms_of(kids@) =~= seq![]);
            loop
                invariant
                    n == toks@.len(),
                    ts == tok_views(toks@),
                    start < *pos <= n,
                    start == *old(pos) as int,
                    ts[start] is LParen,
                    sexpr_at(ts, start) == list_at(ts, start + 1, seq![]),
                    list_at(ts, start + 1, seq![]) == list_at(ts, *pos as int, terms_of(kids@)),
                    sexpr_error(ts, start) == list_error(ts, start + 1, seq![]),
                    list_error(ts, start + 1, seq![]) == list_error(ts, *pos as int, terms_of(kids@)),
                ensures
                    start < *pos < n,
                    start == *old(pos) as int,
                    sexpr_at(ts, start) == list_at(ts, start + 1, seq![]),
                    ts[*pos as int] is RParen,
                    list_at(ts, start + 1, seq![]) == list_at(ts, *pos as int, terms_of(kids@)),
                    sexpr_error(ts, start) == list_error(ts, start + 1, seq![]),
                    list_error(ts, start + 1, seq![]) == list_error(ts, *pos as int, terms_of(kids@)),
                decreases n - *pos,
            {
                if *pos >= n {
                    return Err(String::from_str("незакрытая скобка"));
                }
                if let Tok::RParen = &toks[*pos] {
                    break;
                }
                let ghost before = *pos as int;
                let k = match parse_sexpr(toks, pos) {
                    Ok(k) => k,
                    Err(e) => return Err(e),
                };
                proof {
                    lemma_sexpr_advances(ts, before);
                }
                let ghost old_kids = terms_of(kids@);
                kids.push(k);
                assert(terms_of(kids@) =~= old_kids.push(k@));
            }
            *pos = *pos + 1;
            if kids.len() == 0 {
                return Err(String::from_str("пустые скобки ()"));
            }
            let ghost all = terms_of(kids@);
            let first = kids.remove(0);
            assert(terms_of(kids@) =~= all.drop_first());
            match first {
                Tree::Leaf(op) => Ok(Tree::node(op.as_str(), kids)),
                Tree::Node(..) => Err(String::from_str("первый элемент списка должен быть операцией")),
            }
        }
        Tok::Atom(a) => {
            *pos = *pos + 1;
            Ok(Tree::leaf(a.as_str()))
        }
        Tok::Op(c) => {
            *pos = *pos + 1;
            let o = op_string(*c);
            Ok(Tree::leaf(o.as_str()))
        }
        Tok::RParen => Err(String::from_str("ожидался атом или список")),
    }
}

/// Parses a sum or difference of terms, grouping from the left.
fn parse_infix_expr(toks: &Vec<Tok>, pos: &mut usize) -> (r: Result<Tree, String>)
    requires
        *old(pos) <= toks@.len(),
    ensures
        match r {
            Ok(t) => expr_at(tok_views(toks@), *old(pos) as int) == Some((t@, *final(pos) as int)),
            Err(e) => expr_at(tok_views(toks@), *old(pos) as int) is None
                && e@ == expr_error(tok_views(toks@), *old(pos) as int),
        },
    decreases toks@.len() - *old(pos), 3nat,
{
    let ghost ts = tok_views(toks@);
    let ghost start = *pos as int;
    let n = toks.len();
    proof {
        lemma_term_advances(ts, start);
    }
    let mut left = match parse_infix_term(toks, pos) {
        Ok(t) => t,
        Err(e) => return Err(e),
    };
    loop
        invariant
            n == toks@.len(),
            ts == tok_views(toks@),
            start < *pos <= n,
            start == *old(pos) as int,
            expr_at(ts, start) == expr_rest(ts, left@, *pos as int),
            expr_error(ts, start) == expr_rest_error(ts, left@, *pos as int),
        decreases n - *pos,
    {
        if *pos < n {
            if let Tok::Op(c) = &toks[*pos] {
                if *c == '+' || *c == '-' {
                    let op = *c;
                    let ghost at = *pos as int;
                    *pos = *pos + 1;
                    proof {
                        lemma_term_advances(ts, at + 1);
                    }
                    let right = match parse_infix_term(toks, pos) {
                        Ok(t) => t,
                        Err(e) => return Err(e),
                    };
                    left = binary_node(op, left, right);
                    continue;
                }
            }
        }
        return Ok(left);
    }
}

/// Parses a product or quotient of factors, grouping from the left.
fn parse_infix_term(toks: &Vec<Tok>, pos: &mut usize) -> (r: Result<Tree, String>)
    requires
        *old(pos) <= toks@.len(),
    ensures
        match r {
            Ok(t) => term_at(tok_views(toks@), *old(pos) as int) == Some((t@, *final(pos) as int)),
            Err(e) => term_at(tok_views(toks@), *old(pos) as int) is None
                && e@ == term_error(tok_views(toks@), *old(pos) as int),
        },
    decreases toks@.len() - *old(pos), 1nat,
{
    let ghost ts = tok_views(toks@);
    let ghost start = *pos as int;
    let n = toks.len();
    proof {
        lemma_factor_advances(ts, start);
    }
    let mut left = match parse_infix_factor(toks, pos) {
        Ok(t) => t,
        Err(e) => return Err(e),
    };
    loop
        invariant
            n == toks@.len(),
            ts == tok_views(toks@),
            start < *pos <= n,
            start == *old(pos) as int,
            term_at(ts, start) == term_rest(ts, left@, *pos as int),
            term_error(ts, start) == term_rest_error(ts, left@, *pos as int),
        decreases n - *pos,
    {
        if *pos < n {
            if let Tok::Op(c) = &toks[*pos] {
                if *c == '*' || *c == '/' {
                    let op = *c;
                    let ghost at = *pos as int;
                    *pos = *pos + 1;
                    proof {
                        lemma_factor_advances(ts, at + 1);
                    }
                    let right = match parse_infix_factor(toks, pos) {
                        Ok(t) => t,
                        Err(e) => return Err(e),
                    };
                    left = binary_node(op, left, right);
                    continue;
                }
            }
        }
        return Ok(left);
    }
}

/// Parses an atom, or an infix expression in parentheses.
fn parse_infix_factor(toks: &Vec<Tok>, pos: &mut usize) -> (r: Result<Tree, String>)
    requires
        *old(pos) <= toks@.len(),
    ensures
        match r {
            Ok(t) => factor_at(tok_views(toks@), *old(pos) as int) == Some((t@, *final(pos) as int)),
            Err(e) => factor_at(tok_views(toks@), *old(pos) as int) is None
                && e@ == factor_error(tok_views(toks@), *old(pos) as int),
        },
    decreases toks@.len() - *old(pos), 0nat,
{
    let ghost ts = tok_views(toks@);
    let n = toks.len();
    if *pos >= n {
        return Err(String::from_str("ожидался атом или скобка"));
    }
    match &toks[*pos] {
        Tok::Atom(a) => {
            *pos = *pos + 1;
            Ok(Tree::leaf(a.as_str()))
        }
        Tok::LParen => {
            *pos = *pos + 1;
            let t = match parse_infix_expr(toks, pos) {
                Ok(t) => t,
                Err(e) => return Err(e),
            };
            let closed = if *pos < n {
                if let Tok::RParen = &toks[*pos] { true } else { false }
            } else {
                false
            };
            if !closed {
                return Err(String::from_str("незакрытая скобка"));
            }
            *pos = *pos + 1;
            Ok(t)
        }
        _ => Err(String::from_str("ожидался атом или скобка")),
    }
}

// ---------------------------------------------------------------------------
// reading a whole expression

/// The message for an input that is blank.
pub open spec fn empty_input_message() -> Seq<char> {
    "пустой ввод"@
}

/// The message for a (trimmed) input that is neither infix nor an s-expression.
pub open spec fn unparsable_message(t: Seq<char>) -> Seq<char> {
    "не смог разобрать «"@ + t + "» ни как инфиксное, ни как s-выражение"@
}

/// The term that the whole token sequence spells: infix notation if it
/// reads as that, else an s-expression.
pub open spec fn parse_tokens(ts: Seq<Token>) -> Option<Term> {
    match whole(expr_at(ts, 0), ts.len() as int) {
        Some(t) => Some(t),
        None => whole(sexpr_at(ts, 0), ts.len() as int),
    }
}

/// The parsed term, if the parse ended exactly at `n`.
pub open spec fn whole(r: Option<(Term, int)>, n: int) -> Option<Term> {
    match r {
        Some((t, p)) => if p == n {
            Some(t)
        } else {
            None
        },
        None => None,
    }
}

/// What reading the text `s` gives: the term, or the error message.
pub open spec fn parse_text(s: Seq<char>) -> Result<Term, Seq<char>> {
    let t = trim(s);
    if t.len() == 0 {
        Err(empty_input_message())
    } else {
        match tokens(t) {
            Err(c) => Err(unexpected_char_message(c)),
            Ok(ts) => match parse_tokens(ts) {
                Some(x) => Ok(x),
                None => Err(unparsable_message(t)),
            },
        }
    }
}

/// Reads an expression or pattern: first as infix notation (`a * 2 + b`),
/// then as an s-expression (`(* a 2)`).
pub fn parse_any(s: &str) -> (r: Result<Tree, String>)
    ensures
        match r {
            Ok(t) => parse_text(s@) == Ok::<Term, Seq<char>>(t@),
            Err(e) => parse_text(s@) == Err::<Term, Seq<char>>(e@),
        },
{
    let cs = chars_of(s);
    let t = trim_chars(&cs);
    if t.len() == 0 {
        return Err(String::from_str("пустой ввод"));
    }
    let toks = tokenize(&t)?;
    let ghost ts = tok_views(toks@);
    let mut pos: usize = 0;
    if let Ok(tree) = parse_infix_expr(&toks, &mut pos) {
        if pos == toks.len() {
            return Ok(tree);
        }
    }
    let mut pos: usize = 0;
    if let Ok(tree) = parse_sexpr(&toks, &mut pos) {
        if pos == toks.len() {
            return Ok(tree);
        }
    }
    let mut e = String::from_str("не смог разобрать «");
    let shown = string_of(&t, 0, t.len());
    e.append(shown.as_str());
    e.append("» ни как инфиксное, ни как s-выражение");
    assert(t@.subrange(0, t@.len() as int) =~= t@);
    Err(e)
}

/// An expression in its canonical form, the s-expression.
pub fn parse_expr_str(s: &str) -> (r: Result<String, String>)
    ensures
        match r {
            Ok(x) => parse_text(s@) matches Ok(t) && x@ == sexpr(t),
            Err(e) => parse_text(s@) == Err::<Term, Seq<char>>(e@),
        },
{
    match parse_any(s) {
        Ok(t) => Ok(tree_to_sexpr(&t)),
        Err(e) => Err(e),
    }
}

} // verus!
