use vstd::prelude::*;
use crate::text::{is_white_space, trim, trim_start, trim_end};
use crate::tree::{Term, sexpr, kids_text};
use crate::parse::{Token, is_word_char, is_blank, is_op_char, word_end, lemma_word_end, tokens_from, tokens, cons_tokens,
    sexpr_at, list_at, expr_at, expr_rest, term_at, term_rest, factor_at, is_add_op, is_mul_op, op_of, lemma_sexpr_advances, lemma_list_advances,
    parse_tokens, parse_text, whole};

verus! {

// ---------------------------------------------------------------------------
// tokenizing a concatenation

/// The tokens of two texts one after the other, or the first error.
pub open spec fn join_tokens(a: Result<Seq<Token>, char>, b: Result<Seq<Token>, char>) -> Result<Seq<Token>, char> {
    match a {
        Err(c) => Err(c),
        Ok(x) => match b {
            Err(c) => Err(c),
            Ok(y) => Ok(x + y),
        },
    }
}

/// No atom runs across the seam between `a` and `b`.
pub open spec fn no_glue(a: Seq<char>, b: Seq<char>) -> bool {
    a.len() == 0 || b.len() == 0 || !is_word_char(a.last()) || !is_word_char(b[0])
}

proof fn lemma_assoc<A>(a: Seq<A>, b: Seq<A>, c: Seq<A>)
    ensures
        a + (b + c) == (a + b) + c,
{
    assert(a + (b + c) =~= (a + b) + c);
}

proof fn lemma_word_end_shift(a: Seq<char>, b: Seq<char>, j: int)
    requires
        0 <= j <= b.len(),
    ensures
        word_end(a + b, a.len() + j) == a.len() + word_end(b, j),
    decreases b.len() - j,
{
    if j < b.len() {
        assert((a + b)[a.len() + j] == b[j]);
        if is_word_char(b[j]) {
            lemma_word_end_shift(a, b, j + 1);
        }
    }
}

proof fn lemma_tokens_shift(a: Seq<char>, b: Seq<char>, j: int)
    requires
        0 <= j <= b.len(),
    ensures
        tokens_from(a + b, a.len() + j) == tokens_from(b, j),
    decreases b.len() - j,
{
    if j < b.len() {
        let c = b[j];
        assert((a + b)[a.len() + j] == c);
        if !is_blank(c) && c != '(' && c != ')' && !is_op_char(c) && is_word_char(c) {
            lemma_word_end_shift(a, b, j);
            lemma_word_end(b, j);
            let e = word_end(b, j);
            assert((a + b).subrange(a.len() + j, a.len() + e) =~= b.subrange(j, e));
            if j < e <= b.len() {
                lemma_tokens_shift(a, b, e);
            }
        } else {
            lemma_tokens_shift(a, b, j + 1);
        }
    }
}

proof fn lemma_word_end_prefix(a: Seq<char>, b: Seq<char>, i: int)
    requires
        0 <= i <= a.len(),
        no_glue(a, b),
        i == a.len() ==> (b.len() == 0 || !is_word_char(b[0])),
    ensures
        word_end(a + b, i) == word_end(a, i),
    decreases a.len() - i,
{
    if i < a.len() {
        assert((a + b)[i] == a[i]);
        if is_word_char(a[i]) {
            lemma_word_end_prefix(a, b, i + 1);
        }
    } else if b.len() > 0 {
        assert((a + b)[i] == b[0]);
    }
}

proof fn lemma_tokens_concat_from(a: Seq<char>, b: Seq<char>, i: int)
    requires
        0 <= i <= a.len(),
        no_glue(a, b),
    ensures
        tokens_from(a + b, i) == join_tokens(tokens_from(a, i), tokens(b)),
    decreases a.len() - i,
{
    if i == a.len() {
        lemma_tokens_shift(a, b, 0);
    } else {
        let c = a[i];
        assert((a + b)[i] == c);
        if !is_blank(c) && c != '(' && c != ')' && !is_op_char(c) && is_word_char(c) {
            lemma_word_end_prefix(a, b, i);
            lemma_word_end(a, i);
            let e = word_end(a, i);
            assert((a + b).subrange(i, e) =~= a.subrange(i, e));
            lemma_tokens_concat_from(a, b, e);
            match tokens_from(a, e) {
                Ok(x) => match tokens(b) {
                    Ok(y) => { lemma_assoc(seq![Token::Atom(a.subrange(i, e))], x, y); },
                    Err(_) => {},
                },
                Err(_) => {},
            }
        } else {
            lemma_tokens_concat_from(a, b, i + 1);
            let tok = if c == '(' { Token::LParen } else if c == ')' { Token::RParen } else { Token::Op(c) };
            match tokens_from(a, i + 1) {
                Ok(x) => match tokens(b) {
                    Ok(y) => { lemma_assoc(seq![tok], x, y); },
                    Err(_) => {},
                },
                Err(_) => {},
            }
        }
    }
}

/// Tokenizing two texts with no atom across the seam is tokenizing each.
pub proof fn lemma_tokens_concat(a: Seq<char>, b: Seq<char>)
    requires
        no_glue(a, b),
    ensures
        tokens(a + b) == join_tokens(tokens(a), tokens(b)),
{
    lemma_tokens_concat_from(a, b, 0);
}

// ---------------------------------------------------------------------------
// well-formed terms and their tokens

/// A text that is one token: a single operator character, or a non-empty
/// run of word characters.
pub open spec fn is_leaf_text(s: Seq<char>) -> bool {
    (s.len() == 1 && is_op_char(s[0])) || is_word_text(s)
}

/// A non-empty run of word characters.
pub open spec fn is_word_text(s: Seq<char>) -> bool {
    s.len() > 0 && forall|k: int| 0 <= k < s.len() ==> is_word_char(#[trigger] s[k])
}

/// A term whose symbols are all single tokens.
pub open spec fn wf_term(t: Term) -> bool
    decreases t,
{
    match t {
        Term::Leaf(s) => is_leaf_text(s),
        Term::Node(op, kids) => is_leaf_text(op) && forall|i: int| 0 <= i < kids.len() ==> wf_term(#[trigger] kids[i]),
    }
}

/// The token that a leaf's symbol reads as.
pub open spec fn leaf_token(s: Seq<char>) -> Token {
    if s.len() == 1 && is_op_char(s[0]) {
        Token::Op(s[0])
    } else {
        Token::Atom(s)
    }
}

/// The tokens of a term's s-expression text.
pub open spec fn term_tokens(t: Term) -> Seq<Token>
    decreases t,
{
    match t {
        Term::Leaf(s) => seq![leaf_token(s)],
        Term::Node(op, kids) => seq![Token::LParen, leaf_token(op)] + seq_tokens(kids) + seq![Token::RParen],
    }
}

/// The tokens of several terms, one after another.
pub open spec fn seq_tokens(ts: Seq<Term>) -> Seq<Token>
    decreases ts,
{
    if ts.len() == 0 {
        seq![]
    } else {
        term_tokens(ts[0]) + seq_tokens(ts.subrange(1, ts.len() as int))
    }
}

proof fn lemma_seq_tokens_unfold(ts: Seq<Term>, j: int)
    requires
        0 <= j < ts.len(),
    ensures
        seq_tokens(ts.skip(j)) == term_tokens(ts[j]) + seq_tokens(ts.skip(j + 1)),
{
    let s = ts.skip(j);
    assert(s[0] == ts[j]);
    assert(s.subrange(1, s.len() as int) =~= ts.skip(j + 1));
}

proof fn lemma_seq_tokens_append(a: Seq<Term>, b: Seq<Term>)
    ensures
        seq_tokens(a + b) == seq_tokens(a) + seq_tokens(b),
    decreases a.len(),
{
    if a.len() == 0 {
        assert(a + b =~= b);
        assert(seq_tokens(a) + seq_tokens(b) =~= seq_tokens(b));
    } else {
        let r = a.subrange(1, a.len() as int);
        assert((a + b)[0] == a[0]);
        assert((a + b).subrange(1, (a + b).len() as int) =~= r + b);
        lemma_seq_tokens_append(r, b);
        assert(term_tokens(a[0]) + (seq_tokens(r) + seq_tokens(b)) =~= (term_tokens(a[0]) + seq_tokens(r)) + seq_tokens(b));
    }
}

proof fn lemma_seq_tokens_single(t: Term)
    ensures
        seq_tokens(seq![t]) == term_tokens(t),
{
    let e = seq![t].subrange(1, 1);
    assert(e =~= Seq::<Term>::empty());
    assert(seq_tokens(e) == Seq::<Token>::empty());
    assert(term_tokens(t) + Seq::<Token>::empty() =~= term_tokens(t));
}

proof fn lemma_term_tokens_first(t: Term)
    ensures
        term_tokens(t).len() > 0,
        !(term_tokens(t)[0] is RParen),
{
}

// ---------------------------------------------------------------------------
// character facts

proof fn lemma_word_char_facts(c: char)
    requires
        is_word_char(c),
    ensures
        !is_blank(c),
        c != '(',
        c != ')',
        !is_op_char(c),
        !is_white_space(c),
{
}

proof fn lemma_separators_not_word()
    ensures
        !is_word_char(' '),
        !is_word_char('('),
        !is_word_char(')'),
        !is_word_char('+'),
        !is_word_char('-'),
        !is_word_char('*'),
        !is_word_char('/'),
{
}

proof fn lemma_single_tokens()
    ensures
        tokens(seq!['(']) == Ok::<Seq<Token>, char>(seq![Token::LParen]),
        tokens(seq![')']) == Ok::<Seq<Token>, char>(seq![Token::RParen]),
        tokens(seq![' ']) == Ok::<Seq<Token>, char>(seq![]),
{
    assert(tokens_from(seq!['('], 1) == Ok::<Seq<Token>, char>(seq![]));
    assert(tokens_from(seq![')'], 1) == Ok::<Seq<Token>, char>(seq![]));
    assert(tokens_from(seq![' '], 1) == Ok::<Seq<Token>, char>(seq![]));
    assert(seq![Token::LParen] + seq![] =~= seq![Token::LParen]);
    assert(seq![Token::RParen] + seq![] =~= seq![Token::RParen]);
}

proof fn lemma_word_end_all(s: Seq<char>, i: int)
    requires
        0 <= i <= s.len(),
        forall|k: int| 0 <= k < s.len() ==> is_word_char(#[trigger] s[k]),
    ensures
        word_end(s, i) == s.len(),
    decreases s.len() - i,
{
    if i < s.len() {
        lemma_word_end_all(s, i + 1);
    }
}

/// A leaf's symbol tokenizes to its one token.
proof fn lemma_leaf_tokens(s: Seq<char>)
    requires
        is_leaf_text(s),
    ensures
        tokens(s) == Ok::<Seq<Token>, char>(seq![leaf_token(s)]),
{
    assert(tokens_from(s, s.len() as int) == Ok::<Seq<Token>, char>(seq![]));
    if s.len() == 1 && is_op_char(s[0]) {
        assert(seq![Token::Op(s[0])] + seq![] =~= seq![Token::Op(s[0])]);
    } else {
        lemma_word_char_facts(s[0]);
        lemma_word_end_all(s, 0);
        assert(s.subrange(0, s.len() as int) =~= s);
        assert(seq![Token::Atom(s)] + seq![] =~= seq![Token::Atom(s)]);
    }
}

// ---------------------------------------------------------------------------
// printing then tokenizing

proof fn lemma_kids_text_start(kids: Seq<Term>, n: nat)
    ensures
        kids_text(kids, n).len() == 0 || kids_text(kids, n)[0] == ' ',
    decreases n,
{
    if n > 0 && n <= kids.len() {
        lemma_kids_text_start(kids, (n - 1) as nat);
        let a = kids_text(kids, (n - 1) as nat);
        assert((a + seq![' '] + sexpr(kids[n - 1]))[0] == (if a.len() == 0 { ' ' } else { a[0] }));
    }
}

/// The printed text of a well-formed term tokenizes to its tokens.
pub proof fn lemma_print_tokens(t: Term)
    requires
        wf_term(t),
    ensures
        tokens(sexpr(t)) == Ok::<Seq<Token>, char>(term_tokens(t)),
    decreases t, 0nat,
{
    lemma_separators_not_word();
    lemma_single_tokens();
    match t {
        Term::Leaf(s) => {
            lemma_leaf_tokens(s);
        },
        Term::Node(op, kids) => {
            let kt = kids_text(kids, kids.len());
            lemma_kids_text_tokens(kids, kids.len());
            lemma_leaf_tokens(op);
            lemma_kids_text_start(kids, kids.len());
            let a = seq!['('];
            lemma_tokens_concat(a, op);
            let ao = a + op;
            assert(ao.last() == op.last());
            lemma_tokens_concat(ao, kt);
            let aok = ao + kt;
            if kt.len() > 0 {
                assert(aok.last() == kt.last());
            }
            lemma_tokens_concat(aok, seq![')']);
            assert(kids.take(kids.len() as int) =~= kids);
            assert(seq![Token::LParen] + seq![leaf_token(op)] + seq_tokens(kids) + seq![Token::RParen]
                =~= term_tokens(t));
        },
    }
}

/// The children's text tokenizes to the children's tokens.
pub proof fn lemma_kids_text_tokens(kids: Seq<Term>, n: nat)
    requires
        n <= kids.len(),
        forall|i: int| 0 <= i < kids.len() ==> wf_term(#[trigger] kids[i]),
    ensures
        tokens(kids_text(kids, n)) == Ok::<Seq<Token>, char>(seq_tokens(kids.take(n as int))),
    decreases kids, n,
{
    lemma_separators_not_word();
    lemma_single_tokens();
    if n == 0 {
        assert(kids.take(0) =~= Seq::<Term>::empty());
        assert(tokens_from(Seq::<char>::empty(), 0) == Ok::<Seq<Token>, char>(seq![]));
        assert(kids_text(kids, 0) =~= Seq::<char>::empty());
    } else {
        let k = kids[n - 1];
        let a = kids_text(kids, (n - 1) as nat);
        lemma_kids_text_tokens(kids, (n - 1) as nat);
        lemma_print_tokens(k);
        lemma_tokens_concat(a, seq![' ']);
        lemma_tokens_concat(a + seq![' '], sexpr(k));
        assert((a + seq![' ']).last() == ' ');
        assert(kids.take(n as int) =~= kids.take(n - 1) + seq![k]);
        lemma_seq_tokens_append(kids.take(n - 1), seq![k]);
        lemma_seq_tokens_single(k);
        assert(seq_tokens(kids.take(n - 1)) + seq![] =~= seq_tokens(kids.take(n - 1)));
    }
}

// ---------------------------------------------------------------------------
// the printed text has nothing to trim

proof fn lemma_leaf_text_ends(s: Seq<char>)
    requires
        is_leaf_text(s),
    ensures
        s.len() > 0,
        !is_white_space(s[0]),
        !is_white_space(s.last()),
{
    if !(s.len() == 1 && is_op_char(s[0])) {
        lemma_word_char_facts(s[0]);
        lemma_word_char_facts(s[s.len() - 1]);
    }
}

/// The printed text of a well-formed term starts and ends with no white space.
pub proof fn lemma_print_trimmed(t: Term)
    requires
        wf_term(t),
    ensures
        sexpr(t).len() > 0,
        trim(sexpr(t)) == sexpr(t),
{
    let p = sexpr(t);
    match t {
        Term::Leaf(s) => {
            lemma_leaf_text_ends(s);
        },
        Term::Node(op, kids) => {
            assert(p[0] == '(');
            assert(p.last() == ')');
        },
    }
    assert(!is_white_space(p[0]));
    assert(!is_white_space(p.last()));
    assert(trim_start(p) == p);
    assert(trim_end(p) == p);
}

// ---------------------------------------------------------------------------
// the tokenizer makes only single-token symbols

/// A token as the tokenizer makes them.
pub open spec fn valid_token(t: Token) -> bool {
    match t {
        Token::Atom(s) => is_word_text(s),
        Token::Op(c) => is_op_char(c),
        _ => true,
    }
}

pub open spec fn valid_tokens(ts: Seq<Token>) -> bool {
    forall|k: int| 0 <= k < ts.len() ==> valid_token(#[trigger] ts[k])
}

proof fn lemma_cons_valid(t: Token, r: Result<Seq<Token>, char>)
    requires
        valid_token(t),
        r matches Ok(ts) ==> valid_tokens(ts),
    ensures
        cons_tokens(t, r) matches Ok(ts) ==> valid_tokens(ts),
{
    if let Ok(ts) = r {
        let all = seq![t] + ts;
        assert forall|k: int| 0 <= k < all.len() implies valid_token(#[trigger] all[k]) by {
            if k > 0 {
                assert(all[k] == ts[k - 1]);
            }
        }
    }
}

/// Every token of a text is a valid token.
pub proof fn lemma_tokens_valid(s: Seq<char>, i: int)
    ensures
        tokens_from(s, i) matches Ok(ts) ==> valid_tokens(ts),
    decreases s.len() - i,
{
    if 0 <= i < s.len() {
        let c = s[i];
        if is_blank(c) {
            lemma_tokens_valid(s, i + 1);
        } else if c == '(' || c == ')' || is_op_char(c) {
            lemma_tokens_valid(s, i + 1);
            let t = if c == '(' { Token::LParen } else if c == ')' { Token::RParen } else { Token::Op(c) };
            lemma_cons_valid(t, tokens_from(s, i + 1));
        } else if is_word_char(c) {
            lemma_word_end(s, i);
            let j = word_end(s, i);
            if i < j <= s.len() {
                lemma_tokens_valid(s, j);
                let a = s.subrange(i, j);
                assert forall|k: int| 0 <= k < a.len() implies is_word_char(#[trigger] a[k]) by {
                    assert(a[k] == s[i + k]);
                }
                lemma_cons_valid(Token::Atom(a), tokens_from(s, j));
            }
        }
    } else {
        assert(tokens_from(s, i) == Ok::<Seq<Token>, char>(seq![]));
    }
}

// ---------------------------------------------------------------------------
// what the parsers build is well formed

/// A term that infix notation builds: an atom, or a node whose operator is
/// one of `+ - * /`.
pub open spec fn infix_shaped(t: Term) -> bool {
    wf_term(t) && match t {
        Term::Leaf(s) => is_word_text(s),
        Term::Node(op, _) => op.len() == 1 && is_op_char(op[0]),
    }
}

proof fn lemma_binary_wf(c: char, l: Term, r: Term)
    requires
        is_op_char(c),
        wf_term(l),
        wf_term(r),
    ensures
        infix_shaped(Term::Node(seq![c], seq![l, r])),
{
    let kids = seq![l, r];
    assert forall|i: int| 0 <= i < kids.len() implies wf_term(#[trigger] kids[i]) by {}
}

pub proof fn lemma_sexpr_wf(ts: Seq<Token>, pos: int)
    requires
        valid_tokens(ts),
    ensures
        sexpr_at(ts, pos) matches Some((t, _)) ==> wf_term(t),
    decreases ts.len() - pos, 0nat,
{
    if 0 <= pos < ts.len() {
        assert(valid_token(ts[pos]));
        if ts[pos] is LParen {
            lemma_list_wf(ts, pos + 1, seq![]);
        }
    }
}

pub proof fn lemma_list_wf(ts: Seq<Token>, pos: int, items: Seq<Term>)
    requires
        valid_tokens(ts),
        forall|i: int| 0 <= i < items.len() ==> wf_term(#[trigger] items[i]),
    ensures
        list_at(ts, pos, items) matches Some((t, _)) ==> wf_term(t),
    decreases ts.len() - pos, 1nat,
{
    if 0 <= pos < ts.len() {
        if ts[pos] is RParen {
            if items.len() > 0 {
                if let Term::Leaf(op) = items[0] {
                    let ks = items.drop_first();
                    assert forall|i: int| 0 <= i < ks.len() implies wf_term(#[trigger] ks[i]) by {
                        assert(ks[i] == items[i + 1]);
                    }
                }
            }
        } else {
            lemma_sexpr_wf(ts, pos);
            if let Some((k, p)) = sexpr_at(ts, pos) {
                if pos < p <= ts.len() {
                    let more = items.push(k);
                    assert forall|i: int| 0 <= i < more.len() implies wf_term(#[trigger] more[i]) by {
                        if i < items.len() {
                            assert(more[i] == items[i]);
                        }
                    }
                    lemma_list_wf(ts, p, more);
                }
            }
        }
    }
}

pub proof fn lemma_expr_shaped(ts: Seq<Token>, pos: int)
    requires
        valid_tokens(ts),
    ensures
        expr_at(ts, pos) matches Some((t, _)) ==> infix_shaped(t),
    decreases ts.len() - pos, 3nat,
{
    if 0 <= pos <= ts.len() {
        lemma_term_shaped(ts, pos);
        if let Some((l, p)) = term_at(ts, pos) {
            if pos < p <= ts.len() {
                lemma_expr_rest_shaped(ts, l, p);
            }
        }
    }
}

pub proof fn lemma_expr_rest_shaped(ts: Seq<Token>, left: Term, pos: int)
    requires
        valid_tokens(ts),
        infix_shaped(left),
    ensures
        expr_rest(ts, left, pos) matches Some((t, _)) ==> infix_shaped(t),
    decreases ts.len() - pos, 2nat,
{
    if 0 <= pos < ts.len() && is_add_op(ts[pos]) {
        lemma_term_shaped(ts, pos + 1);
        if let Some((r, p)) = term_at(ts, pos + 1) {
            if pos < p <= ts.len() {
                lemma_binary_wf(op_of(ts[pos]), left, r);
                lemma_expr_rest_shaped(ts, Term::Node(seq![op_of(ts[pos])], seq![left, r]), p);
            }
        }
    }
}

pub proof fn lemma_term_shaped(ts: Seq<Token>, pos: int)
    requires
        valid_tokens(ts),
    ensures
        term_at(ts, pos) matches Some((t, _)) ==> infix_shaped(t),
    decreases ts.len() - pos, 1nat,
{
    if 0 <= pos <= ts.len() {
        lemma_factor_shaped(ts, pos);
        if let Some((l, p)) = factor_at(ts, pos) {
            if pos < p <= ts.len() {
                lemma_term_rest_shaped(ts, l, p);
            }
        }
    }
}

pub proof fn lemma_term_rest_shaped(ts: Seq<Token>, left: Term, pos: int)
    requires
        valid_tokens(ts),
        infix_shaped(left),
    ensures
        term_rest(ts, left, pos) matches Some((t, _)) ==> infix_shaped(t),
    decreases ts.len() - pos, 1nat,
{
    if 0 <= pos < ts.len() && is_mul_op(ts[pos]) {
        lemma_factor_shaped(ts, pos + 1);
        if let Some((r, p)) = factor_at(ts, pos + 1) {
            if pos < p <= ts.len() {
                lemma_binary_wf(op_of(ts[pos]), left, r);
                lemma_term_rest_shaped(ts, Term::Node(seq![op_of(ts[pos])], seq![left, r]), p);
            }
        }
    }
}

pub proof fn lemma_factor_shaped(ts: Seq<Token>, pos: int)
    requires
        valid_tokens(ts),
    ensures
        factor_at(ts, pos) matches Some((t, _)) ==> infix_shaped(t),
    decreases ts.len() - pos, 0nat,
{
    if 0 <= pos < ts.len() {
        assert(valid_token(ts[pos]));
        if ts[pos] is LParen {
            lemma_expr_shaped(ts, pos + 1);
        }
    }
}

// ---------------------------------------------------------------------------
// reading the tokens of a term as an s-expression gives the term back

proof fn lemma_leaf_token_reads(ts: Seq<Token>, pos: int, s: Seq<char>)
    requires
        is_leaf_text(s),
        0 <= pos < ts.len(),
        ts[pos] == leaf_token(s),
    ensures
        sexpr_at(ts, pos) == Some((Term::Leaf(s), pos + 1)),
{
    if s.len() == 1 && is_op_char(s[0]) {
        assert(seq![s[0]] =~= s);
    }
}

/// The tokens of a well-formed term, wherever they stand, read back as the term.
pub proof fn lemma_sexpr_of_tokens(t: Term, pre: Seq<Token>, post: Seq<Token>)
    requires
        wf_term(t),
    ensures
        sexpr_at(pre + term_tokens(t) + post, pre.len() as int)
            == Some((t, (pre.len() + term_tokens(t).len()) as int)),
    decreases t, 0int,
{
    let ts = pre + term_tokens(t) + post;
    match t {
        Term::Leaf(s) => {
            assert(ts[pre.len() as int] == leaf_token(s));
            lemma_leaf_token_reads(ts, pre.len() as int, s);
        },
        Term::Node(op, kids) => {
            let n = pre.len() as int;
            assert(ts[n] == Token::LParen);
            assert(ts[n + 1] == leaf_token(op));
            lemma_leaf_token_reads(ts, n + 1, op);
            let pre2 = pre + seq![Token::LParen, leaf_token(op)];
            assert(kids.skip(0) =~= kids);
            assert(ts =~= pre2 + seq_tokens(kids.skip(0)) + seq![Token::RParen] + post);
            assert(seq![Term::Leaf(op)] + kids.take(0) =~= seq![Term::Leaf(op)]);
            assert(seq![Term::Leaf(op)] =~= Seq::<Term>::empty().push(Term::Leaf(op)));
            lemma_list_of_tokens(op, kids, 0, pre2, post);
        },
    }
}

/// The children's tokens, then `)`, finish the list that began with the operator.
proof fn lemma_list_of_tokens(op: Seq<char>, kids: Seq<Term>, j: int, pre: Seq<Token>, post: Seq<Token>)
    requires
        0 <= j <= kids.len(),
        forall|i: int| 0 <= i < kids.len() ==> wf_term(#[trigger] kids[i]),
    ensures
        list_at(pre + seq_tokens(kids.skip(j)) + seq![Token::RParen] + post, pre.len() as int,
            seq![Term::Leaf(op)] + kids.take(j))
            == Some((Term::Node(op, kids), (pre.len() + seq_tokens(kids.skip(j)).len() + 1) as int)),
    decreases kids, kids.len() - j,
{
    let ts = pre + seq_tokens(kids.skip(j)) + seq![Token::RParen] + post;
    let items = seq![Term::Leaf(op)] + kids.take(j);
    let n = pre.len() as int;
    if j == kids.len() {
        assert(kids.skip(j) =~= Seq::<Term>::empty());
        assert(seq_tokens(kids.skip(j)) =~= Seq::<Token>::empty());
        assert(ts[n] == Token::RParen);
        assert(items.drop_first() =~= kids);
    } else {
        let k = kids[j];
        lemma_seq_tokens_unfold(kids, j);
        let rest = seq_tokens(kids.skip(j + 1));
        let post2 = rest + seq![Token::RParen] + post;
        assert(ts =~= pre + term_tokens(k) + post2);
        lemma_sexpr_of_tokens(k, pre, post2);
        lemma_term_tokens_first(k);
        assert(ts[n] == term_tokens(k)[0]);
        let pre2 = pre + term_tokens(k);
        assert(ts =~= pre2 + seq_tokens(kids.skip(j + 1)) + seq![Token::RParen] + post);
        assert(items.push(k) =~= seq![Term::Leaf(op)] + kids.take(j + 1));
        lemma_list_of_tokens(op, kids, j + 1, pre2, post);
    }
}

// ---------------------------------------------------------------------------
// what an s-expression parse read are exactly the tokens of its result

/// The tokens that an s-expression parse consumed are the tokens of its result.
pub proof fn lemma_sexpr_tokens_back(ts: Seq<Token>, pos: int)
    requires
        valid_tokens(ts),
    ensures
        sexpr_at(ts, pos) matches Some((t, p)) ==> ts.subrange(pos, p) == term_tokens(t),
    decreases ts.len() - pos, 0nat,
{
    if 0 <= pos < ts.len() {
        assert(valid_token(ts[pos]));
        match ts[pos] {
            Token::LParen => {
                lemma_list_tokens_back(ts, pos + 1, seq![]);
                lemma_list_advances(ts, pos + 1, seq![]);
                if let Some((t, p)) = sexpr_at(ts, pos) {
                    let op = t->Node_0;
                    let ks = t->Node_1;
                    let x = seq![Term::Leaf(op)] + ks;
                    assert(x.skip(0) =~= x);
                    lemma_seq_tokens_unfold(x, 0);
                    assert(x.skip(1) =~= ks);
                    lemma_seq_tokens_single(Term::Leaf(op));
                    assert(ts.subrange(pos, p) =~= seq![ts[pos]] + ts.subrange(pos + 1, p));
                    assert(ts.subrange(pos, p) =~= term_tokens(t));
                }
            },
            Token::Atom(a) => {
                lemma_word_char_facts(a[0]);
                assert(ts.subrange(pos, pos + 1) =~= seq![ts[pos]]);
            },
            Token::Op(c) => {
                assert(ts.subrange(pos, pos + 1) =~= seq![ts[pos]]);
            },
            Token::RParen => {},
        }
    }
}

/// What a list parse consumed: the tokens of the items still to come, then `)`.
pub proof fn lemma_list_tokens_back(ts: Seq<Token>, pos: int, items: Seq<Term>)
    requires
        valid_tokens(ts),
    ensures
        list_at(ts, pos, items) matches Some((t, p)) ==> {
            &&& t is Node
            &&& items.len() <= 1 + t->Node_1.len()
            &&& items == (seq![Term::Leaf(t->Node_0)] + t->Node_1).take(items.len() as int)
            &&& ts.subrange(pos, p) == seq_tokens((seq![Term::Leaf(t->Node_0)] + t->Node_1).skip(items.len() as int)) + seq![Token::RParen]
        },
    decreases ts.len() - pos, 1nat,
{
    if 0 <= pos < ts.len() {
        if ts[pos] is RParen {
            if let Some((t, p)) = list_at(ts, pos, items) {
                let x = seq![Term::Leaf(t->Node_0)] + t->Node_1;
                assert(x =~= items);
                assert(x.take(items.len() as int) =~= items);
                assert(x.skip(items.len() as int) =~= Seq::<Term>::empty());
                assert(seq_tokens(Seq::<Term>::empty()) =~= Seq::<Token>::empty());
                assert(ts.subrange(pos, p) =~= seq![Token::RParen]);
            }
        } else {
            lemma_sexpr_advances(ts, pos);
            if let Some((k, p1)) = sexpr_at(ts, pos) {
                if pos < p1 <= ts.len() {
                    lemma_sexpr_tokens_back(ts, pos);
                    lemma_list_tokens_back(ts, p1, items.push(k));
                    lemma_list_advances(ts, p1, items.push(k));
                    if let Some((t, p)) = list_at(ts, pos, items) {
                        let x = seq![Term::Leaf(t->Node_0)] + t->Node_1;
                        let m = items.len() as int;
                        assert(items.push(k) == x.take(m + 1));
                        assert(x[m] == items.push(k)[m]);
                        assert(x.take(m) =~= items);
                        lemma_seq_tokens_unfold(x, m);
                        assert(ts.subrange(pos, p) =~= ts.subrange(pos, p1) + ts.subrange(p1, p));
                        assert(ts.subrange(pos, p) =~= seq_tokens(x.skip(m)) + seq![Token::RParen]);
                    }
                }
            }
        }
    }
}

// ---------------------------------------------------------------------------
// the canonical form reads back as the same term

proof fn lemma_infix_rejects_node_tokens(t: Term)
    requires
        t matches Term::Node(op, _) && op.len() == 1 && is_op_char(op[0]),
    ensures
        expr_at(term_tokens(t), 0) is None,
{
    let tt = term_tokens(t);
    assert(tt[0] == Token::LParen);
    assert(tt[1] == Token::Op(t->Node_0[0]));
    assert(factor_at(tt, 1) is None);
    assert(term_at(tt, 1) is None);
    assert(expr_at(tt, 1) is None);
    assert(factor_at(tt, 0) is None);
    assert(term_at(tt, 0) is None);
}

proof fn lemma_infix_reads_atom(a: Seq<char>)
    requires
        is_word_text(a),
    ensures
        whole(expr_at(term_tokens(Term::Leaf(a)), 0), 1) == Some(Term::Leaf(a)),
{
    lemma_word_char_facts(a[0]);
    let tt = term_tokens(Term::Leaf(a));
    assert(tt == seq![Token::Atom(a)]);
    assert(factor_at(tt, 0) == Some((Term::Leaf(a), 1int)));
    assert(term_rest(tt, Term::Leaf(a), 1) == Some((Term::Leaf(a), 1int)));
    assert(term_at(tt, 0) == Some((Term::Leaf(a), 1int)));
    assert(expr_rest(tt, Term::Leaf(a), 1) == Some((Term::Leaf(a), 1int)));
}

/// Printing a parsed expression in s-expression form and reading that back
/// gives the same expression: the canonical form is a fixed point of
/// `parse_expr_str`, and `parse_any` reads it as the term it came from.
pub proof fn law_canonical_form_reads_back(s: Seq<char>)
    requires
        parse_text(s) is Ok,
    ensures
        parse_text(sexpr(parse_text(s)->Ok_0)) == parse_text(s),
{
    let t = parse_text(s)->Ok_0;
    let txt = trim(s);
    let ts = tokens(txt)->Ok_0;
    lemma_tokens_valid(txt, 0);
    let p = sexpr(t);
    if whole(expr_at(ts, 0), ts.len() as int) is Some {
        lemma_expr_shaped(ts, 0);
        assert(infix_shaped(t));
        lemma_print_tokens(t);
        lemma_print_trimmed(t);
        match t {
            Term::Leaf(a) => {
                lemma_infix_reads_atom(a);
            },
            Term::Node(op, kids) => {
                lemma_infix_rejects_node_tokens(t);
                lemma_sexpr_of_tokens(t, seq![], seq![]);
                assert(Seq::<Token>::empty() + term_tokens(t) + Seq::<Token>::empty() =~= term_tokens(t));
            },
        }
    } else {
        lemma_sexpr_wf(ts, 0);
        lemma_sexpr_tokens_back(ts, 0);
        assert(ts.subrange(0, ts.len() as int) =~= ts);
        lemma_print_tokens(t);
        lemma_print_trimmed(t);
    }
}

/// A term whose printed form reads back as the same term: its symbols are
/// single tokens, and it is a word or an operator node.
pub open spec fn printable(t: Term) -> bool {
    &&& wf_term(t)
    &&& match t {
        Term::Leaf(a) => is_word_text(a),
        Term::Node(op, _) => op.len() == 1 && is_op_char(op[0]),
    }
}

/// A printable term, printed and read back, is itself.
pub proof fn lemma_printed_reads_back(t: Term)
    requires
        printable(t),
    ensures
        parse_text(sexpr(t)) == Ok::<Term, Seq<char>>(t),
{
    lemma_print_trimmed(t);
    lemma_print_tokens(t);
    let ts = term_tokens(t);
    match t {
        Term::Leaf(a) => {
            lemma_infix_reads_atom(a);
        },
        Term::Node(..) => {
            lemma_infix_rejects_node_tokens(t);
            lemma_sexpr_of_tokens(t, seq![], seq![]);
            assert(Seq::<Token>::empty() + ts + Seq::<Token>::empty() =~= ts);
        },
    }
}

/// A character that can stand in the printed form of a well-formed term.
pub open spec fn printed_char(c: char) -> bool {
    is_word_char(c) || is_op_char(c) || c == '(' || c == ')' || c == ' '
}

/// The printed form of a well-formed term holds only printed characters.
pub proof fn lemma_sexpr_chars(t: Term)
    requires
        wf_term(t),
    ensures
        forall|k: int| 0 <= k < sexpr(t).len() ==> printed_char(#[trigger] sexpr(t)[k]),
    decreases t, 1nat,
{
    match t {
        Term::Leaf(s) => {},
        Term::Node(op, kids) => {
            lemma_kids_text_chars(kids, kids.len());
            let a = seq!['('] + op;
            let b = kids_text(kids, kids.len());
            assert forall|k: int| 0 <= k < sexpr(t).len() implies printed_char(#[trigger] sexpr(t)[k]) by {
                assert(sexpr(t) == a + b + seq![')']);
                if k < a.len() {
                    assert(sexpr(t)[k] == a[k]);
                } else if k < a.len() + b.len() {
                    assert(sexpr(t)[k] == b[k - a.len()]);
                }
            }
        },
    }
}

proof fn lemma_kids_text_chars(kids: Seq<Term>, n: nat)
    requires
        forall|i: int| 0 <= i < kids.len() ==> wf_term(#[trigger] kids[i]),
    ensures
        forall|k: int| 0 <= k < kids_text(kids, n).len() ==> printed_char(#[trigger] kids_text(kids, n)[k]),
    decreases kids, n,
{
    if n > 0 && n <= kids.len() {
        lemma_kids_text_chars(kids, (n - 1) as nat);
        assert(decreases_to!(kids => kids[n - 1]));
        lemma_sexpr_chars(kids[n - 1]);
        let a = kids_text(kids, (n - 1) as nat) + seq![' '];
        let b = sexpr(kids[n - 1]);
        assert forall|k: int| 0 <= k < kids_text(kids, n).len() implies printed_char(#[trigger] kids_text(kids, n)[k]) by {
            assert(kids_text(kids, n) == a + b);
            if k < a.len() - 1 {
                assert(kids_text(kids, n)[k] == kids_text(kids, (n - 1) as nat)[k]);
            } else if k >= a.len() {
                assert(kids_text(kids, n)[k] == b[k - a.len()]);
            }
        }
    }
}

} // verus!
