//! Writing a tree down, and the law that reading gives it back.
//!
//! A tree is written with the fewest parentheses that the grammar needs:
//! around an operand whose own rule binds looser than the place it stands
//! in. The parser reads every such line as the tree it was written from,
//! which fixes precedence and grouping for all trees at once: `AND` below
//! `OR`, `NOT` on the atom behind it, chains read flat. As the parser reads
//! nothing but normal trees, a tree can be read exactly when it can be
//! written.

use crate::expr::Tree;
use crate::grammar::{closed, lemma_ascend, normal, operand_rank, rule, spells};
use crate::lexer::{lemma_word, lex, scan, spelling, Lexeme, SyntaxError, Token};
use crate::parser::{
    atom, chain, chain_rest, is_token, join, not_expression, operand, operator, parse_spec,
    sentence,
};
use vstd::prelude::*;

verus! {

/// The rule that builds a tree of this shape: 0 for `atom`, 1 for
/// `not_expression`, 2 for `and_expression`, 3 for `or_expression`.
pub open spec fn rank(tree: Tree) -> nat {
    match tree {
        Tree::Literal(_) => 0,
        Tree::Not(_) => 1,
        Tree::And(_) => 2,
        Tree::Or(_) => 3,
    }
}

/// The tokens of a tree, with no parentheses around the whole.
pub open spec fn body(tree: Tree) -> Seq<Token>
    decreases tree, 0nat, 0nat,
{
    match tree {
        Tree::Literal(b) => seq![if b { Token::True } else { Token::False }],
        Tree::Not(inner) => seq![Token::Not] + wrap(*inner, 0),
        Tree::And(c) => chain_body(c, false),
        Tree::Or(c) => chain_body(c, true),
    }
}

/// The tokens of a tree where the rule of rank `level` is to read it: in
/// parentheses if its own rule ranks higher.
pub open spec fn wrap(tree: Tree, level: nat) -> Seq<Token>
    decreases tree, 1nat, 0nat,
{
    if rank(tree) <= level {
        body(tree)
    } else {
        seq![Token::Open] + body(tree) + seq![Token::Close]
    }
}

/// The tokens of a chain: its operands with the operator between them.
pub open spec fn chain_body(c: Seq<Tree>, disjunction: bool) -> Seq<Token>
    decreases c, 1nat, 0nat,
{
    if c.len() == 0 {
        Seq::empty()
    } else {
        wrap(c[0], operand_rank(disjunction)) + rest_body(c, 1, disjunction)
    }
}

/// The tokens of a chain from behind operand `k - 1` on: operator and
/// operand, for each operand from `k` on.
pub open spec fn rest_body(c: Seq<Tree>, k: nat, disjunction: bool) -> Seq<Token>
    decreases c, 0nat, c.len() - k,
{
    if k >= c.len() {
        Seq::empty()
    } else {
        seq![operator(disjunction)] + wrap(c[k as int], operand_rank(disjunction)) + rest_body(
            c,
            k + 1,
            disjunction,
        )
    }
}

/// A tree written down as a line of tokens.
pub open spec fn render(tree: Tree) -> Seq<Token> {
    body(tree)
}

/// Tokens that stand in a row stand part by part.
proof fn lemma_spells_split(t: Seq<Lexeme>, i: int, a: Seq<Token>, b: Seq<Token>)
    requires
        spells(t, i, a + b),
    ensures
        spells(t, i, a),
        spells(t, i + a.len(), b),
{
    let p = a + b;
    assert forall|k: int| 0 <= k < a.len() implies #[trigger] a[k] == t[i + k].token by {
        assert(p[k] == a[k]);
    }
    assert forall|k: int| 0 <= k < b.len() implies #[trigger] b[k] == t[i + a.len() + k].token by {
        assert(p[a.len() + k] == b[k]);
    }
}

proof fn lemma_body(tree: Tree, t: Seq<Lexeme>, i: int, end: usize, level: nat)
    requires
        normal(tree),
        rank(tree) <= level <= 3,
        spells(t, i, body(tree)),
        closed(t, i + body(tree).len(), level),
    ensures
        rule(level, t, i, end) == Ok::<(Tree, nat), SyntaxError>((tree, body(tree).len())),
    decreases tree, 0nat, 0nat,
{
    let p = body(tree);
    match tree {
        Tree::Literal(b) => {
            assert(p[0] == t[i + 0].token);
            assert(atom(t, i, end) == Ok::<(Tree, nat), SyntaxError>((tree, 1)));
            lemma_ascend(t, i, end, tree, 1, 0, level);
        },
        Tree::Not(inner) => {
            let q = wrap(*inner, 0);
            lemma_spells_split(t, i, seq![Token::Not], q);
            assert(seq![Token::Not][0] == t[i + 0].token);
            lemma_wrap(*inner, t, i + 1, end, 0);
            assert(not_expression(t, i, end) == Ok::<(Tree, nat), SyntaxError>((tree, q.len() + 1)));
            lemma_ascend(t, i, end, tree, p.len(), 1, level);
        },
        Tree::And(c) => {
            lemma_chain(c, t, i, end, false);
            lemma_ascend(t, i, end, tree, p.len(), 2, level);
        },
        Tree::Or(c) => {
            lemma_chain(c, t, i, end, true);
            lemma_ascend(t, i, end, tree, p.len(), 3, level);
        },
    }
}

proof fn lemma_wrap(tree: Tree, t: Seq<Lexeme>, i: int, end: usize, level: nat)
    requires
        normal(tree),
        level <= 3,
        spells(t, i, wrap(tree, level)),
        closed(t, i + wrap(tree, level).len(), level),
    ensures
        rule(level, t, i, end) == Ok::<(Tree, nat), SyntaxError>((tree, wrap(tree, level).len())),
    decreases tree, 1nat, 0nat,
{
    if rank(tree) <= level {
        lemma_body(tree, t, i, end, level);
    } else {
        let p = body(tree);
        lemma_spells_split(t, i, seq![Token::Open] + p, seq![Token::Close]);
        lemma_spells_split(t, i, seq![Token::Open], p);
        assert(seq![Token::Open][0] == t[i + 0].token);
        assert(seq![Token::Close][0] == t[i + 1 + p.len() + 0].token);
        lemma_body(tree, t, i + 1, end, 3);
        assert(atom(t, i, end) == Ok::<(Tree, nat), SyntaxError>((tree, p.len() + 2)));
        lemma_ascend(t, i, end, tree, p.len() + 2, 0, level);
    }
}

proof fn lemma_chain(c: Seq<Tree>, t: Seq<Lexeme>, i: int, end: usize, disjunction: bool)
    requires
        c.len() >= 2,
        forall|k: int| 0 <= k < c.len() ==> normal(#[trigger] c[k]),
        spells(t, i, chain_body(c, disjunction)),
        closed(t, i + chain_body(c, disjunction).len(), operand_rank(disjunction) + 1),
    ensures
        chain(t, i, end, disjunction) == Ok::<(Tree, nat), SyntaxError>(
            (join(c, disjunction), chain_body(c, disjunction).len()),
        ),
    decreases c, 1nat, 0nat,
{
    let first = wrap(c[0], operand_rank(disjunction));
    let rest = rest_body(c, 1, disjunction);
    lemma_spells_split(t, i, first, rest);
    assert(rest[0] == operator(disjunction)) by {
        assert(rest =~= seq![operator(disjunction)] + wrap(c[1], operand_rank(disjunction))
            + rest_body(c, 2, disjunction));
    }
    assert(rest[0] == t[i + first.len() + 0].token);
    lemma_wrap(c[0], t, i, end, operand_rank(disjunction));
    assert(operand(t, i, end, disjunction) == Ok::<(Tree, nat), SyntaxError>((c[0], first.len())));
    assert(c.take(1) =~= seq![c[0]]);
    lemma_rest(c, 1, t, i, first.len(), end, disjunction);
}

proof fn lemma_rest(
    c: Seq<Tree>,
    k: nat,
    t: Seq<Lexeme>,
    from: int,
    used: nat,
    end: usize,
    disjunction: bool,
)
    requires
        1 <= k <= c.len(),
        forall|j: int| 0 <= j < c.len() ==> normal(#[trigger] c[j]),
        0 <= from,
        spells(t, from + used, rest_body(c, k, disjunction)),
        closed(
            t,
            from + used + rest_body(c, k, disjunction).len(),
            operand_rank(disjunction) + 1,
        ),
    ensures
        chain_rest(t, from, used, end, disjunction, c.take(k as int)) == Ok::<
            (Seq<Tree>, nat),
            SyntaxError,
        >((c, used + rest_body(c, k, disjunction).len())),
    decreases c, 0nat, c.len() - k,
{
    if k == c.len() {
        assert(c.take(k as int) =~= c);
    } else {
        let op = seq![operator(disjunction)];
        let w = wrap(c[k as int], operand_rank(disjunction));
        let tail = rest_body(c, k + 1, disjunction);
        let at = from + used;
        lemma_spells_split(t, at, op + w, tail);
        lemma_spells_split(t, at, op, w);
        assert(op[0] == t[at + 0].token);
        assert(is_token(t, at, operator(disjunction)));
        if k + 1 < c.len() {
            assert(tail =~= op + wrap(c[k as int + 1], operand_rank(disjunction)) + rest_body(
                c,
                k + 2,
                disjunction,
            ));
            assert(tail[0] == t[at + 1 + w.len() + 0].token);
        }
        lemma_wrap(c[k as int], t, at + 1, end, operand_rank(disjunction));
        assert(operand(t, at + 1, end, disjunction) == Ok::<(Tree, nat), SyntaxError>(
            (c[k as int], w.len()),
        ));
        assert(c.take(k as int).push(c[k as int]) =~= c.take(k as int + 1));
        lemma_rest(c, k + 1, t, from, used + 1 + w.len(), end, disjunction);
    }
}

/// Reading gives back what was written: where the tokens of a line are a
/// normal tree written down, the grammar reads the line as that tree.
pub proof fn lemma_reads_what_was_written(tree: Tree, t: Seq<Lexeme>, end: usize)
    requires
        normal(tree),
        t.len() == render(tree).len(),
        forall|k: int| 0 <= k < t.len() ==> (#[trigger] t[k]).token == render(tree)[k],
    ensures
        sentence(t, end) == Ok::<Tree, SyntaxError>(tree),
{
    lemma_body(tree, t, 0, end, 3);
}

/// A line of tokens as text: the tokens spelled out, with one space between
/// each two of them.
pub open spec fn text(p: Seq<Token>) -> Seq<u8>
    decreases p.len(),
{
    if p.len() == 0 {
        Seq::empty()
    } else if p.len() == 1 {
        spelling(p[0])
    } else {
        spelling(p[0]) + seq![0x20u8] + text(p.skip(1))
    }
}

proof fn lemma_scan_text(s: Seq<u8>, i: int, acc: Seq<Lexeme>, p: Seq<Token>)
    requires
        0 <= i <= s.len(),
        s.subrange(i, s.len() as int) == text(p),
    ensures
        scan(s, i, acc) is Ok,
        scan(s, i, acc)->Ok_0.len() == acc.len() + p.len(),
        forall|k: int| 0 <= k < acc.len() ==> scan(s, i, acc)->Ok_0[k] == #[trigger] acc[k],
        forall|k: int|
            0 <= k < p.len() ==> scan(s, i, acc)->Ok_0[acc.len() + k].token == #[trigger] p[k],
    decreases p.len(),
{
    let tail = s.subrange(i, s.len() as int);
    if p.len() == 0 {
        assert(tail.len() == 0);
    } else {
        let w = spelling(p[0]);
        let m = w.len() as int;
        let rest = p.skip(1);
        let lexeme = Lexeme { token: p[0], start: i as usize };
        let acc1 = acc.push(lexeme);
        assert(m >= 1);
        if p.len() == 1 {
            assert(tail == w);
        } else {
            assert(tail == w + seq![0x20u8] + text(rest));
            assert(tail.len() == m + 1 + text(rest).len());
            assert(s[i + m] == 0x20u8) by {
                assert(tail[m] == s[i + m]);
            }
        }
        assert forall|k: int| 0 <= k < m implies s[i + k] == #[trigger] w[k] by {
            assert(tail[k] == s[i + k]);
        }
        if p[0] == Token::Open || p[0] == Token::Close {
            assert(s[i] == w[0]);
            assert(scan(s, i, acc) == scan(s, i + 1, acc1));
        } else {
            lemma_word(s, i, p[0]);
            assert(scan(s, i, acc) == scan(s, i + m, acc1));
        }
        if p.len() == 1 {
            assert(scan(s, i + m, acc1) == Ok::<Seq<Lexeme>, SyntaxError>(acc1));
        } else {
            assert(s.subrange(i + m + 1, s.len() as int) =~= text(rest)) by {
                assert forall|k: int| 0 <= k < text(rest).len() implies s[i + m + 1 + k] == text(
                    rest,
                )[k] by {
                    assert(tail[m + 1 + k] == s[i + m + 1 + k]);
                }
            }
            assert(scan(s, i + m, acc1) == scan(s, i + m + 1, acc1));
            lemma_scan_text(s, i + m + 1, acc1, rest);
        }
        let out = scan(s, i, acc)->Ok_0;
        assert(out[acc.len() as int] == acc1[acc.len() as int]);
        assert forall|k: int| 0 <= k < p.len() implies out[acc.len() + k].token == #[trigger] p[k] by {
            if k > 0 {
                assert(rest[k - 1] == p[k]);
                assert(out[acc1.len() + (k - 1)].token == rest[k - 1]);
            }
        }
        assert forall|k: int| 0 <= k < acc.len() implies out[k] == #[trigger] acc[k] by {
            assert(acc1[k] == acc[k]);
        }
    }
}

/// The text of a line of tokens is read as those tokens.
pub proof fn lemma_lex_reads_text(p: Seq<Token>)
    ensures
        lex(text(p)) is Ok,
        lex(text(p))->Ok_0.len() == p.len(),
        forall|k: int| 0 <= k < p.len() ==> lex(text(p))->Ok_0[k].token == #[trigger] p[k],
{
    let s = text(p);
    assert(s.subrange(0, s.len() as int) =~= s);
    lemma_scan_text(s, 0, Seq::empty(), p);
}

/// A normal tree, written down as text, parses to itself.
pub proof fn lemma_parses_own_text(tree: Tree)
    requires
        normal(tree),
    ensures
        parse_spec(text(render(tree))) == Ok::<Tree, SyntaxError>(tree),
{
    let s = text(render(tree));
    lemma_lex_reads_text(render(tree));
    let t = lex(s)->Ok_0;
    assert forall|k: int| 0 <= k < t.len() implies (#[trigger] t[k]).token == render(tree)[k] by {
        assert(t[k].token == render(tree)[k]);
    }
    lemma_reads_what_was_written(tree, t, s.len() as usize);
}

} // verus!
