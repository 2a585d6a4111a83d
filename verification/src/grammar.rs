//! The grammar as a relation between lines of tokens and trees, and the
//! laws that the parser reads a line as a tree exactly when the relation
//! holds of the two.
//!
//! The relation says which tree a line stands for, rule by rule, with no
//! word on how to find it: where a chain is cut into operands is left to an
//! `exists`. The trees it holds of are the normal ones, in which every chain
//! has two operands or more.

use crate::expr::Tree;
use crate::lexer::{
    left, lemma_lexer_reads_the_tokens, lex, tokens_of, Lexeme, SyntaxError, Token,
};
use crate::parser::{
    atom, chain, chain_rest, is_token, join, not_expression, operand, operator, parse_spec,
    sentence,
};
use vstd::prelude::*;

verus! {

/// The tokens of a line without their offsets.
pub open spec fn kinds(t: Seq<Lexeme>) -> Seq<Token> {
    Seq::new(t.len(), |k: int| t[k].token)
}

/// Every chain in the tree has two operands or more: the trees that the
/// grammar builds.
pub open spec fn normal(tree: Tree) -> bool
    decreases tree,
{
    match tree {
        Tree::Literal(_) => true,
        Tree::Not(inner) => normal(*inner),
        Tree::And(c) => c.len() >= 2 && forall|k: int| 0 <= k < c.len() ==> normal(#[trigger] c[k]),
        Tree::Or(c) => c.len() >= 2 && forall|k: int| 0 <= k < c.len() ==> normal(#[trigger] c[k]),
    }
}

/// The rule that reads the operands of a chain.
pub open spec fn operand_rank(disjunction: bool) -> nat {
    if disjunction {
        2
    } else {
        1
    }
}

/// What the rule of the given rank reads at token `i`.
pub open spec fn rule(level: nat, t: Seq<Lexeme>, i: int, end: usize) -> Result<
    (Tree, nat),
    SyntaxError,
> {
    if level == 0 {
        atom(t, i, end)
    } else if level == 1 {
        not_expression(t, i, end)
    } else {
        chain(t, i, end, level >= 3)
    }
}

/// The tokens `p` stand in `t` from index `i` on.
pub open spec fn spells(t: Seq<Lexeme>, i: int, p: Seq<Token>) -> bool {
    &&& 0 <= i
    &&& i + p.len() <= t.len()
    &&& forall|k: int| 0 <= k < p.len() ==> #[trigger] p[k] == t[i + k].token
}

/// No operator at index `j` goes on with a chain that a rule of rank
/// `level` or less has read up to there.
pub open spec fn closed(t: Seq<Lexeme>, j: int, level: nat) -> bool {
    &&& level >= 2 ==> !is_token(t, j, Token::And)
    &&& level >= 3 ==> !is_token(t, j, Token::Or)
}

/// The line `p` is the tree `tree` by the rule of rank `level`: 0 for
/// `atom`, 1 for `not_expression`, 2 for `and_expression`, 3 for
/// `or_expression`.
pub open spec fn derives(level: nat, p: Seq<Token>, tree: Tree) -> bool
    decreases p.len(), 2 * level + 1, 0nat,
{
    if level == 0 {
        ||| p == seq![Token::True] && tree == Tree::Literal(true)
        ||| p == seq![Token::False] && tree == Tree::Literal(false)
        ||| (p.len() >= 2 && p[0] == Token::Open && p[p.len() - 1] == Token::Close && derives(
            3,
            p.subrange(1, p.len() - 1),
            tree,
        ))
    } else if level == 1 {
        ||| derives(0, p, tree)
        ||| (p.len() >= 1 && p[0] == Token::Not && match tree {
            Tree::Not(inner) => derives(0, p.skip(1), *inner),
            _ => false,
        })
    } else if level == 2 {
        ||| derives(1, p, tree)
        ||| match tree {
            Tree::And(c) => c.len() >= 2 && chain_derives(p, c, false),
            _ => false,
        }
    } else {
        ||| derives(2, p, tree)
        ||| match tree {
            Tree::Or(c) => c.len() >= 2 && chain_derives(p, c, true),
            _ => false,
        }
    }
}

/// The line `p` is the operands `c`, in order, with the operator between
/// each two of them.
pub open spec fn chain_derives(p: Seq<Token>, c: Seq<Tree>, disjunction: bool) -> bool
    decreases p.len(), 2 * operand_rank(disjunction) + 2, c.len(),
{
    if c.len() == 0 {
        false
    } else if c.len() == 1 {
        derives(operand_rank(disjunction), p, c[0])
    } else {
        exists|cut: int|
            0 < cut && cut + 1 < p.len() && #[trigger] p[cut] == operator(disjunction)
                && chain_derives(p.take(cut), c.drop_last(), disjunction) && derives(
                operand_rank(disjunction),
                p.skip(cut + 1),
                c.last(),
            )
    }
}

/// What a rule has read, every rule above it reads too, where no operator
/// follows that would go on with a chain.
pub proof fn lemma_ascend(t: Seq<Lexeme>, i: int, end: usize, x: Tree, n: nat, k: nat, level: nat)
    requires
        k <= level <= 3,
        rule(k, t, i, end) == Ok::<(Tree, nat), SyntaxError>((x, n)),
        closed(t, i + n, level),
        k == 0 ==> !is_token(t, i, Token::Not),
    ensures
        rule(level, t, i, end) == Ok::<(Tree, nat), SyntaxError>((x, n)),
{
    if level >= 1 && k <= 1 {
        assert(not_expression(t, i, end) == Ok::<(Tree, nat), SyntaxError>((x, n)));
    }
    if level >= 2 && k <= 2 {
        if k <= 1 {
            assert(operand(t, i, end, false) == not_expression(t, i, end));
            assert(chain_rest(t, i, n, end, false, seq![x]) == Ok::<
                (Seq<Tree>, nat),
                SyntaxError,
            >((seq![x], n)));
            assert(join(seq![x], false) == x);
        }
        assert(chain(t, i, end, false) == Ok::<(Tree, nat), SyntaxError>((x, n)));
    }
    if level >= 3 {
        if k <= 2 {
            assert(operand(t, i, end, true) == chain(t, i, end, false));
            assert(chain_rest(t, i, n, end, true, seq![x]) == Ok::<(Seq<Tree>, nat), SyntaxError>(
                (seq![x], n),
            ));
            assert(join(seq![x], true) == x);
        }
        assert(chain(t, i, end, true) == Ok::<(Tree, nat), SyntaxError>((x, n)));
    }
}

/// What a rule reads at token `i` is at least one token, lies within the
/// tokens, and is a normal tree.
pub open spec fn reads_well(r: Result<(Tree, nat), SyntaxError>, t: Seq<Lexeme>, i: int) -> bool {
    r matches Ok((tree, n)) ==> 0 <= i && 1 <= n && i + n <= t.len() && normal(tree)
}

/// What `atom` reads is at least one token, within the tokens, and normal.
pub proof fn lemma_atom_reads(t: Seq<Lexeme>, i: int, end: usize)
    ensures
        reads_well(atom(t, i, end), t, i),
    decreases left(t.len(), i), 0int,
{
    if is_token(t, i, Token::Open) {
        lemma_chain_reads(t, i + 1, end, true);
    }
}

/// What `not_expression` reads is at least one token, within the tokens,
/// and normal.
pub proof fn lemma_not_reads(t: Seq<Lexeme>, i: int, end: usize)
    ensures
        reads_well(not_expression(t, i, end), t, i),
    decreases left(t.len(), i), 1int,
{
    if is_token(t, i, Token::Not) {
        lemma_atom_reads(t, i + 1, end);
    } else {
        lemma_atom_reads(t, i, end);
    }
}

/// What `operand` reads is at least one token, within the tokens, and
/// normal.
pub proof fn lemma_operand_reads(t: Seq<Lexeme>, i: int, end: usize, disjunction: bool)
    ensures
        reads_well(operand(t, i, end, disjunction), t, i),
    decreases left(t.len(), i), (if disjunction { 4int } else { 2int }),
{
    if disjunction {
        lemma_chain_reads(t, i, end, false);
    } else {
        lemma_not_reads(t, i, end);
    }
}

/// `chain_rest` goes on from where it starts: it keeps the operands it was
/// given, adds normal ones, and stays within the tokens.
pub proof fn lemma_rest_reads(
    t: Seq<Lexeme>,
    from: int,
    used: nat,
    end: usize,
    disjunction: bool,
    acc: Seq<Tree>,
)
    requires
        0 <= from,
        1 <= used,
        from + used <= t.len(),
        forall|j: int| 0 <= j < acc.len() ==> normal(#[trigger] acc[j]),
    ensures
        chain_rest(t, from, used, end, disjunction, acc) matches Ok((operands, n)) ==> {
            &&& acc.len() <= operands.len()
            &&& used <= n
            &&& from + n <= t.len()
            &&& forall|j: int| 0 <= j < operands.len() ==> normal(#[trigger] operands[j])
        },
    decreases left(t.len(), from + used), 0int,
{
    if is_token(t, from + used, operator(disjunction)) {
        lemma_operand_reads(t, from + used + 1, end, disjunction);
        match operand(t, from + used + 1, end, disjunction) {
            Err(_) => {},
            Ok((tree, n)) => {
                lemma_rest_reads(t, from, used + 1 + n, end, disjunction, acc.push(tree));
            },
        }
    }
}

/// What `chain` reads is at least one token, within the tokens, and normal.
pub proof fn lemma_chain_reads(t: Seq<Lexeme>, i: int, end: usize, disjunction: bool)
    ensures
        reads_well(chain(t, i, end, disjunction), t, i),
    decreases left(t.len(), i), (if disjunction { 5int } else { 3int }),
{
    lemma_operand_reads(t, i, end, disjunction);
    match operand(t, i, end, disjunction) {
        Err(_) => {},
        Ok((first, n)) => {
            lemma_rest_reads(t, i, n, end, disjunction, seq![first]);
        },
    }
}

/// The grammar reads normal trees only.
pub proof fn lemma_reads_normal_trees(t: Seq<Lexeme>, end: usize)
    ensures
        sentence(t, end) matches Ok(tree) ==> normal(tree),
{
    lemma_chain_reads(t, 0, end, true);
}

/// A normal tree is well formed.
pub proof fn lemma_normal_is_well_formed(tree: Tree)
    requires
        normal(tree),
    ensures
        tree.well_formed(),
    decreases tree,
{
    match tree {
        Tree::Literal(_) => {},
        Tree::Not(inner) => {
            lemma_normal_is_well_formed(*inner);
        },
        Tree::And(c) => {
            assert forall|k: int| 0 <= k < c.len() implies (#[trigger] c[k]).well_formed() by {
                lemma_normal_is_well_formed(c[k]);
            }
        },
        Tree::Or(c) => {
            assert forall|k: int| 0 <= k < c.len() implies (#[trigger] c[k]).well_formed() by {
                lemma_normal_is_well_formed(c[k]);
            }
        },
    }
}

/// What a rule reads at token `i` is, by the relation, the tree it gives.
pub open spec fn sound(
    level: nat,
    r: Result<(Tree, nat), SyntaxError>,
    t: Seq<Lexeme>,
    i: int,
) -> bool {
    r matches Ok((tree, n)) ==> derives(level, kinds(t).subrange(i, i + n), tree)
}

proof fn lemma_atom_sound(t: Seq<Lexeme>, i: int, end: usize)
    ensures
        sound(0, atom(t, i, end), t, i),
    decreases left(t.len(), i), 0int,
{
    lemma_atom_reads(t, i, end);
    match atom(t, i, end) {
        Err(_) => {},
        Ok((tree, n)) => {
            let p = kinds(t).subrange(i, i + n);
            if is_token(t, i, Token::True) {
                assert(p =~= seq![Token::True]);
            } else if is_token(t, i, Token::False) {
                assert(p =~= seq![Token::False]);
            } else {
                lemma_chain_sound(t, i + 1, end, true);
                lemma_chain_reads(t, i + 1, end, true);
                assert(p.subrange(1, p.len() - 1) =~= kinds(t).subrange(i + 1, i + n - 1));
                assert(p[0] == Token::Open);
                assert(p[p.len() - 1] == Token::Close);
            }
        },
    }
}

proof fn lemma_not_sound(t: Seq<Lexeme>, i: int, end: usize)
    ensures
        sound(1, not_expression(t, i, end), t, i),
    decreases left(t.len(), i), 1int,
{
    lemma_not_reads(t, i, end);
    match not_expression(t, i, end) {
        Err(_) => {},
        Ok((tree, n)) => {
            let p = kinds(t).subrange(i, i + n);
            if is_token(t, i, Token::Not) {
                lemma_atom_sound(t, i + 1, end);
                lemma_atom_reads(t, i + 1, end);
                assert(p.skip(1) =~= kinds(t).subrange(i + 1, i + n));
                assert(p[0] == Token::Not);
            } else {
                lemma_atom_sound(t, i, end);
            }
        },
    }
}

proof fn lemma_operand_sound(t: Seq<Lexeme>, i: int, end: usize, disjunction: bool)
    ensures
        sound(operand_rank(disjunction), operand(t, i, end, disjunction), t, i),
    decreases left(t.len(), i), (if disjunction { 4int } else { 2int }),
{
    if disjunction {
        lemma_chain_sound(t, i, end, false);
    } else {
        lemma_not_sound(t, i, end);
    }
}

proof fn lemma_rest_sound(
    t: Seq<Lexeme>,
    from: int,
    used: nat,
    end: usize,
    disjunction: bool,
    acc: Seq<Tree>,
)
    requires
        0 <= from,
        1 <= used,
        from + used <= t.len(),
        chain_derives(kinds(t).subrange(from, from + used), acc, disjunction),
    ensures
        chain_rest(t, from, used, end, disjunction, acc) matches Ok((operands, n)) ==> chain_derives(
            kinds(t).subrange(from, from + n),
            operands,
            disjunction,
        ),
    decreases left(t.len(), from + used), 0int,
{
    if is_token(t, from + used, operator(disjunction)) {
        lemma_operand_sound(t, from + used + 1, end, disjunction);
        lemma_operand_reads(t, from + used + 1, end, disjunction);
        match operand(t, from + used + 1, end, disjunction) {
            Err(_) => {},
            Ok((tree, m)) => {
                let longer = acc.push(tree);
                let p = kinds(t).subrange(from, from + used + 1 + m);
                let cut = used as int;
                assert(p.take(cut) =~= kinds(t).subrange(from, from + used));
                assert(p.skip(cut + 1) =~= kinds(t).subrange(from + used + 1, from + used + 1 + m));
                assert(p[cut] == operator(disjunction));
                assert(longer.drop_last() =~= acc);
                assert(longer.last() == tree);
                assert(chain_derives(p, longer, disjunction));
                lemma_rest_sound(t, from, used + 1 + m, end, disjunction, longer);
            },
        }
    }
}

proof fn lemma_chain_sound(t: Seq<Lexeme>, i: int, end: usize, disjunction: bool)
    ensures
        sound(operand_rank(disjunction) + 1, chain(t, i, end, disjunction), t, i),
    decreases left(t.len(), i), (if disjunction { 5int } else { 3int }),
{
    lemma_operand_sound(t, i, end, disjunction);
    lemma_operand_reads(t, i, end, disjunction);
    match operand(t, i, end, disjunction) {
        Err(_) => {},
        Ok((first, m)) => {
            assert(seq![first][0] == first);
            assert(chain_derives(kinds(t).subrange(i, i + m), seq![first], disjunction));
            lemma_rest_sound(t, i, m, end, disjunction, seq![first]);
            lemma_rest_reads(t, i, m, end, disjunction, seq![first]);
            match chain_rest(t, i, m, end, disjunction, seq![first]) {
                Err(_) => {},
                Ok((operands, n)) => {
                    let p = kinds(t).subrange(i, i + n);
                    let tree = join(operands, disjunction);
                    if operands.len() == 1 {
                        assert(derives(operand_rank(disjunction), p, tree));
                    }
                    assert(derives(operand_rank(disjunction) + 1, p, tree));
                },
            }
        },
    }
}

/// The parser is sound for the relation: the tree it reads in a line is a
/// tree that the line stands for.
pub proof fn lemma_reads_what_the_line_says(t: Seq<Lexeme>, end: usize)
    ensures
        sentence(t, end) matches Ok(tree) ==> derives(3, kinds(t), tree),
{
    lemma_chain_sound(t, 0, end, true);
    lemma_chain_reads(t, 0, end, true);
    assert(kinds(t).subrange(0, t.len() as int) =~= kinds(t));
}

proof fn lemma_derives_reads(
    level: nat,
    p: Seq<Token>,
    tree: Tree,
    t: Seq<Lexeme>,
    i: int,
    end: usize,
)
    requires
        level <= 3,
        derives(level, p, tree),
        spells(t, i, p),
        closed(t, i + p.len(), level),
    ensures
        p.len() >= 1,
        level == 0 ==> !is_token(t, i, Token::Not),
        rule(level, t, i, end) == Ok::<(Tree, nat), SyntaxError>((tree, p.len())),
    decreases p.len(), 2 * level + 1, 0nat,
{
    if level == 0 {
        if p == seq![Token::True] && tree == Tree::Literal(true) {
            assert(seq![Token::True].len() == 1 && seq![Token::True][0] == Token::True);
            assert(p[0] == t[i + 0].token);
        } else if p == seq![Token::False] && tree == Tree::Literal(false) {
            assert(seq![Token::False].len() == 1 && seq![Token::False][0] == Token::False);
            assert(p[0] == t[i + 0].token);
        } else {
            let q = p.subrange(1, p.len() - 1);
            assert forall|k: int| 0 <= k < q.len() implies #[trigger] q[k] == t[i + 1 + k].token by {
                assert(p[k + 1] == q[k]);
            }
            assert(p[0] == t[i + 0].token);
            assert(p[p.len() - 1] == t[i + (p.len() - 1)].token);
            lemma_derives_reads(3, q, tree, t, i + 1, end);
            assert(atom(t, i, end) == Ok::<(Tree, nat), SyntaxError>((tree, p.len())));
        }
    } else if level == 1 {
        if derives(0, p, tree) {
            lemma_derives_reads(0, p, tree, t, i, end);
            lemma_ascend(t, i, end, tree, p.len(), 0, 1);
        } else {
            match tree {
                Tree::Not(inner) => {
                    let q = p.skip(1);
                    assert forall|k: int| 0 <= k < q.len() implies #[trigger] q[k] == t[i + 1
                        + k].token by {
                        assert(p[k + 1] == q[k]);
                    }
                    assert(p[0] == t[i + 0].token);
                    lemma_derives_reads(0, q, *inner, t, i + 1, end);
                    assert(not_expression(t, i, end) == Ok::<(Tree, nat), SyntaxError>(
                        (tree, p.len()),
                    ));
                },
                _ => {},
            }
        }
    } else {
        let disjunction = level >= 3;
        let lower = (level - 1) as nat;
        if derives(lower, p, tree) {
            lemma_derives_reads(lower, p, tree, t, i, end);
            lemma_ascend(t, i, end, tree, p.len(), lower, level);
        } else {
            let c = match tree {
                Tree::And(c) => c,
                Tree::Or(c) => c,
                _ => Seq::empty(),
            };
            lemma_chain_derives_reads(p, c, disjunction, t, i, end);
            assert(chain_rest(t, i, p.len(), end, disjunction, c) == Ok::<
                (Seq<Tree>, nat),
                SyntaxError,
            >((c, p.len())));
            assert(join(c, disjunction) == tree);
            assert(chain(t, i, end, disjunction) == Ok::<(Tree, nat), SyntaxError>((tree, p.len())));
        }
    }
}

proof fn lemma_chain_derives_reads(
    p: Seq<Token>,
    c: Seq<Tree>,
    disjunction: bool,
    t: Seq<Lexeme>,
    i: int,
    end: usize,
)
    requires
        chain_derives(p, c, disjunction),
        spells(t, i, p),
        closed(t, i + p.len(), operand_rank(disjunction)),
    ensures
        p.len() >= 1,
        c.len() >= 1,
        operand(t, i, end, disjunction) is Ok,
        operand(t, i, end, disjunction)->Ok_0.0 == c[0],
        1 <= operand(t, i, end, disjunction)->Ok_0.1 <= p.len(),
        chain_rest(
            t,
            i,
            operand(t, i, end, disjunction)->Ok_0.1,
            end,
            disjunction,
            seq![c[0]],
        ) == chain_rest(t, i, p.len(), end, disjunction, c),
    decreases p.len(), 2 * operand_rank(disjunction) + 2, c.len(),
{
    if c.len() == 1 {
        lemma_derives_reads(operand_rank(disjunction), p, c[0], t, i, end);
        assert(seq![c[0]] =~= c);
    } else {
        let cut = choose|cut: int|
            0 < cut && cut + 1 < p.len() && #[trigger] p[cut] == operator(disjunction)
                && chain_derives(p.take(cut), c.drop_last(), disjunction) && derives(
                operand_rank(disjunction),
                p.skip(cut + 1),
                c.last(),
            );
        let p1 = p.take(cut);
        let p2 = p.skip(cut + 1);
        let c1 = c.drop_last();
        assert forall|k: int| 0 <= k < p1.len() implies #[trigger] p1[k] == t[i + k].token by {
            assert(p[k] == p1[k]);
        }
        assert forall|k: int| 0 <= k < p2.len() implies #[trigger] p2[k] == t[i + cut + 1
            + k].token by {
            assert(p[cut + 1 + k] == p2[k]);
        }
        assert(p[cut] == t[i + cut].token);
        lemma_chain_derives_reads(p1, c1, disjunction, t, i, end);
        lemma_derives_reads(operand_rank(disjunction), p2, c.last(), t, i + cut + 1, end);
        assert(operand(t, i + cut + 1, end, disjunction) == Ok::<(Tree, nat), SyntaxError>(
            (c.last(), p2.len()),
        ));
        assert(c1.push(c.last()) =~= c);
        assert(c1[0] == c[0]);
        assert(chain_rest(t, i, cut as nat, end, disjunction, c1) == chain_rest(
            t,
            i,
            p.len(),
            end,
            disjunction,
            c,
        ));
    }
}

/// The parser is complete for the relation: a tree that a line stands for
/// is the tree that the parser reads in it.
pub proof fn lemma_reads_every_line(t: Seq<Lexeme>, end: usize, tree: Tree)
    requires
        derives(3, kinds(t), tree),
    ensures
        sentence(t, end) == Ok::<Tree, SyntaxError>(tree),
{
    let p = kinds(t);
    assert forall|k: int| 0 <= k < p.len() implies #[trigger] p[k] == t[0 + k].token by {}
    lemma_derives_reads(3, p, tree, t, 0, end);
}

/// The parser and the relation agree: a line is read as a tree exactly when
/// it stands for that tree, and is rejected exactly when it stands for none.
pub proof fn lemma_parser_is_the_grammar(t: Seq<Lexeme>, end: usize)
    ensures
        forall|tree: Tree|
            sentence(t, end) == Ok::<Tree, SyntaxError>(tree) <==> #[trigger] derives(
                3,
                kinds(t),
                tree,
            ),
        sentence(t, end) is Err <==> forall|tree: Tree| !#[trigger] derives(3, kinds(t), tree),
{
    lemma_reads_what_the_line_says(t, end);
    assert forall|tree: Tree| #[trigger] derives(3, kinds(t), tree) implies sentence(t, end) == Ok::<
        Tree,
        SyntaxError,
    >(tree) by {
        lemma_reads_every_line(t, end, tree);
    }
}

/// The input stands for the tree: its tokens are a line that stands for
/// it.
pub open spec fn stands_for(s: Seq<u8>, tree: Tree) -> bool {
    exists|t: Seq<Lexeme>| #[trigger] tokens_of(s, t) && derives(3, kinds(t), tree)
}

/// An input is parsed to a tree exactly when it stands for that tree.
pub proof fn lemma_parse_is_the_grammar(s: Seq<u8>, tree: Tree)
    requires
        s.len() <= usize::MAX,
    ensures
        parse_spec(s) == Ok::<Tree, SyntaxError>(tree) <==> stands_for(s, tree),
{
    if parse_spec(s) == Ok::<Tree, SyntaxError>(tree) {
        let t = lex(s)->Ok_0;
        lemma_lexer_reads_the_tokens(s, t);
        lemma_parser_is_the_grammar(t, s.len() as usize);
        assert(tokens_of(s, t) && derives(3, kinds(t), tree));
    }
    if stands_for(s, tree) {
        let t = choose|t: Seq<Lexeme>| #[trigger] tokens_of(s, t) && derives(3, kinds(t), tree);
        lemma_lexer_reads_the_tokens(s, t);
        lemma_reads_every_line(t, s.len() as usize, tree);
    }
}

/// An input is rejected exactly when it stands for no tree.
pub proof fn lemma_rejects_what_stands_for_nothing(s: Seq<u8>)
    requires
        s.len() <= usize::MAX,
    ensures
        parse_spec(s) is Err <==> forall|tree: Tree| !#[trigger] stands_for(s, tree),
{
    assert forall|tree: Tree| #[trigger] stands_for(s, tree) implies parse_spec(s) == Ok::<
        Tree,
        SyntaxError,
    >(tree) by {
        lemma_parse_is_the_grammar(s, tree);
    }
    if parse_spec(s) is Ok {
        lemma_parse_is_the_grammar(s, parse_spec(s)->Ok_0);
    }
}

} // verus!
