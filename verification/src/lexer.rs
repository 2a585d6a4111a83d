//! Splitting an input line into tokens.
//!
//! Whitespace is a space, a tab, a line feed or a carriage return, in runs of
//! any length, and may stand before, between and after the tokens. A
//! parenthesis is a token by itself. Every other maximal run of bytes is a
//! word, and a word must be one of the five keywords, spelled exactly.

use vstd::prelude::*;

verus! {

/// The kinds of token.
#[derive(Clone, Copy, Debug, PartialEq, Eq, Structural)]
pub enum Token {
    /// The keyword `TRUE`.
    True,
    /// The keyword `FALSE`.
    False,
    /// The keyword `AND`.
    And,
    /// The keyword `OR`.
    Or,
    /// The keyword `NOT`.
    Not,
    /// `(`
    Open,
    /// `)`
    Close,
}

/// A token and the offset of its first byte in the input.
#[derive(Clone, Copy, Debug, PartialEq, Eq, Structural)]
pub struct Lexeme {
    pub token: Token,
    pub start: usize,
}

/// What is wrong with an input.
#[derive(Clone, Copy, Debug, PartialEq, Eq, Structural)]
pub enum SyntaxErrorKind {
    /// A word that is not a keyword.
    UnknownWord,
    /// An operand was due: `TRUE`, `FALSE` or `(`, after an optional `NOT`.
    ExpectedOperand,
    /// A `)` was due.
    ExpectedClose,
    /// The expression is complete and more tokens follow.
    TrailingInput,
}

/// A violation of the grammar, with the offset of the offending token, or
/// the length of the input where the input ends too early.
#[derive(Clone, Copy, Debug, PartialEq, Eq, Structural)]
pub struct SyntaxError {
    pub kind: SyntaxErrorKind,
    pub position: usize,
}

/// A space, a tab, a line feed or a carriage return.
pub open spec fn is_space(b: u8) -> bool {
    b == 0x20 || b == 0x09 || b == 0x0a || b == 0x0d
}

/// The byte `(`.
pub open spec fn is_open(b: u8) -> bool {
    b == 0x28
}

/// The byte `)`.
pub open spec fn is_close(b: u8) -> bool {
    b == 0x29
}

/// A byte that is part of a word.
pub open spec fn is_word_byte(b: u8) -> bool {
    !is_space(b) && !is_open(b) && !is_close(b)
}

/// How many items of `len` are left from index `i` on.
pub open spec fn left(len: nat, i: int) -> nat {
    if i < len {
        (len - i) as nat
    } else {
        0
    }
}

/// The number of word bytes that stand in a row from offset `i` on.
pub open spec fn word_len(s: Seq<u8>, i: int) -> nat
    decreases s.len() - i,
{
    if 0 <= i < s.len() && is_word_byte(s[i]) {
        1 + word_len(s, i + 1)
    } else {
        0
    }
}

/// The bytes that a token is written with.
pub open spec fn spelling(token: Token) -> Seq<u8> {
    match token {
        // TRUE
        Token::True => seq![0x54u8, 0x52u8, 0x55u8, 0x45u8],
        // FALSE
        Token::False => seq![0x46u8, 0x41u8, 0x4cu8, 0x53u8, 0x45u8],
        // AND
        Token::And => seq![0x41u8, 0x4eu8, 0x44u8],
        // OR
        Token::Or => seq![0x4fu8, 0x52u8],
        // NOT
        Token::Not => seq![0x4eu8, 0x4fu8, 0x54u8],
        Token::Open => seq![0x28u8],
        Token::Close => seq![0x29u8],
    }
}

/// The keyword that a word spells, if any.
pub open spec fn keyword(w: Seq<u8>) -> Option<Token> {
    if w == spelling(Token::True) {
        Some(Token::True)
    } else if w == spelling(Token::False) {
        Some(Token::False)
    } else if w == spelling(Token::And) {
        Some(Token::And)
    } else if w == spelling(Token::Or) {
        Some(Token::Or)
    } else if w == spelling(Token::Not) {
        Some(Token::Not)
    } else {
        None
    }
}

/// The tokens of `s` from offset `i` on, appended to `acc`; the first word
/// that is no keyword is an error at its offset.
pub open spec fn scan(s: Seq<u8>, i: int, acc: Seq<Lexeme>) -> Result<Seq<Lexeme>, SyntaxError>
    decreases left(s.len(), i),
{
    if i < 0 || i >= s.len() {
        Ok(acc)
    } else if is_space(s[i]) {
        scan(s, i + 1, acc)
    } else if is_open(s[i]) {
        scan(s, i + 1, acc.push(Lexeme { token: Token::Open, start: i as usize }))
    } else if is_close(s[i]) {
        scan(s, i + 1, acc.push(Lexeme { token: Token::Close, start: i as usize }))
    } else {
        let j = i + 1 + word_len(s, i + 1);
        match keyword(s.subrange(i, j)) {
            Some(token) => scan(s, j, acc.push(Lexeme { token, start: i as usize })),
            None => Err(SyntaxError { kind: SyntaxErrorKind::UnknownWord, position: i as usize }),
        }
    }
}

/// The tokens of an input, in order, or its first lexical error.
pub open spec fn lex(s: Seq<u8>) -> Result<Seq<Lexeme>, SyntaxError> {
    scan(s, 0, Seq::empty())
}

fn space(b: u8) -> (r: bool)
    ensures
        r == is_space(b),
{
    b == 0x20 || b == 0x09 || b == 0x0a || b == 0x0d
}

/// The offset just behind the word that starts at `from`.
fn word_end(bytes: &[u8], from: usize) -> (to: usize)
    requires
        from < bytes.len(),
        is_word_byte(bytes@[from as int]),
    ensures
        to == from + 1 + word_len(bytes@, from + 1),
        from < to <= bytes.len(),
{
    let mut j: usize = from + 1;
    while j < bytes.len() && !space(bytes[j]) && bytes[j] != 0x28 && bytes[j] != 0x29
        invariant
            from < j <= bytes.len(),
            word_len(bytes@, from + 1) == (j - (from + 1)) + word_len(bytes@, j as int),
        decreases bytes.len() - j,
    {
        j += 1;
    }
    j
}

/// Reads the word that fills `bytes[from..to]`.
fn keyword_at(bytes: &[u8], from: usize, to: usize) -> (r: Option<Token>)
    requires
        from <= to <= bytes.len(),
    ensures
        r == keyword(bytes@.subrange(from as int, to as int)),
{
    let ghost w = bytes@.subrange(from as int, to as int);
    let n: usize = to - from;
    proof {
        assert(forall|k: int| 0 <= k < n ==> w[k] == bytes@[from + k]);
        let t = spelling(Token::True);
        let f = spelling(Token::False);
        let a = spelling(Token::And);
        let o = spelling(Token::Or);
        let x = spelling(Token::Not);
        assert(t.len() == 4 && t[0] == 0x54 && t[1] == 0x52 && t[2] == 0x55 && t[3] == 0x45);
        assert(f.len() == 5 && f[0] == 0x46 && f[1] == 0x41 && f[2] == 0x4c && f[3] == 0x53
            && f[4] == 0x45);
        assert(a.len() == 3 && a[0] == 0x41 && a[1] == 0x4e && a[2] == 0x44);
        assert(o.len() == 2 && o[0] == 0x4f && o[1] == 0x52);
        assert(x.len() == 3 && x[0] == 0x4e && x[1] == 0x4f && x[2] == 0x54);
    }
    if n == 4 && bytes[from] == 0x54 && bytes[from + 1] == 0x52 && bytes[from + 2] == 0x55
        && bytes[from + 3] == 0x45 {
        assert(w =~= spelling(Token::True));
        Some(Token::True)
    } else if n == 5 && bytes[from] == 0x46 && bytes[from + 1] == 0x41 && bytes[from + 2] == 0x4c
        && bytes[from + 3] == 0x53 && bytes[from + 4] == 0x45 {
        assert(w =~= spelling(Token::False));
        Some(Token::False)
    } else if n == 3 && bytes[from] == 0x41 && bytes[from + 1] == 0x4e && bytes[from + 2] == 0x44 {
        assert(w =~= spelling(Token::And));
        Some(Token::And)
    } else if n == 2 && bytes[from] == 0x4f && bytes[from + 1] == 0x52 {
        assert(w =~= spelling(Token::Or));
        Some(Token::Or)
    } else if n == 3 && bytes[from] == 0x4e && bytes[from + 1] == 0x4f && bytes[from + 2] == 0x54 {
        assert(w =~= spelling(Token::Not));
        Some(Token::Not)
    } else {
        None
    }
}

/// Splits an input into its tokens, each with its offset; fails at the first
/// word that is no keyword.
pub fn tokenize(bytes: &[u8]) -> (r: Result<Vec<Lexeme>, SyntaxError>)
    ensures
        match r {
            Ok(v) => lex(bytes@) == Ok::<Seq<Lexeme>, SyntaxError>(v@),
            Err(e) => lex(bytes@) == Err::<Seq<Lexeme>, SyntaxError>(e),
        },
        r matches Ok(v) ==> tokens_of(bytes@, v@),
        r is Err ==> forall|t: Seq<Lexeme>| !#[trigger] tokens_of(bytes@, t),
{
    let length: usize = bytes.len();
    proof {
        assert(bytes@.len() == length);
        assert forall|t: Seq<Lexeme>| #[trigger] tokens_of(bytes@, t) implies lex(bytes@) == Ok::<
            Seq<Lexeme>,
            SyntaxError,
        >(t) by {
            lemma_lexer_reads_the_tokens(bytes@, t);
        }
        if lex(bytes@) is Ok {
            lemma_lexer_reads_the_tokens(bytes@, lex(bytes@)->Ok_0);
        }
    }
    let mut out: Vec<Lexeme> = Vec::new();
    let mut i: usize = 0;
    while i < bytes.len()
        invariant
            i <= bytes.len(),
            lex(bytes@) == scan(bytes@, i as int, out@),
            forall|t: Seq<Lexeme>| #[trigger]
                tokens_of(bytes@, t) ==> lex(bytes@) == Ok::<Seq<Lexeme>, SyntaxError>(t),
        decreases bytes.len() - i,
    {
        let b: u8 = bytes[i];
        if space(b) {
            i += 1;
        } else if b == 0x28 {
            out.push(Lexeme { token: Token::Open, start: i });
            i += 1;
        } else if b == 0x29 {
            out.push(Lexeme { token: Token::Close, start: i });
            i += 1;
        } else {
            let j: usize = word_end(bytes, i);
            match keyword_at(bytes, i, j) {
                Some(token) => {
                    out.push(Lexeme { token, start: i });
                    i = j;
                },
                None => {
                    return Err(SyntaxError { kind: SyntaxErrorKind::UnknownWord, position: i });
                },
            }
        }
    }
    Ok(out)
}

/// The offset just behind a token.
pub open spec fn end_of(l: Lexeme) -> int {
    l.start + spelling(l.token).len()
}

/// The token is spelled in the input at its offset.
pub open spec fn spelled_in(s: Seq<u8>, l: Lexeme) -> bool {
    end_of(l) <= s.len() && s.subrange(l.start as int, end_of(l)) == spelling(l.token)
}

/// Only whitespace stands in `s[from..to]`.
pub open spec fn blank(s: Seq<u8>, from: int, to: int) -> bool {
    from <= to && forall|k: int| from <= k < to ==> is_space(#[trigger] s[k])
}

/// The offset just behind the last of the first `k` tokens, 0 where there is
/// none.
pub open spec fn end_before(t: Seq<Lexeme>, k: int) -> int {
    if 0 < k <= t.len() {
        end_of(t[k - 1])
    } else {
        0
    }
}

/// A keyword, as opposed to a parenthesis.
pub open spec fn is_keyword(token: Token) -> bool {
    token != Token::Open && token != Token::Close
}

/// Token `k` is in its place: spelled in the input at its offset, with
/// nothing but whitespace between the token before it and itself, and some
/// whitespace there if both are keywords.
pub open spec fn fits(s: Seq<u8>, t: Seq<Lexeme>, k: int) -> bool {
    &&& spelled_in(s, t[k])
    &&& blank(s, end_before(t, k), t[k].start as int)
    &&& (0 < k && is_keyword(t[k - 1].token) && is_keyword(t[k].token) ==> end_of(t[k - 1])
        < t[k].start)
}

/// The tokens are in their places in `s[..upto]`, with nothing but
/// whitespace behind the last.
pub open spec fn placed(s: Seq<u8>, t: Seq<Lexeme>, upto: int) -> bool {
    &&& forall|k: int| 0 <= k < t.len() ==> #[trigger] fits(s, t, k)
    &&& blank(s, end_before(t, t.len() as int), upto)
}

/// The tokens of an input, said directly: they are spelled in it at their
/// offsets, in order, with nothing but whitespace around them and some
/// whitespace between two keywords.
pub open spec fn tokens_of(s: Seq<u8>, t: Seq<Lexeme>) -> bool {
    placed(s, t, s.len() as int)
}

/// A run of word bytes lies within the input and ends before a byte that
/// is no word byte.
pub proof fn lemma_word_run(s: Seq<u8>, i: int)
    requires
        0 <= i <= s.len(),
    ensures
        i + word_len(s, i) <= s.len(),
        i + word_len(s, i) < s.len() ==> !is_word_byte(s[i + word_len(s, i)]),
    decreases s.len() - i,
{
    if i < s.len() && is_word_byte(s[i]) {
        lemma_word_run(s, i + 1);
    }
}

/// A keyword spelled at offset `i`, with the end of the input or a byte
/// that is no word byte behind it, is read as that keyword.
pub proof fn lemma_word(s: Seq<u8>, i: int, token: Token)
    requires
        is_keyword(token),
        0 <= i,
        i + spelling(token).len() <= s.len(),
        forall|k: int| 0 <= k < spelling(token).len() ==> s[i + k] == #[trigger] spelling(token)[k],
        i + spelling(token).len() < s.len() ==> !is_word_byte(s[i + spelling(token).len()]),
    ensures
        is_word_byte(s[i]),
        word_len(s, i + 1) == spelling(token).len() - 1,
        keyword(s.subrange(i, i + spelling(token).len())) == Some(token),
{
    reveal_with_fuel(word_len, 6);
    let w = spelling(token);
    let m = w.len() as int;
    assert(s.subrange(i, i + m) =~= w);
    assert(spelling(Token::True).len() == 4 && spelling(Token::True)[0] == 0x54);
    assert(spelling(Token::False).len() == 5 && spelling(Token::False)[0] == 0x46);
    assert(spelling(Token::And).len() == 3 && spelling(Token::And)[0] == 0x41);
    assert(spelling(Token::Or).len() == 2 && spelling(Token::Or)[0] == 0x4f);
    assert(spelling(Token::Not).len() == 3 && spelling(Token::Not)[0] == 0x4e);
    assert(m >= 2 && s[i] == w[0] && s[i + 1] == w[1]);
    if m >= 3 {
        assert(s[i + 2] == w[2]);
    }
    if m >= 4 {
        assert(s[i + 3] == w[3]);
    }
    if m >= 5 {
        assert(s[i + 4] == w[4]);
    }
}

proof fn lemma_scan_sound(s: Seq<u8>, i: int, acc: Seq<Lexeme>)
    requires
        s.len() <= usize::MAX,
        0 <= i <= s.len(),
        placed(s, acc, i),
        acc.len() > 0 && is_keyword(acc.last().token) && end_of(acc.last()) == i && i < s.len()
            ==> !is_word_byte(s[i]),
    ensures
        scan(s, i, acc) matches Ok(t) ==> tokens_of(s, t),
    decreases left(s.len(), i),
{
    if i < s.len() {
        if is_space(s[i]) {
            lemma_scan_sound(s, i + 1, acc);
        } else {
            let j = if is_open(s[i]) || is_close(s[i]) {
                i + 1
            } else {
                i + 1 + word_len(s, i + 1)
            };
            lemma_word_run(s, i + 1);
            let word = s.subrange(i, j);
            let token = if is_open(s[i]) {
                Token::Open
            } else if is_close(s[i]) {
                Token::Close
            } else if keyword(word) is Some {
                keyword(word)->Some_0
            } else {
                Token::True
            };
            if is_open(s[i]) || is_close(s[i]) || keyword(word) is Some {
                let lexeme = Lexeme { token, start: i as usize };
                let acc1 = acc.push(lexeme);
                let n = acc.len() as int;
                assert(word =~= spelling(token));
                assert(end_of(lexeme) == j);
                assert forall|k: int| 0 <= k < acc1.len() implies #[trigger] fits(s, acc1, k) by {
                    if k < n {
                        assert(fits(s, acc, k));
                        assert(acc1[k] == acc[k]);
                        assert(end_before(acc1, k) == end_before(acc, k));
                        if k > 0 {
                            assert(acc1[k - 1] == acc[k - 1]);
                        }
                    } else {
                        assert(acc1[k] == lexeme);
                        assert(end_before(acc1, k) == end_before(acc, n));
                        if k > 0 {
                            assert(acc1[k - 1] == acc.last());
                        }
                    }
                }
                assert(end_before(acc1, acc1.len() as int) == j);
                lemma_scan_sound(s, j, acc1);
            }
        }
    }
}

proof fn lemma_scan_complete(s: Seq<u8>, t: Seq<Lexeme>, k: int, i: int)
    requires
        s.len() <= usize::MAX,
        tokens_of(s, t),
        0 <= k <= t.len(),
        end_before(t, k) <= i,
        i <= (if k < t.len() { t[k].start as int } else { s.len() as int }),
    ensures
        scan(s, i, t.take(k)) == Ok::<Seq<Lexeme>, SyntaxError>(t),
    decreases left(s.len(), i),
{
    let acc = t.take(k);
    if k == t.len() {
        assert(acc =~= t);
        if i < s.len() {
            assert(is_space(s[i]));
            lemma_scan_complete(s, t, k, i + 1);
        }
    } else {
        let l = t[k];
        assert(fits(s, t, k));
        if i < l.start {
            assert(is_space(s[i]));
            lemma_scan_complete(s, t, k, i + 1);
        } else {
            let w = spelling(l.token);
            let j = end_of(l);
            assert(forall|n: int| 0 <= n < w.len() ==> s.subrange(i, j)[n] == s[i + n]);
            assert(w.len() >= 1 && s[i] == w[0]);
            assert(acc.push(l) =~= t.take(k + 1));
            assert(Lexeme { token: l.token, start: i as usize } == l);
            assert(end_before(t, k + 1) == j);
            if k + 1 < t.len() {
                assert(fits(s, t, k + 1));
            }
            if is_keyword(l.token) {
                if j < s.len() {
                    if k + 1 < t.len() && t[k + 1].start == j {
                        let next = t[k + 1];
                        assert(!is_keyword(next.token));
                        assert(s.subrange(j, end_of(next))[0] == s[j]);
                        assert(spelling(next.token)[0] == s[j]);
                    } else {
                        assert(is_space(s[j]));
                    }
                }
                lemma_word(s, i, l.token);
                assert(scan(s, i, acc) == scan(s, j, acc.push(l)));
            } else {
                assert(scan(s, i, acc) == scan(s, i + 1, acc.push(l)));
            }
            lemma_scan_complete(s, t, k + 1, j);
        }
    }
}

/// The lexer reads the tokens of an input, and only those: an input is
/// split into a line of tokens exactly when these are its tokens.
pub proof fn lemma_lexer_reads_the_tokens(s: Seq<u8>, t: Seq<Lexeme>)
    requires
        s.len() <= usize::MAX,
    ensures
        lex(s) == Ok::<Seq<Lexeme>, SyntaxError>(t) <==> tokens_of(s, t),
{
    lemma_scan_sound(s, 0, Seq::empty());
    if tokens_of(s, t) {
        assert(t.take(0) =~= Seq::<Lexeme>::empty());
        lemma_scan_complete(s, t, 0, 0);
    }
}

} // verus!
