//! Tokenizer for the module-linkage subset of JavaScript.
//!
//! The lexer classifies every character of a source text into a flat,
//! finite sequence of tokens restricted to the vocabulary needed to
//! recognize import/export statements: whitespace, the keywords
//! `import` / `export` / `from` / `as` / `default`, the punctuation
//! `{ } , ; *`, identifiers, quoted module specifiers, and a catch-all
//! `Other` category for everything else (comments, operators, all
//! non-import/export code).  No input is rejected: every character
//! lands in exactly one token, so the tokens tile the source text.

use vstd::prelude::*;

verus! {

/// Lexical category of a token.
#[derive(Debug, Clone, Copy, PartialEq, Eq, Structural)]
pub enum TokenKind {
    /// A maximal run of whitespace characters.
    Whitespace,
    /// The keyword `import`.
    Import,
    /// The keyword `export`.
    Export,
    /// The keyword `default`.
    Default,
    /// The keyword `from`.
    From,
    /// The keyword `as`.
    As,
    /// The punctuation `,`.
    Comma,
    /// The punctuation `;`.
    Semicolon,
    /// The punctuation `*`.
    Star,
    /// The punctuation `}`.
    RBrace,
    /// The punctuation `{`.
    LBrace,
    /// A quoted relative module specifier such as `'./a.js'`,
    /// quotes included.
    Specifier,
    /// An identifier: a letter followed by letters and digits.
    Ident,
    /// Any single character that starts none of the above.
    Other,
}

/// One token: a category together with the character span
/// `[start, end)` it occupies in the source text.
#[derive(Debug, Clone, Copy, PartialEq, Eq, Structural)]
pub struct Token {
    pub kind: TokenKind,
    pub start: usize,
    pub end: usize,
}

/// Whitespace characters: space, tab, newline, carriage return.
pub open spec fn is_ws_char(c: char) -> bool {
    c == ' ' || c == '\t' || c == '\n' || c == '\r'
}

/// Characters that may start an identifier.
pub open spec fn is_letter(c: char) -> bool {
    ('a' <= c && c <= 'z') || ('A' <= c && c <= 'Z')
}

/// Characters that may continue an identifier.
pub open spec fn is_ident_char(c: char) -> bool {
    is_letter(c) || ('0' <= c && c <= '9')
}

/// Characters allowed in the name segment of a specifier
/// (between `./` and `.js`).
pub open spec fn is_name_char(c: char) -> bool {
    is_ident_char(c) || c == '_' || c == '-'
}

/// Quote characters that may delimit a specifier.
pub open spec fn is_quote_char(c: char) -> bool {
    c == '\'' || c == '"'
}

/// End of the maximal run of whitespace characters starting at `i`.
pub open spec fn ws_run_end(s: Seq<char>, i: int) -> int
    decreases s.len() - i when 0 <= i <= s.len()
{
    if i < s.len() && is_ws_char(s[i]) {
        ws_run_end(s, i + 1)
    } else {
        i
    }
}

/// End of the maximal run of identifier characters starting at `i`.
pub open spec fn ident_run_end(s: Seq<char>, i: int) -> int
    decreases s.len() - i when 0 <= i <= s.len()
{
    if i < s.len() && is_ident_char(s[i]) {
        ident_run_end(s, i + 1)
    } else {
        i
    }
}

/// End of the maximal run of specifier-name characters starting at `i`.
pub open spec fn name_run_end(s: Seq<char>, i: int) -> int
    decreases s.len() - i when 0 <= i <= s.len()
{
    if i < s.len() && is_name_char(s[i]) {
        name_run_end(s, i + 1)
    } else {
        i
    }
}

/// The token kind of an identifier-shaped text: one of the five
/// keywords when the text spells it exactly, `Ident` otherwise.
pub open spec fn keyword_or_ident(text: Seq<char>) -> TokenKind {
    if text == seq!['i', 'm', 'p', 'o', 'r', 't'] {
        TokenKind::Import
    } else if text == seq!['e', 'x', 'p', 'o', 'r', 't'] {
        TokenKind::Export
    } else if text == seq!['d', 'e', 'f', 'a', 'u', 'l', 't'] {
        TokenKind::Default
    } else if text == seq!['f', 'r', 'o', 'm'] {
        TokenKind::From
    } else if text == seq!['a', 's'] {
        TokenKind::As
    } else {
        TokenKind::Ident
    }
}

/// Where a specifier token starting with the quote at `i` would end:
/// the position one past the closing quote, or `None` when the text at
/// `i` is not of the exact shape `'./name.js'` (or with `"`).  The
/// name segment is one or more letters, digits, `_` or `-`.
pub open spec fn specifier_end(s: Seq<char>, i: int) -> Option<int>
    recommends 0 <= i < s.len(),
{
    let q = s[i];
    if i + 2 < s.len() && s[i + 1] == '.' && s[i + 2] == '/' {
        let ne = name_run_end(s, i + 3);
        if ne > i + 3 && ne + 3 < s.len() && s[ne] == '.' && s[ne + 1] == 'j' && s[ne + 2] == 's'
            && s[ne + 3] == q {
            Some(ne + 4)
        } else {
            None
        }
    } else {
        None
    }
}

/// The token beginning at position `i` of the source: the lexer is
/// deterministic, keyed by the first character, and takes the maximal
/// match for runs.
pub open spec fn token_at(s: Seq<char>, i: int) -> Token
    recommends 0 <= i < s.len() <= usize::MAX,
{
    let c = s[i];
    if is_ws_char(c) {
        Token { kind: TokenKind::Whitespace, start: i as usize, end: ws_run_end(s, i) as usize }
    } else if is_letter(c) {
        let e = ident_run_end(s, i);
        Token { kind: keyword_or_ident(s.subrange(i, e)), start: i as usize, end: e as usize }
    } else if c == ',' {
        Token { kind: TokenKind::Comma, start: i as usize, end: (i + 1) as usize }
    } else if c == ';' {
        Token { kind: TokenKind::Semicolon, start: i as usize, end: (i + 1) as usize }
    } else if c == '*' {
        Token { kind: TokenKind::Star, start: i as usize, end: (i + 1) as usize }
    } else if c == '{' {
        Token { kind: TokenKind::LBrace, start: i as usize, end: (i + 1) as usize }
    } else if c == '}' {
        Token { kind: TokenKind::RBrace, start: i as usize, end: (i + 1) as usize }
    } else if is_quote_char(c) {
        match specifier_end(s, i) {
            Some(e) => Token { kind: TokenKind::Specifier, start: i as usize, end: e as usize },
            None => Token { kind: TokenKind::Other, start: i as usize, end: (i + 1) as usize },
        }
    } else {
        Token { kind: TokenKind::Other, start: i as usize, end: (i + 1) as usize }
    }
}

proof fn lemma_ws_run_end_bounds(s: Seq<char>, i: int)
    requires 0 <= i <= s.len(),
    ensures i <= ws_run_end(s, i) <= s.len(),
    decreases s.len() - i,
{
    if i < s.len() && is_ws_char(s[i]) {
        lemma_ws_run_end_bounds(s, i + 1);
    }
}

proof fn lemma_ident_run_end_bounds(s: Seq<char>, i: int)
    requires 0 <= i <= s.len(),
    ensures i <= ident_run_end(s, i) <= s.len(),
    decreases s.len() - i,
{
    if i < s.len() && is_ident_char(s[i]) {
        lemma_ident_run_end_bounds(s, i + 1);
    }
}

proof fn lemma_name_run_end_bounds(s: Seq<char>, i: int)
    requires 0 <= i <= s.len(),
    ensures i <= name_run_end(s, i) <= s.len(),
    decreases s.len() - i,
{
    if i < s.len() && is_name_char(s[i]) {
        lemma_name_run_end_bounds(s, i + 1);
    }
}

/// The token at a valid position covers at least one character and
/// stays inside the source.
pub proof fn lemma_token_at_bounds(s: Seq<char>, i: int)
    requires 0 <= i < s.len() <= usize::MAX,
    ensures
        token_at(s, i).start == i,
        i < token_at(s, i).end <= s.len(),
{
    let c = s[i];
    if is_ws_char(c) {
        lemma_ws_run_end_bounds(s, i + 1);
    } else if is_letter(c) {
        lemma_ident_run_end_bounds(s, i + 1);
    } else if is_quote_char(c) {
        if i + 2 < s.len() && s[i + 1] == '.' && s[i + 2] == '/' {
            lemma_name_run_end_bounds(s, i + 3);
        }
    }
}

/// The full token sequence of the source text from position `i` on.
pub open spec fn spec_tokenize(s: Seq<char>, i: int) -> Seq<Token>
    decreases s.len() - i when 0 <= i <= s.len() <= usize::MAX via spec_tokenize_decreases
{
    if i >= s.len() {
        Seq::empty()
    } else {
        seq![token_at(s, i)].add(spec_tokenize(s, token_at(s, i).end as int))
    }
}

#[via_fn]
proof fn spec_tokenize_decreases(s: Seq<char>, i: int) {
    if i < s.len() {
        lemma_token_at_bounds(s, i);
    }
}

/// The tokens from position `i` tile the range `[i, s.len())`: the
/// first starts at `i`, each next token starts where the previous one
/// ended, every token is non-empty and in bounds, and each equals the
/// token the lexer yields at its start position.
pub proof fn lemma_tokenize_chain(s: Seq<char>, i: int)
    requires 0 <= i <= s.len() <= usize::MAX,
    ensures
        forall|k: int| #![trigger spec_tokenize(s, i)[k]] 0 <= k < spec_tokenize(s, i).len() ==> {
            let toks = spec_tokenize(s, i);
            &&& toks[k].start < toks[k].end <= s.len()
            &&& toks[k].start == (if k == 0 { i } else { toks[k - 1].end as int })
            &&& toks[k] == token_at(s, toks[k].start as int)
        },
        spec_tokenize(s, i).len() == 0 <==> i == s.len(),
    decreases s.len() - i,
{
    if i < s.len() {
        let t = token_at(s, i);
        lemma_token_at_bounds(s, i);
        lemma_tokenize_chain(s, t.end as int);
        let toks = spec_tokenize(s, i);
        let rest = spec_tokenize(s, t.end as int);
        assert forall|k: int| #![trigger toks[k]] 0 <= k < toks.len() implies {
            &&& toks[k].start < toks[k].end <= s.len()
            &&& toks[k].start == (if k == 0 { i } else { toks[k - 1].end as int })
            &&& toks[k] == token_at(s, toks[k].start as int)
        } by {
            if k > 0 {
                assert(toks[k] == rest[k - 1]);
                if k > 1 {
                    assert(toks[k - 1] == rest[k - 2]);
                }
            }
        }
    }
}

/// Every character of the maximal name run satisfies `is_name_char`.
proof fn lemma_name_run_chars(s: Seq<char>, i: int)
    requires 0 <= i <= s.len(),
    ensures forall|k: int| i <= k < name_run_end(s, i) ==> is_name_char(s[k]),
    decreases s.len() - i,
{
    if i < s.len() && is_name_char(s[i]) {
        lemma_name_run_chars(s, i + 1);
        lemma_name_run_end_bounds(s, i + 1);
    }
}

/// Shape of a specifier token: it is at least eight characters long,
/// begins and ends with the same quote character, and between the
/// quotes holds `./`, a non-empty run of name characters, and `.js`.
pub proof fn lemma_specifier_token_shape(s: Seq<char>, i: int)
    requires
        0 <= i < s.len() <= usize::MAX,
        token_at(s, i).kind == TokenKind::Specifier,
    ensures ({
        let t = token_at(s, i);
        &&& t.start == i
        &&& i + 8 <= t.end <= s.len()
        &&& is_quote_char(s[i])
        &&& s[t.end - 1] == s[i]
        &&& s[i + 1] == '.'
        &&& s[i + 2] == '/'
        &&& s[t.end - 4] == '.'
        &&& s[t.end - 3] == 'j'
        &&& s[t.end - 2] == 's'
        &&& forall|k: int| i + 3 <= k < t.end - 4 ==> is_name_char(s[k])
    }),
{
    let c = s[i];
    assert(is_quote_char(c));
    let ne = name_run_end(s, i + 3);
    lemma_name_run_end_bounds(s, i + 3);
    lemma_name_run_chars(s, i + 3);
    assert(specifier_end(s, i) == Some(ne + 4));
}

/// Bounds and identity of every token of a full tokenization:
/// convenience form of [`lemma_tokenize_chain`] for the whole text.
pub proof fn lemma_tokens_facts(s: Seq<char>, toks: Seq<Token>)
    requires
        s.len() <= usize::MAX,
        toks == spec_tokenize(s, 0),
    ensures
        forall|k: int| 0 <= k < toks.len() ==> {
            &&& (#[trigger] toks[k]).start < toks[k].end <= s.len()
            &&& toks[k] == token_at(s, toks[k].start as int)
        },
{
    lemma_tokenize_chain(s, 0);
    assert forall|k: int| 0 <= k < toks.len() implies {
        &&& (#[trigger] toks[k]).start < toks[k].end <= s.len()
        &&& toks[k] == token_at(s, toks[k].start as int)
    } by {
        assert(spec_tokenize(s, 0)[k] == toks[k]);
    }
}

fn ws_char(c: char) -> (b: bool)
    ensures b == is_ws_char(c),
{
    c == ' ' || c == '\t' || c == '\n' || c == '\r'
}

fn letter_char(c: char) -> (b: bool)
    ensures b == is_letter(c),
{
    ('a' <= c && c <= 'z') || ('A' <= c && c <= 'Z')
}

fn ident_char(c: char) -> (b: bool)
    ensures b == is_ident_char(c),
{
    letter_char(c) || ('0' <= c && c <= '9')
}

fn name_char(c: char) -> (b: bool)
    ensures b == is_name_char(c),
{
    ident_char(c) || c == '_' || c == '-'
}

/// The characters of a string, as an indexable vector.
fn chars_of(s: &str) -> (r: Vec<char>)
    ensures r@ == s@,
{
    let n = s.unicode_len();
    let mut r: Vec<char> = Vec::new();
    let mut i: usize = 0;
    while i < n
        invariant
            n == s@.len(),
            i <= n,
            r@ == s@.subrange(0, i as int),
        decreases n - i,
    {
        r.push(s.get_char(i));
        i = i + 1;
        proof {
            assert(r@ =~= s@.subrange(0, i as int));
        }
    }
    proof {
        assert(r@ =~= s@);
    }
    r
}

/// A run of `is_ws_char` characters ending exactly where the predicate
/// first fails determines `ws_run_end`.
proof fn lemma_ws_run_char(s: Seq<char>, i: int, j: int)
    requires
        0 <= i <= j <= s.len(),
        forall|k: int| i <= k < j ==> is_ws_char(s[k]),
        j == s.len() || !is_ws_char(s[j]),
    ensures ws_run_end(s, i) == j,
    decreases j - i,
{
    if i < j {
        lemma_ws_run_char(s, i + 1, j);
    }
}

proof fn lemma_ident_run_char(s: Seq<char>, i: int, j: int)
    requires
        0 <= i <= j <= s.len(),
        forall|k: int| i <= k < j ==> is_ident_char(s[k]),
        j == s.len() || !is_ident_char(s[j]),
    ensures ident_run_end(s, i) == j,
    decreases j - i,
{
    if i < j {
        lemma_ident_run_char(s, i + 1, j);
    }
}

proof fn lemma_name_run_char(s: Seq<char>, i: int, j: int)
    requires
        0 <= i <= j <= s.len(),
        forall|k: int| i <= k < j ==> is_name_char(s[k]),
        j == s.len() || !is_name_char(s[j]),
    ensures name_run_end(s, i) == j,
    decreases j - i,
{
    if i < j {
        lemma_name_run_char(s, i + 1, j);
    }
}

/// Decide which keyword, if any, an identifier run spells.
fn keyword_kind_of(cs: &Vec<char>, i: usize, j: usize) -> (k: TokenKind)
    requires i < j <= cs@.len(),
    ensures k == keyword_or_ident(cs@.subrange(i as int, j as int)),
{
    let ghost text = cs@.subrange(i as int, j as int);
    let n = j - i;
    if n == 6 && cs[i] == 'i' && cs[i + 1] == 'm' && cs[i + 2] == 'p' && cs[i + 3] == 'o'
        && cs[i + 4] == 'r' && cs[i + 5] == 't' {
        proof {
            assert(text =~= seq!['i', 'm', 'p', 'o', 'r', 't']);
        }
        TokenKind::Import
    } else if n == 6 && cs[i] == 'e' && cs[i + 1] == 'x' && cs[i + 2] == 'p' && cs[i + 3] == 'o'
        && cs[i + 4] == 'r' && cs[i + 5] == 't' {
        proof {
            assert(text =~= seq!['e', 'x', 'p', 'o', 'r', 't']);
        }
        TokenKind::Export
    } else if n == 7 && cs[i] == 'd' && cs[i + 1] == 'e' && cs[i + 2] == 'f' && cs[i + 3] == 'a'
        && cs[i + 4] == 'u' && cs[i + 5] == 'l' && cs[i + 6] == 't' {
        proof {
            assert(text =~= seq!['d', 'e', 'f', 'a', 'u', 'l', 't']);
        }
        TokenKind::Default
    } else if n == 4 && cs[i] == 'f' && cs[i + 1] == 'r' && cs[i + 2] == 'o' && cs[i + 3] == 'm' {
        proof {
            assert(text =~= seq!['f', 'r', 'o', 'm']);
        }
        TokenKind::From
    } else if n == 2 && cs[i] == 'a' && cs[i + 1] == 's' {
        proof {
            assert(text =~= seq!['a', 's']);
        }
        TokenKind::As
    } else {
        proof {
            if text == seq!['i', 'm', 'p', 'o', 'r', 't'] {
                assert(text.len() == 6 && text[0] == 'i' && text[1] == 'm' && text[2] == 'p'
                    && text[3] == 'o' && text[4] == 'r' && text[5] == 't');
            }
            if text == seq!['e', 'x', 'p', 'o', 'r', 't'] {
                assert(text.len() == 6 && text[0] == 'e' && text[1] == 'x' && text[2] == 'p'
                    && text[3] == 'o' && text[4] == 'r' && text[5] == 't');
            }
            if text == seq!['d', 'e', 'f', 'a', 'u', 'l', 't'] {
                assert(text.len() == 7 && text[0] == 'd' && text[1] == 'e' && text[2] == 'f'
                    && text[3] == 'a' && text[4] == 'u' && text[5] == 'l' && text[6] == 't');
            }
            if text == seq!['f', 'r', 'o', 'm'] {
                assert(text.len() == 4 && text[0] == 'f' && text[1] == 'r' && text[2] == 'o'
                    && text[3] == 'm');
            }
            if text == seq!['a', 's'] {
                assert(text.len() == 2 && text[0] == 'a' && text[1] == 's');
            }
        }
        TokenKind::Ident
    }
}

/// Tokenize a source text.  The result is the complete, deterministic
/// token sequence of the text: tokens tile the text from start to end.
pub fn tokenize(source: &str) -> (r: Vec<Token>)
    ensures r@ == spec_tokenize(source@, 0),
{
    let cs = chars_of(source);
    let n = cs.len();
    let ghost s = source@;
    let mut toks: Vec<Token> = Vec::new();
    let mut i: usize = 0;
    while i < n
        invariant
            cs@ == s,
            n == s.len() <= usize::MAX,
            i <= n,
            spec_tokenize(s, 0) == toks@ + spec_tokenize(s, i as int),
        decreases n - i,
    {
        let c = cs[i];
        let t: Token;
        if ws_char(c) {
            let mut j = i + 1;
            while j < n && ws_char(cs[j])
                invariant
                    cs@ == s, n == s.len(), i < j <= n,
                    forall|k: int| i < k < j ==> is_ws_char(s[k]),
                    is_ws_char(s[i as int]),
                decreases n - j,
            {
                j = j + 1;
            }
            proof {
                lemma_ws_run_char(s, i as int, j as int);
            }
            t = Token { kind: TokenKind::Whitespace, start: i, end: j };
        } else if letter_char(c) {
            let mut j = i + 1;
            while j < n && ident_char(cs[j])
                invariant
                    cs@ == s, n == s.len(), i < j <= n,
                    forall|k: int| i < k < j ==> is_ident_char(s[k]),
                    is_ident_char(s[i as int]),
                decreases n - j,
            {
                j = j + 1;
            }
            proof {
                lemma_ident_run_char(s, i as int, j as int);
            }
            let kind = keyword_kind_of(&cs, i, j);
            t = Token { kind, start: i, end: j };
        } else if c == ',' {
            t = Token { kind: TokenKind::Comma, start: i, end: i + 1 };
        } else if c == ';' {
            t = Token { kind: TokenKind::Semicolon, start: i, end: i + 1 };
        } else if c == '*' {
            t = Token { kind: TokenKind::Star, start: i, end: i + 1 };
        } else if c == '{' {
            t = Token { kind: TokenKind::LBrace, start: i, end: i + 1 };
        } else if c == '}' {
            t = Token { kind: TokenKind::RBrace, start: i, end: i + 1 };
        } else if c == '\'' || c == '"' {
            if n - i > 2 && cs[i + 1] == '.' && cs[i + 2] == '/' {
                let mut j = i + 3;
                while j < n && name_char(cs[j])
                    invariant
                        cs@ == s, n == s.len(), i + 3 <= j <= n,
                        forall|k: int| i + 3 <= k < j ==> is_name_char(s[k]),
                    decreases n - j,
                {
                    j = j + 1;
                }
                proof {
                    lemma_name_run_char(s, i as int + 3, j as int);
                }
                if j > i + 3 && n - j > 3 && cs[j] == '.' && cs[j + 1] == 'j' && cs[j + 2] == 's'
                    && cs[j + 3] == c {
                    t = Token { kind: TokenKind::Specifier, start: i, end: j + 4 };
                } else {
                    t = Token { kind: TokenKind::Other, start: i, end: i + 1 };
                }
            } else {
                t = Token { kind: TokenKind::Other, start: i, end: i + 1 };
            }
        } else {
            t = Token { kind: TokenKind::Other, start: i, end: i + 1 };
        }
        proof {
            assert(t == token_at(s, i as int));
            assert(spec_tokenize(s, i as int) == seq![t] + spec_tokenize(s, t.end as int));
            assert(toks@.push(t) + spec_tokenize(s, t.end as int)
                =~= (toks@ + spec_tokenize(s, i as int)));
        }
        let end = t.end;
        toks.push(t);
        i = end;
    }
    proof {
        assert(spec_tokenize(s, n as int) =~= Seq::<Token>::empty());
        assert(toks@ =~= toks@ + spec_tokenize(s, n as int));
    }
    toks
}

} // verus!
