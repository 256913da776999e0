//! Turns a command line into tokens.
use vstd::prelude::*;

use crate::text::{chars_of, is_alnum, is_ascii_alnum, is_ascii_alpha, string_of};

verus! {

/// One piece of a word: literal text or a variable reference.
#[derive(Clone, Debug)]
pub enum Part {
    Lit(String),
    Var(String),
}

/// A shell word: its pieces, and whether any of it was quoted.
#[derive(Clone, Debug)]
pub struct Word {
    pub parts: Vec<Part>,
    pub quoted: bool,
}

#[derive(Clone, Debug)]
pub enum Token {
    Word(Word),
    Semi,
    AndAnd,
    OrOr,
    Pipe,
    Less,
    Great,
    GreatGreat,
}

/// Why a command line cannot be tokenized.
#[derive(Clone, Copy, Debug, PartialEq, Eq, Structural)]
pub enum LexError {
    Background,
    UnbalancedSingleQuote,
    UnbalancedDoubleQuote,
}

impl LexError {
    pub open spec fn spec_message(self) -> Seq<char> {
        match self {
            LexError::Background => "background execution (&) is not supported"@,
            LexError::UnbalancedSingleQuote => "unbalanced single quote"@,
            LexError::UnbalancedDoubleQuote => "unbalanced double quote"@,
        }
    }

    /// The text reported for this error.
    pub fn message(self) -> (r: &'static str)
        ensures
            r@ == self.spec_message(),
    {
        match self {
            LexError::Background => "background execution (&) is not supported",
            LexError::UnbalancedSingleQuote => "unbalanced single quote",
            LexError::UnbalancedDoubleQuote => "unbalanced double quote",
        }
    }
}

pub enum PartV {
    Lit(Seq<char>),
    Var(Seq<char>),
}

pub struct WordV {
    pub parts: Seq<PartV>,
    pub quoted: bool,
}

pub enum TokenV {
    Word(WordV),
    Semi,
    AndAnd,
    OrOr,
    Pipe,
    Less,
    Great,
    GreatGreat,
}

impl View for Part {
    type V = PartV;

    open spec fn view(&self) -> PartV {
        match self {
            Part::Lit(s) => PartV::Lit(s@),
            Part::Var(s) => PartV::Var(s@),
        }
    }
}

pub open spec fn part_views(v: Seq<Part>) -> Seq<PartV> {
    v.map_values(|p: Part| p@)
}

impl View for Word {
    type V = WordV;

    open spec fn view(&self) -> WordV {
        WordV { parts: part_views(self.parts@), quoted: self.quoted }
    }
}

impl View for Token {
    type V = TokenV;

    open spec fn view(&self) -> TokenV {
        match self {
            Token::Word(w) => TokenV::Word(w@),
            Token::Semi => TokenV::Semi,
            Token::AndAnd => TokenV::AndAnd,
            Token::OrOr => TokenV::OrOr,
            Token::Pipe => TokenV::Pipe,
            Token::Less => TokenV::Less,
            Token::Great => TokenV::Great,
            Token::GreatGreat => TokenV::GreatGreat,
        }
    }
}

pub open spec fn token_views(v: Seq<Token>) -> Seq<TokenV> {
    v.map_values(|t: Token| t@)
}

/// The bare text of an unquoted single-literal word, which is how keywords
/// (`if`, `then`, ...) are recognized.
pub open spec fn keyword_of(w: WordV) -> Option<Seq<char>> {
    if w.quoted || w.parts.len() != 1 {
        None
    } else {
        match w.parts[0] {
            PartV::Lit(s) => Some(s),
            PartV::Var(_) => None,
        }
    }
}

impl Word {
    pub fn keyword(&self) -> (r: Option<&str>)
        ensures
            match (r, keyword_of(self@)) {
                (Some(s), Some(k)) => s@ == k,
                (None, None) => true,
                _ => false,
            },
    {
        if self.quoted || self.parts.len() != 1 {
            return None;
        }
        assert(self@.parts[0] == self.parts@[0]@);
        match &self.parts[0] {
            Part::Lit(s) => Some(s.as_str()),
            Part::Var(_) => None,
        }
    }
}

/// Characters that end an unquoted word.
pub open spec fn is_word_break(c: char) -> bool {
    c == ' ' || c == '\t' || c == '\r' || c == '\n' || c == ';' || c == '|' || c == '&' || c == '<'
        || c == '>' || c == '#'
}

/// Characters allowed in a variable name.
pub open spec fn is_name_char(c: char) -> bool {
    is_ascii_alnum(c) || c == '_'
}

/// A valid variable name: a letter or `_`, then letters, digits or `_`.
pub open spec fn spec_is_name(s: Seq<char>) -> bool {
    &&& s.len() > 0
    &&& (is_ascii_alpha(s[0]) || s[0] == '_')
    &&& forall|i: int| 0 <= i < s.len() ==> is_name_char(#[trigger] s[i])
}

pub fn is_name(s: &str) -> (b: bool)
    ensures
        b == spec_is_name(s@),
{
    let cs = chars_of(s);
    if cs.len() == 0 {
        return false;
    }
    let c0 = cs[0];
    if !(('a' <= c0 && c0 <= 'z') || ('A' <= c0 && c0 <= 'Z') || c0 == '_') {
        return false;
    }
    let mut i: usize = 0;
    while i < cs.len()
        invariant
            i <= cs.len(),
            cs@ == s@,
            forall|j: int| 0 <= j < i ==> is_name_char(#[trigger] cs@[j]),
        decreases cs.len() - i,
    {
        if !(is_alnum(cs[i]) || cs[i] == '_') {
            return false;
        }
        i += 1;
    }
    true
}

/// First index at or after `i` holding `c`, or `cs.len()`.
pub open spec fn run_until(cs: Seq<char>, i: int, c: char) -> int
    decreases cs.len() - i,
{
    if i < 0 || i >= cs.len() {
        cs.len() as int
    } else if cs[i] == c {
        i
    } else {
        run_until(cs, i + 1, c)
    }
}

/// End of the run of name characters starting at `i`.
pub open spec fn name_end(cs: Seq<char>, i: int) -> int
    decreases cs.len() - i,
{
    if i < 0 || i >= cs.len() {
        cs.len() as int
    } else if is_name_char(cs[i]) {
        name_end(cs, i + 1)
    } else {
        i
    }
}

pub proof fn lemma_run_until(cs: Seq<char>, i: int, c: char)
    requires
        0 <= i <= cs.len(),
    ensures
        i <= run_until(cs, i, c) <= cs.len(),
        run_until(cs, i, c) < cs.len() ==> cs[run_until(cs, i, c)] == c,
    decreases cs.len() - i,
{
    if i < cs.len() && cs[i] != c {
        lemma_run_until(cs, i + 1, c);
    }
}

pub proof fn lemma_name_end(cs: Seq<char>, i: int)
    requires
        0 <= i <= cs.len(),
    ensures
        i <= name_end(cs, i) <= cs.len(),
        forall|k: int| i <= k < name_end(cs, i) ==> is_name_char(#[trigger] cs[k]),
        name_end(cs, i) < cs.len() ==> !is_name_char(cs[name_end(cs, i)]),
    decreases cs.len() - i,
{
    if i < cs.len() && is_name_char(cs[i]) {
        lemma_name_end(cs, i + 1);
    }
}

/// The variable reference at `cs[start] == '$'` (`$NAME`, `${NAME}` or
/// `$?`) and the index just past it. A `$` not followed by a name is a
/// literal `$`.
pub open spec fn var_at(cs: Seq<char>, start: int) -> (PartV, int) {
    let i = start + 1;
    if i < cs.len() && cs[i] == '{' {
        let e = run_until(cs, i + 1, '}');
        (
            PartV::Var(cs.subrange(i + 1, e)),
            if e < cs.len() {
                e + 1
            } else {
                e
            },
        )
    } else if i < cs.len() && cs[i] == '?' {
        (PartV::Var(seq!['?']), i + 1)
    } else {
        let e = name_end(cs, i);
        if e == i {
            (PartV::Lit(seq!['$']), i)
        } else {
            (PartV::Var(cs.subrange(i, e)), e)
        }
    }
}

pub proof fn lemma_var_at(cs: Seq<char>, start: int)
    requires
        0 <= start < cs.len(),
    ensures
        start < var_at(cs, start).1 <= cs.len(),
{
    let i = start + 1;
    if i < cs.len() && cs[i] == '{' {
        lemma_run_until(cs, i + 1, '}');
    } else if i < cs.len() && cs[i] == '?' {
    } else {
        lemma_name_end(cs, i);
    }
}

/// Lexing state inside a word.
#[derive(Clone, Copy, PartialEq, Eq, Structural)]
pub enum Mode {
    Plain,
    Single,
    Double,
}

pub open spec fn flush_lit(parts: Seq<PartV>, lit: Seq<char>) -> Seq<PartV> {
    if lit.len() == 0 {
        parts
    } else {
        parts.push(PartV::Lit(lit))
    }
}

/// The word read from `cs[i..]` in `mode`, given the pieces and pending
/// literal read so far, and the index where it ends.
pub open spec fn word_from(
    cs: Seq<char>,
    i: int,
    mode: Mode,
    parts: Seq<PartV>,
    lit: Seq<char>,
    quoted: bool,
) -> Result<(WordV, int), LexError>
    decreases cs.len() - i,
{
    if i < 0 || i >= cs.len() {
        match mode {
            Mode::Plain => Ok((WordV { parts: flush_lit(parts, lit), quoted }, i)),
            Mode::Single => Err(LexError::UnbalancedSingleQuote),
            Mode::Double => Err(LexError::UnbalancedDoubleQuote),
        }
    } else {
        let c = cs[i];
        if mode == Mode::Plain && is_word_break(c) {
            Ok((WordV { parts: flush_lit(parts, lit), quoted }, i))
        } else if mode == Mode::Single {
            if c == '\'' {
                word_from(cs, i + 1, Mode::Plain, parts, lit, quoted)
            } else {
                word_from(cs, i + 1, Mode::Single, parts, lit.push(c), quoted)
            }
        } else if mode == Mode::Plain && c == '\'' {
            word_from(cs, i + 1, Mode::Single, parts, lit, true)
        } else if mode == Mode::Plain && c == '"' {
            word_from(cs, i + 1, Mode::Double, parts, lit, true)
        } else if mode == Mode::Double && c == '"' {
            word_from(cs, i + 1, Mode::Plain, parts, lit, quoted)
        } else if c == '\\' {
            if i + 1 < cs.len() {
                word_from(cs, i + 2, mode, parts, lit.push(cs[i + 1]), quoted)
            } else {
                word_from(cs, i + 1, mode, parts, lit, quoted)
            }
        } else if c == '$' {
            let (p, next) = var_at(cs, i);
            proof {
                lemma_var_at(cs, i);
            }
            word_from(cs, next, mode, flush_lit(parts, lit).push(p), Seq::empty(), quoted)
        } else {
            word_from(cs, i + 1, mode, parts, lit.push(c), quoted)
        }
    }
}

pub proof fn lemma_word_from(
    cs: Seq<char>,
    i: int,
    mode: Mode,
    parts: Seq<PartV>,
    lit: Seq<char>,
    quoted: bool,
)
    requires
        0 <= i <= cs.len(),
    ensures
        word_from(cs, i, mode, parts, lit, quoted) matches Ok((_, n)) ==> i <= n <= cs.len(),
    decreases cs.len() - i,
{
    if i < cs.len() {
        let c = cs[i];
        if mode == Mode::Plain && is_word_break(c) {
        } else if mode == Mode::Single {
            if c == '\'' {
                lemma_word_from(cs, i + 1, Mode::Plain, parts, lit, quoted);
            } else {
                lemma_word_from(cs, i + 1, Mode::Single, parts, lit.push(c), quoted);
            }
        } else if mode == Mode::Plain && c == '\'' {
            lemma_word_from(cs, i + 1, Mode::Single, parts, lit, true);
        } else if mode == Mode::Plain && c == '"' {
            lemma_word_from(cs, i + 1, Mode::Double, parts, lit, true);
        } else if mode == Mode::Double && c == '"' {
            lemma_word_from(cs, i + 1, Mode::Plain, parts, lit, quoted);
        } else if c == '\\' {
            if i + 1 < cs.len() {
                lemma_word_from(cs, i + 2, mode, parts, lit.push(cs[i + 1]), quoted);
            } else {
                lemma_word_from(cs, i + 1, mode, parts, lit, quoted);
            }
        } else if c == '$' {
            let (p, next) = var_at(cs, i);
            lemma_var_at(cs, i);
            lemma_word_from(cs, next, mode, flush_lit(parts, lit).push(p), Seq::empty(), quoted);
        } else {
            lemma_word_from(cs, i + 1, mode, parts, lit.push(c), quoted);
        }
    }
}

/// A word that starts on a non-break character consumes at least it.
pub proof fn lemma_word_advances(cs: Seq<char>, i: int)
    requires
        0 <= i < cs.len(),
        !is_word_break(cs[i]),
    ensures
        word_from(cs, i, Mode::Plain, Seq::empty(), Seq::empty(), false) matches Ok((_, n)) ==> i
            < n <= cs.len(),
{
    let c = cs[i];
    let e = Seq::<PartV>::empty();
    let l = Seq::<char>::empty();
    if c == '\'' {
        lemma_word_from(cs, i + 1, Mode::Single, e, l, true);
    } else if c == '"' {
        lemma_word_from(cs, i + 1, Mode::Double, e, l, true);
    } else if c == '\\' {
        if i + 1 < cs.len() {
            lemma_word_from(cs, i + 2, Mode::Plain, e, l.push(cs[i + 1]), false);
        } else {
            lemma_word_from(cs, i + 1, Mode::Plain, e, l, false);
        }
    } else if c == '$' {
        let (p, next) = var_at(cs, i);
        lemma_var_at(cs, i);
        lemma_word_from(cs, next, Mode::Plain, flush_lit(e, l).push(p), l, false);
    } else {
        lemma_word_from(cs, i + 1, Mode::Plain, e, l.push(c), false);
    }
}

/// The tokens of `cs[i..]` appended to `toks`.
pub open spec fn lex_from(cs: Seq<char>, i: int, toks: Seq<TokenV>) -> Result<Seq<TokenV>, LexError>
    decreases cs.len() - i,
{
    if i < 0 || i >= cs.len() {
        Ok(toks)
    } else {
        let c = cs[i];
        let two = i + 1 < cs.len() && cs[i + 1] == c;
        if c == ' ' || c == '\t' || c == '\r' {
            lex_from(cs, i + 1, toks)
        } else if c == '#' {
            proof {
                lemma_run_until(cs, i, '\n');
            }
            lex_from(cs, run_until(cs, i, '\n'), toks)
        } else if c == '\n' || c == ';' {
            lex_from(cs, i + 1, toks.push(TokenV::Semi))
        } else if c == '|' {
            if two {
                lex_from(cs, i + 2, toks.push(TokenV::OrOr))
            } else {
                lex_from(cs, i + 1, toks.push(TokenV::Pipe))
            }
        } else if c == '&' {
            if two {
                lex_from(cs, i + 2, toks.push(TokenV::AndAnd))
            } else {
                Err(LexError::Background)
            }
        } else if c == '<' {
            lex_from(cs, i + 1, toks.push(TokenV::Less))
        } else if c == '>' {
            if two {
                lex_from(cs, i + 2, toks.push(TokenV::GreatGreat))
            } else {
                lex_from(cs, i + 1, toks.push(TokenV::Great))
            }
        } else {
            match word_from(cs, i, Mode::Plain, Seq::empty(), Seq::empty(), false) {
                Ok((w, next)) => if i < next <= cs.len() {
                    lex_from(cs, next, toks.push(TokenV::Word(w)))
                } else {
                    Ok(toks)
                },
                Err(e) => Err(e),
            }
        }
    }
}

/// The tokens of a command line.
pub open spec fn spec_lex(input: Seq<char>) -> Result<Seq<TokenV>, LexError> {
    lex_from(input, 0, Seq::empty())
}

fn push_lit(parts: &mut Vec<Part>, lit: &mut Vec<char>)
    ensures
        part_views(final(parts)@) == flush_lit(part_views(old(parts)@), old(lit)@),
        final(lit)@.len() == 0,
{
    if lit.len() > 0 {
        let ghost before = part_views(parts@);
        let ghost l = lit@;
        parts.push(Part::Lit(string_of(lit)));
        assert(part_views(parts@) =~= before.push(PartV::Lit(l)));
    }
    *lit = Vec::new();
}

/// Reads a `$NAME`, `${NAME}` or `$?` starting at `chars[start] == '$'`,
/// appends it to `parts` and returns the index just past it.
pub fn lex_var(chars: &[char], start: usize, parts: &mut Vec<Part>) -> (next: usize)
    requires
        start < chars.len(),
    ensures
        part_views(final(parts)@) == part_views(old(parts)@).push(var_at(chars@, start as int).0),
        next == var_at(chars@, start as int).1,
{
    let ghost cs = chars@;
    let ghost before = part_views(parts@);
    let mut i = start + 1;
    if i < chars.len() && chars[i] == '{' {
        i += 1;
        let from = i;
        while i < chars.len() && chars[i] != '}'
            invariant
                from <= i <= chars.len(),
                run_until(cs, from as int, '}') == run_until(cs, i as int, '}'),
                cs == chars@,
            decreases chars.len() - i,
        {
            i += 1;
        }
        let name = string_of(&chars[from..i]);
        assert(chars@.subrange(from as int, i as int) == cs.subrange(from as int, i as int));
        if i < chars.len() && chars[i] == '}' {
            i += 1;
        }
        parts.push(Part::Var(name));
    } else if i < chars.len() && chars[i] == '?' {
        let mut q: Vec<char> = Vec::new();
        q.push('?');
        assert(q@ =~= seq!['?']);
        parts.push(Part::Var(string_of(&q)));
        i += 1;
    } else {
        let from = i;
        while i < chars.len() && (is_alnum(chars[i]) || chars[i] == '_')
            invariant
                from <= i <= chars.len(),
                name_end(cs, from as int) == name_end(cs, i as int),
                cs == chars@,
            decreases chars.len() - i,
        {
            i += 1;
        }
        if i == from {
            let mut d: Vec<char> = Vec::new();
            d.push('$');
            assert(d@ =~= seq!['$']);
            parts.push(Part::Lit(string_of(&d)));
        } else {
            let name = string_of(&chars[from..i]);
            assert(chars@.subrange(from as int, i as int) == cs.subrange(from as int, i as int));
            parts.push(Part::Var(name));
        }
    }
    assert(part_views(parts@) =~= before.push(var_at(cs, start as int).0));
    i
}

/// Reads the word starting at `chars[start]`, returning it and the index just
/// past it.
pub fn lex_word(chars: &[char], start: usize) -> (r: Result<(Word, usize), LexError>)
    requires
        start <= chars.len(),
    ensures
        match (r, word_from(chars@, start as int, Mode::Plain, Seq::empty(), Seq::empty(), false)) {
            (Ok((w, n)), Ok((wv, m))) => w@ == wv && n == m,
            (Err(e), Err(f)) => e == f,
            _ => false,
        },
{
    let ghost cs = chars@;
    let ghost target = word_from(cs, start as int, Mode::Plain, Seq::empty(), Seq::empty(), false);
    let mut parts: Vec<Part> = Vec::new();
    let mut lit: Vec<char> = Vec::new();
    let mut quoted = false;
    let mut mode = Mode::Plain;
    let mut i = start;
    assert(part_views(parts@) =~= Seq::<PartV>::empty());
    while i < chars.len() && !(mode == Mode::Plain && (chars[i] == ' ' || chars[i] == '\t'
        || chars[i] == '\r' || chars[i] == '\n' || chars[i] == ';' || chars[i] == '|' || chars[i]
        == '&' || chars[i] == '<' || chars[i] == '>' || chars[i] == '#'))
        invariant
            start <= i <= chars.len(),
            cs == chars@,
            word_from(cs, i as int, mode, part_views(parts@), lit@, quoted) == target,
        decreases chars.len() - i,
    {
        let c = chars[i];
        if mode == Mode::Single {
            if c == '\'' {
                mode = Mode::Plain;
            } else {
                lit.push(c);
            }
            i += 1;
        } else if mode == Mode::Plain && c == '\'' {
            quoted = true;
            mode = Mode::Single;
            i += 1;
        } else if mode == Mode::Plain && c == '"' {
            quoted = true;
            mode = Mode::Double;
            i += 1;
        } else if mode == Mode::Double && c == '"' {
            mode = Mode::Plain;
            i += 1;
        } else if c == '\\' {
            if i + 1 < chars.len() {
                lit.push(chars[i + 1]);
                i += 2;
            } else {
                i += 1;
            }
        } else if c == '$' {
            proof {
                lemma_var_at(cs, i as int);
            }
            push_lit(&mut parts, &mut lit);
            assert(lit@ =~= Seq::<char>::empty());
            i = lex_var(chars, i, &mut parts);
        } else {
            lit.push(c);
            i += 1;
        }
    }
    match mode {
        Mode::Plain => {
            push_lit(&mut parts, &mut lit);
            Ok((Word { parts, quoted }, i))
        },
        Mode::Single => Err(LexError::UnbalancedSingleQuote),
        Mode::Double => Err(LexError::UnbalancedDoubleQuote),
    }
}

/// Tokenizes a command line.
pub fn lex(input: &str) -> (r: Result<Vec<Token>, LexError>)
    ensures
        match (r, spec_lex(input@)) {
            (Ok(toks), Ok(tv)) => token_views(toks@) == tv,
            (Err(e), Err(f)) => e == f,
            _ => false,
        },
{
    let chars = chars_of(input);
    let ghost cs = chars@;
    let mut tokens: Vec<Token> = Vec::new();
    let mut i: usize = 0;
    assert(token_views(tokens@) =~= Seq::<TokenV>::empty());
    while i < chars.len()
        invariant
            i <= chars.len(),
            cs == chars@,
            cs == input@,
            lex_from(cs, i as int, token_views(tokens@)) == spec_lex(input@),
        decreases chars.len() - i,
    {
        let c = chars[i];
        let ghost before = token_views(tokens@);
        let two = i + 1 < chars.len() && chars[i + 1] == c;
        if c == ' ' || c == '\t' || c == '\r' {
            i += 1;
        } else if c == '#' {
            let from = i;
            i += 1;
            while i < chars.len() && chars[i] != '\n'
                invariant
                    from <= i <= chars.len(),
                    run_until(cs, from as int, '\n') == run_until(cs, i as int, '\n'),
                    cs == chars@,
                decreases chars.len() - i,
            {
                i += 1;
            }
        } else if c == '\n' || c == ';' {
            tokens.push(Token::Semi);
            i += 1;
        } else if c == '|' {
            if two {
                tokens.push(Token::OrOr);
                i += 2;
            } else {
                tokens.push(Token::Pipe);
                i += 1;
            }
        } else if c == '&' {
            if two {
                tokens.push(Token::AndAnd);
                i += 2;
            } else {
                return Err(LexError::Background);
            }
        } else if c == '<' {
            tokens.push(Token::Less);
            i += 1;
        } else if c == '>' {
            if two {
                tokens.push(Token::GreatGreat);
                i += 2;
            } else {
                tokens.push(Token::Great);
                i += 1;
            }
        } else {
            proof {
                lemma_word_advances(cs, i as int);
            }
            match lex_word(&chars, i) {
                Ok((word, next)) => {
                    tokens.push(Token::Word(word));
                    i = next;
                },
                Err(e) => {
                    return Err(e);
                },
            }
        }
        assert(token_views(tokens@) =~= match tokens@.len() > before.len() {
            true => before.push(tokens@.last()@),
            false => before,
        });
    }
    Ok(tokens)
}

} // verus!
