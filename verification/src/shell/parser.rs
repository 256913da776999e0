//! Recursive-descent parser from tokens to a command tree.
use vstd::prelude::*;

use crate::shell::lexer::{
    lex, spec_lex, is_name, keyword_of, run_until, spec_is_name, token_views, LexError, Part, PartV, Token, TokenV,
    Word, WordV, part_views,
};
use crate::text::{chars_of, slice_vec, str_is, string_of};

verus! {

/// Reserved words the parser recognizes.
#[derive(Clone, Copy, Debug, PartialEq, Eq, Structural)]
pub enum Kw {
    If,
    Then,
    Elif,
    Else,
    Fi,
    For,
    In,
    Do,
    Done,
    While,
    Esac,
}

pub open spec fn kw_text(k: Kw) -> Seq<char> {
    match k {
        Kw::If => seq!['i', 'f'],
        Kw::Then => seq!['t', 'h', 'e', 'n'],
        Kw::Elif => seq!['e', 'l', 'i', 'f'],
        Kw::Else => seq!['e', 'l', 's', 'e'],
        Kw::Fi => seq!['f', 'i'],
        Kw::For => seq!['f', 'o', 'r'],
        Kw::In => seq!['i', 'n'],
        Kw::Do => seq!['d', 'o'],
        Kw::Done => seq!['d', 'o', 'n', 'e'],
        Kw::While => seq!['w', 'h', 'i', 'l', 'e'],
        Kw::Esac => seq!['e', 's', 'a', 'c'],
    }
}

fn kw_chars(k: Kw) -> (v: Vec<char>)
    ensures
        v@ == kw_text(k),
{
    let v = match k {
        Kw::If => vec!['i', 'f'],
        Kw::Then => vec!['t', 'h', 'e', 'n'],
        Kw::Elif => vec!['e', 'l', 'i', 'f'],
        Kw::Else => vec!['e', 'l', 's', 'e'],
        Kw::Fi => vec!['f', 'i'],
        Kw::For => vec!['f', 'o', 'r'],
        Kw::In => vec!['i', 'n'],
        Kw::Do => vec!['d', 'o'],
        Kw::Done => vec!['d', 'o', 'n', 'e'],
        Kw::While => vec!['w', 'h', 'i', 'l', 'e'],
        Kw::Esac => vec!['e', 's', 'a', 'c'],
    };
    assert(v@ =~= kw_text(k));
    v
}

/// Keywords that end a command list (`then`, `elif`, `else`, `fi`, `do`,
/// `done`, `esac`, `in`).
pub open spec fn is_terminator(s: Seq<char>) -> bool {
    ||| s == kw_text(Kw::Then)
    ||| s == kw_text(Kw::Elif)
    ||| s == kw_text(Kw::Else)
    ||| s == kw_text(Kw::Fi)
    ||| s == kw_text(Kw::Do)
    ||| s == kw_text(Kw::Done)
    ||| s == kw_text(Kw::Esac)
    ||| s == kw_text(Kw::In)
}

fn keyword_is(s: &str, k: Kw) -> (b: bool)
    ensures
        b == (s@ == kw_text(k)),
{
    let t = kw_chars(k);
    str_is(s, &t)
}

fn is_terminator_word(s: &str) -> (b: bool)
    ensures
        b == is_terminator(s@),
{
    keyword_is(s, Kw::Then) || keyword_is(s, Kw::Elif) || keyword_is(s, Kw::Else) || keyword_is(
        s,
        Kw::Fi,
    ) || keyword_is(s, Kw::Do) || keyword_is(s, Kw::Done) || keyword_is(s, Kw::Esac)
        || keyword_is(s, Kw::In)
}

/// Why a token stream is not a program.
#[derive(Clone, Copy, Debug, PartialEq, Eq, Structural)]
pub enum ParseError {
    Lex(LexError),
    Expected(Kw),
    TrailingTokens,
    EmptyCommand,
    InvalidLoopVariable,
    ExpectedLoopVariable,
    ExpectedCommand,
    ExpectedRedirectTarget,
}

impl ParseError {
    pub open spec fn spec_message(self) -> Seq<char> {
        match self {
            ParseError::Lex(e) => e.spec_message(),
            ParseError::Expected(k) => "expected `"@ + kw_text(k) + "`"@,
            ParseError::TrailingTokens => "unexpected trailing tokens"@,
            ParseError::EmptyCommand => "empty command"@,
            ParseError::InvalidLoopVariable => "invalid loop variable"@,
            ParseError::ExpectedLoopVariable => "expected loop variable"@,
            ParseError::ExpectedCommand => "expected a command"@,
            ParseError::ExpectedRedirectTarget => "expected a filename after redirection"@,
        }
    }

    /// The text reported for this error.
    pub fn message(self) -> (r: String)
        ensures
            r@ == self.spec_message(),
    {
        match self {
            ParseError::Lex(e) => e.message().to_owned(),
            ParseError::Expected(k) => {
                let mut s = "expected `".to_owned();
                let kv = kw_chars(k);
                let mut i: usize = 0;
                while i < kv.len()
                    invariant
                        i <= kv.len(),
                        s@ == "expected `"@ + kv@.take(i as int),
                    decreases kv.len() - i,
                {
                    crate::text::push_char(&mut s, kv[i]);
                    i += 1;
                    assert(kv@.take(i as int) == kv@.take(i - 1).push(kv@[i - 1]));
                }
                assert(kv@.take(kv.len() as int) == kv@);
                crate::skills::push_str(&mut s, "`");
                s
            },
            ParseError::TrailingTokens => "unexpected trailing tokens".to_owned(),
            ParseError::EmptyCommand => "empty command".to_owned(),
            ParseError::InvalidLoopVariable => "invalid loop variable".to_owned(),
            ParseError::ExpectedLoopVariable => "expected loop variable".to_owned(),
            ParseError::ExpectedCommand => "expected a command".to_owned(),
            ParseError::ExpectedRedirectTarget => "expected a filename after redirection".to_owned(),
        }
    }
}

#[derive(Debug)]
pub enum Redirect {
    Out(Word),
    Append(Word),
    In(Word),
}

#[derive(Debug)]
pub struct Simple {
    pub assignments: Vec<(String, Word)>,
    pub words: Vec<Word>,
    pub redirects: Vec<Redirect>,
}

#[derive(Debug)]
pub enum Node {
    Sequence(Vec<Node>),
    And(Box<Node>, Box<Node>),
    Or(Box<Node>, Box<Node>),
    Pipeline(Vec<Node>),
    Simple(Simple),
    If { branches: Vec<(Node, Node)>, else_branch: Option<Box<Node>> },
    For { var: String, items: Vec<Word>, body: Box<Node> },
    While { cond: Box<Node>, body: Box<Node> },
}

pub enum RedirectV {
    Out(WordV),
    Append(WordV),
    In(WordV),
}

pub struct SimpleV {
    pub assignments: Seq<(Seq<char>, WordV)>,
    pub words: Seq<WordV>,
    pub redirects: Seq<RedirectV>,
}

pub enum NodeV {
    Sequence(Seq<NodeV>),
    And(Box<NodeV>, Box<NodeV>),
    Or(Box<NodeV>, Box<NodeV>),
    Pipeline(Seq<NodeV>),
    Simple(SimpleV),
    If { branches: Seq<(NodeV, NodeV)>, else_branch: Option<Box<NodeV>> },
    For { var: Seq<char>, items: Seq<WordV>, body: Box<NodeV> },
    While { cond: Box<NodeV>, body: Box<NodeV> },
}

pub open spec fn word_views(v: Seq<Word>) -> Seq<WordV> {
    v.map_values(|w: Word| w@)
}

pub open spec fn redirect_view(r: Redirect) -> RedirectV {
    match r {
        Redirect::Out(w) => RedirectV::Out(w@),
        Redirect::Append(w) => RedirectV::Append(w@),
        Redirect::In(w) => RedirectV::In(w@),
    }
}

pub open spec fn simple_view(s: Simple) -> SimpleV {
    SimpleV {
        assignments: s.assignments@.map_values(|a: (String, Word)| (a.0@, a.1@)),
        words: word_views(s.words@),
        redirects: s.redirects@.map_values(|r: Redirect| redirect_view(r)),
    }
}

pub open spec fn node_view(n: Node) -> NodeV
    decreases n, 0nat,
{
    match n {
        Node::Sequence(v) => NodeV::Sequence(nodes_view(v@)),
        Node::And(a, b) => NodeV::And(Box::new(node_view(*a)), Box::new(node_view(*b))),
        Node::Or(a, b) => NodeV::Or(Box::new(node_view(*a)), Box::new(node_view(*b))),
        Node::Pipeline(v) => NodeV::Pipeline(nodes_view(v@)),
        Node::Simple(s) => NodeV::Simple(simple_view(s)),
        Node::If { branches, else_branch } => NodeV::If {
            branches: branches_view(branches@),
            else_branch: match else_branch {
                Some(b) => Some(Box::new(node_view(*b))),
                None => None,
            },
        },
        Node::For { var, items, body } => NodeV::For {
            var: var@,
            items: word_views(items@),
            body: Box::new(node_view(*body)),
        },
        Node::While { cond, body } => NodeV::While {
            cond: Box::new(node_view(*cond)),
            body: Box::new(node_view(*body)),
        },
    }
}

pub open spec fn nodes_view(s: Seq<Node>) -> Seq<NodeV>
    decreases s, s.len(),
{
    if s.len() == 0 {
        Seq::empty()
    } else {
        nodes_view(s.drop_last()).push(node_view(s.last()))
    }
}

pub open spec fn branches_view(s: Seq<(Node, Node)>) -> Seq<(NodeV, NodeV)>
    decreases s, s.len(),
{
    if s.len() == 0 {
        Seq::empty()
    } else {
        branches_view(s.drop_last()).push((node_view(s.last().0), node_view(s.last().1)))
    }
}

proof fn lemma_nodes_view_push(s: Seq<Node>, n: Node)
    ensures
        nodes_view(s.push(n)) == nodes_view(s).push(node_view(n)),
{
    assert(s.push(n).drop_last() =~= s);
}

proof fn lemma_branches_view_push(s: Seq<(Node, Node)>, b: (Node, Node))
    ensures
        branches_view(s.push(b)) == branches_view(s).push((node_view(b.0), node_view(b.1))),
{
    assert(s.push(b).drop_last() =~= s);
}

proof fn lemma_nodes_view_one(s: Seq<Node>)
    requires
        s.len() == 1,
    ensures
        nodes_view(s) == seq![node_view(s[0])],
{
    assert(s.drop_last() =~= Seq::<Node>::empty());
    assert(nodes_view(s.drop_last()) == Seq::<NodeV>::empty());
    assert(nodes_view(s) =~= seq![node_view(s[0])]);
}

proof fn lemma_nodes_view_len(s: Seq<Node>)
    ensures
        nodes_view(s).len() == s.len(),
    decreases s.len(),
{
    if s.len() > 0 {
        lemma_nodes_view_len(s.drop_last());
    }
}

// ---------------------------------------------------------------------------
// The grammar, as functions of the token sequence and a position.
// ---------------------------------------------------------------------------

pub open spec fn peek_kw(tv: Seq<TokenV>, pos: int) -> Option<Seq<char>> {
    if 0 <= pos < tv.len() {
        match tv[pos] {
            TokenV::Word(w) => keyword_of(w),
            _ => None,
        }
    } else {
        None
    }
}

pub open spec fn at_kw(tv: Seq<TokenV>, pos: int, k: Kw) -> bool {
    peek_kw(tv, pos) == Some(kw_text(k))
}

pub open spec fn at_terminator(tv: Seq<TokenV>, pos: int) -> bool {
    match peek_kw(tv, pos) {
        Some(k) => is_terminator(k),
        None => false,
    }
}

pub open spec fn is_semi(tv: Seq<TokenV>, pos: int) -> bool {
    0 <= pos < tv.len() && tv[pos] is Semi
}

/// Position after the separators (`;`, newline) at `pos`.
pub open spec fn skip_seps(tv: Seq<TokenV>, pos: int) -> int
    decreases tv.len() - pos,
{
    if 0 <= pos < tv.len() && tv[pos] is Semi {
        skip_seps(tv, pos + 1)
    } else {
        pos
    }
}

proof fn lemma_skip_seps(tv: Seq<TokenV>, pos: int)
    requires
        0 <= pos <= tv.len(),
    ensures
        pos <= skip_seps(tv, pos) <= tv.len(),
        !is_semi(tv, skip_seps(tv, pos)),
    decreases tv.len() - pos,
{
    if pos < tv.len() && tv[pos] is Semi {
        lemma_skip_seps(tv, pos + 1);
    }
}

pub open spec fn seq_node(items: Seq<NodeV>) -> NodeV {
    if items.len() == 1 {
        items[0]
    } else {
        NodeV::Sequence(items)
    }
}

pub open spec fn pipe_node(cmds: Seq<NodeV>) -> NodeV {
    if cmds.len() == 1 {
        cmds[0]
    } else {
        NodeV::Pipeline(cmds)
    }
}

/// `list := and_or ((';' | newline)+ and_or)*`, ending before a terminator
/// keyword or the end of input; `items` are the commands read so far.
pub open spec fn sp_list_from(tv: Seq<TokenV>, pos: int, items: Seq<NodeV>) -> Result<
    (NodeV, int),
    ParseError,
>
    decreases tv.len() - pos, 8nat,
{
    let p = skip_seps(tv, pos);
    if !(0 <= pos <= p <= tv.len()) {
        Err(ParseError::EmptyCommand)
    } else if p >= tv.len() || at_terminator(tv, p) {
        if items.len() == 0 {
            Err(ParseError::EmptyCommand)
        } else {
            Ok((seq_node(items), p))
        }
    } else {
        match sp_and_or(tv, p) {
            Err(e) => Err(e),
            Ok((n, q)) => if !(p < q <= tv.len()) {
                Err(ParseError::EmptyCommand)
            } else if is_semi(tv, q) {
                sp_list_from(tv, q, items.push(n))
            } else {
                Ok((seq_node(items.push(n)), q))
            },
        }
    }
}

pub open spec fn sp_list(tv: Seq<TokenV>, pos: int) -> Result<(NodeV, int), ParseError>
    decreases tv.len() - pos, 9nat,
{
    sp_list_from(tv, pos, Seq::empty())
}

/// `and_or := pipeline (('&&' | '||') newline* pipeline)*`, left-nested.
pub open spec fn sp_and_or(tv: Seq<TokenV>, pos: int) -> Result<(NodeV, int), ParseError>
    decreases tv.len() - pos, 7nat,
{
    match sp_pipeline(tv, pos) {
        Err(e) => Err(e),
        Ok((left, q)) => if !(pos <= q <= tv.len()) {
            Err(ParseError::EmptyCommand)
        } else {
            sp_and_or_from(tv, q, left)
        },
    }
}

pub open spec fn sp_and_or_from(tv: Seq<TokenV>, pos: int, left: NodeV) -> Result<
    (NodeV, int),
    ParseError,
>
    decreases tv.len() - pos, 6nat,
{
    if 0 <= pos < tv.len() && (tv[pos] is AndAnd || tv[pos] is OrOr) {
        let r = skip_seps(tv, pos + 1);
        if !(pos < r <= tv.len()) {
            Err(ParseError::EmptyCommand)
        } else {
            match sp_pipeline(tv, r) {
                Err(e) => Err(e),
                Ok((right, q)) => if !(pos < q <= tv.len()) {
                    Err(ParseError::EmptyCommand)
                } else if tv[pos] is AndAnd {
                    sp_and_or_from(tv, q, NodeV::And(Box::new(left), Box::new(right)))
                } else {
                    sp_and_or_from(tv, q, NodeV::Or(Box::new(left), Box::new(right)))
                },
            }
        }
    } else {
        Ok((left, pos))
    }
}

/// `pipeline := command ('|' newline* command)*`.
pub open spec fn sp_pipeline(tv: Seq<TokenV>, pos: int) -> Result<(NodeV, int), ParseError>
    decreases tv.len() - pos, 5nat,
{
    match sp_command(tv, pos) {
        Err(e) => Err(e),
        Ok((c, q)) => if !(pos <= q <= tv.len()) {
            Err(ParseError::EmptyCommand)
        } else {
            sp_pipe_from(tv, q, seq![c])
        },
    }
}

pub open spec fn sp_pipe_from(tv: Seq<TokenV>, pos: int, cmds: Seq<NodeV>) -> Result<
    (NodeV, int),
    ParseError,
>
    decreases tv.len() - pos, 4nat,
{
    if 0 <= pos < tv.len() && tv[pos] is Pipe {
        let r = skip_seps(tv, pos + 1);
        if !(pos < r <= tv.len()) {
            Err(ParseError::EmptyCommand)
        } else {
            match sp_command(tv, r) {
                Err(e) => Err(e),
                Ok((c, q)) => if !(pos < q <= tv.len()) {
                    Err(ParseError::EmptyCommand)
                } else {
                    sp_pipe_from(tv, q, cmds.push(c))
                },
            }
        }
    } else {
        Ok((pipe_node(cmds), pos))
    }
}

/// `command := if | for | while | simple`.
pub open spec fn sp_command(tv: Seq<TokenV>, pos: int) -> Result<(NodeV, int), ParseError>
    decreases tv.len() - pos, 3nat,
{
    if at_kw(tv, pos, Kw::If) {
        sp_if(tv, pos)
    } else if at_kw(tv, pos, Kw::For) {
        sp_for(tv, pos)
    } else if at_kw(tv, pos, Kw::While) {
        sp_while(tv, pos)
    } else {
        sp_simple_from(tv, pos, Seq::empty(), Seq::empty(), Seq::empty())
    }
}

/// `if list then list (elif list then list)* (else list)? fi`.
pub open spec fn sp_if(tv: Seq<TokenV>, pos: int) -> Result<(NodeV, int), ParseError>
    decreases tv.len() - pos, 2nat,
{
    if !(0 <= pos < tv.len()) || !at_kw(tv, pos, Kw::If) {
        Err(ParseError::Expected(Kw::If))
    } else {
        match sp_list(tv, pos + 1) {
            Err(e) => Err(e),
            Ok((cond, q1)) => if !(pos < q1 <= tv.len()) {
                Err(ParseError::EmptyCommand)
            } else if !at_kw(tv, q1, Kw::Then) {
                Err(ParseError::Expected(Kw::Then))
            } else {
                match sp_list(tv, q1 + 1) {
                    Err(e) => Err(e),
                    Ok((body, q2)) => if !(pos < q2 <= tv.len()) {
                        Err(ParseError::EmptyCommand)
                    } else {
                        sp_if_tail(tv, q2, seq![(cond, body)])
                    },
                }
            },
        }
    }
}

/// The `elif`/`else`/`fi` tail of an `if`, given the branches read so far.
pub open spec fn sp_if_tail(tv: Seq<TokenV>, pos: int, branches: Seq<(NodeV, NodeV)>) -> Result<
    (NodeV, int),
    ParseError,
>
    decreases tv.len() - pos, 1nat,
{
    if !(0 <= pos <= tv.len()) {
        Err(ParseError::EmptyCommand)
    } else if at_kw(tv, pos, Kw::Elif) {
        match sp_list(tv, pos + 1) {
            Err(e) => Err(e),
            Ok((cond, q1)) => if !(pos < q1 <= tv.len()) {
                Err(ParseError::EmptyCommand)
            } else if !at_kw(tv, q1, Kw::Then) {
                Err(ParseError::Expected(Kw::Then))
            } else {
                match sp_list(tv, q1 + 1) {
                    Err(e) => Err(e),
                    Ok((body, q2)) => if !(pos < q2 <= tv.len()) {
                        Err(ParseError::EmptyCommand)
                    } else {
                        sp_if_tail(tv, q2, branches.push((cond, body)))
                    },
                }
            },
        }
    } else if at_kw(tv, pos, Kw::Else) {
        match sp_list(tv, pos + 1) {
            Err(e) => Err(e),
            Ok((e, q)) => if !at_kw(tv, q, Kw::Fi) {
                Err(ParseError::Expected(Kw::Fi))
            } else {
                Ok((NodeV::If { branches, else_branch: Some(Box::new(e)) }, q + 1))
            },
        }
    } else if !at_kw(tv, pos, Kw::Fi) {
        Err(ParseError::Expected(Kw::Fi))
    } else {
        Ok((NodeV::If { branches, else_branch: None }, pos + 1))
    }
}

/// The words of a `for ... in` list: up to the first non-word token or
/// terminator keyword.
pub open spec fn sp_items_end(tv: Seq<TokenV>, pos: int) -> int
    decreases tv.len() - pos,
{
    if 0 <= pos < tv.len() && tv[pos] is Word && !at_terminator(tv, pos) {
        sp_items_end(tv, pos + 1)
    } else {
        pos
    }
}

pub open spec fn word_at(tv: Seq<TokenV>, i: int) -> WordV {
    match tv[i] {
        TokenV::Word(w) => w,
        _ => WordV { parts: Seq::empty(), quoted: false },
    }
}

/// The optional `in word*` list of a `for` at `p`, and the position after it.
pub open spec fn sp_for_items(tv: Seq<TokenV>, p: int) -> (Seq<WordV>, int) {
    if at_kw(tv, p, Kw::In) {
        let e = sp_items_end(tv, p + 1);
        (Seq::new((e - (p + 1)) as nat, |i: int| word_at(tv, p + 1 + i)), e)
    } else {
        (Seq::<WordV>::empty(), p)
    }
}

/// `for NAME (in word*)? newline* do list done`.
pub open spec fn sp_for(tv: Seq<TokenV>, pos: int) -> Result<(NodeV, int), ParseError>
    decreases tv.len() - pos, 2nat,
{
    if !(0 <= pos < tv.len()) || !at_kw(tv, pos, Kw::For) {
        Err(ParseError::Expected(Kw::For))
    } else if !(pos + 1 < tv.len() && tv[pos + 1] is Word) {
        Err(ParseError::ExpectedLoopVariable)
    } else {
        match peek_kw(tv, pos + 1) {
            Some(name) if spec_is_name(name) => {
                let (items, q) = sp_for_items(tv, pos + 2);
                let r = skip_seps(tv, q);
                if !(pos < r <= tv.len()) {
                    Err(ParseError::EmptyCommand)
                } else if !at_kw(tv, r, Kw::Do) {
                    Err(ParseError::Expected(Kw::Do))
                } else {
                    match sp_list(tv, r + 1) {
                        Err(e) => Err(e),
                        Ok((body, q2)) => if !at_kw(tv, q2, Kw::Done) {
                            Err(ParseError::Expected(Kw::Done))
                        } else {
                            Ok((NodeV::For { var: name, items, body: Box::new(body) }, q2 + 1))
                        },
                    }
                }
            },
            _ => Err(ParseError::InvalidLoopVariable),
        }
    }
}

/// `while list do list done`.
pub open spec fn sp_while(tv: Seq<TokenV>, pos: int) -> Result<(NodeV, int), ParseError>
    decreases tv.len() - pos, 2nat,
{
    if !(0 <= pos < tv.len()) || !at_kw(tv, pos, Kw::While) {
        Err(ParseError::Expected(Kw::While))
    } else {
        match sp_list(tv, pos + 1) {
            Err(e) => Err(e),
            Ok((cond, q1)) => if !(pos < q1 <= tv.len()) {
                Err(ParseError::EmptyCommand)
            } else if !at_kw(tv, q1, Kw::Do) {
                Err(ParseError::Expected(Kw::Do))
            } else {
                match sp_list(tv, q1 + 1) {
                    Err(e) => Err(e),
                    Ok((body, q2)) => if !at_kw(tv, q2, Kw::Done) {
                        Err(ParseError::Expected(Kw::Done))
                    } else {
                        Ok((NodeV::While { cond: Box::new(cond), body: Box::new(body) }, q2 + 1))
                    },
                }
            },
        }
    }
}

/// `NAME=value` as a leading word of a simple command: the name, and the
/// value word (the text after the first `=` followed by the other pieces).
pub open spec fn sp_assignment(w: WordV) -> Option<(Seq<char>, WordV)> {
    if w.quoted || w.parts.len() == 0 {
        None
    } else {
        match w.parts[0] {
            PartV::Lit(first) => {
                let eq = run_until(first, 0, '=');
                if eq >= first.len() || !spec_is_name(first.subrange(0, eq)) {
                    None
                } else {
                    Some(
                        (
                            first.subrange(0, eq),
                            WordV {
                                parts: seq![PartV::Lit(first.subrange(eq + 1, first.len() as int))]
                                    + w.parts.skip(1),
                                quoted: false,
                            },
                        ),
                    )
                }
            },
            PartV::Var(_) => None,
        }
    }
}

pub open spec fn simple_done(
    pos: int,
    assigns: Seq<(Seq<char>, WordV)>,
    words: Seq<WordV>,
    redirs: Seq<RedirectV>,
) -> Result<(NodeV, int), ParseError> {
    if words.len() == 0 && assigns.len() == 0 {
        Err(ParseError::ExpectedCommand)
    } else {
        Ok((NodeV::Simple(SimpleV { assignments: assigns, words, redirects: redirs }), pos))
    }
}

/// `simple := (assignment)* word* with redirections anywhere`.
pub open spec fn sp_simple_from(
    tv: Seq<TokenV>,
    pos: int,
    assigns: Seq<(Seq<char>, WordV)>,
    words: Seq<WordV>,
    redirs: Seq<RedirectV>,
) -> Result<(NodeV, int), ParseError>
    decreases tv.len() - pos, 0nat,
{
    if !(0 <= pos < tv.len()) {
        simple_done(pos, assigns, words, redirs)
    } else {
        match tv[pos] {
            TokenV::Word(w) => if words.len() > 0 && at_terminator(tv, pos) {
                simple_done(pos, assigns, words, redirs)
            } else if words.len() == 0 && sp_assignment(w) is Some {
                sp_simple_from(tv, pos + 1, assigns.push(sp_assignment(w)->0), words, redirs)
            } else {
                sp_simple_from(tv, pos + 1, assigns, words.push(w), redirs)
            },
            TokenV::Great => if pos + 1 < tv.len() && tv[pos + 1] is Word {
                sp_simple_from(
                    tv,
                    pos + 2,
                    assigns,
                    words,
                    redirs.push(RedirectV::Out(word_at(tv, pos + 1))),
                )
            } else {
                Err(ParseError::ExpectedRedirectTarget)
            },
            TokenV::GreatGreat => if pos + 1 < tv.len() && tv[pos + 1] is Word {
                sp_simple_from(
                    tv,
                    pos + 2,
                    assigns,
                    words,
                    redirs.push(RedirectV::Append(word_at(tv, pos + 1))),
                )
            } else {
                Err(ParseError::ExpectedRedirectTarget)
            },
            TokenV::Less => if pos + 1 < tv.len() && tv[pos + 1] is Word {
                sp_simple_from(
                    tv,
                    pos + 2,
                    assigns,
                    words,
                    redirs.push(RedirectV::In(word_at(tv, pos + 1))),
                )
            } else {
                Err(ParseError::ExpectedRedirectTarget)
            },
            _ => simple_done(pos, assigns, words, redirs),
        }
    }
}

/// A whole program: a list followed only by separators.
pub open spec fn sp_program(tv: Seq<TokenV>, start: int) -> Result<NodeV, ParseError> {
    match sp_list(tv, start) {
        Err(e) => Err(e),
        Ok((n, q)) => if skip_seps(tv, q) != tv.len() {
            Err(ParseError::TrailingTokens)
        } else {
            Ok(n)
        },
    }
}


// ---------------------------------------------------------------------------
// The parser.
// ---------------------------------------------------------------------------

/// An exact copy of a word.
pub fn copy_word(w: &Word) -> (r: Word)
    ensures
        r@ == w@,
{
    let mut parts: Vec<Part> = Vec::new();
    let mut i: usize = 0;
    while i < w.parts.len()
        invariant
            i <= w.parts.len(),
            parts.len() == i,
            forall|k: int| 0 <= k < i ==> (#[trigger] parts@[k])@ == w.parts@[k]@,
        decreases w.parts.len() - i,
    {
        let p = match &w.parts[i] {
            Part::Lit(s) => Part::Lit(s.clone()),
            Part::Var(s) => Part::Var(s.clone()),
        };
        assert(p@ == w.parts@[i as int]@);
        parts.push(p);
        i += 1;
    }
    assert(part_views(parts@) =~= part_views(w.parts@));
    Word { parts, quoted: w.quoted }
}

/// Splits a leading `NAME=value` word of a simple command into the name and
/// the value word.
pub fn word_assignment(word: &Word) -> (r: Option<(String, Word)>)
    ensures
        match (r, sp_assignment(word@)) {
            (Some((n, v)), Some((sn, sv))) => n@ == sn && v@ == sv,
            (None, None) => true,
            _ => false,
        },
{
    if word.quoted || word.parts.len() == 0 {
        return None;
    }
    assert(word@.parts[0] == word.parts@[0]@);
    let first = match &word.parts[0] {
        Part::Lit(s) => s,
        Part::Var(_) => {
            return None;
        },
    };
    let cs = chars_of(first.as_str());
    let mut eq: usize = 0;
    while eq < cs.len() && cs[eq] != '='
        invariant
            eq <= cs.len(),
            run_until(cs@, 0, '=') == run_until(cs@, eq as int, '='),
        decreases cs.len() - eq,
    {
        eq += 1;
    }
    if eq >= cs.len() {
        return None;
    }
    let name = string_of(&slice_vec(&cs, 0, eq));
    if !is_name(name.as_str()) {
        return None;
    }
    let mut value: Vec<Part> = Vec::new();
    value.push(Part::Lit(string_of(&slice_vec(&cs, eq + 1, cs.len()))));
    let mut i: usize = 1;
    let ghost head = value@[0]@;
    while i < word.parts.len()
        invariant
            1 <= i <= word.parts.len(),
            value.len() == i,
            value@[0]@ == head,
            forall|k: int| 1 <= k < i ==> (#[trigger] value@[k])@ == word.parts@[k]@,
        decreases word.parts.len() - i,
    {
        let p = match &word.parts[i] {
            Part::Lit(s) => Part::Lit(s.clone()),
            Part::Var(s) => Part::Var(s.clone()),
        };
        assert(p@ == word.parts@[i as int]@);
        value.push(p);
        i += 1;
    }
    assert(part_views(value@) =~= seq![head] + word@.parts.skip(1));
    let v = Word { parts: value, quoted: false };
    Some((name, v))
}

/// Whether an exec parse result agrees with the grammar's result.
pub open spec fn agrees(r: Result<Node, ParseError>, pos: usize, s: Result<(NodeV, int), ParseError>) -> bool {
    match (r, s) {
        (Ok(n), Ok((v, q))) => node_view(n) == v && pos == q,
        (Err(e), Err(f)) => e == f,
        _ => false,
    }
}

pub struct Parser {
    pub tokens: Vec<Token>,
    pub pos: usize,
}

impl Parser {
    pub open spec fn tv(&self) -> Seq<TokenV> {
        token_views(self.tokens@)
    }

    pub fn new(tokens: Vec<Token>) -> (p: Self)
        ensures
            p.tokens@ == tokens@,
            p.pos == 0,
    {
        Parser { tokens, pos: 0 }
    }

    pub fn peek(&self) -> (r: Option<&Token>)
        ensures
            match r {
                Some(t) => self.pos < self.tokens.len() && t@ == self.tv()[self.pos as int],
                None => self.pos >= self.tokens.len(),
            },
    {
        if self.pos < self.tokens.len() {
            Some(&self.tokens[self.pos])
        } else {
            None
        }
    }

    pub fn peek_keyword(&self) -> (r: Option<&str>)
        ensures
            match (r, peek_kw(self.tv(), self.pos as int)) {
                (Some(s), Some(k)) => s@ == k,
                (None, None) => true,
                _ => false,
            },
    {
        match self.peek() {
            Some(Token::Word(w)) => w.keyword(),
            _ => None,
        }
    }

    fn at_keyword(&self, kw: Kw) -> (b: bool)
        ensures
            b == at_kw(self.tv(), self.pos as int, kw),
    {
        match self.peek_keyword() {
            Some(k) => keyword_is(k, kw),
            None => false,
        }
    }

    fn at_terminator(&self) -> (b: bool)
        ensures
            b == at_terminator(self.tv(), self.pos as int),
    {
        match self.peek_keyword() {
            Some(k) => is_terminator_word(k),
            None => false,
        }
    }

    fn at_item(&self) -> (b: bool)
        ensures
            b == (0 <= self.pos < self.tokens.len() && self.tv()[self.pos as int] is Word
                && !at_terminator(self.tv(), self.pos as int)),
    {
        let is_word = match self.peek() {
            Some(Token::Word(_)) => true,
            _ => false,
        };
        is_word && !self.at_terminator()
    }

    fn at_semi(&self) -> (b: bool)
        ensures
            b == is_semi(self.tv(), self.pos as int),
    {
        match self.peek() {
            Some(Token::Semi) => true,
            _ => false,
        }
    }

    pub fn skip_separators(&mut self)
        requires
            old(self).pos <= old(self).tokens.len(),
        ensures
            final(self).tokens@ == old(self).tokens@,
            final(self).pos == skip_seps(old(self).tv(), old(self).pos as int),
            old(self).pos <= final(self).pos <= final(self).tokens.len(),
    {
        let ghost start = self.pos as int;
        proof {
            lemma_skip_seps(self.tv(), start);
        }
        while self.at_semi()
            invariant
                self.tokens@ == old(self).tokens@,
                start <= self.pos <= self.tokens.len(),
                skip_seps(self.tv(), start) == skip_seps(self.tv(), self.pos as int),
            decreases self.tokens.len() - self.pos,
        {
            self.pos += 1;
        }
    }

    pub fn expect_keyword(&mut self, kw: Kw) -> (r: Result<(), ParseError>)
        requires
            old(self).pos <= old(self).tokens.len(),
        ensures
            final(self).tokens@ == old(self).tokens@,
            if at_kw(old(self).tv(), old(self).pos as int, kw) {
                r is Ok && final(self).pos == old(self).pos + 1 && final(self).pos
                    <= final(self).tokens.len()
            } else {
                r == Err::<(), ParseError>(ParseError::Expected(kw)) && final(self).pos == old(
                    self,
                ).pos
            },
    {
        if self.at_keyword(kw) {
            self.pos += 1;
            Ok(())
        } else {
            Err(ParseError::Expected(kw))
        }
    }

    pub fn expect_word(&mut self) -> (r: Result<Word, ParseError>)
        requires
            old(self).pos <= old(self).tokens.len(),
        ensures
            final(self).tokens@ == old(self).tokens@,
            final(self).pos <= final(self).tokens.len(),
            match r {
                Ok(w) => old(self).pos < old(self).tokens.len() && old(self).tv()[old(
                    self,
                ).pos as int] is Word && w@ == word_at(old(self).tv(), old(self).pos as int)
                    && final(self).pos == old(self).pos + 1,
                Err(e) => e == ParseError::ExpectedRedirectTarget && !(old(self).pos < old(
                    self,
                ).tokens.len() && old(self).tv()[old(self).pos as int] is Word),
            },
    {
        match self.peek() {
            Some(Token::Word(w)) => {
                let w = copy_word(w);
                self.pos += 1;
                Ok(w)
            },
            _ => Err(ParseError::ExpectedRedirectTarget),
        }
    }

    pub fn parse_program(&mut self) -> (r: Result<Node, ParseError>)
        requires
            old(self).pos <= old(self).tokens.len(),
        ensures
            match (r, sp_program(old(self).tv(), old(self).pos as int)) {
                (Ok(n), Ok(v)) => node_view(n) == v,
                (Err(e), Err(f)) => e == f,
                _ => false,
            },
    {
        let node = match self.parse_list() {
            Ok(n) => n,
            Err(e) => {
                return Err(e);
            },
        };
        self.skip_separators();
        if self.pos != self.tokens.len() {
            return Err(ParseError::TrailingTokens);
        }
        Ok(node)
    }

    fn finish_list(items: Vec<Node>) -> (r: Result<Node, ParseError>)
        ensures
            items.len() == 0 ==> r == Err::<Node, ParseError>(ParseError::EmptyCommand),
            items.len() > 0 ==> (r matches Ok(n) && node_view(n) == seq_node(nodes_view(items@))),
    {
        let mut items = items;
        if items.len() == 0 {
            return Err(ParseError::EmptyCommand);
        }
        if items.len() == 1 {
            proof {
                lemma_nodes_view_one(items@);
            }
            let n = items.pop().unwrap();
            Ok(n)
        } else {
            proof {
                lemma_nodes_view_len(items@);
            }
            Ok(Node::Sequence(items))
        }
    }

    /// Parses a sequence of `and_or` separated by `;`/newline, stopping at a
    /// terminator keyword or end of input.
    pub fn parse_list(&mut self) -> (r: Result<Node, ParseError>)
        requires
            old(self).pos <= old(self).tokens.len(),
        ensures
            final(self).tokens@ == old(self).tokens@,
            final(self).pos <= final(self).tokens.len(),
            agrees(r, final(self).pos, sp_list(old(self).tv(), old(self).pos as int)),
            r is Ok ==> old(self).pos < final(self).pos,
        decreases old(self).tokens@.len() - old(self).pos, 9nat,
    {
        let ghost tv = self.tv();
        let ghost start = self.pos as int;
        let mut items: Vec<Node> = Vec::new();
        assert(nodes_view(items@) =~= Seq::<NodeV>::empty());
        loop
            invariant
                self.tokens@ == old(self).tokens@,
                start == old(self).pos,
                tv == self.tv(),
                start <= self.pos <= self.tokens.len(),
                sp_list_from(tv, self.pos as int, nodes_view(items@)) == sp_list(tv, start),
                items.len() > 0 ==> start < self.pos,
            decreases self.tokens.len() - self.pos,
        {
            let ghost pos0 = self.pos as int;
            self.skip_separators();
            proof {
                lemma_skip_seps(tv, pos0);
            }
            if self.pos >= self.tokens.len() || self.at_terminator() {
                return Self::finish_list(items);
            }
            let n = match self.parse_and_or() {
                Ok(n) => n,
                Err(e) => {
                    return Err(e);
                },
            };
            proof {
                lemma_nodes_view_push(items@, n);
            }
            items.push(n);
            if !self.at_semi() {
                return Self::finish_list(items);
            }
        }
    }

    pub fn parse_and_or(&mut self) -> (r: Result<Node, ParseError>)
        requires
            old(self).pos <= old(self).tokens.len(),
        ensures
            final(self).tokens@ == old(self).tokens@,
            final(self).pos <= final(self).tokens.len(),
            agrees(r, final(self).pos, sp_and_or(old(self).tv(), old(self).pos as int)),
            r is Ok ==> old(self).pos < final(self).pos,
        decreases old(self).tokens@.len() - old(self).pos, 7nat,
    {
        let ghost tv = self.tv();
        let ghost start = self.pos as int;
        let mut left = match self.parse_pipeline() {
            Ok(n) => n,
            Err(e) => {
                return Err(e);
            },
        };
        loop
            invariant
                self.tokens@ == old(self).tokens@,
                start == old(self).pos,
                tv == self.tv(),
                start < self.pos <= self.tokens.len(),
                sp_and_or_from(tv, self.pos as int, node_view(left)) == sp_and_or(tv, start),
            decreases self.tokens.len() - self.pos,
        {
            let (is_and, is_or) = match self.peek() {
                Some(Token::AndAnd) => (true, false),
                Some(Token::OrOr) => (false, true),
                _ => (false, false),
            };
            if !is_and && !is_or {
                return Ok(left);
            }
            let ghost pos0 = self.pos as int;
            self.pos += 1;
            self.skip_separators();
            let right = match self.parse_pipeline() {
                Ok(n) => n,
                Err(e) => {
                    return Err(e);
                },
            };
            assert(pos0 < self.pos);
            left = if is_and {
                Node::And(Box::new(left), Box::new(right))
            } else {
                Node::Or(Box::new(left), Box::new(right))
            };
        }
    }

    pub fn parse_pipeline(&mut self) -> (r: Result<Node, ParseError>)
        requires
            old(self).pos <= old(self).tokens.len(),
        ensures
            final(self).tokens@ == old(self).tokens@,
            final(self).pos <= final(self).tokens.len(),
            agrees(r, final(self).pos, sp_pipeline(old(self).tv(), old(self).pos as int)),
            r is Ok ==> old(self).pos < final(self).pos,
        decreases old(self).tokens@.len() - old(self).pos, 5nat,
    {
        let ghost tv = self.tv();
        let ghost start = self.pos as int;
        let first = match self.parse_command() {
            Ok(n) => n,
            Err(e) => {
                return Err(e);
            },
        };
        let mut cmds: Vec<Node> = Vec::new();
        proof {
            lemma_nodes_view_push(cmds@, first);
            assert(nodes_view(cmds@) =~= Seq::<NodeV>::empty());
        }
        cmds.push(first);
        assert(nodes_view(cmds@) =~= seq![node_view(first)]);
        loop
            invariant
                self.tokens@ == old(self).tokens@,
                start == old(self).pos,
                tv == self.tv(),
                start < self.pos <= self.tokens.len(),
                cmds.len() >= 1,
                sp_pipe_from(tv, self.pos as int, nodes_view(cmds@)) == sp_pipeline(tv, start),
            decreases self.tokens.len() - self.pos,
        {
            let is_pipe = match self.peek() {
                Some(Token::Pipe) => true,
                _ => false,
            };
            if !is_pipe {
                proof {
                    lemma_nodes_view_len(cmds@);
                }
                if cmds.len() == 1 {
                    proof {
                        lemma_nodes_view_one(cmds@);
                    }
                    let n = cmds.pop().unwrap();
                    return Ok(n);
                }
                return Ok(Node::Pipeline(cmds));
            }
            self.pos += 1;
            self.skip_separators();
            let c = match self.parse_command() {
                Ok(n) => n,
                Err(e) => {
                    return Err(e);
                },
            };
            proof {
                lemma_nodes_view_push(cmds@, c);
            }
            cmds.push(c);
        }
    }

    pub fn parse_command(&mut self) -> (r: Result<Node, ParseError>)
        requires
            old(self).pos <= old(self).tokens.len(),
        ensures
            final(self).tokens@ == old(self).tokens@,
            final(self).pos <= final(self).tokens.len(),
            agrees(r, final(self).pos, sp_command(old(self).tv(), old(self).pos as int)),
            r is Ok ==> old(self).pos < final(self).pos,
        decreases old(self).tokens@.len() - old(self).pos, 3nat,
    {
        if self.at_keyword(Kw::If) {
            self.parse_if()
        } else if self.at_keyword(Kw::For) {
            self.parse_for()
        } else if self.at_keyword(Kw::While) {
            self.parse_while()
        } else {
            self.parse_simple()
        }
    }

    fn parse_if_tail(&mut self, branches: Vec<(Node, Node)>) -> (r: Result<Node, ParseError>)
        requires
            old(self).pos <= old(self).tokens.len(),
        ensures
            final(self).tokens@ == old(self).tokens@,
            final(self).pos <= final(self).tokens.len(),
            agrees(
                r,
                final(self).pos,
                sp_if_tail(old(self).tv(), old(self).pos as int, branches_view(branches@)),
            ),
            r is Ok ==> old(self).pos < final(self).pos,
        decreases old(self).tokens@.len() - old(self).pos, 1nat,
    {
        let mut branches = branches;
        if self.at_keyword(Kw::Elif) {
            self.pos += 1;
            let cond = match self.parse_list() {
                Ok(n) => n,
                Err(e) => {
                    return Err(e);
                },
            };
            if let Err(e) = self.expect_keyword(Kw::Then) {
                return Err(e);
            }
            let body = match self.parse_list() {
                Ok(n) => n,
                Err(e) => {
                    return Err(e);
                },
            };
            proof {
                lemma_branches_view_push(branches@, (cond, body));
            }
            branches.push((cond, body));
            return self.parse_if_tail(branches);
        }
        if self.at_keyword(Kw::Else) {
            self.pos += 1;
            let e = match self.parse_list() {
                Ok(n) => n,
                Err(e) => {
                    return Err(e);
                },
            };
            if let Err(e) = self.expect_keyword(Kw::Fi) {
                return Err(e);
            }
            Ok(Node::If { branches, else_branch: Some(Box::new(e)) })
        } else {
            if let Err(e) = self.expect_keyword(Kw::Fi) {
                return Err(e);
            }
            Ok(Node::If { branches, else_branch: None })
        }
    }

    #[verifier::rlimit(50)]
    pub fn parse_if(&mut self) -> (r: Result<Node, ParseError>)
        requires
            old(self).pos <= old(self).tokens.len(),
        ensures
            final(self).tokens@ == old(self).tokens@,
            final(self).pos <= final(self).tokens.len(),
            agrees(r, final(self).pos, sp_if(old(self).tv(), old(self).pos as int)),
            r is Ok ==> old(self).pos < final(self).pos,
        decreases old(self).tokens@.len() - old(self).pos, 2nat,
    {
        let ghost tv = self.tv();
        let ghost start = self.pos as int;
        if let Err(e) = self.expect_keyword(Kw::If) {
            return Err(e);
        }
        let cond = match self.parse_list() {
            Ok(n) => n,
            Err(e) => {
                return Err(e);
            },
        };
        if let Err(e) = self.expect_keyword(Kw::Then) {
            return Err(e);
        }
        let body = match self.parse_list() {
            Ok(n) => n,
            Err(e) => {
                return Err(e);
            },
        };
        let mut branches: Vec<(Node, Node)> = Vec::new();
        proof {
            lemma_branches_view_push(branches@, (cond, body));
            assert(branches_view(branches@) =~= Seq::<(NodeV, NodeV)>::empty());
        }
        branches.push((cond, body));
        self.parse_if_tail(branches)
    }

    fn parse_for_items(&mut self) -> (items: Vec<Word>)
        requires
            old(self).pos <= old(self).tokens.len(),
        ensures
            final(self).tokens@ == old(self).tokens@,
            old(self).pos <= final(self).pos <= final(self).tokens.len(),
            (word_views(items@), final(self).pos as int) == sp_for_items(
                old(self).tv(),
                old(self).pos as int,
            ),
    {
        let ghost tv = self.tv();
        let ghost start = self.pos as int;
        let mut items: Vec<Word> = Vec::new();
        let ghost p = self.pos as int;
        assert(word_views(items@) =~= Seq::<WordV>::empty());
        if self.at_keyword(Kw::In) {
            self.pos += 1;
            let from = self.pos;
            while self.at_item()
                invariant
                    self.tokens@ == old(self).tokens@,
                    start == old(self).pos,
                    tv == self.tv(),
                    from <= self.pos <= self.tokens.len(),
                    from == p + 1,
                    sp_items_end(tv, from as int) == sp_items_end(tv, self.pos as int),
                    items.len() == self.pos - from,
                    forall|k: int| 0 <= k < items.len() ==> (#[trigger] items@[k])@ == word_at(tv, from + k),
                decreases self.tokens.len() - self.pos,
            {
                let w = match self.peek() {
                    Some(Token::Word(w)) => copy_word(w),
                    _ => {
                        return items;
                    },
                };
                assert(w@ == word_at(tv, self.pos as int));
                items.push(w);
                self.pos += 1;
            }
            assert(word_views(items@) =~= Seq::new(
                (self.pos - from) as nat,
                |i: int| word_at(tv, from + i),
            ));
        }
        items
    }

    #[verifier::rlimit(50)]
    pub fn parse_for(&mut self) -> (r: Result<Node, ParseError>)
        requires
            old(self).pos <= old(self).tokens.len(),
        ensures
            final(self).tokens@ == old(self).tokens@,
            final(self).pos <= final(self).tokens.len(),
            agrees(r, final(self).pos, sp_for(old(self).tv(), old(self).pos as int)),
            r is Ok ==> old(self).pos < final(self).pos,
        decreases old(self).tokens@.len() - old(self).pos, 2nat,
    {
        let ghost tv = self.tv();
        let ghost start = self.pos as int;
        if let Err(e) = self.expect_keyword(Kw::For) {
            return Err(e);
        }
        let var = match self.peek() {
            Some(Token::Word(w)) => match w.keyword() {
                Some(name) => if is_name(name) {
                    name.to_owned()
                } else {
                    return Err(ParseError::InvalidLoopVariable);
                },
                None => {
                    return Err(ParseError::InvalidLoopVariable);
                },
            },
            _ => {
                return Err(ParseError::ExpectedLoopVariable);
            },
        };
        self.pos += 1;
        let items = self.parse_for_items();
        self.skip_separators();
        if let Err(e) = self.expect_keyword(Kw::Do) {
            return Err(e);
        }
        let body = match self.parse_list() {
            Ok(n) => n,
            Err(e) => {
                return Err(e);
            },
        };
        if let Err(e) = self.expect_keyword(Kw::Done) {
            return Err(e);
        }
        Ok(Node::For { var, items, body: Box::new(body) })
    }

    pub fn parse_simple(&mut self) -> (r: Result<Node, ParseError>)
        requires
            old(self).pos <= old(self).tokens.len(),
        ensures
            final(self).tokens@ == old(self).tokens@,
            final(self).pos <= final(self).tokens.len(),
            agrees(
                r,
                final(self).pos,
                sp_simple_from(
                    old(self).tv(),
                    old(self).pos as int,
                    Seq::empty(),
                    Seq::empty(),
                    Seq::empty(),
                ),
            ),
            r is Ok ==> old(self).pos < final(self).pos,
    {
        let ghost tv = self.tv();
        let ghost start = self.pos as int;
        let mut assignments: Vec<(String, Word)> = Vec::new();
        let mut words: Vec<Word> = Vec::new();
        let mut redirects: Vec<Redirect> = Vec::new();
        assert(assignments@.map_values(|a: (String, Word)| (a.0@, a.1@)) =~= Seq::<
            (Seq<char>, WordV),
        >::empty());
        assert(word_views(words@) =~= Seq::<WordV>::empty());
        assert(redirects@.map_values(|r: Redirect| redirect_view(r)) =~= Seq::<RedirectV>::empty());
        loop
            invariant
                self.tokens@ == old(self).tokens@,
                start == old(self).pos,
                tv == self.tv(),
                start <= self.pos <= self.tokens.len(),
                sp_simple_from(
                    tv,
                    self.pos as int,
                    assignments@.map_values(|a: (String, Word)| (a.0@, a.1@)),
                    word_views(words@),
                    redirects@.map_values(|r: Redirect| redirect_view(r)),
                ) == sp_simple_from(tv, start, Seq::empty(), Seq::empty(), Seq::empty()),
                (words.len() > 0 || assignments.len() > 0) ==> start < self.pos,
            decreases self.tokens.len() - self.pos,
        {
            let ghost av = assignments@.map_values(|a: (String, Word)| (a.0@, a.1@));
            let ghost wv = word_views(words@);
            let ghost rv = redirects@.map_values(|r: Redirect| redirect_view(r));
            let stop = words.len() > 0 && self.at_terminator();
            let kind: u8 = match self.peek() {
                Some(Token::Word(_)) => 0,
                Some(Token::Great) => 1,
                Some(Token::GreatGreat) => 2,
                Some(Token::Less) => 3,
                _ => 4,
            };
            if kind == 4 || stop {
                if words.len() == 0 && assignments.len() == 0 {
                    return Err(ParseError::ExpectedCommand);
                }
                let s = Simple { assignments, words, redirects };
                return Ok(Node::Simple(s));
            }
            if kind == 0 {
                let assignment = match self.peek() {
                    Some(Token::Word(w)) => if words.len() == 0 {
                        word_assignment(w)
                    } else {
                        None
                    },
                    _ => None,
                };
                match assignment {
                    Some(a) => {
                        assignments.push(a);
                        assert(assignments@.map_values(|a: (String, Word)| (a.0@, a.1@)) =~= av.push(
                            (a.0@, a.1@),
                        ));
                    },
                    None => {
                        let w = match self.peek() {
                            Some(Token::Word(w)) => copy_word(w),
                            _ => {
                                return Err(ParseError::ExpectedCommand);
                            },
                        };
                        words.push(w);
                        assert(word_views(words@) =~= wv.push(w@));
                    },
                }
                self.pos += 1;
            } else {
                self.pos += 1;
                let w = match self.expect_word() {
                    Ok(w) => w,
                    Err(e) => {
                        return Err(e);
                    },
                };
                let ghost wvv = w@;
                let red = if kind == 1 {
                    Redirect::Out(w)
                } else if kind == 2 {
                    Redirect::Append(w)
                } else {
                    Redirect::In(w)
                };
                redirects.push(red);
                assert(redirects@.map_values(|r: Redirect| redirect_view(r)) =~= rv.push(
                    redirect_view(red),
                ));
            }
        }
    }

    pub fn parse_while(&mut self) -> (r: Result<Node, ParseError>)
        requires
            old(self).pos <= old(self).tokens.len(),
        ensures
            final(self).tokens@ == old(self).tokens@,
            final(self).pos <= final(self).tokens.len(),
            agrees(r, final(self).pos, sp_while(old(self).tv(), old(self).pos as int)),
            r is Ok ==> old(self).pos < final(self).pos,
        decreases old(self).tokens@.len() - old(self).pos, 2nat,
    {
        let ghost tv = self.tv();
        let ghost start = self.pos as int;
        if let Err(e) = self.expect_keyword(Kw::While) {
            assert(sp_while(tv, start) == Err::<(NodeV, int), ParseError>(e));
            return Err(e);
        }
        let cond = match self.parse_list() {
            Ok(n) => n,
            Err(e) => {
                return Err(e);
            },
        };
        if let Err(e) = self.expect_keyword(Kw::Do) {
            return Err(e);
        }
        let body = match self.parse_list() {
            Ok(n) => n,
            Err(e) => {
                return Err(e);
            },
        };
        if let Err(e) = self.expect_keyword(Kw::Done) {
            return Err(e);
        }
        Ok(Node::While { cond: Box::new(cond), body: Box::new(body) })
    }
}

/// What a whole command line parses to: lexing errors first, then the grammar.
pub open spec fn spec_parse_script(input: Seq<char>) -> Result<NodeV, ParseError> {
    match spec_lex(input) {
        Err(e) => Err(ParseError::Lex(e)),
        Ok(tv) => sp_program(tv, 0),
    }
}

/// Lexes and parses a command line into its command tree.
pub fn parse_script(input: &str) -> (r: Result<Node, ParseError>)
    ensures
        match (r, spec_parse_script(input@)) {
            (Ok(n), Ok(v)) => node_view(n) == v,
            (Err(e), Err(f)) => e == f,
            _ => false,
        },
{
    let tokens = match lex(input) {
        Ok(t) => t,
        Err(e) => {
            return Err(ParseError::Lex(e));
        },
    };
    let mut parser = Parser::new(tokens);
    parser.parse_program()
}

} // verus!
