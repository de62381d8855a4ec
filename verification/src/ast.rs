//! The syntax tree of a document, and the parser that builds it from tokens.
use vstd::prelude::*;
use std::ops::Range;
use crate::token::{views, SpecToken, SpecTokenKind, Token, TokenKind};

verus! {

/// A parsed document.
#[derive(Debug, PartialEq)]
pub struct Ast<'src> {
    pub nodes: Vec<Node<'src>>,
}

#[derive(Debug, PartialEq)]
pub enum Node<'src> {
    Macro(Macro<'src>),
    Invokation(Invokation<'src>),
    Variable(Variable<'src>),
    Text(&'src str),
}

/// `@macro name($p, ...) {{ template }}`
#[derive(Debug, PartialEq)]
pub struct Macro<'src> {
    pub name: &'src str,
    pub params: Vec<Variable<'src>>,
    pub template: Block<'src>,
}

/// `@name({{ arg }}, ...)`
#[derive(Debug, PartialEq)]
pub struct Invokation<'src> {
    pub name: &'src str,
    pub args: Vec<Block<'src>>,
}

/// `$name`
#[derive(Debug, Clone, Copy, PartialEq, Eq, PartialOrd, Ord, Hash)]
pub struct Variable<'src> {
    pub name: &'src str,
}

/// `{{ nodes }}`
#[derive(Debug, PartialEq)]
pub struct Block<'src> {
    pub nodes: Vec<Node<'src>>,
}

/// The mathematical value of a [`Node`].
pub enum SpecNode {
    Macro { name: Seq<char>, params: Seq<Seq<char>>, template: Seq<SpecNode> },
    Invokation { name: Seq<char>, args: Seq<Seq<SpecNode>> },
    Variable(Seq<char>),
    Text(Seq<char>),
}

/// The names of a list of variables.
pub open spec fn names_view(vs: Seq<Variable>) -> Seq<Seq<char>> {
    vs.map_values(|v: Variable| v.name@)
}

pub open spec fn node_view(n: Node) -> SpecNode
    decreases n,
{
    match n {
        Node::Macro(m) => SpecNode::Macro {
            name: m.name@,
            params: names_view(m.params@),
            template: Seq::new(
                m.template.nodes@.len(),
                |i: int|
                    if 0 <= i < m.template.nodes@.len() {
                        node_view(m.template.nodes@[i])
                    } else {
                        SpecNode::Text(Seq::empty())
                    },
            ),
        },
        Node::Invokation(c) => SpecNode::Invokation {
            name: c.name@,
            args: Seq::new(
                c.args@.len(),
                |i: int|
                    if 0 <= i < c.args@.len() {
                        Seq::new(
                            c.args@[i].nodes@.len(),
                            |j: int|
                                if 0 <= j < c.args@[i].nodes@.len() {
                                    node_view(c.args@[i].nodes@[j])
                                } else {
                                    SpecNode::Text(Seq::empty())
                                },
                        )
                    } else {
                        Seq::empty()
                    },
            ),
        },
        Node::Variable(v) => SpecNode::Variable(v.name@),
        Node::Text(s) => SpecNode::Text(s@),
    }
}


/// The views of a sequence of nodes.
pub open spec fn nodes_view(ns: Seq<Node>) -> Seq<SpecNode> {
    Seq::new(ns.len(), |i: int| node_view(ns[i]))
}

/// The views of a sequence of blocks.
pub open spec fn blocks_view(bs: Seq<Block>) -> Seq<Seq<SpecNode>> {
    Seq::new(bs.len(), |i: int| nodes_view(bs[i].nodes@))
}

impl<'src> View for Ast<'src> {
    type V = Seq<SpecNode>;

    open spec fn view(&self) -> Seq<SpecNode> {
        nodes_view(self.nodes@)
    }
}

impl<'src> View for Block<'src> {
    type V = Seq<SpecNode>;

    open spec fn view(&self) -> Seq<SpecNode> {
        nodes_view(self.nodes@)
    }
}

impl<'src> View for Node<'src> {
    type V = SpecNode;

    open spec fn view(&self) -> SpecNode {
        node_view(*self)
    }
}

pub proof fn lemma_node_view_macro(m: Macro)
    ensures
        node_view(Node::Macro(m)) == (SpecNode::Macro {
            name: m.name@,
            params: names_view(m.params@),
            template: nodes_view(m.template.nodes@),
        }),
{
    assert(nodes_view(m.template.nodes@) =~= (match node_view(Node::Macro(m)) {
        SpecNode::Macro { template, .. } => template,
        _ => Seq::empty(),
    }));
}

pub proof fn lemma_node_view_invokation(c: Invokation)
    ensures
        node_view(Node::Invokation(c)) == (SpecNode::Invokation { name: c.name@, args: blocks_view(c.args@) }),
{
    let v = node_view(Node::Invokation(c));
    let args = match v {
        SpecNode::Invokation { args, .. } => args,
        _ => Seq::empty(),
    };
    assert forall|i: int| 0 <= i < c.args@.len() implies args[i] =~= nodes_view(c.args@[i].nodes@) by {}
    assert(args =~= blocks_view(c.args@));
}

// ---------------------------------------------------------------------------
// Copies of syntax trees.

/// A copy of a node.
pub fn clone_node<'src>(n: &Node<'src>) -> (r: Node<'src>)
    ensures
        r@ == n@,
    decreases n,
{
    match n {
        Node::Macro(m) => {
            let c = clone_macro(m);
            proof {
                lemma_node_view_macro(c);
                lemma_node_view_macro(*m);
            }
            Node::Macro(c)
        },
        Node::Invokation(call) => {
            let c = clone_invokation(call);
            proof {
                lemma_node_view_invokation(c);
                lemma_node_view_invokation(*call);
            }
            Node::Invokation(c)
        },
        Node::Variable(v) => Node::Variable(*v),
        Node::Text(t) => Node::Text(t),
    }
}

/// A copy of a macro definition.
pub fn clone_macro<'src>(m: &Macro<'src>) -> (r: Macro<'src>)
    ensures
        r.name == m.name,
        r.params@ == m.params@,
        nodes_view(r.template.nodes@) == nodes_view(m.template.nodes@),
    decreases m,
{
    let template = Block { nodes: clone_nodes(&m.template.nodes) };
    let mut params: Vec<Variable<'src>> = Vec::new();
    for i in 0..m.params.len()
        invariant
            params@ == m.params@.take(i as int),
    {
        params.push(m.params[i]);
        assert(params@ =~= m.params@.take(i + 1));
    }
    assert(params@ =~= m.params@);
    Macro { name: m.name, params, template }
}

/// A copy of an invocation.
pub fn clone_invokation<'src>(c: &Invokation<'src>) -> (r: Invokation<'src>)
    ensures
        r.name == c.name,
        blocks_view(r.args@) == blocks_view(c.args@),
    decreases c,
{
    Invokation { name: c.name, args: clone_blocks(&c.args) }
}

/// A copy of a sequence of nodes.
pub fn clone_nodes<'src>(ns: &Vec<Node<'src>>) -> (r: Vec<Node<'src>>)
    ensures
        nodes_view(r@) == nodes_view(ns@),
    decreases ns,
{
    let mut r: Vec<Node<'src>> = Vec::new();
    for i in 0..ns.len()
        invariant
            nodes_view(r@) == nodes_view(ns@).take(i as int),
    {
        proof {
            assert(decreases_to!(ns => ns@[i as int]));
        }
        let ghost before = r@;
        assert(nodes_view(before).len() == before.len());
        assert(nodes_view(ns@).take(i as int).len() == i);
        assert(before.len() == i);
        let c = clone_node(&ns[i]);
        r.push(c);
        assert(r@ == before.push(c));
        assert forall|j: int| 0 <= j < i + 1 implies nodes_view(r@)[j] == nodes_view(ns@).take(i + 1)[j] by {
            if j < i {
                assert(nodes_view(before)[j] == nodes_view(ns@).take(i as int)[j]);
            }
        }
        assert(nodes_view(r@) =~= nodes_view(ns@).take(i + 1));
    }
    assert(nodes_view(r@) =~= nodes_view(ns@));
    r
}

/// A copy of a sequence of blocks.
pub fn clone_blocks<'src>(bs: &Vec<Block<'src>>) -> (r: Vec<Block<'src>>)
    ensures
        blocks_view(r@) == blocks_view(bs@),
    decreases bs,
{
    let mut r: Vec<Block<'src>> = Vec::new();
    for i in 0..bs.len()
        invariant
            blocks_view(r@) == blocks_view(bs@).take(i as int),
    {
        proof {
            assert(decreases_to!(bs => bs@[i as int]));
            assert(decreases_to!(bs@[i as int] => bs@[i as int].nodes));
        }
        let ghost before = r@;
        assert(blocks_view(before).len() == before.len());
        assert(blocks_view(bs@).take(i as int).len() == i);
        assert(before.len() == i);
        let b = Block { nodes: clone_nodes(&bs[i].nodes) };
        r.push(b);
        assert(r@ == before.push(b));
        assert forall|j: int| 0 <= j < i + 1 implies blocks_view(r@)[j] == blocks_view(bs@).take(i + 1)[j] by {
            if j < i {
                assert(blocks_view(before)[j] == blocks_view(bs@).take(i as int)[j]);
            }
        }
        assert(blocks_view(r@) =~= blocks_view(bs@).take(i + 1));
    }
    assert(blocks_view(r@) =~= blocks_view(bs@));
    r
}

impl<'src> Clone for Node<'src> {
    fn clone(&self) -> (r: Self)
        ensures
            r@ == self@,
    {
        clone_node(self)
    }
}

impl<'src> Clone for Macro<'src> {
    fn clone(&self) -> (r: Self)
        ensures
            r.name == self.name,
            r.params@ == self.params@,
            nodes_view(r.template.nodes@) == nodes_view(self.template.nodes@),
    {
        clone_macro(self)
    }
}

impl<'src> Clone for Invokation<'src> {
    fn clone(&self) -> (r: Self)
        ensures
            r.name == self.name,
            blocks_view(r.args@) == blocks_view(self.args@),
    {
        clone_invokation(self)
    }
}

impl<'src> Clone for Block<'src> {
    fn clone(&self) -> (r: Self)
        ensures
            r@ == self@,
    {
        Block { nodes: clone_nodes(&self.nodes) }
    }
}

impl<'src> Clone for Ast<'src> {
    fn clone(&self) -> (r: Self)
        ensures
            r@ == self@,
    {
        Ast { nodes: clone_nodes(&self.nodes) }
    }
}

// ---------------------------------------------------------------------------
// Parse errors.

/// Where an identifier was expected.
#[derive(Debug, Clone, Copy, PartialEq, Eq)]
pub enum IdentContext {
    /// After `@macro`.
    AfterMacro,
    /// After `@`.
    AfterAt,
}

/// The message that says where an identifier was expected.
pub open spec fn ident_context_message(c: IdentContext) -> Seq<char> {
    match c {
        IdentContext::AfterMacro => "expected identifier after @macro"@,
        IdentContext::AfterAt => "expected identifier after @"@,
    }
}

impl IdentContext {
    /// The message that says where the identifier was expected.
    pub fn message(&self) -> (r: &'static str)
        ensures
            r@ == ident_context_message(*self),
    {
        match self {
            IdentContext::AfterMacro => "expected identifier after @macro",
            IdentContext::AfterAt => "expected identifier after @",
        }
    }
}

/// Why a token sequence is not a document.
#[derive(Debug, Clone, Copy, PartialEq, Eq)]
pub enum ParseErrorKind<'src> {
    /// A given token was required; `got` is the token found, `None` at the end.
    ExpectedToken { expected: TokenKind<'src>, got: Option<TokenKind<'src>> },
    /// In a parameter list, a token that is neither a variable nor a comma.
    ExpectedVariableOrComma { found: TokenKind<'src> },
    /// The tokens ended inside a parameter list.
    UnexpectedEofInParameters,
    /// An identifier was required; `got` is what was read instead.
    ExpectedIdentifier { context: IdentContext, got: Option<TokenKind<'src>> },
}

pub enum SpecParseErrorKind {
    ExpectedToken { expected: SpecTokenKind, got: Option<SpecTokenKind> },
    ExpectedVariableOrComma { found: SpecTokenKind },
    UnexpectedEofInParameters,
    ExpectedIdentifier { context: IdentContext, got: Option<SpecTokenKind> },
}

pub open spec fn option_kind_view(k: Option<TokenKind>) -> Option<SpecTokenKind> {
    match k {
        Some(k) => Some(k@),
        None => None,
    }
}

impl<'src> View for ParseErrorKind<'src> {
    type V = SpecParseErrorKind;

    open spec fn view(&self) -> SpecParseErrorKind {
        match *self {
            ParseErrorKind::ExpectedToken { expected, got } => SpecParseErrorKind::ExpectedToken {
                expected: expected@,
                got: option_kind_view(got),
            },
            ParseErrorKind::ExpectedVariableOrComma { found } => SpecParseErrorKind::ExpectedVariableOrComma { found: found@ },
            ParseErrorKind::UnexpectedEofInParameters => SpecParseErrorKind::UnexpectedEofInParameters,
            ParseErrorKind::ExpectedIdentifier { context, got } => SpecParseErrorKind::ExpectedIdentifier {
                context,
                got: option_kind_view(got),
            },
        }
    }
}

/// A parse error, with the span of the token at which parsing stopped
/// (`None` when it stopped at the end of the tokens).
#[derive(Debug, PartialEq, Eq)]
pub struct ParseError<'src> {
    pub kind: ParseErrorKind<'src>,
    pub at: Option<Range<usize>>,
}

pub struct SpecParseError {
    pub kind: SpecParseErrorKind,
    pub at: Option<(nat, nat)>,
}

impl<'src> View for ParseError<'src> {
    type V = SpecParseError;

    open spec fn view(&self) -> SpecParseError {
        SpecParseError {
            kind: self.kind@,
            at: match self.at {
                Some(r) => Some((r.start as nat, r.end as nat)),
                None => None,
            },
        }
    }
}

// ---------------------------------------------------------------------------
// The grammar, stated over the views of the tokens.

/// The kind of the token at `i`, if there is one.
pub open spec fn peek(t: Seq<SpecToken>, i: int) -> Option<SpecTokenKind> {
    if 0 <= i < t.len() {
        Some(t[i].kind)
    } else {
        None
    }
}

/// The position after reading one token at `i`, if there is one.
pub open spec fn bumped(t: Seq<SpecToken>, i: int) -> int {
    if 0 <= i < t.len() {
        i + 1
    } else {
        i
    }
}

/// An error that stops parsing at token position `i`.
pub open spec fn error_at(t: Seq<SpecToken>, kind: SpecParseErrorKind, i: int) -> SpecParseError {
    SpecParseError {
        kind,
        at: if 0 <= i < t.len() {
            Some((t[i].span_start, t[i].span_end))
        } else {
            None
        },
    }
}

/// Reading the token `k` at `i`.
pub open spec fn expect(t: Seq<SpecToken>, i: int, k: SpecTokenKind) -> Result<int, SpecParseError> {
    if peek(t, i) == Some(k) {
        Ok(i + 1)
    } else {
        Err(error_at(t, SpecParseErrorKind::ExpectedToken { expected: k, got: peek(t, i) }, i))
    }
}

/// Reading an identifier at `i`.
pub open spec fn expect_ident(t: Seq<SpecToken>, i: int, context: IdentContext) -> Result<(Seq<char>, int), SpecParseError> {
    match peek(t, i) {
        Some(SpecTokenKind::Ident(name)) => Ok((name, i + 1)),
        got => Err(error_at(t, SpecParseErrorKind::ExpectedIdentifier { context, got }, bumped(t, i))),
    }
}

/// The parameters from `i` up to the closing parenthesis; commas are skipped.
pub open spec fn params_from(t: Seq<SpecToken>, i: int, acc: Seq<Seq<char>>) -> Result<(Seq<Seq<char>>, int), SpecParseError>
    decreases t.len() - i,
{
    if i < 0 || i >= t.len() {
        Err(error_at(t, SpecParseErrorKind::UnexpectedEofInParameters, i))
    } else {
        match t[i].kind {
            SpecTokenKind::ParenClose => Ok((acc, i)),
            SpecTokenKind::Variable(v) => params_from(t, i + 1, acc.push(v)),
            SpecTokenKind::Comma => params_from(t, i + 1, acc),
            other => Err(error_at(t, SpecParseErrorKind::ExpectedVariableOrComma { found: other }, i + 1)),
        }
    }
}

/// `( $a, $b, ... )` at `i`.
pub open spec fn params_at(t: Seq<SpecToken>, i: int) -> Result<(Seq<Seq<char>>, int), SpecParseError> {
    match expect(t, i, SpecTokenKind::ParenOpen) {
        Err(e) => Err(e),
        Ok(j) => match params_from(t, j, Seq::empty()) {
            Err(e) => Err(e),
            Ok((ps, k)) => match expect(t, k, SpecTokenKind::ParenClose) {
                Err(e) => Err(e),
                Ok(k2) => Ok((ps, k2)),
            },
        },
    }
}

pub proof fn lemma_params_from_bounds(t: Seq<SpecToken>, i: int, acc: Seq<Seq<char>>)
    requires
        0 <= i <= t.len(),
    ensures
        params_from(t, i, acc) matches Ok((_, k)) ==> i <= k < t.len() && t[k].kind == SpecTokenKind::ParenClose,
    decreases t.len() - i,
{
    if 0 <= i < t.len() {
        match t[i].kind {
            SpecTokenKind::Variable(v) => lemma_params_from_bounds(t, i + 1, acc.push(v)),
            SpecTokenKind::Comma => lemma_params_from_bounds(t, i + 1, acc),
            _ => {},
        }
    }
}

pub proof fn lemma_params_at_bounds(t: Seq<SpecToken>, i: int)
    requires
        0 <= i <= t.len(),
    ensures
        params_at(t, i) matches Ok((_, k)) ==> i + 2 <= k <= t.len(),
{
    if 0 <= i < t.len() {
        lemma_params_from_bounds(t, i + 1, Seq::empty());
    }
}

/// The node that a single token stands for when read as text. A variable
/// stays a variable; punctuation becomes its own text.
pub open spec fn text_of(k: SpecTokenKind) -> SpecNode {
    match k {
        SpecTokenKind::At => SpecNode::Text("@"@),
        SpecTokenKind::Ident(s) => SpecNode::Text(s),
        SpecTokenKind::Variable(v) => SpecNode::Variable(v),
        SpecTokenKind::ParenOpen => SpecNode::Text("("@),
        SpecTokenKind::ParenClose => SpecNode::Text(")"@),
        SpecTokenKind::Comma => SpecNode::Text(","@),
        SpecTokenKind::BlockOpen => SpecNode::Text("{{"@),
        SpecTokenKind::BlockClose => SpecNode::Text("}}"@),
        SpecTokenKind::Text(s) => SpecNode::Text(s),
    }
}

/// The node at `i`: `None` at the end of the tokens or at `}}`.
pub open spec fn node_at(t: Seq<SpecToken>, i: int) -> Option<Result<(SpecNode, int), SpecParseError>>
    decreases t.len() - i, 3int,
{
    match peek(t, i) {
        None => None,
        Some(SpecTokenKind::BlockClose) => None,
        Some(SpecTokenKind::At) => match peek(t, i + 1) {
            Some(SpecTokenKind::Ident(name)) => if name == "macro"@ {
                Some(macro_at(t, i))
            } else if name == "call"@ && peek(t, i + 2) matches Some(SpecTokenKind::Ident(_)) {
                Some(call_at(t, i))
            } else {
                Some(invoke_at(t, i))
            },
            _ => Some(Ok((text_of(SpecTokenKind::At), i + 1))),
        },
        Some(k) => Some(Ok((text_of(k), i + 1))),
    }
}

/// `@macro name(params) {{ template }}` at `i`.
pub open spec fn macro_at(t: Seq<SpecToken>, i: int) -> Result<(SpecNode, int), SpecParseError>
    decreases t.len() - i, 2int,
{
    match expect(t, i, SpecTokenKind::At) {
        Err(e) => Err(e),
        Ok(i1) => match expect(t, i1, SpecTokenKind::Ident("macro"@)) {
            Err(e) => Err(e),
            Ok(i2) => match expect_ident(t, i2, IdentContext::AfterMacro) {
                Err(e) => Err(e),
                Ok((name, i3)) => match params_at(t, i3) {
                    Err(e) => Err(e),
                    Ok((params, i4)) => {
                        proof {
                            lemma_params_at_bounds(t, i3);
                        }
                        match block_at(t, i4) {
                            Err(e) => Err(e),
                            Ok((template, i5)) => Ok((SpecNode::Macro { name, params, template }, i5)),
                        }
                    },
                },
            },
        },
    }
}

/// `@call name(args)` at `i`: the same invocation as `@name(args)`.
pub open spec fn call_at(t: Seq<SpecToken>, i: int) -> Result<(SpecNode, int), SpecParseError>
    decreases t.len() - i, 2int,
{
    match expect(t, i, SpecTokenKind::At) {
        Err(e) => Err(e),
        Ok(i1) => match expect(t, i1, SpecTokenKind::Ident("call"@)) {
            Err(e) => Err(e),
            Ok(i2) => match expect_ident(t, i2, IdentContext::AfterAt) {
                Err(e) => Err(e),
                Ok((name, i3)) => match args_at(t, i3) {
                    Err(e) => Err(e),
                    Ok((args, i4)) => Ok((SpecNode::Invokation { name, args }, i4)),
                },
            },
        },
    }
}

/// `@name(args)` at `i`.
pub open spec fn invoke_at(t: Seq<SpecToken>, i: int) -> Result<(SpecNode, int), SpecParseError>
    decreases t.len() - i, 2int,
{
    match expect(t, i, SpecTokenKind::At) {
        Err(e) => Err(e),
        Ok(i1) => match expect_ident(t, i1, IdentContext::AfterAt) {
            Err(e) => Err(e),
            Ok((name, i2)) => match args_at(t, i2) {
                Err(e) => Err(e),
                Ok((args, i3)) => Ok((SpecNode::Invokation { name, args }, i3)),
            },
        },
    }
}

/// `( {{..}}, {{..}} ... )` at `i`.
pub open spec fn args_at(t: Seq<SpecToken>, i: int) -> Result<(Seq<Seq<SpecNode>>, int), SpecParseError>
    decreases t.len() - i, 1int,
{
    match expect(t, i, SpecTokenKind::ParenOpen) {
        Err(e) => Err(e),
        Ok(j) => match args_from(t, j, Seq::empty()) {
            Err(e) => Err(e),
            Ok((args, k)) => match expect(t, k, SpecTokenKind::ParenClose) {
                Err(e) => Err(e),
                Ok(k2) => Ok((args, k2)),
            },
        },
    }
}

/// The arguments from `i` up to the closing parenthesis: blocks, each
/// followed by at most one comma.
pub open spec fn args_from(t: Seq<SpecToken>, i: int, acc: Seq<Seq<SpecNode>>) -> Result<(Seq<Seq<SpecNode>>, int), SpecParseError>
    decreases t.len() - i, 2int,
{
    if peek(t, i) == Some(SpecTokenKind::ParenClose) || i < 0 || i > t.len() {
        Ok((acc, i))
    } else {
        match block_at(t, i) {
            Err(e) => Err(e),
            Ok((b, j)) => {
                let j2 = if peek(t, j) == Some(SpecTokenKind::Comma) { j + 1 } else { j };
                // Every block covers at least its two braces.
                if i < j2 <= t.len() {
                    args_from(t, j2, acc.push(b))
                } else {
                    Ok((acc, i))
                }
            },
        }
    }
}

/// `{{ nodes }}` at `i`.
pub open spec fn block_at(t: Seq<SpecToken>, i: int) -> Result<(Seq<SpecNode>, int), SpecParseError>
    decreases t.len() - i, 1int,
{
    match expect(t, i, SpecTokenKind::BlockOpen) {
        Err(e) => Err(e),
        Ok(j) => match block_from(t, j, Seq::empty()) {
            Err(e) => Err(e),
            Ok((nodes, k)) => match expect(t, k, SpecTokenKind::BlockClose) {
                Err(e) => Err(e),
                Ok(k2) => Ok((nodes, k2)),
            },
        },
    }
}

/// The nodes from `i` up to `}}` or the end of the tokens.
pub open spec fn block_from(t: Seq<SpecToken>, i: int, acc: Seq<SpecNode>) -> Result<(Seq<SpecNode>, int), SpecParseError>
    decreases t.len() - i, 4int,
{
    match peek(t, i) {
        None => Ok((acc, i)),
        Some(SpecTokenKind::BlockClose) => Ok((acc, i)),
        Some(_) => match node_at(t, i) {
            Some(Ok((n, j))) => {
                // Every node covers at least one token.
                if i < j <= t.len() {
                    block_from(t, j, acc.push(n))
                } else {
                    Ok((acc, i))
                }
            },
            Some(Err(e)) => Err(e),
            None => Ok((acc, i)),
        },
    }
}


/// Every node read covers at least one token.
pub proof fn lemma_node_at_advances(t: Seq<SpecToken>, i: int)
    requires
        0 <= i <= t.len(),
    ensures
        node_at(t, i) matches Some(Ok((_, j))) ==> i < j <= t.len(),
    decreases t.len() - i, 3int,
{
    match peek(t, i) {
        Some(SpecTokenKind::At) => match peek(t, i + 1) {
            Some(SpecTokenKind::Ident(name)) => {
                if name == "macro"@ {
                    lemma_macro_at_advances(t, i);
                } else if name == "call"@ && peek(t, i + 2) matches Some(SpecTokenKind::Ident(_)) {
                    lemma_call_at_advances(t, i);
                } else {
                    lemma_invoke_at_advances(t, i);
                }
            },
            _ => {},
        },
        _ => {},
    }
}

pub proof fn lemma_macro_at_advances(t: Seq<SpecToken>, i: int)
    requires
        0 <= i <= t.len(),
    ensures
        macro_at(t, i) matches Ok((_, j)) ==> i < j <= t.len(),
    decreases t.len() - i, 2int,
{
    if let Ok(i1) = expect(t, i, SpecTokenKind::At) {
        if let Ok(i2) = expect(t, i1, SpecTokenKind::Ident("macro"@)) {
            if let Ok((_, i3)) = expect_ident(t, i2, IdentContext::AfterMacro) {
                lemma_params_at_bounds(t, i3);
                if let Ok((_, i4)) = params_at(t, i3) {
                    lemma_block_at_advances(t, i4);
                }
            }
        }
    }
}

pub proof fn lemma_call_at_advances(t: Seq<SpecToken>, i: int)
    requires
        0 <= i <= t.len(),
    ensures
        call_at(t, i) matches Ok((_, j)) ==> i < j <= t.len(),
    decreases t.len() - i, 2int,
{
    if let Ok(i1) = expect(t, i, SpecTokenKind::At) {
        if let Ok(i2) = expect(t, i1, SpecTokenKind::Ident("call"@)) {
            if let Ok((_, i3)) = expect_ident(t, i2, IdentContext::AfterAt) {
                lemma_args_at_advances(t, i3);
            }
        }
    }
}

pub proof fn lemma_invoke_at_advances(t: Seq<SpecToken>, i: int)
    requires
        0 <= i <= t.len(),
    ensures
        invoke_at(t, i) matches Ok((_, j)) ==> i < j <= t.len(),
    decreases t.len() - i, 2int,
{
    if let Ok(i1) = expect(t, i, SpecTokenKind::At) {
        if let Ok((_, i2)) = expect_ident(t, i1, IdentContext::AfterAt) {
            lemma_args_at_advances(t, i2);
        }
    }
}

pub proof fn lemma_args_at_advances(t: Seq<SpecToken>, i: int)
    requires
        0 <= i <= t.len(),
    ensures
        args_at(t, i) matches Ok((_, j)) ==> i < j <= t.len(),
    decreases t.len() - i, 1int,
{
    if let Ok(j) = expect(t, i, SpecTokenKind::ParenOpen) {
        lemma_args_from_advances(t, j, Seq::empty());
    }
}

pub proof fn lemma_args_from_advances(t: Seq<SpecToken>, i: int, acc: Seq<Seq<SpecNode>>)
    requires
        0 <= i <= t.len(),
    ensures
        args_from(t, i, acc) matches Ok((_, j)) ==> i <= j <= t.len(),
    decreases t.len() - i, 2int,
{
    if peek(t, i) != Some(SpecTokenKind::ParenClose) {
        lemma_block_at_advances(t, i);
        if let Ok((b, j)) = block_at(t, i) {
            let j2 = if peek(t, j) == Some(SpecTokenKind::Comma) { j + 1 } else { j };
            lemma_args_from_advances(t, j2, acc.push(b));
        }
    }
}

pub proof fn lemma_block_at_advances(t: Seq<SpecToken>, i: int)
    requires
        0 <= i <= t.len(),
    ensures
        block_at(t, i) matches Ok((_, j)) ==> i + 2 <= j <= t.len(),
    decreases t.len() - i, 1int,
{
    if let Ok(j) = expect(t, i, SpecTokenKind::BlockOpen) {
        lemma_block_from_advances(t, j, Seq::empty());
    }
}

pub proof fn lemma_block_from_advances(t: Seq<SpecToken>, i: int, acc: Seq<SpecNode>)
    requires
        0 <= i <= t.len(),
    ensures
        block_from(t, i, acc) matches Ok((_, j)) ==> i <= j <= t.len(),
    decreases t.len() - i, 4int,
{
    match peek(t, i) {
        None => {},
        Some(SpecTokenKind::BlockClose) => {},
        Some(_) => {
            lemma_node_at_advances(t, i);
            if let Some(Ok((n, j))) = node_at(t, i) {
                lemma_block_from_advances(t, j, acc.push(n));
            }
        },
    }
}

/// The position after the block that ends at `e`: past one comma, if one
/// follows.
pub open spec fn past_comma(t: Seq<SpecToken>, e: int) -> int {
    if peek(t, e) == Some(SpecTokenKind::Comma) { e + 1 } else { e }
}

proof fn lemma_block_from_chain(t: Seq<SpecToken>, i: int, acc: Seq<SpecNode>) -> (ps: Seq<int>)
    requires
        0 <= i <= t.len(),
        block_from(t, i, acc) is Ok,
    ensures
        ({
            let (nodes, k) = block_from(t, i, acc)->Ok_0;
            &&& ps.len() >= 1
            &&& nodes.len() == acc.len() + ps.len() - 1
            &&& nodes.take(acc.len() as int) == acc
            &&& ps[0] == i
            &&& ps.last() == k
            &&& forall|m: int| 0 <= m < ps.len() - 1
                ==> node_at(t, #[trigger] ps[m]) == Some(Ok::<(SpecNode, int), SpecParseError>((nodes[acc.len() + m], ps[m + 1])))
            &&& (peek(t, k) is None || peek(t, k) == Some(SpecTokenKind::BlockClose))
        }),
    decreases t.len() - i,
{
    match peek(t, i) {
        None => {
            assert(acc.take(acc.len() as int) =~= acc);
            seq![i]
        },
        Some(SpecTokenKind::BlockClose) => {
            assert(acc.take(acc.len() as int) =~= acc);
            seq![i]
        },
        Some(_) => {
            lemma_node_at_advances(t, i);
            let (n, j) = node_at(t, i)->Some_0->Ok_0;
            let rest = lemma_block_from_chain(t, j, acc.push(n));
            let (nodes, k) = block_from(t, i, acc)->Ok_0;
            let ps = seq![i] + rest;
            assert(nodes.take(acc.len() + 1 as int) == acc.push(n));
            assert(nodes[acc.len() as int] == acc.push(n)[acc.len() as int]);
            assert(nodes.take(acc.len() as int) =~= acc.push(n).take(acc.len() as int));
            assert(acc.push(n).take(acc.len() as int) =~= acc);
            assert forall|m: int| 0 <= m < ps.len() - 1
                implies node_at(t, #[trigger] ps[m]) == Some(Ok::<(SpecNode, int), SpecParseError>((nodes[acc.len() + m], ps[m + 1]))) by {
                if m > 0 {
                    assert(ps[m] == rest[m - 1]);
                    assert(ps[m + 1] == rest[m]);
                    assert(node_at(t, rest[m - 1]) == Some(Ok::<(SpecNode, int), SpecParseError>((nodes[acc.push(n).len() + (m - 1)], rest[m]))));
                }
            }
            ps
        },
    }
}

/// Every node read between `{{` and `}}` is kept, in order: the nodes of a
/// block are read one after the other, the first just after `{{` and each
/// where the one before it ended, and the last ends at the `}}` that closes
/// the block.
pub proof fn law_block_keeps_every_node(t: Seq<SpecToken>, i: int)
    requires
        0 <= i <= t.len(),
    ensures
        block_at(t, i) matches Ok((nodes, k)) ==> {
            &&& peek(t, i) == Some(SpecTokenKind::BlockOpen)
            &&& exists|ps: Seq<int>| {
                &&& ps.len() == nodes.len() + 1
                &&& ps[0] == i + 1
                &&& (forall|m: int| 0 <= m < nodes.len()
                    ==> node_at(t, #[trigger] ps[m]) == Some(Ok::<(SpecNode, int), SpecParseError>((nodes[m], ps[m + 1]))))
                &&& peek(t, ps.last()) == Some(SpecTokenKind::BlockClose)
                &&& k == ps.last() + 1
            }
        },
{
    if let Ok((nodes, k)) = block_at(t, i) {
        let ps = lemma_block_from_chain(t, i + 1, Seq::empty());
        assert(block_from(t, i + 1, Seq::empty())->Ok_0.0 == nodes);
        assert forall|m: int| 0 <= m < nodes.len()
            implies node_at(t, #[trigger] ps[m]) == Some(Ok::<(SpecNode, int), SpecParseError>((nodes[m], ps[m + 1]))) by {
            assert(node_at(t, ps[m]) == Some(Ok::<(SpecNode, int), SpecParseError>((nodes[0 + m], ps[m + 1]))));
        }
    }
}

#[verifier::rlimit(40)]
proof fn lemma_args_from_chain(t: Seq<SpecToken>, i: int, acc: Seq<Seq<SpecNode>>) -> (ps: Seq<int>)
    requires
        0 <= i <= t.len(),
        args_from(t, i, acc) is Ok,
    ensures
        ({
            let (args, k) = args_from(t, i, acc)->Ok_0;
            &&& ps.len() >= 1
            &&& args.len() == acc.len() + ps.len() - 1
            &&& args.take(acc.len() as int) == acc
            &&& ps[0] == i
            &&& ps.last() == k
            &&& forall|m: int| 0 <= m < ps.len() - 1 ==> (block_at(t, #[trigger] ps[m]) matches Ok((b, e))
                && b == args[acc.len() + m] && ps[m + 1] == past_comma(t, e))
            &&& peek(t, k) == Some(SpecTokenKind::ParenClose)
        }),
    decreases t.len() - i,
{
    if peek(t, i) == Some(SpecTokenKind::ParenClose) {
        assert(acc.take(acc.len() as int) =~= acc);
        seq![i]
    } else {
        lemma_block_at_advances(t, i);
        let (b, j) = block_at(t, i)->Ok_0;
        let j2 = past_comma(t, j);
        let rest = lemma_args_from_chain(t, j2, acc.push(b));
        assert(i < j2 <= t.len());
        assert(args_from(t, i, acc) == args_from(t, j2, acc.push(b)));
        let (args, k) = args_from(t, i, acc)->Ok_0;
        let ps = seq![i] + rest;
        assert(args.take(acc.len() + 1 as int) == acc.push(b));
        assert(args[acc.len() as int] == acc.push(b)[acc.len() as int]);
        assert(args.take(acc.len() as int) =~= acc.push(b).take(acc.len() as int));
        assert(acc.push(b).take(acc.len() as int) =~= acc);
        assert forall|m: int| 0 <= m < ps.len() - 1 implies (block_at(t, #[trigger] ps[m]) matches Ok((b2, e))
            && b2 == args[acc.len() + m] && ps[m + 1] == past_comma(t, e)) by {
            if m > 0 {
                assert(ps[m] == rest[m - 1]);
                assert(ps[m + 1] == rest[m]);
                assert(block_at(t, rest[m - 1]) matches Ok((b2, e))
                    && b2 == args[acc.push(b).len() + (m - 1)] && rest[m] == past_comma(t, e));
            }
        }
        ps
    }
}

/// Every argument block of an invocation is kept, empty or not, in order:
/// the arguments are the blocks read one after the other, the first just
/// after `(`, each next one just after the one before it and the comma
/// that may follow it, and the last followed by the closing `)`.
pub proof fn law_args_keep_every_block(t: Seq<SpecToken>, i: int)
    requires
        0 <= i <= t.len(),
    ensures
        args_at(t, i) matches Ok((args, k)) ==> {
            &&& peek(t, i) == Some(SpecTokenKind::ParenOpen)
            &&& exists|ps: Seq<int>| {
                &&& ps.len() == args.len() + 1
                &&& ps[0] == i + 1
                &&& (forall|m: int| 0 <= m < args.len() ==> (block_at(t, #[trigger] ps[m]) matches Ok((b, e))
                    && b == args[m] && ps[m + 1] == past_comma(t, e)))
                &&& peek(t, ps.last()) == Some(SpecTokenKind::ParenClose)
                &&& k == ps.last() + 1
            }
        },
{
    if let Ok((args, k)) = args_at(t, i) {
        let ps = lemma_args_from_chain(t, i + 1, Seq::empty());
        assert(args_from(t, i + 1, Seq::empty())->Ok_0.0 == args);
        assert forall|m: int| 0 <= m < args.len() implies (block_at(t, #[trigger] ps[m]) matches Ok((b, e))
            && b == args[m] && ps[m + 1] == past_comma(t, e)) by {
            assert(block_at(t, ps[m]) matches Ok((b, e))
                && b == args[0 + m] && ps[m + 1] == past_comma(t, e));
        }
    }
}

/// The nodes of a document from token position `i`: parsing stops at the
/// end of the tokens or at a `}}` outside any block.
pub open spec fn parse_from(t: Seq<SpecToken>, i: int, acc: Seq<SpecNode>) -> Result<Seq<SpecNode>, SpecParseError>
    decreases t.len() - i,
{
    if i < 0 || i > t.len() {
        Ok(acc)
    } else {
        match node_at(t, i) {
            None => Ok(acc),
            Some(Err(e)) => Err(e),
            Some(Ok((n, j))) => {
                proof {
                    lemma_node_at_advances(t, i);
                }
                parse_from(t, j, acc.push(n))
            },
        }
    }
}

/// A `}}` outside any block ends the document: what follows it is not read.
pub proof fn law_parse_stops_at_close(t: Seq<SpecToken>, i: int, acc: Seq<SpecNode>)
    requires
        0 <= i <= t.len(),
        peek(t, i) == Some(SpecTokenKind::BlockClose),
    ensures
        parse_from(t, i, acc) == Ok::<Seq<SpecNode>, SpecParseError>(acc),
{
}

/// The document that a token sequence stands for, or the error that stops it.
pub open spec fn spec_parse(t: Seq<SpecToken>) -> Result<Seq<SpecNode>, SpecParseError> {
    parse_from(t, 0, Seq::empty())
}


// ---------------------------------------------------------------------------
// The parser.

/// Builds the syntax tree of a document from its tokens. The tokens must
/// form a document; `try_parse` checks that.
pub fn parse<'src>(src: &'src str, tokens: Vec<Token<'src>>) -> (ast: Ast<'src>)
    requires
        spec_parse(views(tokens@)) is Ok,
    ensures
        spec_parse(views(tokens@)) == Ok::<Seq<SpecNode>, SpecParseError>(ast@),
{
    Parser::new(src, tokens).parse()
}

/// Builds the syntax tree of a document from its tokens, or says why the
/// tokens are not a document.
pub fn try_parse<'src>(src: &'src str, tokens: Vec<Token<'src>>) -> (r: Result<Ast<'src>, ParseError<'src>>)
    ensures
        match spec_parse(views(tokens@)) {
            Ok(nodes) => r matches Ok(ast) && ast@ == nodes,
            Err(e) => r matches Err(err) && err@ == e,
        },
{
    Parser::new(src, tokens).try_parse()
}

/// A recursive-descent parser over a sequence of tokens.
pub struct Parser<'src> {
    src: &'src str,
    tokens: Vec<Token<'src>>,
    pos: usize,
    nodes: Vec<Node<'src>>,
}

impl<'src> Parser<'src> {
    /// The views of the tokens being parsed.
    pub closed spec fn toks(&self) -> Seq<SpecToken> {
        views(self.tokens@)
    }

    /// The position of the next token to read.
    pub closed spec fn position(&self) -> int {
        self.pos as int
    }

    /// The top-level nodes read so far.
    pub closed spec fn parsed(&self) -> Seq<SpecNode> {
        nodes_view(self.nodes@)
    }

    pub closed spec fn wf(&self) -> bool {
        &&& self.pos <= self.tokens@.len()
        &&& self.toks().len() == self.tokens@.len()
    }

    pub fn new(src: &'src str, tokens: Vec<Token<'src>>) -> (p: Self)
        ensures
            p.wf(),
            p.toks() == views(tokens@),
            p.position() == 0,
            p.parsed() == Seq::<SpecNode>::empty(),
    {
        let p = Parser { src, tokens, pos: 0, nodes: Vec::new() };
        assert(p.parsed() =~= Seq::<SpecNode>::empty());
        p
    }

    fn peek(&self) -> (r: Option<&Token<'src>>)
        requires
            self.wf(),
        ensures
            match r {
                Some(tok) => self.pos < self.tokens@.len() && tok@ == self.toks()[self.pos as int],
                None => self.pos >= self.tokens@.len(),
            },
    {
        if self.pos < self.tokens.len() {
            Some(&self.tokens[self.pos])
        } else {
            None
        }
    }

    fn peek_kind(&self) -> (r: Option<TokenKind<'src>>)
        requires
            self.wf(),
        ensures
            option_kind_view(r) == peek(self.toks(), self.pos as int),
    {
        match self.peek() {
            Some(token) => Some(token.kind()),
            None => None,
        }
    }

    fn peek_next_kind(&self) -> (r: Option<TokenKind<'src>>)
        requires
            self.wf(),
        ensures
            option_kind_view(r) == peek(self.toks(), self.pos + 1),
    {
        if self.pos < self.tokens.len() && self.pos + 1 < self.tokens.len() {
            Some(self.tokens[self.pos + 1].kind())
        } else {
            None
        }
    }

    /// Whether the token two places ahead is an identifier.
    fn third_is_ident(&self) -> (r: bool)
        requires
            self.wf(),
        ensures
            r == (peek(self.toks(), self.pos + 2) matches Some(SpecTokenKind::Ident(_))),
    {
        if self.pos < self.tokens.len() && self.pos + 1 < self.tokens.len() && self.pos + 2 < self.tokens.len() {
            match self.tokens[self.pos + 2].kind() {
                TokenKind::Ident(_) => true,
                _ => false,
            }
        } else {
            false
        }
    }

    fn bump_kind(&mut self) -> (r: Option<TokenKind<'src>>)
        requires
            old(self).wf(),
        ensures
            final(self).wf(),
            final(self).tokens == old(self).tokens,
            final(self).nodes == old(self).nodes,
            final(self).src == old(self).src,
            option_kind_view(r) == peek(old(self).toks(), old(self).pos as int),
            final(self).pos == bumped(old(self).toks(), old(self).pos as int),
    {
        let r = self.peek_kind();
        if self.pos < self.tokens.len() {
            self.pos = self.pos + 1;
        }
        r
    }

    fn eat(&mut self, expected: TokenKind<'src>) -> (r: bool)
        requires
            old(self).wf(),
        ensures
            final(self).wf(),
            final(self).tokens == old(self).tokens,
            final(self).nodes == old(self).nodes,
            final(self).src == old(self).src,
            r == (peek(old(self).toks(), old(self).pos as int) == Some(expected@)),
            final(self).pos == if r { old(self).pos + 1 } else { old(self).pos as int },
    {
        match self.peek_kind() {
            Some(kind) => {
                if kind.same(&expected) {
                    self.bump_kind();
                    true
                } else {
                    false
                }
            },
            None => false,
        }
    }

    /// The error that stops the parse at the current position. A verified
    /// reader cannot halt the program, so it hands this value back instead.
    fn error(&self, kind: ParseErrorKind<'src>) -> (e: ParseError<'src>)
        requires
            self.wf(),
        ensures
            e@ == error_at(self.toks(), kind@, self.pos as int),
    {
        let at = match self.peek() {
            Some(token) => {
                let span = token.span();
                Some(span.start..span.end)
            },
            None => None,
        };
        ParseError { kind, at }
    }

    /// Reads the token `expected`, or the error that it is not next.
    fn try_expect(&mut self, expected: TokenKind<'src>) -> (r: Result<(), ParseError<'src>>)
        requires
            old(self).wf(),
        ensures
            final(self).wf(),
            final(self).tokens == old(self).tokens,
            final(self).nodes == old(self).nodes,
            final(self).src == old(self).src,
            match expect(old(self).toks(), old(self).pos as int, expected@) {
                Ok(j) => r is Ok && final(self).pos == j,
                Err(e) => r matches Err(err) && err@ == e,
            },
    {
        if !self.eat(expected) {
            let got = self.peek_kind();
            return Err(self.error(ParseErrorKind::ExpectedToken { expected, got }));
        }
        Ok(())
    }

    /// Reads an identifier, or the error that none is next.
    fn try_expect_ident(&mut self, context: IdentContext) -> (r: Result<&'src str, ParseError<'src>>)
        requires
            old(self).wf(),
        ensures
            final(self).wf(),
            final(self).tokens == old(self).tokens,
            final(self).nodes == old(self).nodes,
            final(self).src == old(self).src,
            match expect_ident(old(self).toks(), old(self).pos as int, context) {
                Ok((name, j)) => r matches Ok(s) && s@ == name && final(self).pos == j,
                Err(e) => r matches Err(err) && err@ == e,
            },
    {
        match self.bump_kind() {
            Some(TokenKind::Ident(name)) => Ok(name),
            other => Err(self.error(ParseErrorKind::ExpectedIdentifier { context, got: other })),
        }
    }

    /// Reads the current token as text.
    fn parse_text(&mut self) -> (n: Node<'src>)
        requires
            old(self).wf(),
            peek(old(self).toks(), old(self).pos as int) matches Some(k) && k != SpecTokenKind::BlockClose,
        ensures
            final(self).wf(),
            final(self).tokens == old(self).tokens,
            final(self).nodes == old(self).nodes,
            final(self).src == old(self).src,
            final(self).pos == old(self).pos + 1,
            n@ == text_of(peek(old(self).toks(), old(self).pos as int).unwrap()),
    {
        match self.bump_kind() {
            Some(TokenKind::At) => Node::Text("@"),
            Some(TokenKind::Ident(text)) => Node::Text(text),
            Some(TokenKind::ParenOpen) => Node::Text("("),
            Some(TokenKind::ParenClose) => Node::Text(")"),
            Some(TokenKind::Comma) => Node::Text(","),
            Some(TokenKind::BlockOpen) => Node::Text("{{"),
            Some(TokenKind::Text(text)) => Node::Text(text),
            Some(TokenKind::Variable(name)) => Node::Variable(Variable { name }),
            // Neither can occur: the precondition rules them out.
            Some(TokenKind::BlockClose) => Node::Text("}}"),
            None => Node::Text(""),
        }
    }

    /// Reads the parameters of a macro definition, or the error that stops them.
    fn try_parse_params(&mut self) -> (r: Result<Vec<Variable<'src>>, ParseError<'src>>)
        requires
            old(self).wf(),
        ensures
            final(self).wf(),
            final(self).tokens == old(self).tokens,
            final(self).nodes == old(self).nodes,
            final(self).src == old(self).src,
            match params_at(old(self).toks(), old(self).pos as int) {
                Ok((ps, j)) => r matches Ok(v) && names_view(v@) == ps && final(self).pos == j,
                Err(e) => r matches Err(err) && err@ == e,
            },
    {
        let ghost t = self.toks();
        let mut params: Vec<Variable<'src>> = Vec::new();
        match self.try_expect(TokenKind::ParenOpen) {
            Err(e) => return Err(e),
            Ok(()) => {},
        }
        let ghost start = self.pos as int;
        let n = self.tokens.len();
        assert(names_view(params@) =~= Seq::<Seq<char>>::empty());
        loop
            invariant
                self.wf(),
                self.tokens == old(self).tokens,
                self.nodes == old(self).nodes,
                self.src == old(self).src,
                t == self.toks(),
                n == t.len(),
                params_from(t, start, Seq::empty()) == params_from(t, self.pos as int, names_view(params@)),
                t == old(self).toks(),
                expect(t, old(self).pos as int, SpecTokenKind::ParenOpen) == Ok::<int, SpecParseError>(start),
            ensures
                peek(t, self.pos as int) == Some(SpecTokenKind::ParenClose),
            decreases n - self.pos,
        {
            let next = self.peek_kind();
            if let Some(TokenKind::ParenClose) = next {
                break;
            }
            let ghost before = params@;
            self.bump_kind();
            match next {
                Some(TokenKind::Variable(var)) => {
                    params.push(Variable { name: var });
                    assert(names_view(params@) =~= names_view(before).push(var@));
                },
                Some(TokenKind::Comma) => {},
                Some(token) => {
                    return Err(self.error(ParseErrorKind::ExpectedVariableOrComma { found: token }));
                },
                None => {
                    return Err(self.error(ParseErrorKind::UnexpectedEofInParameters));
                },
            }
        }
        match self.try_expect(TokenKind::ParenClose) {
            Err(e) => return Err(e),
            Ok(()) => {},
        }
        Ok(params)
    }

    /// Reads the node at the current position, or the error that stops it:
    /// `None` at the end of the tokens or at `}}`.
    fn try_parse_node(&mut self) -> (r: Option<Result<Node<'src>, ParseError<'src>>>)
        requires
            old(self).wf(),
        ensures
            final(self).wf(),
            final(self).tokens == old(self).tokens,
            final(self).nodes == old(self).nodes,
            final(self).src == old(self).src,
            match node_at(old(self).toks(), old(self).pos as int) {
                None => r is None && final(self).pos == old(self).pos,
                Some(Ok((n, j))) => r matches Some(Ok(x)) && x@ == n && final(self).pos == j,
                Some(Err(e)) => r matches Some(Err(x)) && x@ == e,
            },
        decreases old(self).tokens@.len() - old(self).pos, 3int,
    {
        match self.peek_kind() {
            None => None,
            Some(TokenKind::At) => match self.peek_next_kind() {
                Some(TokenKind::Ident(name)) => {
                    if crate::text::str_eq(name, "macro") {
                        Some(self.try_expect_macro())
                    } else if crate::text::str_eq(name, "call") && self.third_is_ident() {
                        Some(self.try_parse_call())
                    } else {
                        Some(self.try_parse_invoke())
                    }
                },
                _ => Some(Ok(self.parse_text())),
            },
            Some(TokenKind::Variable(_)) => Some(Ok(self.parse_text())),
            Some(TokenKind::BlockClose) => None,
            Some(_) => Some(Ok(self.parse_text())),
        }
    }

    /// Reads `@macro name($p, ...) {{ template }}`, or the error that stops it.
    fn try_expect_macro(&mut self) -> (r: Result<Node<'src>, ParseError<'src>>)
        requires
            old(self).wf(),
        ensures
            final(self).wf(),
            final(self).tokens == old(self).tokens,
            final(self).nodes == old(self).nodes,
            final(self).src == old(self).src,
            match macro_at(old(self).toks(), old(self).pos as int) {
                Ok((n, j)) => r matches Ok(x) && x@ == n && final(self).pos == j,
                Err(e) => r matches Err(x) && x@ == e,
            },
        decreases old(self).tokens@.len() - old(self).pos, 2int,
    {
        let ghost t = self.toks();
        match self.try_expect(TokenKind::At) {
            Err(e) => return Err(e),
            Ok(()) => {},
        }
        match self.try_expect(TokenKind::Ident("macro")) {
            Err(e) => return Err(e),
            Ok(()) => {},
        }
        let name = match self.try_expect_ident(IdentContext::AfterMacro) {
            Err(e) => return Err(e),
            Ok(name) => name,
        };
        let ghost i3 = self.pos as int;
        let params = match self.try_parse_params() {
            Err(e) => return Err(e),
            Ok(params) => params,
        };
        proof {
            lemma_params_at_bounds(t, i3);
        }
        let template = match self.try_parse_block() {
            Err(e) => return Err(e),
            Ok(template) => template,
        };
        let m = Macro { name, params, template };
        proof {
            lemma_node_view_macro(m);
        }
        Ok(Node::Macro(m))
    }

    /// Reads `@call name({{ arg }}, ...)`, or the error that stops it.
    fn try_parse_call(&mut self) -> (r: Result<Node<'src>, ParseError<'src>>)
        requires
            old(self).wf(),
        ensures
            final(self).wf(),
            final(self).tokens == old(self).tokens,
            final(self).nodes == old(self).nodes,
            final(self).src == old(self).src,
            match call_at(old(self).toks(), old(self).pos as int) {
                Ok((n, j)) => r matches Ok(x) && x@ == n && final(self).pos == j,
                Err(e) => r matches Err(x) && x@ == e,
            },
        decreases old(self).tokens@.len() - old(self).pos, 2int,
    {
        match self.try_expect(TokenKind::At) {
            Err(e) => return Err(e),
            Ok(()) => {},
        }
        match self.try_expect(TokenKind::Ident("call")) {
            Err(e) => return Err(e),
            Ok(()) => {},
        }
        let name = match self.try_expect_ident(IdentContext::AfterAt) {
            Err(e) => return Err(e),
            Ok(name) => name,
        };
        let args = match self.try_parse_args() {
            Err(e) => return Err(e),
            Ok(args) => args,
        };
        let c = Invokation { name, args };
        proof {
            lemma_node_view_invokation(c);
        }
        Ok(Node::Invokation(c))
    }

    /// Reads `@name({{ arg }}, ...)`, or the error that stops it.
    fn try_parse_invoke(&mut self) -> (r: Result<Node<'src>, ParseError<'src>>)
        requires
            old(self).wf(),
        ensures
            final(self).wf(),
            final(self).tokens == old(self).tokens,
            final(self).nodes == old(self).nodes,
            final(self).src == old(self).src,
            match invoke_at(old(self).toks(), old(self).pos as int) {
                Ok((n, j)) => r matches Ok(x) && x@ == n && final(self).pos == j,
                Err(e) => r matches Err(x) && x@ == e,
            },
        decreases old(self).tokens@.len() - old(self).pos, 2int,
    {
        match self.try_expect(TokenKind::At) {
            Err(e) => return Err(e),
            Ok(()) => {},
        }
        let name = match self.try_expect_ident(IdentContext::AfterAt) {
            Err(e) => return Err(e),
            Ok(name) => name,
        };
        let args = match self.try_parse_args() {
            Err(e) => return Err(e),
            Ok(args) => args,
        };
        let c = Invokation { name, args };
        proof {
            lemma_node_view_invokation(c);
        }
        Ok(Node::Invokation(c))
    }

    /// Reads the arguments of an invocation, or the error that stops them.
    fn try_parse_args(&mut self) -> (r: Result<Vec<Block<'src>>, ParseError<'src>>)
        requires
            old(self).wf(),
        ensures
            final(self).wf(),
            final(self).tokens == old(self).tokens,
            final(self).nodes == old(self).nodes,
            final(self).src == old(self).src,
            match args_at(old(self).toks(), old(self).pos as int) {
                Ok((a, j)) => r matches Ok(v) && blocks_view(v@) == a && final(self).pos == j,
                Err(e) => r matches Err(x) && x@ == e,
            },
        decreases old(self).tokens@.len() - old(self).pos, 1int,
    {
        let ghost t = self.toks();
        let mut args: Vec<Block<'src>> = Vec::new();
        match self.try_expect(TokenKind::ParenOpen) {
            Err(e) => return Err(e),
            Ok(()) => {},
        }
        let ghost start = self.pos as int;
        let n = self.tokens.len();
        assert(blocks_view(args@) =~= Seq::<Seq<SpecNode>>::empty());
        loop
            invariant
                self.wf(),
                self.tokens == old(self).tokens,
                self.nodes == old(self).nodes,
                self.src == old(self).src,
                t == self.toks(),
                n == t.len(),
                start <= self.pos,
                start == old(self).pos + 1,
                args_from(t, start, Seq::empty()) == args_from(t, self.pos as int, blocks_view(args@)),
                t == old(self).toks(),
                expect(t, old(self).pos as int, SpecTokenKind::ParenOpen) == Ok::<int, SpecParseError>(start),
            ensures
                args_from(t, start, Seq::empty()) == Ok::<(Seq<Seq<SpecNode>>, int), SpecParseError>((blocks_view(args@), self.pos as int)),
            decreases n - self.pos,
        {
            let next = self.peek_kind();
            if let Some(TokenKind::ParenClose) = next {
                break;
            }
            let ghost p0 = self.pos as int;
            let ghost before = args@;
            assert(peek(t, p0) != Some(SpecTokenKind::ParenClose));
            proof {
                lemma_block_at_advances(t, p0);
            }
            let block = match self.try_parse_block() {
                Err(e) => return Err(e),
                Ok(block) => block,
            };
            args.push(block);
            assert(blocks_view(args@) =~= blocks_view(before).push(nodes_view(block.nodes@)));
            if let Some(TokenKind::Comma) = self.peek_kind() {
                self.bump_kind();
            }
        }
        match self.try_expect(TokenKind::ParenClose) {
            Err(e) => return Err(e),
            Ok(()) => {},
        }
        Ok(args)
    }

    /// Reads `{{ nodes }}`, or the error that stops it.
    fn try_parse_block(&mut self) -> (r: Result<Block<'src>, ParseError<'src>>)
        requires
            old(self).wf(),
        ensures
            final(self).wf(),
            final(self).tokens == old(self).tokens,
            final(self).nodes == old(self).nodes,
            final(self).src == old(self).src,
            match block_at(old(self).toks(), old(self).pos as int) {
                Ok((b, j)) => r matches Ok(x) && x@ == b && final(self).pos == j,
                Err(e) => r matches Err(x) && x@ == e,
            },
        decreases old(self).tokens@.len() - old(self).pos, 1int,
    {
        let ghost t = self.toks();
        let mut block = Block { nodes: Vec::new() };
        match self.try_expect(TokenKind::BlockOpen) {
            Err(e) => return Err(e),
            Ok(()) => {},
        }
        let ghost start = self.pos as int;
        let n = self.tokens.len();
        assert(block@ =~= Seq::<SpecNode>::empty());
        loop
            invariant
                self.wf(),
                self.tokens == old(self).tokens,
                self.nodes == old(self).nodes,
                self.src == old(self).src,
                t == self.toks(),
                n == t.len(),
                start <= self.pos,
                start == old(self).pos + 1,
                block_from(t, start, Seq::empty()) == block_from(t, self.pos as int, block@),
                t == old(self).toks(),
                expect(t, old(self).pos as int, SpecTokenKind::BlockOpen) == Ok::<int, SpecParseError>(start),
            ensures
                block_from(t, start, Seq::empty()) == Ok::<(Seq<SpecNode>, int), SpecParseError>((block@, self.pos as int)),
            decreases n - self.pos,
        {
            let next = self.peek_kind();
            match next {
                None => break,
                Some(TokenKind::BlockClose) => break,
                Some(_) => {},
            }
            let ghost before = block@;
            assert(peek(t, self.pos as int) matches Some(k) && k != SpecTokenKind::BlockClose);
            proof {
                lemma_node_at_advances(t, self.pos as int);
            }
            match self.try_parse_node() {
                Some(Ok(node)) => {
                    block.nodes.push(node);
                    assert(block@ =~= before.push(node@));
                },
                Some(Err(e)) => return Err(e),
                None => {
                    assert(false);
                    break;
                },
            }
        }
        match self.try_expect(TokenKind::BlockClose) {
            Err(e) => return Err(e),
            Ok(()) => {},
        }
        Ok(block)
    }

    // The readers below take well-formed input: each one's precondition
    // says that the grammar reads its part of the tokens without error.

    /// Reads the token `expected`, which must come next.
    fn expect(&mut self, expected: TokenKind<'src>)
        requires
            old(self).wf(),
            peek(old(self).toks(), old(self).pos as int) == Some(expected@),
        ensures
            final(self).wf(),
            final(self).tokens == old(self).tokens,
            final(self).nodes == old(self).nodes,
            final(self).src == old(self).src,
            final(self).pos == old(self).pos + 1,
    {
        if !self.eat(expected) {
            // Ruled out by the precondition: here the parse stops.
            let got = self.peek_kind();
            let _stop = self.error(ParseErrorKind::ExpectedToken { expected, got });
        }
    }

    /// Reads the identifier that must come next.
    fn expect_ident(&mut self, context: IdentContext) -> (name: &'src str)
        requires
            old(self).wf(),
            peek(old(self).toks(), old(self).pos as int) matches Some(SpecTokenKind::Ident(_)),
        ensures
            final(self).wf(),
            final(self).tokens == old(self).tokens,
            final(self).nodes == old(self).nodes,
            final(self).src == old(self).src,
            peek(old(self).toks(), old(self).pos as int) == Some(SpecTokenKind::Ident(name@)),
            final(self).pos == old(self).pos + 1,
    {
        match self.bump_kind() {
            Some(TokenKind::Ident(name)) => name,
            other => {
                // Ruled out by the precondition: here the parse stops.
                let _stop = self.error(ParseErrorKind::ExpectedIdentifier { context, got: other });
                ""
            },
        }
    }

    /// Reads the parameters of a macro definition, which must be well formed.
    fn parse_params(&mut self) -> (params: Vec<Variable<'src>>)
        requires
            old(self).wf(),
            params_at(old(self).toks(), old(self).pos as int) is Ok,
        ensures
            final(self).wf(),
            final(self).tokens == old(self).tokens,
            final(self).nodes == old(self).nodes,
            final(self).src == old(self).src,
            params_at(old(self).toks(), old(self).pos as int)
                == Ok::<(Seq<Seq<char>>, int), SpecParseError>((names_view(params@), final(self).pos as int)),
    {
        match self.try_parse_params() {
            Ok(params) => params,
            // Ruled out by the precondition.
            Err(_) => Vec::new(),
        }
    }

    /// Reads the arguments of an invocation, which must be well formed.
    fn parse_args(&mut self) -> (args: Vec<Block<'src>>)
        requires
            old(self).wf(),
            args_at(old(self).toks(), old(self).pos as int) is Ok,
        ensures
            final(self).wf(),
            final(self).tokens == old(self).tokens,
            final(self).nodes == old(self).nodes,
            final(self).src == old(self).src,
            args_at(old(self).toks(), old(self).pos as int)
                == Ok::<(Seq<Seq<SpecNode>>, int), SpecParseError>((blocks_view(args@), final(self).pos as int)),
    {
        match self.try_parse_args() {
            Ok(args) => args,
            // Ruled out by the precondition.
            Err(_) => Vec::new(),
        }
    }

    /// Reads `{{ nodes }}`, which must be well formed.
    fn parse_block(&mut self) -> (block: Block<'src>)
        requires
            old(self).wf(),
            block_at(old(self).toks(), old(self).pos as int) is Ok,
        ensures
            final(self).wf(),
            final(self).tokens == old(self).tokens,
            final(self).nodes == old(self).nodes,
            final(self).src == old(self).src,
            block_at(old(self).toks(), old(self).pos as int)
                == Ok::<(Seq<SpecNode>, int), SpecParseError>((block@, final(self).pos as int)),
    {
        match self.try_parse_block() {
            Ok(block) => block,
            // Ruled out by the precondition.
            Err(_) => Block { nodes: Vec::new() },
        }
    }

    /// Reads `@macro name($p, ...) {{ template }}`, which must be well formed.
    fn expect_macro(&mut self) -> (n: Node<'src>)
        requires
            old(self).wf(),
            macro_at(old(self).toks(), old(self).pos as int) is Ok,
        ensures
            final(self).wf(),
            final(self).tokens == old(self).tokens,
            final(self).nodes == old(self).nodes,
            final(self).src == old(self).src,
            macro_at(old(self).toks(), old(self).pos as int)
                == Ok::<(SpecNode, int), SpecParseError>((n@, final(self).pos as int)),
    {
        self.expect(TokenKind::At);
        self.expect(TokenKind::Ident("macro"));
        let name = self.expect_ident(IdentContext::AfterMacro);
        let params = self.parse_params();
        let template = self.parse_block();
        let m = Macro { name, params, template };
        proof {
            lemma_node_view_macro(m);
        }
        Node::Macro(m)
    }

    /// Reads `@call name({{ arg }}, ...)`, which must be well formed.
    fn parse_call(&mut self) -> (n: Node<'src>)
        requires
            old(self).wf(),
            call_at(old(self).toks(), old(self).pos as int) is Ok,
        ensures
            final(self).wf(),
            final(self).tokens == old(self).tokens,
            final(self).nodes == old(self).nodes,
            final(self).src == old(self).src,
            call_at(old(self).toks(), old(self).pos as int)
                == Ok::<(SpecNode, int), SpecParseError>((n@, final(self).pos as int)),
    {
        self.expect(TokenKind::At);
        self.expect(TokenKind::Ident("call"));
        let name = self.expect_ident(IdentContext::AfterAt);
        let args = self.parse_args();
        let c = Invokation { name, args };
        proof {
            lemma_node_view_invokation(c);
        }
        Node::Invokation(c)
    }

    /// Reads `@name({{ arg }}, ...)`, which must be well formed.
    fn parse_invoke(&mut self) -> (n: Node<'src>)
        requires
            old(self).wf(),
            invoke_at(old(self).toks(), old(self).pos as int) is Ok,
        ensures
            final(self).wf(),
            final(self).tokens == old(self).tokens,
            final(self).nodes == old(self).nodes,
            final(self).src == old(self).src,
            invoke_at(old(self).toks(), old(self).pos as int)
                == Ok::<(SpecNode, int), SpecParseError>((n@, final(self).pos as int)),
    {
        self.expect(TokenKind::At);
        let name = self.expect_ident(IdentContext::AfterAt);
        let args = self.parse_args();
        let c = Invokation { name, args };
        proof {
            lemma_node_view_invokation(c);
        }
        Node::Invokation(c)
    }

    /// Reads the node at the current position, which must be well formed:
    /// `None` at the end of the tokens or at `}}`.
    fn parse_node(&mut self) -> (r: Option<Node<'src>>)
        requires
            old(self).wf(),
            !(node_at(old(self).toks(), old(self).pos as int) matches Some(Err(_))),
        ensures
            final(self).wf(),
            final(self).tokens == old(self).tokens,
            final(self).nodes == old(self).nodes,
            final(self).src == old(self).src,
            match node_at(old(self).toks(), old(self).pos as int) {
                None => r is None && final(self).pos == old(self).pos,
                Some(Ok((n, j))) => r matches Some(x) && x@ == n && final(self).pos == j,
                Some(Err(_)) => true,
            },
    {
        match self.peek_kind() {
            None => None,
            Some(TokenKind::At) => match self.peek_next_kind() {
                Some(TokenKind::Ident(name)) => {
                    if crate::text::str_eq(name, "macro") {
                        Some(self.expect_macro())
                    } else if crate::text::str_eq(name, "call") && self.third_is_ident() {
                        Some(self.parse_call())
                    } else {
                        Some(self.parse_invoke())
                    }
                },
                _ => Some(self.parse_text()),
            },
            Some(TokenKind::BlockClose) => None,
            Some(_) => Some(self.parse_text()),
        }
    }

    /// Reads the whole document, which must be one.
    pub fn parse(self) -> (ast: Ast<'src>)
        requires
            self.wf(),
            parse_from(self.toks(), self.position(), self.parsed()) is Ok,
        ensures
            parse_from(self.toks(), self.position(), self.parsed()) == Ok::<Seq<SpecNode>, SpecParseError>(ast@),
    {
        let mut parser = self;
        let ghost t = parser.toks();
        let ghost start = parser.pos as int;
        let ghost acc0 = parser.parsed();
        let n = parser.tokens.len();
        loop
            invariant
                parser.wf(),
                t == parser.toks(),
                n == t.len(),
                t == self.toks(),
                start == self.position(),
                acc0 == self.parsed(),
                parse_from(t, start, acc0) == parse_from(t, parser.pos as int, parser.parsed()),
                parse_from(t, start, acc0) is Ok,
            ensures
                parse_from(t, start, acc0) == Ok::<Seq<SpecNode>, SpecParseError>(parser.parsed()),
            decreases n - parser.pos,
        {
            let ghost before = parser.parsed();
            let ghost p0 = parser.pos as int;
            proof {
                lemma_node_at_advances(t, p0);
            }
            match parser.parse_node() {
                None => {
                    assert(parse_from(t, p0, before) == Ok::<Seq<SpecNode>, SpecParseError>(before));
                    break;
                },
                Some(node) => {
                    parser.nodes.push(node);
                    assert(parser.parsed() =~= before.push(node@));
                },
            }
        }
        Ast { nodes: parser.nodes }
    }

    /// Reads the whole document, or says why the tokens are not one.
    pub fn try_parse(self) -> (r: Result<Ast<'src>, ParseError<'src>>)
        requires
            self.wf(),
        ensures
            match parse_from(self.toks(), self.position(), self.parsed()) {
                Ok(nodes) => r matches Ok(ast) && ast@ == nodes,
                Err(e) => r matches Err(err) && err@ == e,
            },
    {
        let mut parser = self;
        let ghost t = parser.toks();
        let ghost start = parser.pos as int;
        let ghost acc0 = parser.parsed();
        let n = parser.tokens.len();
        loop
            invariant_except_break
                parse_from(t, start, acc0) == parse_from(t, parser.pos as int, parser.parsed()),
            invariant
                parser.wf(),
                t == parser.toks(),
                n == t.len(),
                t == self.toks(),
                start == self.position(),
                acc0 == self.parsed(),
            ensures
                parse_from(t, start, acc0) == Ok::<Seq<SpecNode>, SpecParseError>(parser.parsed()),
            decreases n - parser.pos,
        {
            let ghost before = parser.parsed();
            let ghost p0 = parser.pos as int;
            proof {
                lemma_node_at_advances(t, p0);
            }
            match parser.try_parse_node() {
                None => {
                    assert(parse_from(t, p0, before) == Ok::<Seq<SpecNode>, SpecParseError>(before));
                    break;
                },
                Some(Err(e)) => return Err(e),
                Some(Ok(node)) => {
                    parser.nodes.push(node);
                    assert(parser.parsed() =~= before.push(node@));
                },
            }
        }
        Ok(Ast { nodes: parser.nodes })
    }
}

} // verus!
