//! Evaluating a syntax tree to text.
use vstd::prelude::*;
use vstd::string::StringExecFns;
use crate::ast::{nodes_view, names_view, Ast, Block, Invokation, Macro, Node, SpecNode, Variable};
use crate::text::str_eq;

verus! {

/// A macro as the evaluator sees it: its parameter names and its template.
pub struct SpecMacro {
    pub params: Seq<Seq<char>>,
    pub template: Seq<SpecNode>,
}

/// What one scope defines: macros in the order of their definitions, and
/// variables bound to argument blocks.
pub struct Frame {
    pub macros: Seq<(Seq<char>, SpecMacro)>,
    pub vars: Seq<(Seq<char>, Seq<SpecNode>)>,
}

/// Why evaluation fails.
#[derive(Debug, Clone, Copy, PartialEq, Eq)]
pub enum EvalError<'src> {
    /// A macro was invoked that no enclosing scope defines.
    UndefinedMacro(&'src str),
    /// A variable was used that no enclosing scope binds.
    UndefinedVariable(&'src str),
    /// Macro invocations and variable expansions nested deeper than the
    /// evaluator's depth bound.
    DepthExceeded,
}

pub enum SpecEvalError {
    UndefinedMacro(Seq<char>),
    UndefinedVariable(Seq<char>),
    DepthExceeded,
}

impl<'src> View for EvalError<'src> {
    type V = SpecEvalError;

    open spec fn view(&self) -> SpecEvalError {
        match *self {
            EvalError::UndefinedMacro(n) => SpecEvalError::UndefinedMacro(n@),
            EvalError::UndefinedVariable(n) => SpecEvalError::UndefinedVariable(n@),
            EvalError::DepthExceeded => SpecEvalError::DepthExceeded,
        }
    }
}

/// The latest definition of `name` in a list of definitions.
pub open spec fn find_last<T>(list: Seq<(Seq<char>, T)>, name: Seq<char>) -> Option<T>
    decreases list.len(),
{
    if list.len() == 0 {
        None
    } else if list.last().0 == name {
        Some(list.last().1)
    } else {
        find_last(list.drop_last(), name)
    }
}

/// The macro `name` as seen from the innermost scope of `env`: the scope's
/// own latest definition, else that of the enclosing scope, and so on.
pub open spec fn lookup_macro(env: Seq<Frame>, name: Seq<char>) -> Option<SpecMacro>
    decreases env.len(),
{
    if env.len() == 0 {
        None
    } else {
        match find_last(env.last().macros, name) {
            Some(m) => Some(m),
            None => lookup_macro(env.drop_last(), name),
        }
    }
}

/// The block bound to variable `name` as seen from the innermost scope.
pub open spec fn lookup_var(env: Seq<Frame>, name: Seq<char>) -> Option<Seq<SpecNode>>
    decreases env.len(),
{
    if env.len() == 0 {
        None
    } else {
        match find_last(env.last().vars, name) {
            Some(b) => Some(b),
            None => lookup_var(env.drop_last(), name),
        }
    }
}

/// `env` with macro `name` defined in its innermost scope.
pub open spec fn define(env: Seq<Frame>, name: Seq<char>, m: SpecMacro) -> Seq<Frame> {
    if env.len() == 0 {
        seq![Frame { macros: seq![(name, m)], vars: Seq::empty() }]
    } else {
        env.drop_last().push(Frame { macros: env.last().macros.push((name, m)), vars: env.last().vars })
    }
}

/// Parameters bound pairwise to arguments; extra parameters or arguments
/// are left out.
pub open spec fn bind(params: Seq<Seq<char>>, args: Seq<Seq<SpecNode>>) -> Seq<(Seq<char>, Seq<SpecNode>)> {
    let n = if params.len() <= args.len() { params.len() } else { args.len() };
    Seq::new(n, |i: int| (params[i], args[i]))
}

pub open spec fn empty_frame() -> Frame {
    Frame { macros: Seq::empty(), vars: Seq::empty() }
}

/// `out` followed by the output of `r`, if `r` succeeded.
pub open spec fn prepend(out: Seq<char>, r: Result<Seq<char>, SpecEvalError>) -> Result<Seq<char>, SpecEvalError> {
    match r {
        Ok(rest) => Ok(out + rest),
        Err(e) => Err(e),
    }
}

/// The scopes after a node: a macro definition adds the macro to the
/// innermost scope; other nodes leave the scopes as they are.
pub open spec fn node_env(n: SpecNode, env: Seq<Frame>) -> Seq<Frame> {
    match n {
        SpecNode::Macro { name, params, template } => define(env, name, SpecMacro { params, template }),
        _ => env,
    }
}

/// The output of one node in the scopes `env`, with at most `depth` nested
/// macro invocations and variable expansions.
///
/// A macro definition writes nothing; text is written as it is; an
/// invocation evaluates the macro's template in a new scope, inside the
/// current one, where the parameters are bound to the argument blocks; a
/// variable evaluates its block in a new empty scope inside the current one.
pub open spec fn node_output(depth: nat, n: SpecNode, env: Seq<Frame>) -> Result<Seq<char>, SpecEvalError>
    decreases depth, 0int,
{
    match n {
        SpecNode::Macro { .. } => Ok(Seq::empty()),
        SpecNode::Text(s) => Ok(s),
        SpecNode::Invokation { name, args } => match lookup_macro(env, name) {
            None => Err(SpecEvalError::UndefinedMacro(name)),
            Some(m) => if depth == 0 {
                Err(SpecEvalError::DepthExceeded)
            } else {
                eval_nodes(
                    (depth - 1) as nat,
                    m.template,
                    0,
                    env.push(Frame { macros: Seq::empty(), vars: bind(m.params, args) }),
                )
            },
        },
        SpecNode::Variable(name) => match lookup_var(env, name) {
            None => Err(SpecEvalError::UndefinedVariable(name)),
            Some(b) => if depth == 0 {
                Err(SpecEvalError::DepthExceeded)
            } else {
                eval_nodes((depth - 1) as nat, b, 0, env.push(empty_frame()))
            },
        },
    }
}

/// The output of `nodes[i..]` evaluated one after the other, each in the
/// scopes that the nodes before it left; the first failure stops evaluation.
pub open spec fn eval_nodes(depth: nat, nodes: Seq<SpecNode>, i: int, env: Seq<Frame>) -> Result<Seq<char>, SpecEvalError>
    decreases depth, nodes.len() - i + 1,
{
    if i < 0 || i >= nodes.len() {
        Ok(Seq::empty())
    } else {
        match node_output(depth, nodes[i], env) {
            Err(e) => Err(e),
            Ok(out) => prepend(out, eval_nodes(depth, nodes, i + 1, node_env(nodes[i], env))),
        }
    }
}

/// The scopes after `nodes[i..]` have been evaluated: the macros they
/// define are added to the innermost scope, in order.
pub open spec fn env_after(nodes: Seq<SpecNode>, i: int, env: Seq<Frame>) -> Seq<Frame>
    decreases nodes.len() - i,
{
    if i < 0 || i >= nodes.len() {
        env
    } else {
        env_after(nodes, i + 1, node_env(nodes[i], env))
    }
}

/// The bound on nesting that the evaluator works with.
pub open spec fn max_depth() -> nat {
    u64::MAX as nat
}

/// The output of a document.
pub open spec fn spec_eval(nodes: Seq<SpecNode>) -> Result<Seq<char>, SpecEvalError> {
    eval_nodes(max_depth(), nodes, 0, seq![empty_frame()])
}


/// The depth bound does not change a result that it does not cut short: if
/// evaluating with bound `d` does not fail for lack of depth, evaluating
/// with any larger bound gives the same result.
pub proof fn law_depth_bound_irrelevant(d: nat, d2: nat, nodes: Seq<SpecNode>, i: int, env: Seq<Frame>)
    requires
        d <= d2,
        eval_nodes(d, nodes, i, env) != Err::<Seq<char>, SpecEvalError>(SpecEvalError::DepthExceeded),
    ensures
        eval_nodes(d2, nodes, i, env) == eval_nodes(d, nodes, i, env),
    decreases d, nodes.len() - i + 1,
{
    if 0 <= i < nodes.len() {
        let r = node_output(d, nodes[i], env);
        if r != Err::<Seq<char>, SpecEvalError>(SpecEvalError::DepthExceeded) {
            lemma_node_output_depth(d, d2, nodes[i], env);
        }
        if let Ok(out) = r {
            let rest = eval_nodes(d, nodes, i + 1, node_env(nodes[i], env));
            if rest != Err::<Seq<char>, SpecEvalError>(SpecEvalError::DepthExceeded) {
                law_depth_bound_irrelevant(d, d2, nodes, i + 1, node_env(nodes[i], env));
            }
        }
    }
}

/// A document is evaluated as deep as it needs: whatever nesting bound up
/// to `u64::MAX` (far more nested expansions than any stack holds) lets a
/// document evaluate without running out of depth, `spec_eval` gives the
/// same result, and `spec_eval` runs out of depth only where every such
/// bound does.
pub proof fn law_evaluation_is_unbounded(d: nat, nodes: Seq<SpecNode>)
    requires
        d <= u64::MAX,
    ensures
        eval_nodes(d, nodes, 0, seq![empty_frame()]) != Err::<Seq<char>, SpecEvalError>(SpecEvalError::DepthExceeded)
            ==> spec_eval(nodes) == eval_nodes(d, nodes, 0, seq![empty_frame()]),
        spec_eval(nodes) == Err::<Seq<char>, SpecEvalError>(SpecEvalError::DepthExceeded)
            ==> eval_nodes(d, nodes, 0, seq![empty_frame()]) == Err::<Seq<char>, SpecEvalError>(SpecEvalError::DepthExceeded),
{
    if eval_nodes(d, nodes, 0, seq![empty_frame()]) != Err::<Seq<char>, SpecEvalError>(SpecEvalError::DepthExceeded) {
        law_depth_bound_irrelevant(d, max_depth(), nodes, 0, seq![empty_frame()]);
    }
}

/// The same for the output of a single node.
pub proof fn lemma_node_output_depth(d: nat, d2: nat, n: SpecNode, env: Seq<Frame>)
    requires
        d <= d2,
        node_output(d, n, env) != Err::<Seq<char>, SpecEvalError>(SpecEvalError::DepthExceeded),
    ensures
        node_output(d2, n, env) == node_output(d, n, env),
    decreases d, 0int,
{
    match n {
        SpecNode::Invokation { name, args } => match lookup_macro(env, name) {
            Some(m) => if d > 0 {
                law_depth_bound_irrelevant(
                    (d - 1) as nat,
                    (d2 - 1) as nat,
                    m.template,
                    0,
                    env.push(Frame { macros: Seq::empty(), vars: bind(m.params, args) }),
                );
            },
            None => {},
        },
        SpecNode::Variable(name) => match lookup_var(env, name) {
            Some(b) => if d > 0 {
                law_depth_bound_irrelevant((d - 1) as nat, (d2 - 1) as nat, b, 0, env.push(empty_frame()));
            },
            None => {},
        },
        _ => {},
    }
}

/// A macro just defined is the one that its name finds, whatever the
/// scopes held before.
pub proof fn law_definition_found(env: Seq<Frame>, name: Seq<char>, m: SpecMacro)
    ensures
        lookup_macro(define(env, name, m), name) == Some(m),
{
    let e2 = define(env, name, m);
    assert(e2.last().macros.last() == (name, m));
}

/// Defining a macro leaves every other name as it was.
pub proof fn law_definition_keeps_others(env: Seq<Frame>, name: Seq<char>, m: SpecMacro, other: Seq<char>)
    requires
        other != name,
    ensures
        lookup_macro(define(env, name, m), other) == lookup_macro(env, other),
{
    let e2 = define(env, name, m);
    if env.len() == 0 {
        assert(e2.last().macros.drop_last() =~= Seq::<(Seq<char>, SpecMacro)>::empty());
        assert(e2.drop_last() =~= Seq::<Frame>::empty());
        assert(find_last(e2.last().macros, other) == find_last(
            Seq::<(Seq<char>, SpecMacro)>::empty(),
            other,
        ));
        assert(lookup_macro(e2, other) == lookup_macro(Seq::<Frame>::empty(), other));
    } else {
        assert(e2.last().macros.drop_last() =~= env.last().macros);
        assert(e2.drop_last() =~= env.drop_last());
        assert(find_last(e2.last().macros, other) == find_last(env.last().macros, other));
    }
}

/// A definition followed by an invocation of the same name writes the
/// macro's template, evaluated one level deeper in a new scope where each
/// parameter is bound to the argument at its position.
pub proof fn law_invocation_expands(
    d: nat,
    env: Seq<Frame>,
    name: Seq<char>,
    params: Seq<Seq<char>>,
    template: Seq<SpecNode>,
    args: Seq<Seq<SpecNode>>,
)
    requires
        d > 0,
    ensures
        ({
            let m = SpecMacro { params, template };
            let doc = seq![SpecNode::Macro { name, params, template }, SpecNode::Invokation { name, args }];
            eval_nodes(d, doc, 0, env) == eval_nodes(
                (d - 1) as nat,
                template,
                0,
                define(env, name, m).push(Frame { macros: Seq::empty(), vars: bind(params, args) }),
            )
        }),
{
    let m = SpecMacro { params, template };
    let doc = seq![SpecNode::Macro { name, params, template }, SpecNode::Invokation { name, args }];
    let e1 = define(env, name, m);
    law_definition_found(env, name, m);
    assert(doc[0] == SpecNode::Macro { name, params, template });
    assert(doc[1] == SpecNode::Invokation { name, args });
    assert(node_env(doc[0], env) == e1);
    assert(eval_nodes(d, doc, 2, node_env(doc[1], e1)) == Ok::<Seq<char>, SpecEvalError>(Seq::empty()));
    let inner = eval_nodes(
        (d - 1) as nat,
        template,
        0,
        e1.push(Frame { macros: Seq::empty(), vars: bind(params, args) }),
    );
    assert(node_output(d, doc[0], env) == Ok::<Seq<char>, SpecEvalError>(Seq::empty()));
    assert(node_output(d, doc[1], e1) == inner);
    assert(node_env(doc[1], e1) == e1);
    assert(eval_nodes(d, doc, 0, env) == prepend(Seq::empty(), eval_nodes(d, doc, 1, e1)));
    match inner {
        Ok(out) => {
            assert(eval_nodes(d, doc, 1, e1) == prepend(out, eval_nodes(d, doc, 2, e1)));
            assert(out + Seq::<char>::empty() =~= out);
            assert(Seq::<char>::empty() + out =~= out);
        },
        Err(e) => {
            assert(eval_nodes(d, doc, 1, e1) == Err::<Seq<char>, SpecEvalError>(e));
        },
    }
}

/// Inside a macro's template, a parameter stands for the argument at its
/// position (the last such position, when a name is repeated).
pub proof fn law_parameter_bound_to_argument(
    env: Seq<Frame>,
    params: Seq<Seq<char>>,
    args: Seq<Seq<SpecNode>>,
    i: int,
)
    requires
        0 <= i < params.len(),
        i < args.len(),
        forall|j: int| i < j < params.len() && j < args.len() ==> params[j] != params[i],
    ensures
        lookup_var(env.push(Frame { macros: Seq::empty(), vars: bind(params, args) }), params[i]) == Some(args[i]),
{
    let vars = bind(params, args);
    let env2 = env.push(Frame { macros: Seq::empty(), vars });
    assert(env2.last().vars == vars);
    lemma_find_last_bind(params, args, i, vars.len() as int);
    assert(vars.take(vars.len() as int) =~= vars);
}

proof fn lemma_find_last_bind(params: Seq<Seq<char>>, args: Seq<Seq<SpecNode>>, i: int, k: int)
    requires
        0 <= i < k <= bind(params, args).len(),
        forall|j: int| i < j < params.len() && j < args.len() ==> params[j] != params[i],
    ensures
        find_last(bind(params, args).take(k), params[i]) == Some(args[i]),
    decreases k,
{
    let vars = bind(params, args);
    let pre = vars.take(k);
    assert(pre.last() == vars[k - 1]);
    if k - 1 > i {
        assert(pre.drop_last() =~= vars.take(k - 1));
        lemma_find_last_bind(params, args, i, k - 1);
    }
}

/// Evaluating two sequences of nodes one after the other writes the output
/// of the first, then that of the second in the scopes the first left; the
/// first failure stops evaluation.
pub proof fn law_eval_concat(d: nat, a: Seq<SpecNode>, b: Seq<SpecNode>, env: Seq<Frame>)
    ensures
        eval_nodes(d, a + b, 0, env) == match eval_nodes(d, a, 0, env) {
            Err(e) => Err(e),
            Ok(x) => prepend(x, eval_nodes(d, b, 0, env_after(a, 0, env))),
        },
{
    lemma_eval_concat_from(d, a, b, 0, env);
}

proof fn lemma_eval_concat_from(d: nat, a: Seq<SpecNode>, b: Seq<SpecNode>, i: int, env: Seq<Frame>)
    requires
        0 <= i <= a.len(),
    ensures
        eval_nodes(d, a + b, i, env) == match eval_nodes(d, a, i, env) {
            Err(e) => Err(e),
            Ok(x) => prepend(x, eval_nodes(d, b, 0, env_after(a, i, env))),
        },
    decreases a.len() - i,
{
    lemma_eval_shift(d, a, b, 0, env);
    if i < a.len() {
        assert((a + b)[i] == a[i]);
        let env2 = node_env(a[i], env);
        lemma_eval_concat_from(d, a, b, i + 1, env2);
        match node_output(d, a[i], env) {
            Err(_) => {},
            Ok(out) => {
                match eval_nodes(d, a, i + 1, env2) {
                    Err(_) => {},
                    Ok(x) => {
                        match eval_nodes(d, b, 0, env_after(a, i + 1, env2)) {
                            Err(_) => {},
                            Ok(y) => {
                                assert(out + (x + y) =~= (out + x) + y);
                            },
                        }
                    },
                }
            },
        }
    } else {
        let r = eval_nodes(d, b, 0, env);
        match r {
            Ok(y) => {
                assert(Seq::<char>::empty() + y =~= y);
            },
            Err(_) => {},
        }
    }
}

/// Evaluating `(a + b)[a.len() + j..]` is evaluating `b[j..]`.
proof fn lemma_eval_shift(d: nat, a: Seq<SpecNode>, b: Seq<SpecNode>, j: int, env: Seq<Frame>)
    requires
        0 <= j <= b.len(),
    ensures
        forall|e: Seq<Frame>| #[trigger] eval_nodes(d, a + b, a.len() + j, e) == eval_nodes(d, b, j, e),
    decreases b.len() - j,
{
    assert forall|e: Seq<Frame>| #[trigger] eval_nodes(d, a + b, a.len() + j, e) == eval_nodes(d, b, j, e) by {
        if j < b.len() {
            assert((a + b)[a.len() + j] == b[j]);
            lemma_eval_shift(d, a, b, j + 1, e);
            assert(eval_nodes(d, a + b, a.len() + j + 1, node_env(b[j], e)) == eval_nodes(d, b, j + 1, node_env(b[j], e)));
        }
    }
}

/// A list of named entries, with each name as characters.
pub open spec fn named<T>(list: Seq<(&str, T)>) -> Seq<(Seq<char>, T)> {
    list.map_values(|d: (&str, T)| (d.0@, d.1))
}

/// Looking a name up commutes with mapping the entries.
pub proof fn lemma_find_last_map<T, U>(list: Seq<(Seq<char>, T)>, f: spec_fn(T) -> U, name: Seq<char>)
    ensures
        find_last(list.map_values(|d: (Seq<char>, T)| (d.0, f(d.1))), name) == match find_last(list, name) {
            Some(x) => Some(f(x)),
            None => None,
        },
    decreases list.len(),
{
    let mapped = list.map_values(|d: (Seq<char>, T)| (d.0, f(d.1)));
    if list.len() > 0 {
        assert(mapped.drop_last() =~= list.drop_last().map_values(|d: (Seq<char>, T)| (d.0, f(d.1))));
        lemma_find_last_map(list.drop_last(), f, name);
    }
}

/// The latest entry of `list` named `name`.
fn latest<'src, T: Copy>(list: &Vec<(&'src str, T)>, name: &str) -> (r: Option<T>)
    ensures
        r == find_last(named(list@), name@),
{
    let ghost defs = named(list@);
    let mut i = list.len();
    assert(defs.take(i as int) =~= defs);
    while i > 0
        invariant
            i <= list@.len(),
            defs == named(list@),
            find_last(defs, name@) == find_last(defs.take(i as int), name@),
        decreases i,
    {
        let ghost prefix = defs.take(i as int);
        assert(prefix.drop_last() =~= defs.take(i - 1));
        if str_eq(list[i - 1].0, name) {
            return Some(list[i - 1].1);
        }
        i = i - 1;
    }
    None
}

/// What the evaluator knows of a macro definition.
pub open spec fn macro_view(m: Macro) -> SpecMacro {
    SpecMacro { params: names_view(m.params@), template: nodes_view(m.template.nodes@) }
}

/// A scope: the nodes it evaluates, the macros defined and the variables
/// bound in it, and the enclosing scope.
pub struct Scope<'a, 'src> {
    parent: Option<&'a Scope<'a, 'src>>,
    nodes: &'a Vec<Node<'src>>,
    macros: Vec<(&'src str, &'a Macro<'src>)>,
    variables: Vec<(&'src str, &'a Block<'src>)>,
}

/// The definitions of one scope.
pub closed spec fn frame_of(s: Scope) -> Frame {
    Frame {
        macros: s.macros@.map_values(|d: (&str, &Macro)| (d.0@, macro_view(*d.1))),
        vars: s.variables@.map_values(|d: (&str, &Block)| (d.0@, nodes_view(d.1.nodes@))),
    }
}

/// The definitions of a scope and of those that enclose it, outermost first.
pub closed spec fn frames(s: Scope) -> Seq<Frame>
    decreases s,
{
    match s.parent {
        None => seq![frame_of(s)],
        Some(p) => frames(*p).push(frame_of(s)),
    }
}


proof fn lemma_frames_last(s: Scope)
    ensures
        frames(s).len() >= 1,
        frames(s).last() == frame_of(s),
        frames(s).drop_last() == match s.parent {
            None => Seq::<Frame>::empty(),
            Some(p) => frames(*p),
        },
{
    match s.parent {
        None => {
            assert(seq![frame_of(s)].drop_last() =~= Seq::<Frame>::empty());
        },
        Some(p) => {
            assert(frames(*p).push(frame_of(s)).drop_last() =~= frames(*p));
        },
    }
}

impl<'a, 'src> Scope<'a, 'src> {
    /// The nodes this scope evaluates.
    pub closed spec fn body(&self) -> Seq<SpecNode> {
        nodes_view(self.nodes@)
    }

    /// The scopes as seen from this one, outermost first.
    pub closed spec fn env(&self) -> Seq<Frame> {
        frames(*self)
    }

    /// A scope for `block`, inside `parent`.
    pub fn new(block: &'a Block<'src>, parent: &'a Scope<'a, 'src>) -> (s: Self)
        ensures
            s.body() == block@,
            s.env() == parent.env().push(empty_frame()),
    {
        let s = Scope { parent: Some(parent), nodes: &block.nodes, macros: Vec::new(), variables: Vec::new() };
        assert(frame_of(s).macros =~= Seq::<(Seq<char>, SpecMacro)>::empty());
        assert(frame_of(s).vars =~= Seq::<(Seq<char>, Seq<SpecNode>)>::empty());
        s
    }

    /// The outermost scope, for `block`.
    pub fn new_root(block: &'a Block<'src>) -> (s: Self)
        ensures
            s.body() == block@,
            s.env() == seq![empty_frame()],
    {
        Self::over_nodes(&block.nodes)
    }

    fn over_nodes(nodes: &'a Vec<Node<'src>>) -> (s: Self)
        ensures
            s.body() == nodes_view(nodes@),
            s.env() == seq![empty_frame()],
    {
        let s = Scope { parent: None, nodes, macros: Vec::new(), variables: Vec::new() };
        assert(frame_of(s).macros =~= Seq::<(Seq<char>, SpecMacro)>::empty());
        assert(frame_of(s).vars =~= Seq::<(Seq<char>, Seq<SpecNode>)>::empty());
        s
    }

    /// The latest macro `name` defined in this scope itself.
    fn own_macro(&self, name: &str) -> (r: Option<&'a Macro<'src>>)
        ensures
            match r {
                Some(m) => find_last(frame_of(*self).macros, name@) == Some(macro_view(*m)),
                None => find_last(frame_of(*self).macros, name@) is None,
            },
    {
        let r = latest(&self.macros, name);
        proof {
            let f = |m: &Macro| macro_view(*m);
            lemma_find_last_map(named(self.macros@), f, name@);
            assert(named(self.macros@).map_values(|d: (Seq<char>, &Macro)| (d.0, f(d.1)))
                =~= frame_of(*self).macros);
        }
        r
    }

    /// The latest variable `name` bound in this scope itself.
    fn own_variable(&self, name: &str) -> (r: Option<&'a Block<'src>>)
        ensures
            match r {
                Some(b) => find_last(frame_of(*self).vars, name@) == Some(nodes_view(b.nodes@)),
                None => find_last(frame_of(*self).vars, name@) is None,
            },
    {
        let r = latest(&self.variables, name);
        proof {
            let f = |b: &Block| nodes_view(b.nodes@);
            lemma_find_last_map(named(self.variables@), f, name@);
            assert(named(self.variables@).map_values(|d: (Seq<char>, &Block)| (d.0, f(d.1)))
                =~= frame_of(*self).vars);
        }
        r
    }

    /// The macro `name` as seen from this scope, which must define it.
    pub fn get_macro(&self, name: &str) -> (m: &'a Macro<'src>)
        requires
            lookup_macro(self.env(), name@) is Some,
        ensures
            lookup_macro(self.env(), name@) == Some(macro_view(*m)),
    {
        self.find_macro(name).unwrap()
    }

    /// The macro `name` as seen from this scope, if any.
    pub fn find_macro(&self, name: &str) -> (r: Option<&'a Macro<'src>>)
        ensures
            match r {
                Some(m) => lookup_macro(self.env(), name@) == Some(macro_view(*m)),
                None => lookup_macro(self.env(), name@) is None,
            },
        decreases *self,
    {
        proof {
            lemma_frames_last(*self);
        }
        let ghost env = self.env();
        assert(lookup_macro(env, name@) == match find_last(env.last().macros, name@) {
            Some(m) => Some(m),
            None => lookup_macro(env.drop_last(), name@),
        });
        match self.own_macro(name) {
            Some(m) => Some(m),
            None => match self.parent {
                Some(parent) => parent.find_macro(name),
                None => {
                    assert(lookup_macro(Seq::<Frame>::empty(), name@) is None);
                    None
                },
            },
        }
    }

    /// The block bound to `variable` as seen from this scope, which must bind it.
    pub fn get_variable(&self, variable: &Variable<'src>) -> (b: &'a Block<'src>)
        requires
            lookup_var(self.env(), variable.name@) is Some,
        ensures
            lookup_var(self.env(), variable.name@) == Some(nodes_view(b.nodes@)),
    {
        self.find_variable(variable).unwrap()
    }

    /// The block bound to `variable` as seen from this scope, if any.
    pub fn find_variable(&self, variable: &Variable<'src>) -> (r: Option<&'a Block<'src>>)
        ensures
            match r {
                Some(b) => lookup_var(self.env(), variable.name@) == Some(nodes_view(b.nodes@)),
                None => lookup_var(self.env(), variable.name@) is None,
            },
        decreases *self,
    {
        proof {
            lemma_frames_last(*self);
        }
        let ghost env = self.env();
        assert(lookup_var(env, variable.name@) == match find_last(env.last().vars, variable.name@) {
            Some(b) => Some(b),
            None => lookup_var(env.drop_last(), variable.name@),
        });
        match self.own_variable(variable.name) {
            Some(b) => Some(b),
            None => match self.parent {
                Some(parent) => parent.find_variable(variable),
                None => {
                    assert(lookup_var(Seq::<Frame>::empty(), variable.name@) is None);
                    None
                },
            },
        }
    }

    /// Defines macro `m` in this scope.
    fn eval_macro(&mut self, m: &'a Macro<'src>)
        ensures
            final(self).env() == define(old(self).env(), m.name@, macro_view(*m)),
            final(self).body() == old(self).body(),
            final(self).nodes == old(self).nodes,
    {
        proof {
            lemma_frames_last(*self);
        }
        let ghost before = frame_of(*self);
        self.macros.push((m.name, m));
        proof {
            lemma_frames_last(*self);
            assert(frame_of(*self).macros =~= before.macros.push((m.name@, macro_view(*m))));
            assert(frame_of(*self).vars =~= before.vars);
            let e = frames(*self);
            assert(e =~= e.drop_last().push(e.last()));
        }
    }

    /// Writes the output of invocation `call` to `output`, or says why
    /// there is none.
    fn try_eval_call(&self, call: &'a Invokation<'src>, output: &mut String, depth: u64) -> (r: Result<(), EvalError<'src>>)
        ensures
            match node_output(depth as nat, SpecNode::Invokation { name: call.name@, args: crate::ast::blocks_view(call.args@) }, self.env()) {
                Ok(out) => r is Ok && final(output)@ == old(output)@ + out,
                Err(e) => r matches Err(x) && x@ == e,
            },
        decreases depth, 0int,
    {
        let m = match self.find_macro(call.name) {
            Some(m) => m,
            None => return Err(EvalError::UndefinedMacro(call.name)),
        };
        if depth == 0 {
            return Err(EvalError::DepthExceeded);
        }
        let mut call_output = String::new();
        let mut scope = Scope { parent: Some(self), nodes: &m.template.nodes, macros: Vec::new(), variables: Vec::new() };
        assert(frame_of(scope).macros =~= Seq::<(Seq<char>, SpecMacro)>::empty());
        assert(frame_of(scope).vars =~= bind(names_view(m.params@), crate::ast::blocks_view(call.args@)).take(0));
        let n = if m.params.len() <= call.args.len() { m.params.len() } else { call.args.len() };
        let ghost params = names_view(m.params@);
        let ghost args = crate::ast::blocks_view(call.args@);
        for i in 0..n
            invariant
                n <= m.params@.len(),
                n <= call.args@.len(),
                n == bind(params, args).len(),
                scope.body() == nodes_view(m.template.nodes@),
                scope.parent == Some(self),
                params == names_view(m.params@),
                args == crate::ast::blocks_view(call.args@),
                frame_of(scope).macros == Seq::<(Seq<char>, SpecMacro)>::empty(),
                frame_of(scope).vars == bind(params, args).take(i as int),
        {
            let ghost before = frame_of(scope).vars;
            let ghost old_vars = scope.variables@;
            let entry = (m.params[i].name, &call.args[i]);
            assert(entry.0@ == params[i as int]);
            assert(nodes_view(entry.1.nodes@) == args[i as int]);
            scope.variables.push(entry);
            assert(scope.variables@ == old_vars.push(entry));
            assert(frame_of(scope).vars =~= before.push((params[i as int], args[i as int])));
            assert(bind(params, args).take(i + 1) =~= bind(params, args).take(i as int).push(
                (params[i as int], args[i as int]),
            ));
        }
        proof {
            assert(bind(params, args).take(n as int) =~= bind(params, args));
            lemma_frames_last(scope);
            let e = frames(scope);
            assert(e =~= e.drop_last().push(e.last()));
        }
        match scope.try_eval_block(&mut call_output, depth - 1) {
            Err(e) => return Err(e),
            Ok(()) => {},
        }
        output.append(call_output.as_str());
        Ok(())
    }

    /// Writes the expansion of `variable` to `output`, or says why there
    /// is none.
    fn try_eval_variable(&self, variable: &'a Variable<'src>, output: &mut String, depth: u64) -> (r: Result<(), EvalError<'src>>)
        ensures
            match node_output(depth as nat, SpecNode::Variable(variable.name@), self.env()) {
                Ok(out) => r is Ok && final(output)@ == old(output)@ + out,
                Err(e) => r matches Err(x) && x@ == e,
            },
        decreases depth, 0int,
    {
        let block_to_expand = match self.find_variable(variable) {
            Some(b) => b,
            None => return Err(EvalError::UndefinedVariable(variable.name)),
        };
        if depth == 0 {
            return Err(EvalError::DepthExceeded);
        }
        let mut scope = Scope::new(block_to_expand, self);
        scope.try_eval_block(output, depth - 1)
    }

    /// Evaluates one node of this scope, or says why it cannot be.
    fn try_eval_node(&mut self, node: &'a Node<'src>, output: &mut String, depth: u64) -> (r: Result<(), EvalError<'src>>)
        ensures
            final(self).env() == node_env(node@, old(self).env()),
            final(self).body() == old(self).body(),
            final(self).nodes == old(self).nodes,
            match node_output(depth as nat, node@, old(self).env()) {
                Ok(out) => r is Ok && final(output)@ == old(output)@ + out,
                Err(e) => r matches Err(x) && x@ == e,
            },
        decreases depth, 1int,
    {
        match node {
            Node::Macro(m) => {
                proof {
                    crate::ast::lemma_node_view_macro(*m);
                }
                self.eval_macro(m);
                assert(output@ =~= old(output)@ + Seq::<char>::empty());
                Ok(())
            },
            Node::Invokation(call) => {
                proof {
                    crate::ast::lemma_node_view_invokation(*call);
                }
                self.try_eval_call(call, output, depth)
            },
            Node::Variable(variable) => self.try_eval_variable(variable, output, depth),
            Node::Text(text) => {
                output.append(text);
                Ok(())
            },
        }
    }

    /// Evaluates the nodes of this scope in order, writing to `output`, or
    /// says why they cannot be.
    fn try_eval_block(&mut self, output: &mut String, depth: u64) -> (r: Result<(), EvalError<'src>>)
        ensures
            r is Ok ==> final(self).env() == env_after(old(self).body(), 0, old(self).env()),
            final(self).nodes == old(self).nodes,
            match eval_nodes(depth as nat, old(self).body(), 0, old(self).env()) {
                Ok(out) => r is Ok && final(output)@ == old(output)@ + out,
                Err(e) => r matches Err(x) && x@ == e,
            },
        decreases depth, 2int,
    {
        let nodes = self.nodes;
        let ghost body = self.body();
        let ghost env0 = self.env();
        let ghost out0 = output@;
        let ghost mut produced: Seq<char> = Seq::empty();
        let n = nodes.len();
        for i in 0..n
            invariant
                n == nodes@.len(),
                self.nodes == nodes,
                nodes == old(self).nodes,
                body == self.body(),
                body == nodes_view(nodes@),
                body == old(self).body(),
                env0 == old(self).env(),
                out0 == old(output)@,
                output@ == out0 + produced,
                eval_nodes(depth as nat, body, 0, env0) == prepend(produced, eval_nodes(depth as nat, body, i as int, self.env())),
                env_after(body, 0, env0) == env_after(body, i as int, self.env()),
        {
            let ghost env_i = self.env();
            let ghost before = output@;
            assert(body[i as int] == nodes@[i as int]@);
            assert(i < body.len());
            let ghost step = node_output(depth as nat, body[i as int], env_i);
            match self.try_eval_node(&nodes[i], output, depth) {
                Err(e) => {
                    assert(step == Err::<Seq<char>, SpecEvalError>(e@));
                    assert(eval_nodes(depth as nat, body, i as int, env_i) == Err::<Seq<char>, SpecEvalError>(e@));
                    return Err(e);
                },
                Ok(()) => {},
            }
            proof {
                let out = match step {
                    Ok(x) => x,
                    Err(_) => Seq::empty(),
                };
                assert(step is Ok);
                assert(output@ == before + out);
                let rest = eval_nodes(depth as nat, body, i + 1, self.env());
                assert(eval_nodes(depth as nat, body, i as int, env_i) == prepend(out, rest));
                match rest {
                    Ok(x) => {
                        assert(produced + (out + x) =~= (produced + out) + x);
                    },
                    Err(_) => {},
                }
                produced = produced + out;
                assert(output@ =~= out0 + produced);
            }
        }
        assert(output@ =~= out0 + produced);
        Ok(())
    }

    /// Writes the output of invocation `call`, which must evaluate without
    /// error, to `output`.
    fn eval_call(&self, call: &'a Invokation<'src>, output: &mut String, depth: u64)
        requires
            node_output(depth as nat, SpecNode::Invokation { name: call.name@, args: crate::ast::blocks_view(call.args@) }, self.env()) is Ok,
        ensures
            final(output)@ == old(output)@ + node_output(
                depth as nat,
                SpecNode::Invokation { name: call.name@, args: crate::ast::blocks_view(call.args@) },
                self.env(),
            )->Ok_0,
    {
        let _ = self.try_eval_call(call, output, depth);
    }

    /// Writes the expansion of `variable`, which must be bound and evaluate
    /// without error, to `output`.
    fn eval_variable(&self, variable: &'a Variable<'src>, output: &mut String, depth: u64)
        requires
            node_output(depth as nat, SpecNode::Variable(variable.name@), self.env()) is Ok,
        ensures
            final(output)@ == old(output)@ + node_output(depth as nat, SpecNode::Variable(variable.name@), self.env())->Ok_0,
    {
        let _ = self.try_eval_variable(variable, output, depth);
    }

    /// Evaluates one node of this scope, which must evaluate without error.
    fn eval_node(&mut self, node: &'a Node<'src>, output: &mut String, depth: u64)
        requires
            node_output(depth as nat, node@, old(self).env()) is Ok,
        ensures
            final(self).env() == node_env(node@, old(self).env()),
            final(self).body() == old(self).body(),
            final(self).nodes == old(self).nodes,
            final(output)@ == old(output)@ + node_output(depth as nat, node@, old(self).env())->Ok_0,
    {
        match node {
            Node::Macro(m) => {
                proof {
                    crate::ast::lemma_node_view_macro(*m);
                }
                self.eval_macro(m);
                assert(output@ =~= old(output)@ + Seq::<char>::empty());
            },
            Node::Invokation(call) => {
                proof {
                    crate::ast::lemma_node_view_invokation(*call);
                }
                self.eval_call(call, output, depth);
            },
            Node::Variable(variable) => self.eval_variable(variable, output, depth),
            Node::Text(text) => output.append(text),
        }
    }

    /// Evaluates this scope, which must evaluate without error, writing its
    /// output to `output`.
    pub fn eval(&mut self, output: &mut String)
        requires
            eval_nodes(max_depth(), old(self).body(), 0, old(self).env()) is Ok,
        ensures
            final(self).env() == env_after(old(self).body(), 0, old(self).env()),
            final(self).body() == old(self).body(),
            final(output)@ == old(output)@ + eval_nodes(max_depth(), old(self).body(), 0, old(self).env())->Ok_0,
    {
        let nodes = self.nodes;
        let ghost body = self.body();
        let ghost env0 = self.env();
        let ghost out0 = output@;
        let ghost mut produced: Seq<char> = Seq::empty();
        let n = nodes.len();
        for i in 0..n
            invariant
                n == nodes@.len(),
                self.nodes == nodes,
                nodes == old(self).nodes,
                body == self.body(),
                body == nodes_view(nodes@),
                body == old(self).body(),
                env0 == old(self).env(),
                out0 == old(output)@,
                output@ == out0 + produced,
                eval_nodes(max_depth(), body, 0, env0) is Ok,
                eval_nodes(max_depth(), body, 0, env0) == prepend(produced, eval_nodes(max_depth(), body, i as int, self.env())),
                env_after(body, 0, env0) == env_after(body, i as int, self.env()),
        {
            let ghost env_i = self.env();
            let ghost before = output@;
            assert(body[i as int] == nodes@[i as int]@);
            assert(i < body.len());
            let ghost step = node_output(max_depth(), body[i as int], env_i);
            assert(step is Ok);
            self.eval_node(&nodes[i], output, u64::MAX);
            proof {
                let out = step->Ok_0;
                assert(output@ == before + out);
                let rest = eval_nodes(max_depth(), body, i + 1, self.env());
                assert(eval_nodes(max_depth(), body, i as int, env_i) == prepend(out, rest));
                match rest {
                    Ok(x) => {
                        assert(produced + (out + x) =~= (produced + out) + x);
                    },
                    Err(_) => {},
                }
                produced = produced + out;
                assert(output@ =~= out0 + produced);
            }
        }
        assert(output@ =~= out0 + produced);
    }

    /// Evaluates this scope, writing its output to `output`, or says why
    /// it cannot be evaluated.
    pub fn try_eval(&mut self, output: &mut String) -> (r: Result<(), EvalError<'src>>)
        ensures
            r is Ok ==> final(self).env() == env_after(old(self).body(), 0, old(self).env()),
            final(self).body() == old(self).body(),
            match eval_nodes(max_depth(), old(self).body(), 0, old(self).env()) {
                Ok(out) => r is Ok && final(output)@ == old(output)@ + out,
                Err(e) => r matches Err(x) && x@ == e,
            },
    {
        self.try_eval_block(output, u64::MAX)
    }
}

/// Evaluates a document.
pub struct Evaluator<'a, 'src> {
    scope: Scope<'a, 'src>,
}

impl<'a, 'src> Evaluator<'a, 'src> {
    /// The nodes of the document.
    pub closed spec fn document(&self) -> Seq<SpecNode> {
        self.scope.body()
    }

    pub closed spec fn fresh(&self) -> bool {
        self.scope.env() == seq![empty_frame()]
    }

    pub fn new(ast: &'a Ast<'src>) -> (e: Self)
        ensures
            e.document() == ast@,
            e.fresh(),
    {
        Evaluator { scope: Scope::over_nodes(&ast.nodes) }
    }

    /// The output of the document, which must evaluate without error.
    pub fn eval(self) -> (out: String)
        requires
            self.fresh(),
            spec_eval(self.document()) is Ok,
        ensures
            spec_eval(self.document()) == Ok::<Seq<char>, SpecEvalError>(out@),
    {
        let mut scope = self.scope;
        let mut output = String::new();
        scope.eval(&mut output);
        assert(output@ =~= Seq::<char>::empty() + output@);
        output
    }

    /// The output of the document, or the error that stops its evaluation.
    pub fn try_eval(self) -> (r: Result<String, EvalError<'src>>)
        requires
            self.fresh(),
        ensures
            match spec_eval(self.document()) {
                Ok(out) => r matches Ok(s) && s@ == out,
                Err(e) => r matches Err(x) && x@ == e,
            },
    {
        let mut scope = self.scope;
        let mut output = String::new();
        match scope.try_eval(&mut output) {
            Err(e) => return Err(e),
            Ok(()) => {},
        }
        assert(output@ =~= Seq::<char>::empty() + output@);
        Ok(output)
    }
}

/// The output of a document, which must evaluate without error.
pub fn eval<'a, 'src>(ast: &'a Ast<'src>) -> (out: String)
    requires
        spec_eval(ast@) is Ok,
    ensures
        spec_eval(ast@) == Ok::<Seq<char>, SpecEvalError>(out@),
{
    Evaluator::new(ast).eval()
}

/// The output of a document, or the error that stops its evaluation.
pub fn try_eval<'a, 'src>(ast: &'a Ast<'src>) -> (r: Result<String, EvalError<'src>>)
    ensures
        match spec_eval(ast@) {
            Ok(out) => r matches Ok(s) && s@ == out,
            Err(e) => r matches Err(x) && x@ == e,
        },
{
    Evaluator::new(ast).try_eval()
}

} // verus!
