use std::collections::HashMap;
use vstd::prelude::*;

use crate::bindings::{
    args_map, bindings_wf, initial_bindings, lemma_args_map_keys, lemma_initial_bindings_wf, BindingsView, LambdaBindings,
    SymbolBindSource,
};
use crate::interner::{
    extends_with_fresh, lemma_extends_with_fresh_refl, lemma_extends_with_fresh_trans, Symbol,
    SymbolIntern,
};
use crate::scope::{
    add_declaration, already_binds, already_binds_spec, boundary, chain_summaries_wf, chain_view,
    chain_keys_below, declare_spec, lemma_declare_summaries_wf, lemma_keys_below_drop_last,
    lemma_keys_below_push,
    declares_locals, lemma_boundary_range, lemma_boundary_same_shape, lemma_declare_keeps_shape,
    lemma_declare_locals, local_count, lookup, lookup_spec, same_shape, Frame, FrameView,
};
use crate::syntax::{
    arena_symbols_below, arena_wf, ast_eq, children_below, lemma_arena_symbols_mono,
    lemma_ast_eq_symmetric, same_symbols,
    symbols_below, Ast,
    AstArena, Span,
};

verus! {

/// Why the binding pass failed.
#[derive(Clone, Copy, Debug, PartialEq, Eq, Structural)]
pub enum BindingError {
    /// A reference to a symbol that no reachable scope binds.
    CouldNotBind(Symbol, Span),
    /// A local declaration of a name that is already declared.
    AlreadyDefined(Symbol),
    /// The symbol table, a function's local slots or its argument slots
    /// ran out of 32-bit indices.
    TooManyBindings,
}

/// A resolved tree node. Children are indices of earlier nodes of the same
/// `BoundArena`; `ast` fields are indices of the syntax node each node was
/// derived from.
#[derive(Debug)]
pub enum Bound {
    Literal(usize),
    Symbol { symbol: Symbol, ast: usize, source: SymbolBindSource },
    ListLit(Vec<usize>, usize),
    MapLit(Vec<(usize, usize)>, usize),
    Add(Vec<usize>, usize),
    Quote { quoting: usize, ast: usize },
    List(Vec<usize>, usize),
    If(usize, usize, usize, usize),
    Lambda { arg_symbols: Vec<Symbol>, body: usize, ast: usize, bindings: LambdaBindings },
    Block(Vec<usize>, usize),
    Define(Symbol, SymbolBindSource, usize, usize),
}

/// Mathematical view of a resolved node.
pub enum BoundView {
    Literal(usize),
    Symbol { symbol: Symbol, ast: usize, source: SymbolBindSource },
    ListLit(Seq<usize>, usize),
    MapLit(Seq<(usize, usize)>, usize),
    Add(Seq<usize>, usize),
    Quote { quoting: usize, ast: usize },
    List(Seq<usize>, usize),
    If(usize, usize, usize, usize),
    Lambda { arg_symbols: Seq<Symbol>, body: usize, ast: usize, bindings: BindingsView },
    Block(Seq<usize>, usize),
    Define(Symbol, SymbolBindSource, usize, usize),
}

impl View for Bound {
    type V = BoundView;

    open spec fn view(&self) -> BoundView {
        match self {
            Bound::Literal(a) => BoundView::Literal(*a),
            Bound::Symbol { symbol, ast, source } => BoundView::Symbol {
                symbol: *symbol,
                ast: *ast,
                source: *source,
            },
            Bound::ListLit(v, a) => BoundView::ListLit(v@, *a),
            Bound::MapLit(v, a) => BoundView::MapLit(v@, *a),
            Bound::Add(v, a) => BoundView::Add(v@, *a),
            Bound::Quote { quoting, ast } => BoundView::Quote { quoting: *quoting, ast: *ast },
            Bound::List(v, a) => BoundView::List(v@, *a),
            Bound::If(c, t, e, a) => BoundView::If(*c, *t, *e, *a),
            Bound::Lambda { arg_symbols, body, ast, bindings } => BoundView::Lambda {
                arg_symbols: arg_symbols@,
                body: *body,
                ast: *ast,
                bindings: bindings@,
            },
            Bound::Block(v, a) => BoundView::Block(v@, *a),
            Bound::Define(s, src, v, a) => BoundView::Define(*s, *src, *v, *a),
        }
    }
}

/// Every child index of `n` is below `bound`.
pub open spec fn bound_children_below(n: BoundView, bound: int) -> bool {
    match n {
        BoundView::ListLit(v, _) => forall|i: int| 0 <= i < v.len() ==> (#[trigger] v[i] as int) < bound,
        BoundView::Add(v, _) => forall|i: int| 0 <= i < v.len() ==> (#[trigger] v[i] as int) < bound,
        BoundView::List(v, _) => forall|i: int| 0 <= i < v.len() ==> (#[trigger] v[i] as int) < bound,
        BoundView::Block(v, _) => forall|i: int| 0 <= i < v.len() ==> (#[trigger] v[i] as int) < bound,
        BoundView::MapLit(v, _) => forall|i: int|
            0 <= i < v.len() ==> (#[trigger] v[i]).0 < bound && v[i].1 < bound,
        BoundView::If(c, t, e, _) => c < bound && t < bound && e < bound,
        BoundView::Lambda { body, .. } => body < bound,
        BoundView::Define(_, _, value, _) => value < bound,
        _ => true,
    }
}

/// Every node's children are earlier nodes, so the arena is acyclic.
pub open spec fn bound_arena_wf(s: Seq<BoundView>) -> bool {
    forall|i: int| 0 <= i < s.len() ==> bound_children_below(#[trigger] s[i], i)
}

/// An append-only store of resolved nodes, addressed by index.
pub struct BoundArena {
    nodes: Vec<Bound>,
}

impl View for BoundArena {
    type V = Seq<BoundView>;

    closed spec fn view(&self) -> Seq<BoundView> {
        self.nodes@.map_values(|b: Bound| b@)
    }
}

impl BoundArena {
    pub open spec fn wf(&self) -> bool {
        bound_arena_wf(self@)
    }

    pub fn new() -> (r: BoundArena)
        ensures
            r@ == Seq::<BoundView>::empty(),
            r.wf(),
    {
        BoundArena { nodes: Vec::new() }
    }

    /// Number of nodes stored.
    pub fn len(&self) -> (r: usize)
        ensures
            r == self@.len(),
    {
        self.nodes.len()
    }

    /// Stores `node`, whose children must be stored already, and returns
    /// its index.
    pub fn push_node(&mut self, node: Bound) -> (r: usize)
        requires
            old(self).wf(),
            bound_children_below(node@, old(self)@.len() as int),
        ensures
            final(self).wf(),
            final(self)@ == old(self)@.push(node@),
            r == old(self)@.len(),
    {
        let r = self.nodes.len();
        self.nodes.push(node);
        proof {
            assert(self@ =~= old(self)@.push(node@));
        }
        r
    }

    /// The node at `id`.
    pub fn get(&self, id: usize) -> (r: &Bound)
        requires
            id < self@.len(),
        ensures
            r@ == self@[id as int],
    {
        &self.nodes[id]
    }
}

/// What the binding pass works on: the scope chain, the next identifier
/// the symbol table will hand out, and the resolved nodes produced so far.
pub struct BindState {
    pub frames: Seq<FrameView>,
    pub next: nat,
    pub out: Seq<BoundView>,
}

/// `st` with `node` appended to the output, and the node's index.
pub open spec fn emit(st: BindState, node: BoundView) -> Result<(usize, BindState), BindingError> {
    Ok((st.out.len() as usize, BindState { out: st.out.push(node), ..st }))
}

/// The binding pass on syntax node `id` of `ast`, from state `st`: the
/// index of the node's resolved form and the state after, or the first
/// error met, children being resolved left to right.
pub open spec fn bind_spec(ast: Seq<Ast>, id: int, st: BindState) -> Result<
    (usize, BindState),
    BindingError,
>
    decreases id, 1nat, 0nat,
{
    if !(0 <= id < ast.len() && children_below(ast[id], id)) {
        Err(BindingError::TooManyBindings)
    } else {
        let a = id as usize;
        match ast[id] {
            Ast::BoolLit(..) | Ast::StringLit(..) | Ast::IntLit(..) | Ast::FloatLit(..) => emit(
                st,
                BoundView::Literal(a),
            ),
            Ast::ListLit(v, _) => match bind_list_spec(ast, v@, st, id) {
                Ok((ids, st1)) => emit(st1, BoundView::ListLit(ids, a)),
                Err(e) => Err(e),
            },
            Ast::Add(v, _) => match bind_list_spec(ast, v@, st, id) {
                Ok((ids, st1)) => emit(st1, BoundView::Add(ids, a)),
                Err(e) => Err(e),
            },
            Ast::List(v, _) => match bind_list_spec(ast, v@, st, id) {
                Ok((ids, st1)) => emit(st1, BoundView::List(ids, a)),
                Err(e) => Err(e),
            },
            Ast::MapLit(v, _) => match bind_pairs_spec(ast, v@, st, id) {
                Ok((ids, st1)) => emit(st1, BoundView::MapLit(ids, a)),
                Err(e) => Err(e),
            },
            Ast::Symbol(s, span) => match lookup_spec(st.frames, s) {
                Some(source) => emit(st, BoundView::Symbol { symbol: s, ast: a, source }),
                None => Err(BindingError::CouldNotBind(s, span)),
            },
            Ast::Quote(q, _) => emit(st, BoundView::Quote { quoting: q, ast: a }),
            Ast::If(c, t, e, _) => match bind_spec(ast, c as int, st) {
                Err(err) => Err(err),
                Ok((bc, st1)) => match bind_spec(ast, t as int, st1) {
                    Err(err) => Err(err),
                    Ok((bt, st2)) => match bind_spec(ast, e as int, st2) {
                        Err(err) => Err(err),
                        Ok((be, st3)) => emit(st3, BoundView::If(bc, bt, be, a)),
                    },
                },
            },
            Ast::Lambda(args, body, _) => if args@.len() > u32::MAX {
                Err(BindingError::TooManyBindings)
            } else {
                let inner = BindState {
                    frames: st.frames.push(FrameView::Function(initial_bindings(args@))),
                    ..st
                };
                match bind_spec(ast, body as int, inner) {
                    Err(err) => Err(err),
                    Ok((bb, st1)) => emit(
                        BindState { frames: st1.frames.drop_last(), ..st1 },
                        BoundView::Lambda {
                            arg_symbols: args@,
                            body: bb,
                            ast: a,
                            bindings: st1.frames.last()->Function_0,
                        },
                    ),
                }
            },
            Ast::Block(v, _) => {
                let inner = BindState {
                    frames: st.frames.push(FrameView::Block(Map::empty())),
                    ..st
                };
                match bind_list_spec(ast, v@, inner, id) {
                    Ok((ids, st1)) => emit(
                        BindState { frames: st1.frames.drop_last(), ..st1 },
                        BoundView::Block(ids, a),
                    ),
                    Err(e) => Err(e),
                }
            },
            Ast::Define(s, value, _) => if already_binds_spec(st.frames, s) {
                Err(BindingError::AlreadyDefined(s))
            } else {
                match declare_spec(st.frames, s, st.next) {
                    None => Err(BindingError::TooManyBindings),
                    Some((frames, source, next)) => match bind_spec(
                        ast,
                        value as int,
                        BindState { frames, next, ..st },
                    ) {
                        Err(err) => Err(err),
                        Ok((bv, st1)) => emit(st1, BoundView::Define(s, source, bv, a)),
                    },
                }
            },
        }
    }
}

/// The binding pass on each of `xs` in order, all below `bound`: their
/// resolved indices and the state after, or the first error met.
pub open spec fn bind_list_spec(ast: Seq<Ast>, xs: Seq<usize>, st: BindState, bound: int) -> Result<
    (Seq<usize>, BindState),
    BindingError,
>
    decreases bound, 0nat, xs.len(),
{
    if xs.len() == 0 {
        Ok((Seq::empty(), st))
    } else {
        match bind_list_spec(ast, xs.drop_last(), st, bound) {
            Err(e) => Err(e),
            Ok((ids, st1)) => if xs.last() >= bound {
                Err(BindingError::TooManyBindings)
            } else {
                match bind_spec(ast, xs.last() as int, st1) {
                    Err(e) => Err(e),
                    Ok((i, st2)) => Ok((ids.push(i), st2)),
                }
            },
        }
    }
}

/// The binding pass on each key and value of `xs` in order.
pub open spec fn bind_pairs_spec(
    ast: Seq<Ast>,
    xs: Seq<(usize, usize)>,
    st: BindState,
    bound: int,
) -> Result<(Seq<(usize, usize)>, BindState), BindingError>
    decreases bound, 0nat, xs.len(),
{
    if xs.len() == 0 {
        Ok((Seq::empty(), st))
    } else {
        match bind_pairs_spec(ast, xs.drop_last(), st, bound) {
            Err(e) => Err(e),
            Ok((ids, st1)) => if xs.last().0 >= bound || xs.last().1 >= bound {
                Err(BindingError::TooManyBindings)
            } else {
                match bind_spec(ast, xs.last().0 as int, st1) {
                    Err(e) => Err(e),
                    Ok((k, st2)) => match bind_spec(ast, xs.last().1 as int, st2) {
                        Err(e) => Err(e),
                        Ok((v, st3)) => Ok((ids.push((k, v)), st3)),
                    },
                }
            },
        }
    }
}

/// The state that the exec values stand for.
pub open spec fn state_of(frames: Seq<Frame>, interner: Seq<Option<Seq<char>>>, out: Seq<BoundView>) -> BindState {
    BindState { frames: chain_view(frames), next: interner.len(), out }
}


/// Whether node `a` of `b1` (over syntax nodes `s1`) and node `b` of `b2`
/// (over `s2`) are the same resolved tree, the syntax nodes they came
/// from aside: same shape, equal literals, same symbols and sources,
/// children equal pairwise in order, and for functions the same
/// parameters, equal bodies and equal summaries. (The checks that
/// children come before their parent hold in every well-formed arena.)
pub open spec fn bound_eq(
    b1: Seq<BoundView>,
    a: int,
    s1: Seq<Ast>,
    b2: Seq<BoundView>,
    b: int,
    s2: Seq<Ast>,
) -> bool
    decreases a, 1nat, 0nat,
{
    if !(0 <= a < b1.len() && 0 <= b < b2.len()) {
        false
    } else {
        match (b1[a], b2[b]) {
            (BoundView::Literal(x), BoundView::Literal(y)) => ast_eq(s1, x as int, s2, y as int),
            (
                BoundView::Symbol { symbol: x, source: sx, .. },
                BoundView::Symbol { symbol: y, source: sy, .. },
            ) => x == y && sx == sy,
            (BoundView::ListLit(x, _), BoundView::ListLit(y, _)) => bound_list_eq(b1, x, s1, b2, y, s2, a),
            (BoundView::List(x, _), BoundView::List(y, _)) => bound_list_eq(b1, x, s1, b2, y, s2, a),
            (BoundView::Add(x, _), BoundView::Add(y, _)) => bound_list_eq(b1, x, s1, b2, y, s2, a),
            (BoundView::Block(x, _), BoundView::Block(y, _)) => bound_list_eq(b1, x, s1, b2, y, s2, a),
            (BoundView::MapLit(x, _), BoundView::MapLit(y, _)) => bound_pairs_eq(b1, x, s1, b2, y, s2, a),
            (BoundView::Quote { quoting: x, .. }, BoundView::Quote { quoting: y, .. }) => ast_eq(
                s1,
                x as int,
                s2,
                y as int,
            ),
            (BoundView::If(c1, t1, e1, _), BoundView::If(c2, t2, e2, _)) => c1 < a && t1 < a && e1
                < a && bound_eq(b1, c1 as int, s1, b2, c2 as int, s2) && bound_eq(
                b1,
                t1 as int,
                s1,
                b2,
                t2 as int,
                s2,
            ) && bound_eq(b1, e1 as int, s1, b2, e2 as int, s2),
            (
                BoundView::Lambda { arg_symbols: x, body: bx, bindings: sx, .. },
                BoundView::Lambda { arg_symbols: y, body: by, bindings: sy, .. },
            ) => x == y && bx < a && bound_eq(b1, bx as int, s1, b2, by as int, s2) && sx == sy,
            (BoundView::Define(x, srcx, vx, _), BoundView::Define(y, srcy, vy, _)) => x == y && srcx
                == srcy && vx < a && bound_eq(b1, vx as int, s1, b2, vy as int, s2),
            _ => false,
        }
    }
}

/// Pairwise `bound_eq` of two child lists whose first list lies below `bound`.
pub open spec fn bound_list_eq(
    b1: Seq<BoundView>,
    x: Seq<usize>,
    s1: Seq<Ast>,
    b2: Seq<BoundView>,
    y: Seq<usize>,
    s2: Seq<Ast>,
    bound: int,
) -> bool
    decreases bound, 0nat, x.len(),
{
    if x.len() == 0 {
        y.len() == 0
    } else {
        y.len() > 0 && bound_list_eq(b1, x.drop_last(), s1, b2, y.drop_last(), s2, bound) && x.last()
            < bound && bound_eq(b1, x.last() as int, s1, b2, y.last() as int, s2)
    }
}

/// Pairwise `bound_eq` of two key/value lists, keys and values alike.
pub open spec fn bound_pairs_eq(
    b1: Seq<BoundView>,
    x: Seq<(usize, usize)>,
    s1: Seq<Ast>,
    b2: Seq<BoundView>,
    y: Seq<(usize, usize)>,
    s2: Seq<Ast>,
    bound: int,
) -> bool
    decreases bound, 0nat, x.len(),
{
    if x.len() == 0 {
        y.len() == 0
    } else {
        y.len() > 0 && bound_pairs_eq(b1, x.drop_last(), s1, b2, y.drop_last(), s2, bound)
            && x.last().0 < bound && x.last().1 < bound && bound_eq(
            b1,
            x.last().0 as int,
            s1,
            b2,
            y.last().0 as int,
            s2,
        ) && bound_eq(b1, x.last().1 as int, s1, b2, y.last().1 as int, s2)
    }
}

/// On well-formed arenas, `bound_eq` does not depend on the order of its
/// two trees.
pub proof fn lemma_bound_eq_symmetric(
    b1: Seq<BoundView>,
    a: int,
    s1: Seq<Ast>,
    b2: Seq<BoundView>,
    b: int,
    s2: Seq<Ast>,
)
    requires
        bound_arena_wf(b1),
        bound_arena_wf(b2),
        arena_wf(s1),
        arena_wf(s2),
    ensures
        bound_eq(b1, a, s1, b2, b, s2) == bound_eq(b2, b, s2, b1, a, s1),
    decreases a, 1nat, 0nat,
{
    if 0 <= a < b1.len() && 0 <= b < b2.len() {
        assert(bound_children_below(b1[a], a));
        assert(bound_children_below(b2[b], b));
        match (b1[a], b2[b]) {
            (BoundView::Literal(x), BoundView::Literal(y)) => lemma_ast_eq_symmetric(s1, x as int, s2, y as int),
            (BoundView::Quote { quoting: x, .. }, BoundView::Quote { quoting: y, .. }) => lemma_ast_eq_symmetric(s1, x as int, s2, y as int),
            (BoundView::ListLit(x, _), BoundView::ListLit(y, _)) => lemma_bound_list_eq_symmetric(b1, x, s1, b2, y, s2, a, b),
            (BoundView::List(x, _), BoundView::List(y, _)) => lemma_bound_list_eq_symmetric(b1, x, s1, b2, y, s2, a, b),
            (BoundView::Add(x, _), BoundView::Add(y, _)) => lemma_bound_list_eq_symmetric(b1, x, s1, b2, y, s2, a, b),
            (BoundView::Block(x, _), BoundView::Block(y, _)) => lemma_bound_list_eq_symmetric(b1, x, s1, b2, y, s2, a, b),
            (BoundView::MapLit(x, _), BoundView::MapLit(y, _)) => lemma_bound_pairs_eq_symmetric(b1, x, s1, b2, y, s2, a, b),
            (BoundView::If(c1, t1, e1, _), BoundView::If(c2, t2, e2, _)) => {
                lemma_bound_eq_symmetric(b1, c1 as int, s1, b2, c2 as int, s2);
                lemma_bound_eq_symmetric(b1, t1 as int, s1, b2, t2 as int, s2);
                lemma_bound_eq_symmetric(b1, e1 as int, s1, b2, e2 as int, s2);
            },
            (BoundView::Lambda { body: bx, .. }, BoundView::Lambda { body: by, .. }) => {
                lemma_bound_eq_symmetric(b1, bx as int, s1, b2, by as int, s2);
            },
            (BoundView::Define(_, _, vx, _), BoundView::Define(_, _, vy, _)) => {
                lemma_bound_eq_symmetric(b1, vx as int, s1, b2, vy as int, s2);
            },
            _ => {},
        }
    }
}

proof fn lemma_bound_list_eq_symmetric(
    b1: Seq<BoundView>,
    x: Seq<usize>,
    s1: Seq<Ast>,
    b2: Seq<BoundView>,
    y: Seq<usize>,
    s2: Seq<Ast>,
    ba: int,
    bb: int,
)
    requires
        bound_arena_wf(b1),
        bound_arena_wf(b2),
        arena_wf(s1),
        arena_wf(s2),
        forall|i: int| 0 <= i < x.len() ==> (#[trigger] x[i] as int) < ba,
        forall|i: int| 0 <= i < y.len() ==> (#[trigger] y[i] as int) < bb,
    ensures
        bound_list_eq(b1, x, s1, b2, y, s2, ba) == bound_list_eq(b2, y, s2, b1, x, s1, bb),
    decreases ba, 0nat, x.len(),
{
    if x.len() > 0 && y.len() > 0 {
        assert(x.last() == x[x.len() - 1]);
        assert(y.last() == y[y.len() - 1]);
        lemma_bound_list_eq_symmetric(b1, x.drop_last(), s1, b2, y.drop_last(), s2, ba, bb);
        lemma_bound_eq_symmetric(b1, x.last() as int, s1, b2, y.last() as int, s2);
    }
}

proof fn lemma_bound_pairs_eq_symmetric(
    b1: Seq<BoundView>,
    x: Seq<(usize, usize)>,
    s1: Seq<Ast>,
    b2: Seq<BoundView>,
    y: Seq<(usize, usize)>,
    s2: Seq<Ast>,
    ba: int,
    bb: int,
)
    requires
        bound_arena_wf(b1),
        bound_arena_wf(b2),
        arena_wf(s1),
        arena_wf(s2),
        forall|i: int| 0 <= i < x.len() ==> (#[trigger] x[i]).0 < ba && x[i].1 < ba,
        forall|i: int| 0 <= i < y.len() ==> (#[trigger] y[i]).0 < bb && y[i].1 < bb,
    ensures
        bound_pairs_eq(b1, x, s1, b2, y, s2, ba) == bound_pairs_eq(b2, y, s2, b1, x, s1, bb),
    decreases ba, 0nat, x.len(),
{
    if x.len() > 0 && y.len() > 0 {
        assert(x.last() == x[x.len() - 1]);
        assert(y.last() == y[y.len() - 1]);
        lemma_bound_pairs_eq_symmetric(b1, x.drop_last(), s1, b2, y.drop_last(), s2, ba, bb);
        lemma_bound_eq_symmetric(b1, x.last().0 as int, s1, b2, y.last().0 as int, s2);
        lemma_bound_eq_symmetric(b1, x.last().1 as int, s1, b2, y.last().1 as int, s2);
    }
}

/// When every child of the first list lies below `bound`, comparing the
/// lists is comparing children pairwise, in order.
pub proof fn lemma_bound_list_eq_pairwise(
    b1: Seq<BoundView>,
    x: Seq<usize>,
    s1: Seq<Ast>,
    b2: Seq<BoundView>,
    y: Seq<usize>,
    s2: Seq<Ast>,
    bound: int,
)
    requires
        forall|i: int| 0 <= i < x.len() ==> (#[trigger] x[i] as int) < bound,
    ensures
        bound_list_eq(b1, x, s1, b2, y, s2, bound) == (x.len() == y.len() && forall|i: int|
            0 <= i < x.len() ==> #[trigger] bound_eq(b1, x[i] as int, s1, b2, y[i] as int, s2)),
    decreases x.len(),
{
    if bound_list_eq(b1, x, s1, b2, y, s2, bound) {
        lemma_bound_list_eq_len(b1, x, s1, b2, y, s2, bound);
    }
    if x.len() > 0 {
        lemma_bound_list_eq_pairwise(b1, x.drop_last(), s1, b2, y.drop_last(), s2, bound);
        assert(x.last() == x[x.len() - 1]);
        if y.len() > 0 {
            assert(y.last() == y[y.len() - 1]);
            if x.len() == y.len() && (forall|i: int|
                0 <= i < x.len() ==> #[trigger] bound_eq(b1, x[i] as int, s1, b2, y[i] as int, s2)) {
                assert forall|i: int| 0 <= i < x.drop_last().len() implies #[trigger] bound_eq(
                    b1,
                    x.drop_last()[i] as int,
                    s1,
                    b2,
                    y.drop_last()[i] as int,
                    s2,
                ) by {
                    assert(x.drop_last()[i] == x[i]);
                    assert(y.drop_last()[i] == y[i]);
                }
                let l = x.len() - 1;
                assert(bound_eq(b1, x[l] as int, s1, b2, y[l] as int, s2));
                assert(bound_list_eq(b1, x, s1, b2, y, s2, bound));
            }
            if bound_list_eq(b1, x, s1, b2, y, s2, bound) {
                assert forall|i: int| 0 <= i < x.len() implies #[trigger] bound_eq(
                    b1,
                    x[i] as int,
                    s1,
                    b2,
                    y[i] as int,
                    s2,
                ) by {
                    if i < x.len() - 1 {
                        assert(x.drop_last()[i] == x[i]);
                        assert(y.drop_last()[i] == y[i]);
                    }
                }
            }
        }
    }
}

proof fn lemma_bound_list_eq_len(
    b1: Seq<BoundView>,
    x: Seq<usize>,
    s1: Seq<Ast>,
    b2: Seq<BoundView>,
    y: Seq<usize>,
    s2: Seq<Ast>,
    bound: int,
)
    requires
        bound_list_eq(b1, x, s1, b2, y, s2, bound),
    ensures
        x.len() == y.len(),
    decreases x.len(),
{
    if x.len() > 0 {
        lemma_bound_list_eq_len(b1, x.drop_last(), s1, b2, y.drop_last(), s2, bound);
    }
}

proof fn lemma_bound_pairs_eq_len(
    b1: Seq<BoundView>,
    x: Seq<(usize, usize)>,
    s1: Seq<Ast>,
    b2: Seq<BoundView>,
    y: Seq<(usize, usize)>,
    s2: Seq<Ast>,
    bound: int,
)
    requires
        bound_pairs_eq(b1, x, s1, b2, y, s2, bound),
    ensures
        x.len() == y.len(),
    decreases x.len(),
{
    if x.len() > 0 {
        lemma_bound_pairs_eq_len(b1, x.drop_last(), s1, b2, y.drop_last(), s2, bound);
    }
}

proof fn lemma_same_shape_trans(a: Seq<FrameView>, b: Seq<FrameView>, c: Seq<FrameView>)
    requires
        same_shape(a, b),
        same_shape(b, c),
    ensures
        same_shape(a, c),
{
    assert forall|i: int| 0 <= i < a.len() implies crate::scope::same_kind(#[trigger] a[i], c[i]) by {
        assert(crate::scope::same_kind(b[i], c[i]));
    }
}

proof fn lemma_same_shape_pop(a: Seq<FrameView>, b: Seq<FrameView>, f: FrameView)
    requires
        same_shape(a.push(f), b),
    ensures
        b.len() > 0,
        crate::scope::same_kind(f, b.last()),
        same_shape(a, b.drop_last()),
{
    assert(a.push(f)[a.len() as int] == f);
    assert forall|i: int| 0 <= i < a.len() implies crate::scope::same_kind(#[trigger] a[i], b.drop_last()[i]) by {
        assert(a.push(f)[i] == a[i]);
    }
}

/// A successful binding pass leaves the scope chain with the frames it
/// started with, in kind and number.
pub proof fn lemma_bind_keeps_shape(ast: Seq<Ast>, id: int, st: BindState)
    requires
        bind_spec(ast, id, st) is Ok,
    ensures
        same_shape(st.frames, bind_spec(ast, id, st)->Ok_0.1.frames),
    decreases id, 1nat, 0nat,
{
    match ast[id] {
        Ast::ListLit(v, _) => lemma_list_keeps_shape(ast, v@, st, id),
        Ast::Add(v, _) => lemma_list_keeps_shape(ast, v@, st, id),
        Ast::List(v, _) => lemma_list_keeps_shape(ast, v@, st, id),
        Ast::MapLit(v, _) => lemma_pairs_keeps_shape(ast, v@, st, id),
        Ast::If(c, t, e, _) => {
            let st1 = bind_spec(ast, c as int, st)->Ok_0.1;
            let st2 = bind_spec(ast, t as int, st1)->Ok_0.1;
            lemma_bind_keeps_shape(ast, c as int, st);
            lemma_bind_keeps_shape(ast, t as int, st1);
            lemma_bind_keeps_shape(ast, e as int, st2);
            lemma_same_shape_trans(st.frames, st1.frames, st2.frames);
            lemma_same_shape_trans(st.frames, st2.frames, bind_spec(ast, e as int, st2)->Ok_0.1.frames);
        },
        Ast::Lambda(args, body, _) => {
            let f = FrameView::Function(initial_bindings(args@));
            let inner = BindState { frames: st.frames.push(f), ..st };
            lemma_bind_keeps_shape(ast, body as int, inner);
            lemma_same_shape_pop(st.frames, bind_spec(ast, body as int, inner)->Ok_0.1.frames, f);
        },
        Ast::Block(v, _) => {
            let f = FrameView::Block(Map::empty());
            let inner = BindState { frames: st.frames.push(f), ..st };
            lemma_list_keeps_shape(ast, v@, inner, id);
            lemma_same_shape_pop(st.frames, bind_list_spec(ast, v@, inner, id)->Ok_0.1.frames, f);
        },
        Ast::Define(s, value, _) => {
            let (frames, source, next) = declare_spec(st.frames, s, st.next)->Some_0;
            lemma_declare_keeps_shape(st.frames, s, st.next);
            let inner = BindState { frames, next, ..st };
            lemma_bind_keeps_shape(ast, value as int, inner);
            lemma_same_shape_trans(st.frames, frames, bind_spec(ast, value as int, inner)->Ok_0.1.frames);
        },
        _ => {},
    }
}

proof fn lemma_list_keeps_shape(ast: Seq<Ast>, xs: Seq<usize>, st: BindState, bound: int)
    requires
        bind_list_spec(ast, xs, st, bound) is Ok,
    ensures
        same_shape(st.frames, bind_list_spec(ast, xs, st, bound)->Ok_0.1.frames),
    decreases bound, 0nat, xs.len(),
{
    if xs.len() > 0 {
        lemma_list_keeps_shape(ast, xs.drop_last(), st, bound);
        let st1 = bind_list_spec(ast, xs.drop_last(), st, bound)->Ok_0.1;
        lemma_bind_keeps_shape(ast, xs.last() as int, st1);
        lemma_same_shape_trans(st.frames, st1.frames, bind_spec(ast, xs.last() as int, st1)->Ok_0.1.frames);
    }
}

proof fn lemma_pairs_keeps_shape(ast: Seq<Ast>, xs: Seq<(usize, usize)>, st: BindState, bound: int)
    requires
        bind_pairs_spec(ast, xs, st, bound) is Ok,
    ensures
        same_shape(st.frames, bind_pairs_spec(ast, xs, st, bound)->Ok_0.1.frames),
    decreases bound, 0nat, xs.len(),
{
    if xs.len() > 0 {
        lemma_pairs_keeps_shape(ast, xs.drop_last(), st, bound);
        let st1 = bind_pairs_spec(ast, xs.drop_last(), st, bound)->Ok_0.1;
        lemma_bind_keeps_shape(ast, xs.last().0 as int, st1);
        let st2 = bind_spec(ast, xs.last().0 as int, st1)->Ok_0.1;
        lemma_bind_keeps_shape(ast, xs.last().1 as int, st2);
        lemma_same_shape_trans(st.frames, st1.frames, st2.frames);
        lemma_same_shape_trans(st.frames, st2.frames, bind_spec(ast, xs.last().1 as int, st2)->Ok_0.1.frames);
    }
}

/// The number of local declarations in the tree at `id` that belong to the
/// function around it: declarations nested in a function literal belong
/// to that one, and quoted trees hold none.
pub open spec fn define_sites(ast: Seq<Ast>, id: int) -> nat
    decreases id, 1nat, 0nat,
{
    if !(0 <= id < ast.len() && children_below(ast[id], id)) {
        0
    } else {
        match ast[id] {
            Ast::ListLit(v, _) => define_sites_list(ast, v@, id),
            Ast::Add(v, _) => define_sites_list(ast, v@, id),
            Ast::List(v, _) => define_sites_list(ast, v@, id),
            Ast::Block(v, _) => define_sites_list(ast, v@, id),
            Ast::MapLit(v, _) => define_sites_pairs(ast, v@, id),
            Ast::If(c, t, e, _) => define_sites(ast, c as int) + define_sites(ast, t as int)
                + define_sites(ast, e as int),
            Ast::Define(_, value, _) => 1 + define_sites(ast, value as int),
            _ => 0,
        }
    }
}

/// `define_sites` summed over the children `xs`, all below `bound`.
pub open spec fn define_sites_list(ast: Seq<Ast>, xs: Seq<usize>, bound: int) -> nat
    decreases bound, 0nat, xs.len(),
{
    if xs.len() == 0 {
        0
    } else {
        define_sites_list(ast, xs.drop_last(), bound) + if xs.last() < bound {
            define_sites(ast, xs.last() as int)
        } else {
            0
        }
    }
}

/// `define_sites` summed over keys and values of `xs`, all below `bound`.
pub open spec fn define_sites_pairs(ast: Seq<Ast>, xs: Seq<(usize, usize)>, bound: int) -> nat
    decreases bound, 0nat, xs.len(),
{
    if xs.len() == 0 {
        0
    } else {
        define_sites_pairs(ast, xs.drop_last(), bound) + if xs.last().0 < bound && xs.last().1
            < bound {
            define_sites(ast, xs.last().0 as int) + define_sites(ast, xs.last().1 as int)
        } else {
            0
        }
    }
}

/// What a successful pass on the tree at `id` does to the frames: those
/// below the frame where declarations land stay as they were, and the
/// function there, if any, gains one local slot per declaration site.
pub open spec fn keeps_outer_and_counts(before: Seq<FrameView>, after: Seq<FrameView>, sites: nat) -> bool {
    &&& after.subrange(0, boundary(before)) == before.subrange(0, boundary(before))
    &&& local_count(after) == local_count(before) + if declares_locals(before) { sites } else { 0 }
}

proof fn lemma_counts_trans(a: Seq<FrameView>, b: Seq<FrameView>, c: Seq<FrameView>, x: nat, y: nat)
    requires
        same_shape(a, b),
        keeps_outer_and_counts(a, b, x),
        keeps_outer_and_counts(b, c, y),
    ensures
        keeps_outer_and_counts(a, c, x + y),
{
    lemma_boundary_same_shape(a, b);
}

pub proof fn lemma_bind_counts(ast: Seq<Ast>, id: int, st: BindState)
    requires
        bind_spec(ast, id, st) is Ok,
    ensures
        keeps_outer_and_counts(
            st.frames,
            bind_spec(ast, id, st)->Ok_0.1.frames,
            define_sites(ast, id),
        ),
    decreases id, 1nat, 0nat,
{
    let fin = bind_spec(ast, id, st)->Ok_0.1.frames;
    lemma_bind_keeps_shape(ast, id, st);
    lemma_boundary_range(st.frames);
    match ast[id] {
        Ast::ListLit(v, _) => lemma_list_counts(ast, v@, st, id),
        Ast::Add(v, _) => lemma_list_counts(ast, v@, st, id),
        Ast::List(v, _) => lemma_list_counts(ast, v@, st, id),
        Ast::MapLit(v, _) => lemma_pairs_counts(ast, v@, st, id),
        Ast::If(c, t, e, _) => {
            let st1 = bind_spec(ast, c as int, st)->Ok_0.1;
            let st2 = bind_spec(ast, t as int, st1)->Ok_0.1;
            lemma_bind_keeps_shape(ast, c as int, st);
            lemma_bind_keeps_shape(ast, t as int, st1);
            lemma_bind_counts(ast, c as int, st);
            lemma_bind_counts(ast, t as int, st1);
            lemma_bind_counts(ast, e as int, st2);
            lemma_counts_trans(st.frames, st1.frames, st2.frames, define_sites(ast, c as int), define_sites(ast, t as int));
            lemma_same_shape_trans(st.frames, st1.frames, st2.frames);
            lemma_counts_trans(st.frames, st2.frames, fin, define_sites(ast, c as int) + define_sites(ast, t as int), define_sites(ast, e as int));
        },
        Ast::Lambda(args, body, _) => {
            let f = FrameView::Function(initial_bindings(args@));
            let inner = st.frames.push(f);
            let ist = BindState { frames: inner, ..st };
            let st1 = bind_spec(ast, body as int, ist)->Ok_0.1;
            lemma_bind_keeps_shape(ast, body as int, ist);
            lemma_bind_counts(ast, body as int, ist);
            assert(inner.drop_last() =~= st.frames);
            assert(boundary(inner) == st.frames.len());
            assert(inner.subrange(0, st.frames.len() as int) =~= st.frames);
            assert(st1.frames.drop_last() =~= st1.frames.subrange(0, st.frames.len() as int));
            assert(fin == st.frames);
            assert(fin.subrange(0, boundary(st.frames)) =~= st.frames.subrange(0, boundary(st.frames)));
        },
        Ast::Block(v, _) => {
            let f = FrameView::Block(Map::empty());
            let inner = st.frames.push(f);
            let ist = BindState { frames: inner, ..st };
            let st1 = bind_list_spec(ast, v@, ist, id)->Ok_0.1;
            lemma_list_keeps_shape(ast, v@, ist, id);
            lemma_list_counts(ast, v@, ist, id);
            assert(inner.drop_last() =~= st.frames);
            assert(boundary(inner) == boundary(st.frames));
            lemma_boundary_same_shape(inner, st1.frames);
            assert(st1.frames.last() is Block) by {
                assert(crate::scope::same_kind(inner[st.frames.len() as int], st1.frames[st.frames.len() as int]));
            }
            assert(boundary(st1.frames) == boundary(fin));
            assert(fin.subrange(0, boundary(st.frames)) =~= st1.frames.subrange(0, boundary(st.frames)));
            assert(inner.subrange(0, boundary(st.frames)) =~= st.frames.subrange(0, boundary(st.frames)));
            if declares_locals(st.frames) {
                assert(inner[boundary(st.frames)] == st.frames[boundary(st.frames)]);
                assert(fin[boundary(st.frames)] == st1.frames[boundary(st.frames)]);
            }
            if declares_locals(fin) {
                assert(fin[boundary(st.frames)] == st1.frames[boundary(st.frames)]);
            }
            if declares_locals(inner) {
                assert(inner[boundary(st.frames)] == st.frames[boundary(st.frames)]);
            }
            if declares_locals(st1.frames) {
                assert(fin[boundary(st.frames)] == st1.frames[boundary(st.frames)]);
            }
        },
        Ast::Define(s, value, _) => {
            let (frames, source, next) = declare_spec(st.frames, s, st.next)->Some_0;
            lemma_declare_keeps_shape(st.frames, s, st.next);
            lemma_declare_locals(st.frames, s, st.next);
            let ist = BindState { frames, next, ..st };
            lemma_bind_counts(ast, value as int, ist);
            lemma_counts_trans(st.frames, frames, fin, if declares_locals(st.frames) { 1nat } else { 0nat }, define_sites(ast, value as int));
            lemma_boundary_same_shape(st.frames, frames);
        },
        _ => {
            assert(fin == st.frames);
        },
    }
}

proof fn lemma_list_counts(ast: Seq<Ast>, xs: Seq<usize>, st: BindState, bound: int)
    requires
        bind_list_spec(ast, xs, st, bound) is Ok,
    ensures
        keeps_outer_and_counts(
            st.frames,
            bind_list_spec(ast, xs, st, bound)->Ok_0.1.frames,
            define_sites_list(ast, xs, bound),
        ),
    decreases bound, 0nat, xs.len(),
{
    if xs.len() == 0 {
        assert(st.frames.subrange(0, boundary(st.frames)) == st.frames.subrange(0, boundary(st.frames)));
    } else {
        lemma_list_counts(ast, xs.drop_last(), st, bound);
        lemma_list_keeps_shape(ast, xs.drop_last(), st, bound);
        let st1 = bind_list_spec(ast, xs.drop_last(), st, bound)->Ok_0.1;
        lemma_bind_counts(ast, xs.last() as int, st1);
        lemma_counts_trans(
            st.frames,
            st1.frames,
            bind_spec(ast, xs.last() as int, st1)->Ok_0.1.frames,
            define_sites_list(ast, xs.drop_last(), bound),
            define_sites(ast, xs.last() as int),
        );
    }
}

proof fn lemma_pairs_counts(ast: Seq<Ast>, xs: Seq<(usize, usize)>, st: BindState, bound: int)
    requires
        bind_pairs_spec(ast, xs, st, bound) is Ok,
    ensures
        keeps_outer_and_counts(
            st.frames,
            bind_pairs_spec(ast, xs, st, bound)->Ok_0.1.frames,
            define_sites_pairs(ast, xs, bound),
        ),
    decreases bound, 0nat, xs.len(),
{
    if xs.len() == 0 {
        assert(st.frames.subrange(0, boundary(st.frames)) == st.frames.subrange(0, boundary(st.frames)));
    } else {
        lemma_pairs_counts(ast, xs.drop_last(), st, bound);
        lemma_pairs_keeps_shape(ast, xs.drop_last(), st, bound);
        let st1 = bind_pairs_spec(ast, xs.drop_last(), st, bound)->Ok_0.1;
        let st2 = bind_spec(ast, xs.last().0 as int, st1)->Ok_0.1;
        lemma_bind_counts(ast, xs.last().0 as int, st1);
        lemma_bind_keeps_shape(ast, xs.last().0 as int, st1);
        lemma_bind_counts(ast, xs.last().1 as int, st2);
        lemma_counts_trans(
            st.frames,
            st1.frames,
            st2.frames,
            define_sites_pairs(ast, xs.drop_last(), bound),
            define_sites(ast, xs.last().0 as int),
        );
        lemma_same_shape_trans(st.frames, st1.frames, st2.frames);
        lemma_counts_trans(
            st.frames,
            st2.frames,
            bind_spec(ast, xs.last().1 as int, st2)->Ok_0.1.frames,
            define_sites_pairs(ast, xs.drop_last(), bound) + define_sites(ast, xs.last().0 as int),
            define_sites(ast, xs.last().1 as int),
        );
    }
}

/// Every function node among `out` has a well-formed summary.
pub open spec fn summaries_wf(out: Seq<BoundView>) -> bool {
    forall|i: int| 0 <= i < out.len() ==> match #[trigger] out[i] {
        BoundView::Lambda { bindings, .. } => bindings_wf(bindings),
        _ => true,
    }
}

/// What stays true of every successful pass: the chain's summaries and
/// the produced function nodes' summaries are well-formed.
pub open spec fn state_summaries_wf(st: BindState) -> bool {
    chain_summaries_wf(st.frames) && summaries_wf(st.out)
}

proof fn lemma_emit_summaries_wf(st: BindState, node: BoundView)
    requires
        state_summaries_wf(st),
        node matches BoundView::Lambda { bindings, .. } ==> bindings_wf(bindings),
    ensures
        state_summaries_wf(emit(st, node)->Ok_0.1),
{
    let out = st.out.push(node);
    assert forall|i: int| 0 <= i < out.len() implies match #[trigger] out[i] {
        BoundView::Lambda { bindings, .. } => bindings_wf(bindings),
        _ => true,
    } by {
        if i < st.out.len() {
            assert(out[i] == st.out[i]);
        }
    }
}

pub proof fn lemma_pop_summaries_wf(fr: Seq<FrameView>)
    requires
        chain_summaries_wf(fr),
        fr.len() > 0,
    ensures
        chain_summaries_wf(fr.drop_last()),
        fr.last() is Function ==> bindings_wf(fr.last()->Function_0),
{
    assert(fr[fr.len() - 1] == fr.last());
    assert forall|i: int| 0 <= i < fr.drop_last().len() && (#[trigger] fr.drop_last()[i]) is Function implies bindings_wf(
        fr.drop_last()[i]->Function_0,
    ) by {
        assert(fr.drop_last()[i] == fr[i]);
    }
}

pub proof fn lemma_push_summaries_wf(fr: Seq<FrameView>, f: FrameView)
    requires
        chain_summaries_wf(fr),
        f is Function ==> bindings_wf(f->Function_0),
    ensures
        chain_summaries_wf(fr.push(f)),
{
    assert forall|i: int| 0 <= i < fr.push(f).len() && (#[trigger] fr.push(f)[i]) is Function implies bindings_wf(
        fr.push(f)[i]->Function_0,
    ) by {
        if i < fr.len() {
            assert(fr.push(f)[i] == fr[i]);
        }
    }
}

/// A successful pass keeps every summary well-formed.
pub proof fn lemma_bind_summaries_wf(ast: Seq<Ast>, id: int, st: BindState)
    requires
        state_summaries_wf(st),
        bind_spec(ast, id, st) is Ok,
    ensures
        state_summaries_wf(bind_spec(ast, id, st)->Ok_0.1),
    decreases id, 1nat, 0nat,
{
    let a = id as usize;
    match ast[id] {
        Ast::ListLit(v, _) => {
            lemma_list_summaries_wf(ast, v@, st, id);
            lemma_emit_summaries_wf(bind_list_spec(ast, v@, st, id)->Ok_0.1, BoundView::ListLit(bind_list_spec(ast, v@, st, id)->Ok_0.0, a));
        },
        Ast::Add(v, _) => {
            lemma_list_summaries_wf(ast, v@, st, id);
            lemma_emit_summaries_wf(bind_list_spec(ast, v@, st, id)->Ok_0.1, BoundView::Add(bind_list_spec(ast, v@, st, id)->Ok_0.0, a));
        },
        Ast::List(v, _) => {
            lemma_list_summaries_wf(ast, v@, st, id);
            lemma_emit_summaries_wf(bind_list_spec(ast, v@, st, id)->Ok_0.1, BoundView::List(bind_list_spec(ast, v@, st, id)->Ok_0.0, a));
        },
        Ast::MapLit(v, _) => {
            lemma_pairs_summaries_wf(ast, v@, st, id);
            lemma_emit_summaries_wf(bind_pairs_spec(ast, v@, st, id)->Ok_0.1, BoundView::MapLit(bind_pairs_spec(ast, v@, st, id)->Ok_0.0, a));
        },
        Ast::If(c, t, e, _) => {
            let (bc, st1) = bind_spec(ast, c as int, st)->Ok_0;
            let (bt, st2) = bind_spec(ast, t as int, st1)->Ok_0;
            let (be, st3) = bind_spec(ast, e as int, st2)->Ok_0;
            lemma_bind_summaries_wf(ast, c as int, st);
            lemma_bind_summaries_wf(ast, t as int, st1);
            lemma_bind_summaries_wf(ast, e as int, st2);
            lemma_emit_summaries_wf(st3, BoundView::If(bc, bt, be, a));
        },
        Ast::Lambda(args, body, _) => {
            let f = FrameView::Function(initial_bindings(args@));
            let ist = BindState { frames: st.frames.push(f), ..st };
            lemma_initial_bindings_wf(args@);
            lemma_push_summaries_wf(st.frames, f);
            lemma_bind_summaries_wf(ast, body as int, ist);
            let (bb, st1) = bind_spec(ast, body as int, ist)->Ok_0;
            lemma_bind_keeps_shape(ast, body as int, ist);
            lemma_same_shape_pop(st.frames, st1.frames, f);
            lemma_pop_summaries_wf(st1.frames);
            lemma_emit_summaries_wf(
                BindState { frames: st1.frames.drop_last(), ..st1 },
                BoundView::Lambda {
                    arg_symbols: args@,
                    body: bb,
                    ast: a,
                    bindings: st1.frames.last()->Function_0,
                },
            );
        },
        Ast::Block(v, _) => {
            let f = FrameView::Block(Map::empty());
            let ist = BindState { frames: st.frames.push(f), ..st };
            lemma_push_summaries_wf(st.frames, f);
            lemma_list_summaries_wf(ast, v@, ist, id);
            let (ids, st1) = bind_list_spec(ast, v@, ist, id)->Ok_0;
            lemma_list_keeps_shape(ast, v@, ist, id);
            lemma_same_shape_pop(st.frames, st1.frames, f);
            lemma_pop_summaries_wf(st1.frames);
            lemma_emit_summaries_wf(
                BindState { frames: st1.frames.drop_last(), ..st1 },
                BoundView::Block(ids, a),
            );
        },
        Ast::Define(s, value, _) => {
            let (frames, source, next) = declare_spec(st.frames, s, st.next)->Some_0;
            lemma_declare_summaries_wf(st.frames, s, st.next);
            let ist = BindState { frames, next, ..st };
            lemma_bind_summaries_wf(ast, value as int, ist);
            let (bv, st1) = bind_spec(ast, value as int, ist)->Ok_0;
            lemma_emit_summaries_wf(st1, BoundView::Define(s, source, bv, a));
        },
        Ast::Symbol(s, _) => {
            lemma_emit_summaries_wf(
                st,
                BoundView::Symbol { symbol: s, ast: a, source: lookup_spec(st.frames, s)->Some_0 },
            );
        },
        Ast::Quote(q, _) => {
            lemma_emit_summaries_wf(st, BoundView::Quote { quoting: q, ast: a });
        },
        _ => {
            lemma_emit_summaries_wf(st, BoundView::Literal(a));
        },
    }
}

proof fn lemma_list_summaries_wf(ast: Seq<Ast>, xs: Seq<usize>, st: BindState, bound: int)
    requires
        state_summaries_wf(st),
        bind_list_spec(ast, xs, st, bound) is Ok,
    ensures
        state_summaries_wf(bind_list_spec(ast, xs, st, bound)->Ok_0.1),
    decreases bound, 0nat, xs.len(),
{
    if xs.len() > 0 {
        lemma_list_summaries_wf(ast, xs.drop_last(), st, bound);
        let st1 = bind_list_spec(ast, xs.drop_last(), st, bound)->Ok_0.1;
        lemma_bind_summaries_wf(ast, xs.last() as int, st1);
    }
}

proof fn lemma_pairs_summaries_wf(ast: Seq<Ast>, xs: Seq<(usize, usize)>, st: BindState, bound: int)
    requires
        state_summaries_wf(st),
        bind_pairs_spec(ast, xs, st, bound) is Ok,
    ensures
        state_summaries_wf(bind_pairs_spec(ast, xs, st, bound)->Ok_0.1),
    decreases bound, 0nat, xs.len(),
{
    if xs.len() > 0 {
        lemma_pairs_summaries_wf(ast, xs.drop_last(), st, bound);
        let st1 = bind_pairs_spec(ast, xs.drop_last(), st, bound)->Ok_0.1;
        lemma_bind_summaries_wf(ast, xs.last().0 as int, st1);
        let st2 = bind_spec(ast, xs.last().0 as int, st1)->Ok_0.1;
        lemma_bind_summaries_wf(ast, xs.last().1 as int, st2);
    }
}

proof fn lemma_same_shape_refl(a: Seq<FrameView>)
    ensures
        same_shape(a, a),
{
}

/// When the pass on the first `j` of `xs` succeeds, so does the pass on the
/// first `i <= j`, and the chain after `j` has the shape of the chain after
/// `i`.
pub proof fn lemma_list_prefix_ok(
    ast: Seq<Ast>,
    xs: Seq<usize>,
    i: int,
    j: int,
    st: BindState,
    bound: int,
)
    requires
        0 <= i <= j <= xs.len(),
        bind_list_spec(ast, xs.subrange(0, j), st, bound) is Ok,
    ensures
        bind_list_spec(ast, xs.subrange(0, i), st, bound) is Ok,
        same_shape(
            bind_list_spec(ast, xs.subrange(0, i), st, bound)->Ok_0.1.frames,
            bind_list_spec(ast, xs.subrange(0, j), st, bound)->Ok_0.1.frames,
        ),
    decreases j - i,
{
    if i == j {
        lemma_same_shape_refl(bind_list_spec(ast, xs.subrange(0, i), st, bound)->Ok_0.1.frames);
    } else {
        let pj = xs.subrange(0, j);
        assert(pj.drop_last() =~= xs.subrange(0, j - 1));
        lemma_list_prefix_ok(ast, xs, i, j - 1, st, bound);
        let st1 = bind_list_spec(ast, xs.subrange(0, j - 1), st, bound)->Ok_0.1;
        lemma_bind_keeps_shape(ast, pj.last() as int, st1);
        lemma_same_shape_trans(
            bind_list_spec(ast, xs.subrange(0, i), st, bound)->Ok_0.1.frames,
            st1.frames,
            bind_list_spec(ast, pj, st, bound)->Ok_0.1.frames,
        );
    }
}

proof fn lemma_list_err_extends(ast: Seq<Ast>, xs: Seq<usize>, j: int, st: BindState, bound: int)
    requires
        0 <= j <= xs.len(),
        bind_list_spec(ast, xs.subrange(0, j), st, bound) is Err,
    ensures
        bind_list_spec(ast, xs, st, bound) == bind_list_spec(ast, xs.subrange(0, j), st, bound),
    decreases xs.len() - j,
{
    if j == xs.len() {
        assert(xs.subrange(0, j) =~= xs);
    } else {
        assert(xs.drop_last().subrange(0, j) =~= xs.subrange(0, j));
        lemma_list_err_extends(ast, xs.drop_last(), j, st, bound);
    }
}

proof fn lemma_pairs_err_extends(
    ast: Seq<Ast>,
    xs: Seq<(usize, usize)>,
    j: int,
    st: BindState,
    bound: int,
)
    requires
        0 <= j <= xs.len(),
        bind_pairs_spec(ast, xs.subrange(0, j), st, bound) is Err,
    ensures
        bind_pairs_spec(ast, xs, st, bound) == bind_pairs_spec(ast, xs.subrange(0, j), st, bound),
    decreases xs.len() - j,
{
    if j == xs.len() {
        assert(xs.subrange(0, j) =~= xs);
    } else {
        assert(xs.drop_last().subrange(0, j) =~= xs.subrange(0, j));
        lemma_pairs_err_extends(ast, xs.drop_last(), j, st, bound);
    }
}

impl Bound {
    /// Whether node `a` of `arena` and node `b` of `other` are the same
    /// resolved tree, the syntax nodes they came from aside.
    pub fn equals_sans_ast(
        arena: &BoundArena,
        a: usize,
        asts: &AstArena,
        other: &BoundArena,
        b: usize,
        other_asts: &AstArena,
    ) -> (r: bool)
        requires
            arena.wf(),
            other.wf(),
            asts.wf(),
            other_asts.wf(),
        ensures
            r == bound_eq(arena@, a as int, asts@, other@, b as int, other_asts@),
        decreases a, 1nat, 0nat,
    {
        if a >= arena.len() || b >= other.len() {
            return false;
        }
        match (arena.get(a), other.get(b)) {
            (Bound::Literal(x), Bound::Literal(y)) => {
                *x < asts.len() && *y < other_asts.len() && asts.equals_sans_span(*x, other_asts, *y)
            },
            (
                Bound::Symbol { symbol: x, source: sx, .. },
                Bound::Symbol { symbol: y, source: sy, .. },
            ) => *x == *y && *sx == *sy,
            (Bound::ListLit(x, _), Bound::ListLit(y, _)) => Bound::list_equals(
                arena,
                x,
                asts,
                other,
                y,
                other_asts,
                a,
            ),
            (Bound::List(x, _), Bound::List(y, _)) => Bound::list_equals(
                arena,
                x,
                asts,
                other,
                y,
                other_asts,
                a,
            ),
            (Bound::Add(x, _), Bound::Add(y, _)) => Bound::list_equals(
                arena,
                x,
                asts,
                other,
                y,
                other_asts,
                a,
            ),
            (Bound::Block(x, _), Bound::Block(y, _)) => Bound::list_equals(
                arena,
                x,
                asts,
                other,
                y,
                other_asts,
                a,
            ),
            (Bound::MapLit(x, _), Bound::MapLit(y, _)) => Bound::pairs_equal(
                arena,
                x,
                asts,
                other,
                y,
                other_asts,
                a,
            ),
            (Bound::Quote { quoting: x, .. }, Bound::Quote { quoting: y, .. }) => {
                *x < asts.len() && *y < other_asts.len() && asts.equals_sans_span(*x, other_asts, *y)
            },
            (Bound::If(c1, t1, e1, _), Bound::If(c2, t2, e2, _)) => {
                *c1 < a && *t1 < a && *e1 < a && Bound::equals_sans_ast(
                    arena,
                    *c1,
                    asts,
                    other,
                    *c2,
                    other_asts,
                ) && Bound::equals_sans_ast(arena, *t1, asts, other, *t2, other_asts)
                    && Bound::equals_sans_ast(arena, *e1, asts, other, *e2, other_asts)
            },
            (
                Bound::Lambda { arg_symbols: x, body: bx, bindings: sx, .. },
                Bound::Lambda { arg_symbols: y, body: by, bindings: sy, .. },
            ) => {
                same_symbols(x, y) && *bx < a && Bound::equals_sans_ast(
                    arena,
                    *bx,
                    asts,
                    other,
                    *by,
                    other_asts,
                ) && sx.same_as(sy)
            },
            (Bound::Define(x, srcx, vx, _), Bound::Define(y, srcy, vy, _)) => {
                *x == *y && *srcx == *srcy && *vx < a && Bound::equals_sans_ast(
                    arena,
                    *vx,
                    asts,
                    other,
                    *vy,
                    other_asts,
                )
            },
            _ => false,
        }
    }

    fn list_equals(
        arena: &BoundArena,
        x: &Vec<usize>,
        asts: &AstArena,
        other: &BoundArena,
        y: &Vec<usize>,
        other_asts: &AstArena,
        bound: usize,
    ) -> (r: bool)
        requires
            arena.wf(),
            other.wf(),
            asts.wf(),
            other_asts.wf(),
        ensures
            r == bound_list_eq(arena@, x@, asts@, other@, y@, other_asts@, bound as int),
        decreases bound, 0nat, x@.len(),
    {
        if x.len() != y.len() {
            proof {
                if bound_list_eq(arena@, x@, asts@, other@, y@, other_asts@, bound as int) {
                    lemma_bound_list_eq_len(arena@, x@, asts@, other@, y@, other_asts@, bound as int);
                }
            }
            return false;
        }
        let mut ok = true;
        let mut i: usize = 0;
        while i < x.len()
            invariant
                arena.wf(),
                other.wf(),
                asts.wf(),
                other_asts.wf(),
                x@.len() == y@.len(),
                i <= x@.len(),
                ok == bound_list_eq(
                    arena@,
                    x@.subrange(0, i as int),
                    asts@,
                    other@,
                    y@.subrange(0, i as int),
                    other_asts@,
                    bound as int,
                ),
            decreases x@.len() - i,
        {
            proof {
                assert(x@.subrange(0, i + 1).drop_last() =~= x@.subrange(0, i as int));
                assert(y@.subrange(0, i + 1).drop_last() =~= y@.subrange(0, i as int));
            }
            ok = ok && x[i] < bound && Bound::equals_sans_ast(
                arena,
                x[i],
                asts,
                other,
                y[i],
                other_asts,
            );
            i = i + 1;
        }
        proof {
            assert(x@.subrange(0, i as int) =~= x@);
            assert(y@.subrange(0, i as int) =~= y@);
        }
        ok
    }

    fn pairs_equal(
        arena: &BoundArena,
        x: &Vec<(usize, usize)>,
        asts: &AstArena,
        other: &BoundArena,
        y: &Vec<(usize, usize)>,
        other_asts: &AstArena,
        bound: usize,
    ) -> (r: bool)
        requires
            arena.wf(),
            other.wf(),
            asts.wf(),
            other_asts.wf(),
        ensures
            r == bound_pairs_eq(arena@, x@, asts@, other@, y@, other_asts@, bound as int),
        decreases bound, 0nat, x@.len(),
    {
        if x.len() != y.len() {
            proof {
                if bound_pairs_eq(arena@, x@, asts@, other@, y@, other_asts@, bound as int) {
                    lemma_bound_pairs_eq_len(arena@, x@, asts@, other@, y@, other_asts@, bound as int);
                }
            }
            return false;
        }
        let mut ok = true;
        let mut i: usize = 0;
        while i < x.len()
            invariant
                arena.wf(),
                other.wf(),
                asts.wf(),
                other_asts.wf(),
                x@.len() == y@.len(),
                i <= x@.len(),
                ok == bound_pairs_eq(
                    arena@,
                    x@.subrange(0, i as int),
                    asts@,
                    other@,
                    y@.subrange(0, i as int),
                    other_asts@,
                    bound as int,
                ),
            decreases x@.len() - i,
        {
            proof {
                assert(x@.subrange(0, i + 1).drop_last() =~= x@.subrange(0, i as int));
                assert(y@.subrange(0, i + 1).drop_last() =~= y@.subrange(0, i as int));
            }
            let (k1, v1) = x[i];
            let (k2, v2) = y[i];
            ok = ok && k1 < bound && v1 < bound && Bound::equals_sans_ast(
                arena,
                k1,
                asts,
                other,
                k2,
                other_asts,
            ) && Bound::equals_sans_ast(arena, v1, asts, other, v2, other_asts);
            i = i + 1;
        }
        proof {
            assert(x@.subrange(0, i as int) =~= x@);
            assert(y@.subrange(0, i as int) =~= y@);
        }
        ok
    }

    /// Resolves the tree rooted at syntax node `id`, starting from a chain
    /// that holds only the global scope, and appends the resolved nodes to
    /// `out`; returns the index of the resolved root, or the first error.
    pub fn bind_top(
        ast: &AstArena,
        id: usize,
        out: &mut BoundArena,
        interner: &mut SymbolIntern,
    ) -> (r: Result<usize, BindingError>)
        requires
            ast.wf(),
            id < ast@.len(),
            old(interner).wf(),
            old(out).wf(),
            arena_symbols_below(ast@, old(interner)@.len()),
        ensures
            final(interner).wf(),
            final(out).wf(),
            extends_with_fresh(old(interner)@, final(interner)@),
            match bind_spec(
                ast@,
                id as int,
                BindState {
                    frames: seq![FrameView::Global],
                    next: old(interner)@.len(),
                    out: old(out)@,
                },
            ) {
                Ok((i, st)) => r == Ok::<usize, BindingError>(i) && final(out)@ == st.out
                    && final(interner)@.len() == st.next,
                Err(e) => r == Err::<usize, BindingError>(e),
            },
    {
        let mut frames: Vec<Frame> = Vec::new();
        frames.push(Frame::Global);
        proof {
            assert(chain_view(frames@) =~= seq![FrameView::Global]);
            assert(chain_keys_below(chain_view(frames@), interner@.len())) by {
                assert(chain_view(frames@)[0] == FrameView::Global);
            }
        }
        Bound::bind(ast, id, &mut frames, interner, out)
    }

    fn bind(
        asts: &AstArena,
        id: usize,
        frames: &mut Vec<Frame>,
        interner: &mut SymbolIntern,
        out: &mut BoundArena,
    ) -> (r: Result<usize, BindingError>)
        requires
            asts.wf(),
            id < asts@.len(),
            old(interner).wf(),
            old(out).wf(),
            arena_symbols_below(asts@, old(interner)@.len()),
            chain_keys_below(chain_view(old(frames)@), old(interner)@.len()),
        ensures
            r is Ok ==> chain_keys_below(chain_view(final(frames)@), final(interner)@.len()),
            final(interner).wf(),
            final(out).wf(),
            final(out)@.len() >= old(out)@.len(),
            r matches Ok(i) ==> i < final(out)@.len(),
            extends_with_fresh(old(interner)@, final(interner)@),
            match bind_spec(asts@, id as int, state_of(old(frames)@, old(interner)@, old(out)@)) {
                Ok((i, st)) => r == Ok::<usize, BindingError>(i) && state_of(
                    final(frames)@,
                    final(interner)@,
                    final(out)@,
                ) == st,
                Err(e) => r == Err::<usize, BindingError>(e),
            },
        decreases id, 1nat, 0nat,
    {
        proof {
            assert(children_below(asts@[id as int], id as int));
            lemma_extends_with_fresh_refl(interner@);
        }
        let ghost fr0 = frames@;
        let ghost i0 = interner@;
        match asts.get(id) {
            Ast::BoolLit(..) | Ast::StringLit(..) | Ast::IntLit(..) | Ast::FloatLit(..) => {
                Ok(out.push_node(Bound::Literal(id)))
            },
            Ast::ListLit(v, _) => match Bound::bind_list(asts, v, id, frames, interner, out) {
                Err(e) => Err(e),
                Ok(ids) => Ok(out.push_node(Bound::ListLit(ids, id))),
            },
            Ast::Add(v, _) => match Bound::bind_list(asts, v, id, frames, interner, out) {
                Err(e) => Err(e),
                Ok(ids) => Ok(out.push_node(Bound::Add(ids, id))),
            },
            Ast::List(v, _) => match Bound::bind_list(asts, v, id, frames, interner, out) {
                Err(e) => Err(e),
                Ok(ids) => Ok(out.push_node(Bound::List(ids, id))),
            },
            Ast::MapLit(v, _) => match Bound::bind_pairs(asts, v, id, frames, interner, out) {
                Err(e) => Err(e),
                Ok(ids) => Ok(out.push_node(Bound::MapLit(ids, id))),
            },
            Ast::Symbol(s, span) => match lookup(frames, *s) {
                Some(source) => Ok(out.push_node(Bound::Symbol { symbol: *s, ast: id, source })),
                None => Err(BindingError::CouldNotBind(*s, *span)),
            },
            Ast::Quote(q, _) => Ok(out.push_node(Bound::Quote { quoting: *q, ast: id })),
            Ast::If(c, t, e, _) => match Bound::bind(asts, *c, frames, interner, out) {
                Err(err) => Err(err),
                Ok(bc) => {
                    let ghost i1 = interner@;
                    let rt = Bound::bind(asts, *t, frames, interner, out);
                    proof {
                        lemma_extends_with_fresh_trans(i0, i1, interner@);
                    }
                    match rt {
                        Err(err) => Err(err),
                        Ok(bt) => {
                            let ghost i2 = interner@;
                            let re = Bound::bind(asts, *e, frames, interner, out);
                            proof {
                                lemma_extends_with_fresh_trans(i0, i2, interner@);
                            }
                            match re {
                                Err(err) => Err(err),
                                Ok(be) => Ok(out.push_node(Bound::If(bc, bt, be, id))),
                            }
                        },
                    }
                },
            },
            Ast::Lambda(args, body, _) => {
                if args.len() > u32::MAX as usize {
                    return Err(BindingError::TooManyBindings);
                }
                let summary = LambdaBindings::new(args);
                frames.push(Frame::Function(summary));
                proof {
                    let f = FrameView::Function(initial_bindings(args@));
                    assert(chain_view(frames@) =~= chain_view(fr0).push(f));
                    assert(symbols_below(asts@[id as int], interner@.len()));
                    assert(chain_keys_below(seq![f], interner@.len())) by {
                        assert(seq![f][0] == f);
                        assert forall|k: Symbol| #[trigger] args_map(args@).contains_key(k) implies k
                            < interner@.len() by {
                            lemma_args_map_keys(args@, k);
                            let j = choose|j: int| 0 <= j < args@.len() && args@[j] == k;
                            assert(args@[j] < interner@.len());
                        }
                    }
                    lemma_keys_below_push(chain_view(fr0), f, interner@.len());
                }
                let ghost inner = state_of(frames@, interner@, out@);
                match Bound::bind(asts, *body, frames, interner, out) {
                    Err(err) => Err(err),
                    Ok(bb) => {
                        let ghost fr1 = frames@;
                        proof {
                            lemma_bind_keeps_shape(asts@, *body as int, inner);
                            lemma_same_shape_pop(
                                chain_view(fr0),
                                chain_view(fr1),
                                FrameView::Function(initial_bindings(args@)),
                            );
                            assert(chain_view(fr1).last() == fr1.last()@);
                        }
                        match frames.pop() {
                            Some(Frame::Function(bindings)) => {
                                proof {
                                    assert(chain_view(frames@) =~= chain_view(fr1).drop_last());
                                }
                                Ok(
                                    out.push_node(
                                        Bound::Lambda {
                                            arg_symbols: args.clone(),
                                            body: bb,
                                            ast: id,
                                            bindings,
                                        },
                                    ),
                                )
                            },
                            _ => vstd::pervasive::unreached(),
                        }
                    },
                }
            },
            Ast::Block(v, _) => {
                frames.push(Frame::Block(HashMap::new()));
                proof {
                    assert(chain_view(frames@) =~= chain_view(fr0).push(
                        FrameView::Block(Map::empty()),
                    ));
                }
                let ghost inner = state_of(frames@, interner@, out@);
                match Bound::bind_list(asts, v, id, frames, interner, out) {
                    Err(e) => Err(e),
                    Ok(ids) => {
                        let ghost fr1 = frames@;
                        proof {
                            lemma_list_keeps_shape(asts@, v@, inner, id as int);
                            lemma_same_shape_pop(
                                chain_view(fr0),
                                chain_view(fr1),
                                FrameView::Block(Map::empty()),
                            );
                        }
                        let _ = frames.pop();
                        proof {
                            assert(chain_view(frames@) =~= chain_view(fr1).drop_last());
                        }
                        Ok(out.push_node(Bound::Block(ids, id)))
                    },
                }
            },
            Ast::Define(s, value, _) => {
                if already_binds(frames, *s) {
                    return Err(BindingError::AlreadyDefined(*s));
                }
                match add_declaration(frames, *s, interner) {
                    None => Err(BindingError::TooManyBindings),
                    Some(source) => {
                        let ghost i1 = interner@;
                        let rv = Bound::bind(asts, *value, frames, interner, out);
                        proof {
                            lemma_extends_with_fresh_trans(i0, i1, interner@);
                        }
                        match rv {
                            Err(err) => Err(err),
                            Ok(bv) => Ok(out.push_node(Bound::Define(*s, source, bv, id))),
                        }
                    },
                }
            },
        }
    }

    fn bind_list(
        asts: &AstArena,
        xs: &Vec<usize>,
        bound: usize,
        frames: &mut Vec<Frame>,
        interner: &mut SymbolIntern,
        out: &mut BoundArena,
    ) -> (r: Result<Vec<usize>, BindingError>)
        requires
            asts.wf(),
            bound <= asts@.len(),
            forall|i: int| 0 <= i < xs@.len() ==> (#[trigger] xs@[i] as int) < bound,
            old(interner).wf(),
            old(out).wf(),
            arena_symbols_below(asts@, old(interner)@.len()),
            chain_keys_below(chain_view(old(frames)@), old(interner)@.len()),
        ensures
            r is Ok ==> chain_keys_below(chain_view(final(frames)@), final(interner)@.len()),
            final(interner).wf(),
            final(out).wf(),
            final(out)@.len() >= old(out)@.len(),
            r matches Ok(v) ==> forall|j: int| 0 <= j < v@.len() ==> (#[trigger] v@[j] as int)
                < final(out)@.len(),
            extends_with_fresh(old(interner)@, final(interner)@),
            match bind_list_spec(
                asts@,
                xs@,
                state_of(old(frames)@, old(interner)@, old(out)@),
                bound as int,
            ) {
                Ok((ids, st)) => r matches Ok(v) && v@ == ids && state_of(
                    final(frames)@,
                    final(interner)@,
                    final(out)@,
                ) == st,
                Err(e) => r == Err::<Vec<usize>, BindingError>(e),
            },
        decreases bound, 0nat, xs@.len(),
    {
        let ghost st0 = state_of(frames@, interner@, out@);
        proof {
            lemma_extends_with_fresh_refl(interner@);
        }
        let mut ids: Vec<usize> = Vec::new();
        let mut i: usize = 0;
        proof {
            assert(xs@.subrange(0, 0) =~= Seq::<usize>::empty());
            assert(ids@ =~= Seq::<usize>::empty());
        }
        while i < xs.len()
            invariant
                asts.wf(),
                bound <= asts@.len(),
                forall|i: int| 0 <= i < xs@.len() ==> (#[trigger] xs@[i] as int) < bound,
                interner.wf(),
                i <= xs@.len(),
                st0 == state_of(old(frames)@, old(interner)@, old(out)@),
                extends_with_fresh(old(interner)@, interner@),
                out.wf(),
                out@.len() >= old(out)@.len(),
                arena_symbols_below(asts@, interner@.len()),
                chain_keys_below(chain_view(frames@), interner@.len()),
                forall|j: int| 0 <= j < ids@.len() ==> (#[trigger] ids@[j] as int) < out@.len(),
                bind_list_spec(asts@, xs@.subrange(0, i as int), st0, bound as int) == Ok::<
                    (Seq<usize>, BindState),
                    BindingError,
                >((ids@, state_of(frames@, interner@, out@))),
            decreases xs@.len() - i,
        {
            proof {
                assert(xs@.subrange(0, i + 1).drop_last() =~= xs@.subrange(0, i as int));
            }
            let ghost sti = state_of(frames@, interner@, out@);
            let ghost pre = xs@.subrange(0, i + 1);
            proof {
                assert(pre.last() == xs@[i as int]);
            }
            let ghost ib = interner@;
            let rb = Bound::bind(asts, xs[i], frames, interner, out);
            proof {
                lemma_extends_with_fresh_trans(old(interner)@, ib, interner@);
                lemma_arena_symbols_mono(asts@, ib.len(), interner@.len());
            }
            match rb {
                Err(e) => {
                    proof {
                        assert(bind_spec(asts@, xs@[i as int] as int, sti) == Err::<
                            (usize, BindState),
                            BindingError,
                        >(e));
                        assert(bind_list_spec(asts@, pre, st0, bound as int) == Err::<
                            (Seq<usize>, BindState),
                            BindingError,
                        >(e));
                        lemma_list_err_extends(asts@, xs@, i + 1, st0, bound as int);
                    }
                    return Err(e);
                },
                Ok(b) => {
                    ids.push(b);
                },
            }
            i = i + 1;
        }
        proof {
            assert(xs@.subrange(0, i as int) =~= xs@);
        }
        Ok(ids)
    }

    fn bind_pairs(
        asts: &AstArena,
        xs: &Vec<(usize, usize)>,
        bound: usize,
        frames: &mut Vec<Frame>,
        interner: &mut SymbolIntern,
        out: &mut BoundArena,
    ) -> (r: Result<Vec<(usize, usize)>, BindingError>)
        requires
            asts.wf(),
            bound <= asts@.len(),
            forall|i: int| 0 <= i < xs@.len() ==> (#[trigger] xs@[i]).0 < bound && xs@[i].1 < bound,
            old(interner).wf(),
            old(out).wf(),
            arena_symbols_below(asts@, old(interner)@.len()),
            chain_keys_below(chain_view(old(frames)@), old(interner)@.len()),
        ensures
            r is Ok ==> chain_keys_below(chain_view(final(frames)@), final(interner)@.len()),
            final(interner).wf(),
            final(out).wf(),
            final(out)@.len() >= old(out)@.len(),
            r matches Ok(v) ==> forall|j: int| 0 <= j < v@.len() ==> (#[trigger] v@[j]).0
                < final(out)@.len() && v@[j].1 < final(out)@.len(),
            extends_with_fresh(old(interner)@, final(interner)@),
            match bind_pairs_spec(
                asts@,
                xs@,
                state_of(old(frames)@, old(interner)@, old(out)@),
                bound as int,
            ) {
                Ok((ids, st)) => r matches Ok(v) && v@ == ids && state_of(
                    final(frames)@,
                    final(interner)@,
                    final(out)@,
                ) == st,
                Err(e) => r == Err::<Vec<(usize, usize)>, BindingError>(e),
            },
        decreases bound, 0nat, xs@.len(),
    {
        let ghost st0 = state_of(frames@, interner@, out@);
        proof {
            lemma_extends_with_fresh_refl(interner@);
        }
        let mut ids: Vec<(usize, usize)> = Vec::new();
        let mut i: usize = 0;
        proof {
            assert(xs@.subrange(0, 0) =~= Seq::<(usize, usize)>::empty());
            assert(ids@ =~= Seq::<(usize, usize)>::empty());
        }
        while i < xs.len()
            invariant
                asts.wf(),
                bound <= asts@.len(),
                forall|i: int| 0 <= i < xs@.len() ==> (#[trigger] xs@[i]).0 < bound && xs@[i].1 < bound,
                interner.wf(),
                i <= xs@.len(),
                st0 == state_of(old(frames)@, old(interner)@, old(out)@),
                extends_with_fresh(old(interner)@, interner@),
                out.wf(),
                out@.len() >= old(out)@.len(),
                arena_symbols_below(asts@, interner@.len()),
                chain_keys_below(chain_view(frames@), interner@.len()),
                forall|j: int| 0 <= j < ids@.len() ==> (#[trigger] ids@[j]).0 < out@.len() && ids@[j].1 < out@.len(),
                bind_pairs_spec(asts@, xs@.subrange(0, i as int), st0, bound as int) == Ok::<
                    (Seq<(usize, usize)>, BindState),
                    BindingError,
                >((ids@, state_of(frames@, interner@, out@))),
            decreases xs@.len() - i,
        {
            proof {
                assert(xs@.subrange(0, i + 1).drop_last() =~= xs@.subrange(0, i as int));
            }
            let (k, v) = xs[i];
            let ghost pre = xs@.subrange(0, i + 1);
            proof {
                assert(pre.last() == xs@[i as int]);
            }
            let ghost ib = interner@;
            let rk = Bound::bind(asts, k, frames, interner, out);
            proof {
                lemma_extends_with_fresh_trans(old(interner)@, ib, interner@);
                lemma_arena_symbols_mono(asts@, ib.len(), interner@.len());
            }
            match rk {
                Err(e) => {
                    proof {
                        assert(bind_pairs_spec(asts@, pre, st0, bound as int) == Err::<
                            (Seq<(usize, usize)>, BindState),
                            BindingError,
                        >(e));
                        lemma_pairs_err_extends(asts@, xs@, i + 1, st0, bound as int);
                    }
                    return Err(e);
                },
                Ok(bk) => {
                    let ghost ik = interner@;
                    let rv = Bound::bind(asts, v, frames, interner, out);
                    proof {
                        lemma_extends_with_fresh_trans(old(interner)@, ik, interner@);
                lemma_arena_symbols_mono(asts@, ik.len(), interner@.len());
                    }
                    match rv {
                        Err(e) => {
                            proof {
                                assert(bind_pairs_spec(asts@, pre, st0, bound as int) == Err::<
                                    (Seq<(usize, usize)>, BindState),
                                    BindingError,
                                >(e));
                                lemma_pairs_err_extends(asts@, xs@, i + 1, st0, bound as int);
                            }
                            return Err(e);
                        },
                        Ok(bv) => {
                            ids.push((bk, bv));
                        },
                    }
                },
            }
            i = i + 1;
        }
        proof {
            assert(xs@.subrange(0, i as int) =~= xs@);
        }
        Ok(ids)
    }
}

} // verus!
