use vstd::prelude::*;

use crate::bindings::{
    args_map, bindings_wf, initial_bindings, lemma_initial_bindings_wf, lemma_slots_exact,
    slots_exact, uses_arg, BindingsView, SymbolBindSource,
};
use crate::bound::{
    bind_spec, bound_eq, define_sites, lemma_bind_counts, lemma_bind_summaries_wf,
    lemma_pop_summaries_wf, lemma_push_summaries_wf, bound_arena_wf, bound_children_below,
    bound_list_eq, bind_list_spec, lemma_bound_eq_symmetric, lemma_bound_list_eq_pairwise,
    lemma_list_prefix_ok,
    lemma_bind_keeps_shape, summaries_wf, BindState, BindingError, BoundView,
};
use crate::interner::{Symbol, SYMBOL_LIMIT};
use crate::scope::{
    lemma_declare_keeps_shape,
    already_binds_spec, boundary, chain_summaries_wf, declare_spec, lemma_boundary_same_shape,
    lookup_spec, same_kind, FrameView,
};
use crate::syntax::{arena_wf, ast_eq, children_below, Ast};

verus! {

/// Whether `a` is a boolean, string, integer or float literal.
pub open spec fn is_literal(a: Ast) -> bool {
    a is BoolLit || a is StringLit || a is IntLit || a is FloatLit
}

/// A literal resolves, in any state, to a node that wraps that very syntax
/// node, leaves the scopes and the symbol table alone, and equals any
/// hand-built literal node over a syntax node with the same value.
pub proof fn law_literal_binds_to_itself(
    ast: Seq<Ast>,
    id: usize,
    st: BindState,
    other_out: Seq<BoundView>,
    k: int,
    other_ast: Seq<Ast>,
    j: usize,
)
    requires
        arena_wf(ast),
        id < ast.len(),
        is_literal(ast[id as int]),
        st.out.len() < usize::MAX,
        0 <= k < other_out.len(),
        other_out[k] == BoundView::Literal(j),
        ast_eq(ast, id as int, other_ast, j as int),
    ensures
        bind_spec(ast, id as int, st) matches Ok((i, st1)) && i == st.out.len() && st1.frames
            == st.frames && st1.next == st.next && st1.out == st.out.push(BoundView::Literal(id))
            && bound_eq(st1.out, i as int, ast, other_out, k, other_ast),
{
    assert(children_below(ast[id as int], id as int));
    let st1 = BindState { out: st.out.push(BoundView::Literal(id)), ..st };
    assert(st1.out[st.out.len() as int] == BoundView::Literal(id));
}

/// A function's summary starts with one argument slot per parameter, and
/// with distinct parameter names the `i`-th parameter resolves to
/// `Arg(i)` inside the function, whatever encloses it.
pub proof fn law_parameters_resolve_to_arguments(
    args: Seq<Symbol>,
    i: int,
    outer: Seq<FrameView>,
)
    requires
        args.len() <= u32::MAX,
        args.no_duplicates(),
        0 <= i < args.len(),
    ensures
        initial_bindings(args).num_args == args.len(),
        lookup_spec(outer.push(FrameView::Function(initial_bindings(args))), args[i]) == Some(
            SymbolBindSource::Arg(i as u32),
        ),
{
    lemma_args_map_at(args, i);
    assert(outer.push(FrameView::Function(initial_bindings(args))).last() == FrameView::Function(
        initial_bindings(args),
    ));
}

proof fn lemma_args_map_at(args: Seq<Symbol>, i: int)
    requires
        args.no_duplicates(),
        0 <= i < args.len(),
    ensures
        args_map(args).contains_key(args[i]),
        args_map(args)[args[i]] == SymbolBindSource::Arg(i as u32),
    decreases args.len(),
{
    if i < args.len() - 1 {
        let rest = args.drop_last();
        assert(rest[i] == args[i]);
        assert(rest.no_duplicates());
        lemma_args_map_at(rest, i);
        assert(args.last() != args[i]);
    }
}

/// At the outermost scope every symbol resolves, as a global of that name;
/// so a symbol reference resolved there never fails.
pub proof fn law_global_scope_always_resolves(ast: Seq<Ast>, id: int, next: nat, out: Seq<BoundView>)
    requires
        arena_wf(ast),
        0 <= id < ast.len(),
        ast[id] is Symbol,
    ensures
        lookup_spec(seq![FrameView::Global], ast[id]->Symbol_0) == Some(
            SymbolBindSource::Global(ast[id]->Symbol_0),
        ),
        bind_spec(ast, id, BindState { frames: seq![FrameView::Global], next, out }) matches Ok(
            (i, st),
        ) && st.out.last() == (BoundView::Symbol {
            symbol: ast[id]->Symbol_0,
            ast: id as usize,
            source: SymbolBindSource::Global(ast[id]->Symbol_0),
        }),
{
    assert(children_below(ast[id], id));
    assert(seq![FrameView::Global].last() == FrameView::Global);
}

/// The summary of a function literal that binds has one argument slot
/// per parameter and no captured variables.
pub proof fn law_function_summary_counts_parameters(ast: Seq<Ast>, id: int, st: BindState)
    requires
        arena_wf(ast),
        0 <= id < ast.len(),
        ast[id] is Lambda,
        bind_spec(ast, id, st) is Ok,
    ensures
        bind_spec(ast, id, st)->Ok_0.1.out.last() matches BoundView::Lambda { bindings, .. }
            && bindings.num_args == ast[id]->Lambda_0@.len() && bindings.num_upvars == 0,
{
    assert(children_below(ast[id], id));
    let args = ast[id]->Lambda_0@;
    let body = ast[id]->Lambda_1;
    let f = FrameView::Function(initial_bindings(args));
    let inner = BindState { frames: st.frames.push(f), ..st };
    lemma_bind_keeps_shape(ast, body as int, inner);
    let st1 = bind_spec(ast, body as int, inner)->Ok_0.1;
    assert(st.frames.push(f)[st.frames.len() as int] == f);
    assert(same_kind(f, st1.frames[st.frames.len() as int]));
}

/// A function literal that binds takes one local slot per declaration
/// site in its body, counted across all nested blocks (declarations inside
/// a nested function literal belong to that one), and leaves the
/// enclosing scopes exactly as they were.
pub proof fn law_function_locals_count_declaration_sites(ast: Seq<Ast>, id: int, st: BindState)
    requires
        arena_wf(ast),
        0 <= id < ast.len(),
        ast[id] is Lambda,
        bind_spec(ast, id, st) is Ok,
    ensures
        bind_spec(ast, id, st)->Ok_0.1.out.last() matches BoundView::Lambda { bindings, .. }
            && bindings.num_declarations == define_sites(ast, ast[id]->Lambda_1 as int),
        bind_spec(ast, id, st)->Ok_0.1.frames == st.frames,
{
    assert(children_below(ast[id], id));
    let args = ast[id]->Lambda_0@;
    let body = ast[id]->Lambda_1;
    let f = FrameView::Function(initial_bindings(args));
    let inner = st.frames.push(f);
    let ist = BindState { frames: inner, ..st };
    lemma_bind_keeps_shape(ast, body as int, ist);
    lemma_bind_counts(ast, body as int, ist);
    let st1 = bind_spec(ast, body as int, ist)->Ok_0.1;
    let n = st.frames.len() as int;
    assert(inner.drop_last() =~= st.frames);
    assert(boundary(inner) == n);
    lemma_boundary_same_shape(inner, st1.frames);
    assert(inner.subrange(0, n) =~= st.frames);
    assert(st1.frames.drop_last() =~= st1.frames.subrange(0, n));
}

/// Every function node that a pass from the outermost scope produces has
/// a well-formed summary: argument indices below its argument count, local
/// indices below its local count, no captured variables, no two names
/// sharing a source, and every local slot used.
pub proof fn law_summaries_wf(ast: Seq<Ast>, id: int, next: nat, out: Seq<BoundView>)
    requires
        summaries_wf(out),
        bind_spec(ast, id, BindState { frames: seq![FrameView::Global], next, out }) is Ok,
    ensures
        summaries_wf(
            bind_spec(ast, id, BindState { frames: seq![FrameView::Global], next, out })->Ok_0.1.out,
        ),
{
    let st = BindState { frames: seq![FrameView::Global], next, out };
    assert(chain_summaries_wf(st.frames)) by {
        assert forall|i: int| 0 <= i < st.frames.len() implies !(#[trigger] st.frames[i] is Function) by {
            assert(st.frames[i] == FrameView::Global);
        }
    }
    lemma_bind_summaries_wf(ast, id, st);
}

/// For a function literal with distinct parameters that binds, from a
/// chain and output whose summaries are well-formed: its summary is
/// well-formed, parameter `i` is `Arg(i)`, and the stack offsets of the
/// summary's names fill the function's flat frame exactly.
pub proof fn law_function_summary_exact(ast: Seq<Ast>, id: int, st: BindState)
    requires
        arena_wf(ast),
        0 <= id < ast.len(),
        ast[id] is Lambda,
        ast[id]->Lambda_0@.no_duplicates(),
        chain_summaries_wf(st.frames),
        summaries_wf(st.out),
        bind_spec(ast, id, st) is Ok,
    ensures
        bind_spec(ast, id, st)->Ok_0.1.out.last() matches BoundView::Lambda { bindings, .. } && {
            &&& bindings_wf(bindings)
            &&& slots_exact(bindings)
            &&& bindings.num_args == ast[id]->Lambda_0@.len()
            &&& forall|i: int|
                0 <= i < ast[id]->Lambda_0@.len() ==> bindings.bindings.contains_key(
                    #[trigger] ast[id]->Lambda_0@[i],
                ) && bindings.bindings[ast[id]->Lambda_0@[i]] == SymbolBindSource::Arg(i as u32)
        },
{
    assert(children_below(ast[id], id));
    let args = ast[id]->Lambda_0@;
    let body = ast[id]->Lambda_1;
    let f = FrameView::Function(initial_bindings(args));
    let inner = st.frames.push(f);
    let ist = BindState { frames: inner, ..st };
    lemma_initial_bindings_wf(args);
    lemma_push_summaries_wf(st.frames, f);
    lemma_bind_summaries_wf(ast, body as int, ist);
    lemma_bind_keeps_shape(ast, body as int, ist);
    let st1 = bind_spec(ast, body as int, ist)->Ok_0.1;
    let n = st.frames.len() as int;
    assert(inner[n] == f);
    assert(same_kind(f, st1.frames[n]));
    assert(st1.frames[n] == st1.frames.last());
    lemma_pop_summaries_wf(st1.frames);
    let b = st1.frames.last()->Function_0;
    assert forall|i: int| 0 <= i < args.len() implies b.bindings.contains_key(#[trigger] args[i])
        && b.bindings[args[i]] == SymbolBindSource::Arg(i as u32) by {
        lemma_args_map_at(args, i);
    }
    assert forall|i: u32| i < b.num_args implies #[trigger] uses_arg(b, i) by {
        assert(b.bindings.contains_key(args[i as int]));
    }
    lemma_slots_exact(b);
}

/// Comparing resolved trees over well-formed arenas does not depend on
/// which tree comes first.
pub proof fn law_equality_symmetric(
    b1: Seq<BoundView>,
    a: int,
    s1: Seq<Ast>,
    b2: Seq<BoundView>,
    b: int,
    s2: Seq<Ast>,
)
    requires
        bound_arena_wf(b1),
        bound_arena_wf(b2),
        arena_wf(s1),
        arena_wf(s2),
    ensures
        bound_eq(b1, a, s1, b2, b, s2) == bound_eq(b2, b, s2, b1, a, s1),
{
    lemma_bound_eq_symmetric(b1, a, s1, b2, b, s2);
}

/// Over a well-formed arena, two list, call, addition or block nodes are
/// equal exactly when their children are equal pairwise, in order.
pub proof fn law_list_equality_is_pairwise(
    b1: Seq<BoundView>,
    a: int,
    s1: Seq<Ast>,
    b2: Seq<BoundView>,
    b: int,
    s2: Seq<Ast>,
    x: Seq<usize>,
    y: Seq<usize>,
)
    requires
        bound_arena_wf(b1),
        0 <= a < b1.len(),
        0 <= b < b2.len(),
        (b1[a] == BoundView::ListLit(x, b1[a]->ListLit_1) && b2[b] == BoundView::ListLit(y, b2[b]->ListLit_1)) ||
        (b1[a] == BoundView::List(x, b1[a]->List_1) && b2[b] == BoundView::List(y, b2[b]->List_1)) ||
        (b1[a] == BoundView::Add(x, b1[a]->Add_1) && b2[b] == BoundView::Add(y, b2[b]->Add_1)) ||
        (b1[a] == BoundView::Block(x, b1[a]->Block_1) && b2[b] == BoundView::Block(y, b2[b]->Block_1)),
    ensures
        bound_eq(b1, a, s1, b2, b, s2) == (x.len() == y.len() && forall|i: int|
            0 <= i < x.len() ==> #[trigger] bound_eq(b1, x[i] as int, s1, b2, y[i] as int, s2)),
{
    assert(bound_children_below(b1[a], a));
    match (b1[a], b2[b]) {
        (BoundView::ListLit(x, _), BoundView::ListLit(y, _)) => {
            lemma_bound_list_eq_pairwise(b1, x, s1, b2, y, s2, a);
            assert(bound_eq(b1, a, s1, b2, b, s2) == bound_list_eq(b1, x, s1, b2, y, s2, a));
        },
        (BoundView::List(x, _), BoundView::List(y, _)) => {
            lemma_bound_list_eq_pairwise(b1, x, s1, b2, y, s2, a);
            assert(bound_eq(b1, a, s1, b2, b, s2) == bound_list_eq(b1, x, s1, b2, y, s2, a));
        },
        (BoundView::Add(x, _), BoundView::Add(y, _)) => {
            lemma_bound_list_eq_pairwise(b1, x, s1, b2, y, s2, a);
            assert(bound_eq(b1, a, s1, b2, b, s2) == bound_list_eq(b1, x, s1, b2, y, s2, a));
        },
        (BoundView::Block(x, _), BoundView::Block(y, _)) => {
            lemma_bound_list_eq_pairwise(b1, x, s1, b2, y, s2, a);
            assert(bound_eq(b1, a, s1, b2, b, s2) == bound_list_eq(b1, x, s1, b2, y, s2, a));
        },
        _ => {},
    }
}

/// Once a name is declared in a block, the block keeps it, and a further
/// declaration of that name while the block is innermost fails with a
/// duplicate-definition error.
pub proof fn law_redeclaration_in_block_clashes(
    fr: Seq<FrameView>,
    s: Symbol,
    next: nat,
    ast: Seq<Ast>,
    id: int,
    st: BindState,
)
    requires
        fr.len() > 0,
        fr.last() is Block,
        declare_spec(fr, s, next) is Some,
        arena_wf(ast),
        0 <= id < ast.len(),
        ast[id] matches Ast::Define(name, _, _) && name == s,
        st.frames.len() > 0,
        st.frames.last() matches FrameView::Block(m) && m.contains_key(s),
    ensures
        declare_spec(fr, s, next)->Some_0.0.last() matches FrameView::Block(m) && m.contains_key(s),
        bind_spec(ast, id, st) == Err::<(usize, BindState), BindingError>(
            BindingError::AlreadyDefined(s),
        ),
{
    assert(children_below(ast[id], id));
}

/// Inside a block, once the `i`-th element declares a name, a later
/// element `j` that declares it again fails with a duplicate-definition
/// error, whatever the elements between them do.
pub proof fn law_block_redeclaration_fails(
    ast: Seq<Ast>,
    xs: Seq<usize>,
    st: BindState,
    bound: int,
    i: int,
    j: int,
    x: Symbol,
)
    requires
        arena_wf(ast),
        bound <= ast.len(),
        forall|k: int| 0 <= k < xs.len() ==> (#[trigger] xs[k] as int) < bound,
        0 <= i < j < xs.len(),
        st.frames.len() > 0,
        st.frames.last() is Block,
        ast[xs[i] as int] matches Ast::Define(name, _, _) && name == x,
        ast[xs[j] as int] matches Ast::Define(name, _, _) && name == x,
        bind_list_spec(ast, xs.subrange(0, j), st, bound) is Ok,
    ensures
        bind_list_spec(ast, xs.subrange(0, j + 1), st, bound) == Err::<
            (Seq<usize>, BindState),
            BindingError,
        >(BindingError::AlreadyDefined(x)),
{
    let n = st.frames.len() - 1;
    lemma_list_prefix_ok(ast, xs, i, j, st, bound);
    lemma_list_prefix_ok(ast, xs, i + 1, j, st, bound);
    lemma_list_prefix_ok(ast, xs, 0, i, st, bound);
    assert(xs.subrange(0, 0) =~= Seq::<usize>::empty());
    let sti = bind_list_spec(ast, xs.subrange(0, i), st, bound)->Ok_0.1;
    let sti1 = bind_list_spec(ast, xs.subrange(0, i + 1), st, bound)->Ok_0.1;
    let stj = bind_list_spec(ast, xs.subrange(0, j), st, bound)->Ok_0.1;
    assert(xs.subrange(0, i + 1).drop_last() =~= xs.subrange(0, i));
    assert(xs.subrange(0, j + 1).drop_last() =~= xs.subrange(0, j));
    assert(st.frames[n] == st.frames.last());
    // the block is innermost after the first `i` elements
    assert(same_kind(st.frames[n], sti.frames[n]));
    assert(sti.frames[n] == sti.frames.last());
    // binding the first declaration puts `x` into the block
    let di = xs[i] as int;
    assert(children_below(ast[di], di));
    let value = ast[di]->Define_1;
    assert(xs.subrange(0, i + 1).last() == xs[i]);
    assert(bind_spec(ast, di, sti) is Ok);
    assert(declare_spec(sti.frames, x, sti.next) is Some);
    let (fr, source, next) = declare_spec(sti.frames, x, sti.next)->Some_0;
    assert(fr.last() matches FrameView::Block(m) && m.contains_key(x));
    lemma_declare_keeps_shape(sti.frames, x, sti.next);
    let ist = BindState { frames: fr, next, ..sti };
    lemma_bind_keeps_shape(ast, value as int, ist);
    let stv = bind_spec(ast, value as int, ist)->Ok_0.1;
    assert(fr[n] == fr.last());
    assert(same_kind(fr[n], stv.frames[n]));
    assert(sti1.frames == stv.frames);
    // later elements keep it there
    assert(same_kind(sti1.frames[n], stj.frames[n]));
    assert(stj.frames[n] == stj.frames.last());
    assert(stj.frames.last() matches FrameView::Block(m) && m.contains_key(x));
    let dj = xs[j] as int;
    assert(children_below(ast[dj], dj));
    assert(already_binds_spec(stj.frames, x));
    assert(bind_spec(ast, dj, stj) == Err::<(usize, BindState), BindingError>(
        BindingError::AlreadyDefined(x),
    ));
    assert(xs.subrange(0, j + 1).last() == xs[j]);
    assert(xs.subrange(0, j + 1).len() > 0);
}

/// Two sibling blocks directly inside one function that each declare the
/// same name get two distinct local slots, the next two of the function,
/// and the function then counts both declarations. (The function's names
/// were all handed out before `next`.)
pub proof fn law_sibling_blocks_get_distinct_slots(
    outer: Seq<FrameView>,
    b: BindingsView,
    s: Symbol,
    next: nat,
)
    requires
        b.num_declarations + 2 <= u32::MAX,
        next + 2 <= SYMBOL_LIMIT,
        forall|k: Symbol| #[trigger] b.bindings.contains_key(k) ==> k < next,
    ensures
        ({
            let in_fn = outer.push(FrameView::Function(b));
            let first = declare_spec(in_fn.push(FrameView::Block(Map::empty())), s, next);
            first matches Some((fr1, src1, next1)) && {
                let second = declare_spec(
                    fr1.drop_last().push(FrameView::Block(Map::empty())),
                    s,
                    next1,
                );
                second matches Some((fr2, src2, next2)) && src1 == SymbolBindSource::LocalDefine(
                    b.num_declarations,
                ) && src2 == SymbolBindSource::LocalDefine((b.num_declarations + 1) as u32)
                    && src1 != src2 && (fr2.drop_last().last() matches FrameView::Function(b2)
                    && b2.num_declarations == b.num_declarations + 2)
            }
        }),
{
    let in_fn = outer.push(FrameView::Function(b));
    let blk1 = in_fn.push(FrameView::Block(Map::empty()));
    assert(blk1.drop_last() =~= in_fn);
    assert(!b.bindings.contains_key(next as Symbol));
    assert(!b.bindings.contains_key((next + 1) as Symbol));
    assert(in_fn.last() == FrameView::Function(b));
    let (fr1, src1, next1) = declare_spec(blk1, s, next)->Some_0;
    let below_first = declare_spec(in_fn, next as Symbol, next + 1)->Some_0.0;
    assert(in_fn.drop_last() =~= outer);
    assert(fr1.drop_last() =~= below_first);
    let blk2 = below_first.push(FrameView::Block(Map::empty()));
    assert(blk2.drop_last() =~= below_first);
    assert(below_first.drop_last() =~= outer);
    let below_second = declare_spec(below_first, next1 as Symbol, next1 + 1)->Some_0.0;
    let (fr2, src2, next2) = declare_spec(blk2, s, next1)->Some_0;
    assert(fr2.drop_last() =~= below_second);
}

} // verus!
