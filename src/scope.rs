use std::collections::HashMap;
use vstd::prelude::*;

use crate::bindings::{bindings_wf, uses_local, BindingsView, LambdaBindings, SymbolBindSource};
use crate::interner::{
    extends_with_fresh, lemma_extends_with_fresh_refl, lemma_extends_with_fresh_trans, Symbol,
    SymbolIntern, SYMBOL_LIMIT,
};

verus! {

broadcast use vstd::std_specs::hash::group_hash_axioms;

/// One frame of the scope chain. The chain is a stack: the last frame is
/// the innermost scope and each frame's parent is the frame below it.
pub enum Frame {
    /// The outermost scope: every name resolves, as a global.
    Global,
    /// A function literal's scope, with the summary under construction.
    Function(LambdaBindings),
    /// A sequential block's scope: surface name to its private identifier.
    Block(HashMap<Symbol, Symbol>),
}

/// Mathematical view of a frame.
pub enum FrameView {
    Global,
    Function(BindingsView),
    Block(Map<Symbol, Symbol>),
}

impl View for Frame {
    type V = FrameView;

    open spec fn view(&self) -> FrameView {
        match self {
            Frame::Global => FrameView::Global,
            Frame::Function(b) => FrameView::Function(b@),
            Frame::Block(m) => FrameView::Block(m@),
        }
    }
}

/// The view of each frame of a chain.
pub open spec fn chain_view(frames: Seq<Frame>) -> Seq<FrameView> {
    frames.map_values(|f: Frame| f@)
}

/// Where `s` resolves when referenced in the innermost scope of `fr`.
/// A function frame consults only its own summary; a block renames the
/// names it declared and defers to its parent.
pub open spec fn lookup_spec(fr: Seq<FrameView>, s: Symbol) -> Option<SymbolBindSource>
    decreases fr.len(),
{
    if fr.len() == 0 {
        None
    } else {
        match fr.last() {
            FrameView::Global => Some(SymbolBindSource::Global(s)),
            FrameView::Function(b) => if b.bindings.contains_key(s) {
                Some(b.bindings[s])
            } else {
                None
            },
            FrameView::Block(m) => if m.contains_key(s) {
                lookup_spec(fr.drop_last(), m[s])
            } else {
                lookup_spec(fr.drop_last(), s)
            },
        }
    }
}

/// Whether a new declaration of `s` in the innermost scope of `fr` would
/// clash: with a name of an enclosing block up to the owning function, or
/// with that function's parameters and locals. Globals never clash.
pub open spec fn already_binds_spec(fr: Seq<FrameView>, s: Symbol) -> bool
    decreases fr.len(),
{
    if fr.len() == 0 {
        false
    } else {
        match fr.last() {
            FrameView::Global => false,
            FrameView::Function(b) => b.bindings.contains_key(s),
            FrameView::Block(m) => m.contains_key(s) || already_binds_spec(fr.drop_last(), s),
        }
    }
}

/// The chain, source and next unused identifier after declaring `s` in
/// the innermost scope of `fr`, with `next` the next unused identifier;
/// `None` when identifiers or local slots run out.
/// A block mints a fresh identifier for the name and declares that in its
/// parent; a function assigns the next local slot; the global scope
/// binds the name as a global. A name that a function already binds is
/// never bound again there.
pub open spec fn declare_spec(fr: Seq<FrameView>, s: Symbol, next: nat) -> Option<
    (Seq<FrameView>, SymbolBindSource, nat),
>
    decreases fr.len(),
{
    if fr.len() == 0 {
        None
    } else {
        match fr.last() {
            FrameView::Global => Some((fr, SymbolBindSource::Global(s), next)),
            FrameView::Function(b) => if b.num_declarations == u32::MAX || b.bindings.contains_key(s) {
                None
            } else {
                let source = SymbolBindSource::LocalDefine(b.num_declarations);
                let nb = BindingsView {
                    bindings: b.bindings.insert(s, source),
                    num_declarations: (b.num_declarations + 1) as u32,
                    ..b
                };
                Some((fr.drop_last().push(FrameView::Function(nb)), source, next))
            },
            FrameView::Block(m) => if next >= SYMBOL_LIMIT {
                None
            } else {
                let fresh = next as Symbol;
                match declare_spec(fr.drop_last(), fresh, next + 1) {
                    None => None,
                    Some((p, source, n)) => Some(
                        (p.push(FrameView::Block(m.insert(s, fresh))), source, n),
                    ),
                }
            },
        }
    }
}

/// Whether two frames are of the same kind, and for functions have the
/// same argument and captured-variable counts, the second keeping every
/// argument entry of the first; for blocks, the second keeps every name of
/// the first.
pub open spec fn same_kind(a: FrameView, b: FrameView) -> bool {
    match (a, b) {
        (FrameView::Global, FrameView::Global) => true,
        (FrameView::Function(x), FrameView::Function(y)) => x.num_args == y.num_args
            && x.num_upvars == y.num_upvars && forall|k: Symbol|
            x.bindings.contains_key(k) && #[trigger] x.bindings[k] is Arg ==> y.bindings.contains_key(k)
                && y.bindings[k] == x.bindings[k],
        (FrameView::Block(x), FrameView::Block(y)) => forall|k: Symbol| #[trigger] x.contains_key(k)
            ==> y.contains_key(k),
        _ => false,
    }
}

/// Whether two chains have the same length and frames of the same kinds.
pub open spec fn same_shape(a: Seq<FrameView>, b: Seq<FrameView>) -> bool {
    a.len() == b.len() && forall|i: int| 0 <= i < a.len() ==> same_kind(#[trigger] a[i], b[i])
}

/// A declaration changes frames but neither adds, removes nor retypes one.
pub proof fn lemma_declare_keeps_shape(fr: Seq<FrameView>, s: Symbol, next: nat)
    requires
        declare_spec(fr, s, next) is Some,
    ensures
        same_shape(fr, declare_spec(fr, s, next)->Some_0.0),
    decreases fr.len(),
{
    let r = declare_spec(fr, s, next)->Some_0.0;
    match fr.last() {
        FrameView::Global => {},
        FrameView::Function(b) => {
            assert forall|i: int| 0 <= i < fr.len() implies same_kind(#[trigger] fr[i], r[i]) by {
                if i < fr.len() - 1 {
                    assert(r[i] == fr.drop_last()[i]);
                }
            }
        },
        FrameView::Block(m) => {
            lemma_declare_keeps_shape(fr.drop_last(), next as Symbol, next + 1);
            let p = declare_spec(fr.drop_last(), next as Symbol, next + 1)->Some_0.0;
            assert forall|i: int| 0 <= i < fr.len() implies same_kind(#[trigger] fr[i], r[i]) by {
                if i < fr.len() - 1 {
                    assert(r[i] == p[i]);
                    assert(fr[i] == fr.drop_last()[i]);
                }
            }
        },
    }
}

/// Index of the frame where a declaration in the innermost scope of `fr`
/// lands: the nearest frame below the innermost blocks (0 when there is
/// none).
pub open spec fn boundary(fr: Seq<FrameView>) -> int
    decreases fr.len(),
{
    if fr.len() == 0 {
        0
    } else {
        match fr.last() {
            FrameView::Block(_) => boundary(fr.drop_last()),
            _ => fr.len() - 1,
        }
    }
}

/// Whether declarations in the innermost scope of `fr` take local slots
/// of a function.
pub open spec fn declares_locals(fr: Seq<FrameView>) -> bool {
    fr.len() > 0 && fr[boundary(fr)] is Function
}

/// The number of local slots of the function that declarations in the
/// innermost scope of `fr` go to (0 when they go to no function).
pub open spec fn local_count(fr: Seq<FrameView>) -> nat {
    if declares_locals(fr) {
        fr[boundary(fr)]->Function_0.num_declarations as nat
    } else {
        0
    }
}

pub proof fn lemma_boundary_range(fr: Seq<FrameView>)
    ensures
        0 <= boundary(fr) <= fr.len(),
        fr.len() > 0 ==> boundary(fr) < fr.len(),
        forall|i: int| boundary(fr) < i < fr.len() ==> #[trigger] fr[i] is Block,
    decreases fr.len(),
{
    if fr.len() > 0 {
        lemma_boundary_range(fr.drop_last());
        assert forall|i: int| boundary(fr) < i < fr.len() implies #[trigger] fr[i] is Block by {
            if i < fr.len() - 1 {
                assert(fr[i] == fr.drop_last()[i]);
            }
        }
    }
}

/// Chains of the same shape land declarations in the same frame.
pub proof fn lemma_boundary_same_shape(a: Seq<FrameView>, b: Seq<FrameView>)
    requires
        same_shape(a, b),
    ensures
        boundary(a) == boundary(b),
        declares_locals(a) == declares_locals(b),
    decreases a.len(),
{
    lemma_boundary_range(a);
    lemma_boundary_range(b);
    if a.len() > 0 {
        assert(same_kind(a[a.len() - 1], b[b.len() - 1]));
        assert forall|i: int| 0 <= i < a.drop_last().len() implies same_kind(
            #[trigger] a.drop_last()[i],
            b.drop_last()[i],
        ) by {
            assert(same_kind(a[i], b[i]));
        }
        lemma_boundary_same_shape(a.drop_last(), b.drop_last());
        assert(same_kind(a[boundary(a)], b[boundary(b)]));
    }
}

/// A declaration leaves every frame below its landing frame as it was, and
/// takes one more local slot of the function it lands in, if any.
pub proof fn lemma_declare_locals(fr: Seq<FrameView>, s: Symbol, next: nat)
    requires
        declare_spec(fr, s, next) is Some,
    ensures
        ({
            let r = declare_spec(fr, s, next)->Some_0.0;
            &&& r.subrange(0, boundary(fr)) == fr.subrange(0, boundary(fr))
            &&& local_count(r) == local_count(fr) + if declares_locals(fr) { 1nat } else { 0nat }
        }),
    decreases fr.len(),
{
    let r = declare_spec(fr, s, next)->Some_0.0;
    lemma_declare_keeps_shape(fr, s, next);
    lemma_boundary_same_shape(fr, r);
    lemma_boundary_range(fr);
    match fr.last() {
        FrameView::Global => {},
        FrameView::Function(b) => {
            assert(r.subrange(0, boundary(fr)) =~= fr.subrange(0, boundary(fr)));
        },
        FrameView::Block(m) => {
            let p = declare_spec(fr.drop_last(), next as Symbol, next + 1)->Some_0.0;
            lemma_declare_locals(fr.drop_last(), next as Symbol, next + 1);
            lemma_boundary_range(fr.drop_last());
            assert(r.drop_last() =~= p);
            assert(r.subrange(0, boundary(fr)) =~= p.subrange(0, boundary(fr)));
            assert(fr.subrange(0, boundary(fr)) =~= fr.drop_last().subrange(0, boundary(fr)));
            if declares_locals(fr) {
                assert(r[boundary(fr)] == p[boundary(fr)]);
                assert(fr[boundary(fr)] == fr.drop_last()[boundary(fr)]);
            } else if fr.drop_last().len() > 0 {
                assert(fr[boundary(fr)] == fr.drop_last()[boundary(fr)]);
                assert(r[boundary(fr)] == p[boundary(fr)]);
            }
        },
    }
}

/// Every function frame of the chain has a well-formed summary.
pub open spec fn chain_summaries_wf(fr: Seq<FrameView>) -> bool {
    forall|i: int| 0 <= i < fr.len() && (#[trigger] fr[i]) is Function ==> bindings_wf(
        fr[i]->Function_0,
    )
}

/// A declaration keeps every summary of the chain well-formed.
pub proof fn lemma_declare_summaries_wf(fr: Seq<FrameView>, s: Symbol, next: nat)
    requires
        chain_summaries_wf(fr),
        declare_spec(fr, s, next) is Some,
    ensures
        chain_summaries_wf(declare_spec(fr, s, next)->Some_0.0),
    decreases fr.len(),
{
    let r = declare_spec(fr, s, next)->Some_0.0;
    match fr.last() {
        FrameView::Global => {},
        FrameView::Function(b) => {
            assert(fr[fr.len() - 1] == fr.last());
            let nb = r.last()->Function_0;
            assert forall|k: Symbol| #[trigger] nb.bindings.contains_key(k) implies
                match nb.bindings[k] {
                    SymbolBindSource::Arg(i) => i < nb.num_args,
                    SymbolBindSource::LocalDefine(i) => i < nb.num_declarations,
                    _ => false,
                } by {
                if k != s {
                    assert(b.bindings.contains_key(k));
                }
            }
            assert(!b.bindings.contains_key(s));
            assert forall|k1: Symbol, k2: Symbol|
                nb.bindings.contains_key(k1) && nb.bindings.contains_key(k2) && #[trigger] nb.bindings[k1]
                    == #[trigger] nb.bindings[k2] implies k1 == k2 by {
                if k1 != s {
                    assert(b.bindings.contains_key(k1));
                }
                if k2 != s {
                    assert(b.bindings.contains_key(k2));
                }
            }
            assert forall|j: u32| j < nb.num_declarations implies #[trigger] uses_local(nb, j) by {
                if j < b.num_declarations {
                    assert(uses_local(b, j));
                    let k = choose|k: Symbol| b.bindings.contains_key(k) && b.bindings[k]
                        == SymbolBindSource::LocalDefine(j);
                    assert(nb.bindings[k] == SymbolBindSource::LocalDefine(j));
                } else {
                    assert(nb.bindings[s] == SymbolBindSource::LocalDefine(j));
                }
            }
            assert forall|i: int| 0 <= i < r.len() && (#[trigger] r[i]) is Function implies bindings_wf(
                r[i]->Function_0,
            ) by {
                if i < r.len() - 1 {
                    assert(r[i] == fr[i]);
                }
            }
        },
        FrameView::Block(m) => {
            assert forall|i: int| 0 <= i < fr.drop_last().len() && (#[trigger] fr.drop_last()[i]) is Function implies bindings_wf(
                fr.drop_last()[i]->Function_0,
            ) by {
                assert(fr.drop_last()[i] == fr[i]);
            }
            lemma_declare_summaries_wf(fr.drop_last(), next as Symbol, next + 1);
            let p = declare_spec(fr.drop_last(), next as Symbol, next + 1)->Some_0.0;
            assert forall|i: int| 0 <= i < r.len() && (#[trigger] r[i]) is Function implies bindings_wf(
                r[i]->Function_0,
            ) by {
                if i < r.len() - 1 {
                    assert(r[i] == p[i]);
                }
            }
        },
    }
}

/// Every name and identifier that the frames of `fr` hold is below `n`:
/// the symbol table has handed it out already.
pub open spec fn chain_keys_below(fr: Seq<FrameView>, n: nat) -> bool {
    forall|i: int| 0 <= i < fr.len() ==> match #[trigger] fr[i] {
        FrameView::Function(b) => forall|k: Symbol| #[trigger] b.bindings.contains_key(k) ==> k < n,
        FrameView::Block(m) => forall|k: Symbol| #[trigger] m.contains_key(k) ==> k < n && m[k] < n,
        FrameView::Global => true,
    }
}

pub proof fn lemma_keys_below_mono(fr: Seq<FrameView>, n: nat, n2: nat)
    requires
        chain_keys_below(fr, n),
        n <= n2,
    ensures
        chain_keys_below(fr, n2),
{
    assert forall|i: int| 0 <= i < fr.len() implies match #[trigger] fr[i] {
        FrameView::Function(b) => forall|k: Symbol| #[trigger] b.bindings.contains_key(k) ==> k < n2,
        FrameView::Block(m) => forall|k: Symbol| #[trigger] m.contains_key(k) ==> k < n2 && m[k] < n2,
        FrameView::Global => true,
    } by {
        match fr[i] {
            FrameView::Function(b) => {
                assert forall|k: Symbol| #[trigger] b.bindings.contains_key(k) implies k < n2 by {}
            },
            FrameView::Block(m) => {
                assert forall|k: Symbol| #[trigger] m.contains_key(k) implies k < n2 && m[k] < n2 by {}
            },
            FrameView::Global => {},
        }
    }
}

pub proof fn lemma_keys_below_drop_last(fr: Seq<FrameView>, n: nat)
    requires
        chain_keys_below(fr, n),
        fr.len() > 0,
    ensures
        chain_keys_below(fr.drop_last(), n),
{
    assert forall|i: int| 0 <= i < fr.drop_last().len() implies match #[trigger] fr.drop_last()[i] {
        FrameView::Function(b) => forall|k: Symbol| #[trigger] b.bindings.contains_key(k) ==> k < n,
        FrameView::Block(m) => forall|k: Symbol| #[trigger] m.contains_key(k) ==> k < n && m[k] < n,
        FrameView::Global => true,
    } by {
        assert(fr.drop_last()[i] == fr[i]);
    }
}

pub proof fn lemma_keys_below_push(fr: Seq<FrameView>, f: FrameView, n: nat)
    requires
        chain_keys_below(fr, n),
        chain_keys_below(seq![f], n),
    ensures
        chain_keys_below(fr.push(f), n),
{
    assert forall|i: int| 0 <= i < fr.push(f).len() implies match #[trigger] fr.push(f)[i] {
        FrameView::Function(b) => forall|k: Symbol| #[trigger] b.bindings.contains_key(k) ==> k < n,
        FrameView::Block(m) => forall|k: Symbol| #[trigger] m.contains_key(k) ==> k < n && m[k] < n,
        FrameView::Global => true,
    } by {
        if i < fr.len() {
            assert(fr.push(f)[i] == fr[i]);
        } else {
            assert(fr.push(f)[i] == seq![f][0]);
        }
    }
}

/// An identifier not handed out yet clashes with nothing in the chain.
pub proof fn lemma_fresh_not_bound(fr: Seq<FrameView>, n: nat)
    requires
        chain_keys_below(fr, n),
        n < SYMBOL_LIMIT,
    ensures
        !already_binds_spec(fr, n as Symbol),
    decreases fr.len(),
{
    if fr.len() > 0 {
        assert(fr[fr.len() - 1] == fr.last());
        lemma_keys_below_drop_last(fr, n);
        lemma_fresh_not_bound(fr.drop_last(), n);
    }
}

/// A declaration of a handed-out name keeps every name and identifier of
/// the chain handed out.
pub proof fn lemma_declare_keys_below(fr: Seq<FrameView>, s: Symbol, next: nat)
    requires
        chain_keys_below(fr, next),
        s < next,
        declare_spec(fr, s, next) is Some,
    ensures
        chain_keys_below(declare_spec(fr, s, next)->Some_0.0, declare_spec(fr, s, next)->Some_0.2),
    decreases fr.len(),
{
    let (r, _, n2) = declare_spec(fr, s, next)->Some_0;
    assert(fr[fr.len() - 1] == fr.last());
    lemma_keys_below_drop_last(fr, next);
    match fr.last() {
        FrameView::Global => {},
        FrameView::Function(b) => {
            let f = r.last();
            assert(r == fr.drop_last().push(f));
            assert(chain_keys_below(seq![f], next)) by {
                assert(seq![f][0] == f);
            }
            lemma_keys_below_push(fr.drop_last(), f, next);
        },
        FrameView::Block(m) => {
            lemma_keys_below_mono(fr.drop_last(), next, next + 1);
            lemma_declare_keys_below(fr.drop_last(), next as Symbol, next + 1);
            let p = declare_spec(fr.drop_last(), next as Symbol, next + 1)->Some_0.0;
            lemma_declare_keeps_shape(fr.drop_last(), next as Symbol, next + 1);
            lemma_declare_next_grows(fr.drop_last(), next as Symbol, next + 1);
            let f = FrameView::Block(m.insert(s, next as Symbol));
            assert(chain_keys_below(seq![f], n2)) by {
                assert(seq![f][0] == f);
                assert forall|k: Symbol| #[trigger] m.insert(s, next as Symbol).contains_key(k) implies
                    k < n2 && m.insert(s, next as Symbol)[k] < n2 by {
                    if k != s {
                        assert(m.contains_key(k));
                        assert(fr[fr.len() - 1] matches FrameView::Block(mm) && mm.contains_key(k));
                    }
                }
            }
            lemma_keys_below_push(p, f, n2);
        },
    }
}

/// A declaration never takes back identifiers.
pub proof fn lemma_declare_next_grows(fr: Seq<FrameView>, s: Symbol, next: nat)
    requires
        declare_spec(fr, s, next) is Some,
    ensures
        declare_spec(fr, s, next)->Some_0.2 >= next,
    decreases fr.len(),
{
    if fr.last() is Block {
        lemma_declare_next_grows(fr.drop_last(), next as Symbol, next + 1);
    }
}

proof fn lemma_chain_prefix(frames: Seq<Frame>, i: int)
    requires
        0 < i <= frames.len(),
    ensures
        chain_view(frames.subrange(0, i)).drop_last() == chain_view(frames.subrange(0, i - 1)),
        chain_view(frames.subrange(0, i)).last() == frames[i - 1]@,
        chain_view(frames.subrange(0, i)).len() == i,
{
    assert(chain_view(frames.subrange(0, i)).drop_last() =~= chain_view(frames.subrange(0, i - 1)));
}

/// Resolves `s` in the innermost scope of the chain.
pub fn lookup(frames: &Vec<Frame>, s: Symbol) -> (r: Option<SymbolBindSource>)
    ensures
        r == lookup_spec(chain_view(frames@), s),
{
    let mut i: usize = frames.len();
    let mut sym: Symbol = s;
    proof {
        assert(frames@.subrange(0, i as int) =~= frames@);
    }
    while i > 0
        invariant
            i <= frames@.len(),
            lookup_spec(chain_view(frames@.subrange(0, i as int)), sym) == lookup_spec(
                chain_view(frames@),
                s,
            ),
        decreases i,
    {
        proof {
            lemma_chain_prefix(frames@, i as int);
        }
        match &frames[i - 1] {
            Frame::Global => {
                return Some(SymbolBindSource::Global(sym));
            },
            Frame::Function(b) => {
                return match b.bindings.get(&sym) {
                    Some(source) => Some(*source),
                    None => None,
                };
            },
            Frame::Block(m) => {
                match m.get(&sym) {
                    Some(t) => {
                        sym = *t;
                    },
                    None => {},
                }
                i = i - 1;
            },
        }
    }
    None
}

/// Whether declaring `s` in the innermost scope of the chain would clash.
pub fn already_binds(frames: &Vec<Frame>, s: Symbol) -> (r: bool)
    ensures
        r == already_binds_spec(chain_view(frames@), s),
{
    let mut i: usize = frames.len();
    proof {
        assert(frames@.subrange(0, i as int) =~= frames@);
    }
    while i > 0
        invariant
            i <= frames@.len(),
            already_binds_spec(chain_view(frames@.subrange(0, i as int)), s)
                == already_binds_spec(chain_view(frames@), s),
        decreases i,
    {
        proof {
            lemma_chain_prefix(frames@, i as int);
        }
        match &frames[i - 1] {
            Frame::Global => {
                return false;
            },
            Frame::Function(b) => {
                return b.bindings.contains_key(&s);
            },
            Frame::Block(m) => {
                if m.contains_key(&s) {
                    return true;
                }
                i = i - 1;
            },
        }
    }
    false
}

/// Declares `s` in the innermost scope of the chain and returns its source,
/// or `None` when identifiers or local slots run out.
pub fn add_declaration(frames: &mut Vec<Frame>, s: Symbol, interner: &mut SymbolIntern) -> (r:
    Option<SymbolBindSource>)
    requires
        old(interner).wf(),
        chain_keys_below(chain_view(old(frames)@), old(interner)@.len()),
        s < old(interner)@.len(),
        !already_binds_spec(chain_view(old(frames)@), s),
    ensures
        final(interner).wf(),
        extends_with_fresh(old(interner)@, final(interner)@),
        r is Some ==> chain_keys_below(chain_view(final(frames)@), final(interner)@.len()),
        match declare_spec(chain_view(old(frames)@), s, old(interner)@.len() as nat) {
            Some((fv, source, n)) => r == Some(source) && chain_view(final(frames)@) == fv
                && final(interner)@.len() == n,
            None => r is None,
        },
    decreases old(frames)@.len(),
{
    proof {
        if frames@.len() > 0 {
            assert(chain_view(frames@).drop_last() =~= chain_view(frames@.drop_last()));
        }
        lemma_extends_with_fresh_refl(interner@);
        if declare_spec(chain_view(frames@), s, interner@.len() as nat) is Some {
            lemma_declare_keys_below(chain_view(frames@), s, interner@.len() as nat);
        }
    }
    let ghost frames0 = frames@;
    match frames.pop() {
        None => None,
        Some(f) => match f {
            Frame::Global => {
                frames.push(Frame::Global);
                proof {
                    assert(chain_view(frames@) =~= chain_view(frames0));
                    lemma_extends_with_fresh_refl(interner@);
                }
                Some(SymbolBindSource::Global(s))
            },
            Frame::Function(mut b) => {
                proof {
                    lemma_extends_with_fresh_refl(interner@);
                }
                if b.num_declarations == u32::MAX {
                    frames.push(Frame::Function(b));
                    return None;
                }
                let source = SymbolBindSource::LocalDefine(b.num_declarations);
                b.bindings.insert(s, source);
                b.num_declarations = b.num_declarations + 1;
                frames.push(Frame::Function(b));
                proof {
                    assert(chain_view(frames@) =~= chain_view(frames0).drop_last().push(frames@.last()@));
                }
                Some(source)
            },
            Frame::Block(mut m) => {
                let g = interner.gensym();
                match g {
                    None => {
                        frames.push(Frame::Block(m));
                        proof {
                            lemma_extends_with_fresh_refl(interner@);
                        }
                        None
                    },
                    Some(fresh) => {
                        proof {
                            lemma_keys_below_drop_last(chain_view(frames0), old(interner)@.len());
                            assert(chain_view(frames@) =~= chain_view(frames0).drop_last());
                            lemma_fresh_not_bound(chain_view(frames@), old(interner)@.len());
                            lemma_keys_below_mono(chain_view(frames@), old(interner)@.len(), interner@.len());
                        }
                        m.insert(s, fresh);
                        let ghost mid = interner@;
                        let r = add_declaration(frames, fresh, interner);
                        let ghost below = chain_view(frames@);
                        frames.push(Frame::Block(m));
                        proof {
                            assert(chain_view(frames@) =~= below.push(frames@.last()@));
                            assert(mid.subrange(0, old(interner)@.len() as int) =~= old(interner)@);
                            lemma_extends_with_fresh_trans(old(interner)@, mid, interner@);
                        }
                        r
                    },
                }
            },
        },
    }
}

} // verus!
