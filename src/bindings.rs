use std::collections::HashMap;
use vstd::prelude::*;

use crate::interner::Symbol;
use vstd::std_specs::iter::IteratorSpec;

verus! {

broadcast use vstd::std_specs::hash::group_hash_axioms;

/// Where a resolved identifier lives.
#[derive(Clone, Copy, Debug, PartialEq, Eq, Structural)]
pub enum SymbolBindSource {
    /// The index-th parameter of the enclosing function.
    Arg(u32),
    /// A variable captured from an enclosing function (never produced here).
    Upvar(u32),
    /// The index-th local declaration of the enclosing function's frame.
    LocalDefine(u32),
    /// A top-level binding, resolved by name later.
    Global(Symbol),
}

/// Per-function binding summary: where each name of the function lives,
/// and how many slots of each kind its frame needs.
#[derive(Debug)]
pub struct LambdaBindings {
    pub bindings: HashMap<Symbol, SymbolBindSource>,
    pub num_args: u32,
    pub num_upvars: u32,
    pub num_declarations: u32,
}

/// Mathematical view of a binding summary.
pub struct BindingsView {
    pub bindings: Map<Symbol, SymbolBindSource>,
    pub num_args: u32,
    pub num_upvars: u32,
    pub num_declarations: u32,
}

impl View for LambdaBindings {
    type V = BindingsView;

    open spec fn view(&self) -> BindingsView {
        BindingsView {
            bindings: self.bindings@,
            num_args: self.num_args,
            num_upvars: self.num_upvars,
            num_declarations: self.num_declarations,
        }
    }
}

/// The summary entries for a parameter list: parameter `i` maps to
/// `Arg(i)`, a later parameter overriding an earlier one of the same name.
pub open spec fn args_map(args: Seq<Symbol>) -> Map<Symbol, SymbolBindSource>
    decreases args.len(),
{
    if args.len() == 0 {
        Map::empty()
    } else {
        args_map(args.drop_last()).insert(
            args.last(),
            SymbolBindSource::Arg((args.len() - 1) as u32),
        )
    }
}

/// A summary whose indices are in range: arguments below `num_args`,
/// locals below `num_declarations`, and no captured variables.
pub open spec fn bindings_in_range(b: BindingsView) -> bool {
    &&& b.num_upvars == 0
    &&& forall|k: Symbol| #[trigger] b.bindings.contains_key(k) ==>
        match b.bindings[k] {
            SymbolBindSource::Arg(i) => i < b.num_args,
            SymbolBindSource::LocalDefine(i) => i < b.num_declarations,
            _ => false,
        }
}

/// Some name of the summary lives in local slot `j`.
pub open spec fn uses_local(b: BindingsView, j: u32) -> bool {
    exists|k: Symbol| b.bindings.contains_key(k) && b.bindings[k] == SymbolBindSource::LocalDefine(j)
}

/// Some name of the summary is argument `i`.
pub open spec fn uses_arg(b: BindingsView, i: u32) -> bool {
    exists|k: Symbol| b.bindings.contains_key(k) && b.bindings[k] == SymbolBindSource::Arg(i)
}

/// A well-formed summary: indices in range, no two names sharing a source,
/// and every local slot `0..num_declarations` used.
pub open spec fn bindings_wf(b: BindingsView) -> bool {
    &&& bindings_in_range(b)
    &&& forall|k1: Symbol, k2: Symbol|
        b.bindings.contains_key(k1) && b.bindings.contains_key(k2) && #[trigger] b.bindings[k1]
            == #[trigger] b.bindings[k2] ==> k1 == k2
    &&& forall|j: u32| j < b.num_declarations ==> #[trigger] uses_local(b, j)
}

/// Stack offset of a source within the frame that a summary describes.
pub open spec fn stack_offset(b: BindingsView, source: SymbolBindSource) -> int {
    match source {
        SymbolBindSource::Arg(a) => a as int,
        SymbolBindSource::LocalDefine(a) => b.num_args + b.num_upvars + a,
        _ => 0,
    }
}

/// Number of slots of the flat frame that a summary describes.
pub open spec fn frame_size(b: BindingsView) -> int {
    b.num_args + b.num_upvars + b.num_declarations
}

/// Some name of the summary lives at stack offset `o`.
pub open spec fn slot_used(b: BindingsView, o: int) -> bool {
    exists|k: Symbol| b.bindings.contains_key(k) && stack_offset(b, b.bindings[k]) == o
}

/// The stack offsets of the summary's names fill its frame exactly: each
/// lies in the frame, no two names share one, and every slot has a name.
pub open spec fn slots_exact(b: BindingsView) -> bool {
    &&& forall|k: Symbol| #[trigger] b.bindings.contains_key(k) ==> 0 <= stack_offset(
        b,
        b.bindings[k],
    ) < frame_size(b)
    &&& forall|k1: Symbol, k2: Symbol|
        b.bindings.contains_key(k1) && b.bindings.contains_key(k2) && #[trigger] stack_offset(
            b,
            b.bindings[k1],
        ) == #[trigger] stack_offset(b, b.bindings[k2]) ==> k1 == k2
    &&& forall|o: int| 0 <= o < frame_size(b) ==> #[trigger] slot_used(b, o)
}

/// A well-formed summary that uses every argument index fills its frame
/// exactly.
pub proof fn lemma_slots_exact(b: BindingsView)
    requires
        bindings_wf(b),
        forall|i: u32| i < b.num_args ==> #[trigger] uses_arg(b, i),
    ensures
        slots_exact(b),
{
    assert forall|k1: Symbol, k2: Symbol|
        b.bindings.contains_key(k1) && b.bindings.contains_key(k2) && #[trigger] stack_offset(
            b,
            b.bindings[k1],
        ) == #[trigger] stack_offset(b, b.bindings[k2]) implies k1 == k2 by {
        assert(b.bindings[k1] == b.bindings[k2]);
    }
    assert forall|o: int| 0 <= o < frame_size(b) implies #[trigger] slot_used(b, o) by {
        if o < b.num_args {
            assert(uses_arg(b, o as u32));
            let k = choose|k: Symbol| b.bindings.contains_key(k) && b.bindings[k]
                == SymbolBindSource::Arg(o as u32);
            assert(stack_offset(b, b.bindings[k]) == o);
        } else {
            let j = (o - b.num_args) as u32;
            assert(uses_local(b, j));
            let k = choose|k: Symbol| b.bindings.contains_key(k) && b.bindings[k]
                == SymbolBindSource::LocalDefine(j);
            assert(stack_offset(b, b.bindings[k]) == o);
        }
    }
}

/// The summary of a function with parameters `args` before any local
/// declaration.
pub open spec fn initial_bindings(args: Seq<Symbol>) -> BindingsView {
    BindingsView {
        bindings: args_map(args),
        num_args: args.len() as u32,
        num_upvars: 0,
        num_declarations: 0,
    }
}

proof fn lemma_args_map_range(args: Seq<Symbol>, k: Symbol)
    requires
        args_map(args).contains_key(k),
        args.len() <= u32::MAX,
    ensures
        args_map(args)[k] matches SymbolBindSource::Arg(i) && (i as int) < args.len() && args[i
            as int] == k,
    decreases args.len(),
{
    if args.len() > 0 && k != args.last() {
        lemma_args_map_range(args.drop_last(), k);
        let i = args_map(args.drop_last())[k]->Arg_0;
        assert(args.drop_last()[i as int] == args[i as int]);
    }
}

/// Every name of a parameter list's summary is one of the parameters.
pub proof fn lemma_args_map_keys(args: Seq<Symbol>, k: Symbol)
    requires
        args_map(args).contains_key(k),
    ensures
        args.contains(k),
    decreases args.len(),
{
    if args.len() > 0 && k != args.last() {
        lemma_args_map_keys(args.drop_last(), k);
        let j = choose|j: int| 0 <= j < args.drop_last().len() && args.drop_last()[j] == k;
        assert(args[j] == k);
    }
}

/// The summary of a parameter list satisfies `bindings_wf`.
pub proof fn lemma_initial_bindings_wf(args: Seq<Symbol>)
    requires
        args.len() <= u32::MAX,
    ensures
        bindings_wf(initial_bindings(args)),
{
    assert forall|k: Symbol| #[trigger] args_map(args).contains_key(k) implies
        args_map(args)[k] matches SymbolBindSource::Arg(i) && (i as int) < args.len() by {
        lemma_args_map_range(args, k);
    }
    let m = args_map(args);
    assert forall|k1: Symbol, k2: Symbol|
        m.contains_key(k1) && m.contains_key(k2) && #[trigger] m[k1] == #[trigger] m[k2] implies k1
            == k2 by {
        lemma_args_map_range(args, k1);
        lemma_args_map_range(args, k2);
    }
}

proof fn lemma_map_included_equal(a: Map<Symbol, SymbolBindSource>, b: Map<Symbol, SymbolBindSource>)
    requires
        a.dom().finite(),
        b.dom().finite(),
        a.dom().len() == b.dom().len(),
        forall|k: Symbol| #[trigger] a.contains_key(k) ==> b.contains_key(k) && b[k] == a[k],
    ensures
        a == b,
{
    assert forall|k: Symbol| #[trigger] b.contains_key(k) implies a.contains_key(k) by {
        if !a.contains_key(k) {
            assert(a.dom().subset_of(b.dom().remove(k)));
            vstd::set_lib::lemma_len_subset(a.dom(), b.dom().remove(k));
        }
    }
    assert(a =~= b);
}

impl LambdaBindings {
    /// Whether two summaries are equal: the same entries and the same counts.
    pub fn same_as(&self, other: &LambdaBindings) -> (r: bool)
        ensures
            r == (self@ == other@),
    {
        if self.num_args != other.num_args || self.num_upvars != other.num_upvars
            || self.num_declarations != other.num_declarations {
            return false;
        }
        if self.bindings.len() != other.bindings.len() {
            return false;
        }
        let ghost items = vstd::std_specs::hash::spec_hash_map_iter(&self.bindings).remaining();
        for kv in it: self.bindings.iter()
            invariant
                self.bindings@.len() == other.bindings@.len(),
                it.seq() == items,
                forall|j: int|
                    0 <= j < it.index() ==> other.bindings@.contains_key(*(#[trigger] it.seq()[j]).0)
                        && other.bindings@[*it.seq()[j].0] == *it.seq()[j].1,
        {
            let (k, v) = kv;
            match other.bindings.get(k) {
                Some(ov) => {
                    if *ov != *v {
                        return false;
                    }
                },
                None => {
                    return false;
                },
            }
        }
        proof {
            assert forall|k: Symbol| #[trigger] self.bindings@.contains_key(k) implies
                other.bindings@.contains_key(k) && other.bindings@[k] == self.bindings@[k] by {
                let seq = items;
                assert(seq.contains((&k, &self.bindings@[k])));
                let j = choose|j: int| 0 <= j < seq.len() && seq[j] == (&k, &self.bindings@[k]);
                assert(other.bindings@.contains_key(*seq[j].0));
            }
            lemma_map_included_equal(self.bindings@, other.bindings@);
        }
        true
    }

    /// The summary of a function with the parameters `args`.
    pub fn new(args: &Vec<Symbol>) -> (r: LambdaBindings)
        requires
            args@.len() <= u32::MAX,
        ensures
            r@ == initial_bindings(args@),
            bindings_wf(r@),
    {
        let mut bindings: HashMap<Symbol, SymbolBindSource> = HashMap::new();
        let mut i: usize = 0;
        while i < args.len()
            invariant
                i <= args@.len(),
                args@.len() <= u32::MAX,
                bindings@ == args_map(args@.subrange(0, i as int)),
            decreases args@.len() - i,
        {
            bindings.insert(args[i], SymbolBindSource::Arg(i as u32));
            proof {
                let next = args@.subrange(0, i + 1);
                assert(next.drop_last() =~= args@.subrange(0, i as int));
            }
            i = i + 1;
        }
        proof {
            assert(args@.subrange(0, args@.len() as int) =~= args@);
            lemma_initial_bindings_wf(args@);
        }
        LambdaBindings {
            bindings,
            num_args: args.len() as u32,
            num_upvars: 0,
            num_declarations: 0,
        }
    }

    /// The physical slot of an argument or a local declaration:
    /// `Arg(a)` is at `a`, `LocalDefine(a)` after all arguments and
    /// captured variables.
    pub fn compute_stack_offset(&self, bind_source: SymbolBindSource) -> (r: u32)
        requires
            bind_source is Arg || bind_source is LocalDefine,
            bind_source is LocalDefine ==> self@.num_args + self@.num_upvars
                + bind_source->LocalDefine_0 <= u32::MAX,
        ensures
            r as int == stack_offset(self@, bind_source),
    {
        match bind_source {
            SymbolBindSource::Arg(a) => a,
            SymbolBindSource::LocalDefine(a) => self.num_args + self.num_upvars + a,
            SymbolBindSource::Upvar(_) => 0,
            SymbolBindSource::Global(_) => 0,
        }
    }
}

} // verus!
