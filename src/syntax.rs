use vstd::prelude::*;

use crate::interner::Symbol;

verus! {

/// A point in the source text: line and column.
#[derive(Clone, Copy, Debug, PartialEq, Eq, Structural)]
pub struct Position(pub u32, pub u32);

/// Whether `a` comes strictly before `b` in the source text.
pub open spec fn pos_lt(a: Position, b: Position) -> bool {
    a.0 < b.0 || (a.0 == b.0 && a.1 < b.1)
}

/// A range of the source text.
#[derive(Clone, Copy, Debug, PartialEq, Eq, Structural)]
pub struct Span {
    pub start: Position,
    pub end: Position,
}

fn position_lt(a: Position, b: Position) -> (r: bool)
    ensures
        r == pos_lt(a, b),
{
    a.0 < b.0 || (a.0 == b.0 && a.1 < b.1)
}

impl Span {
    /// The empty span at the origin, for nodes built by hand.
    pub fn dummy() -> (r: Span)
        ensures
            r == (Span { start: Position(0, 0), end: Position(0, 0) }),
    {
        Span { start: Position(0, 0), end: Position(0, 0) }
    }

    /// The span between two positions, in either order.
    pub fn from_pos(from: Position, to: Position) -> (r: Span)
        ensures
            pos_lt(from, to) ==> r == (Span { start: from, end: to }),
            !pos_lt(from, to) ==> r == (Span { start: to, end: from }),
    {
        if position_lt(from, to) {
            Span { start: from, end: to }
        } else {
            Span { start: to, end: from }
        }
    }

    /// The smallest span covering both spans.
    pub fn join(self, other: Span) -> (r: Span)
        ensures
            r.start == (if pos_lt(other.start, self.start) { other.start } else { self.start }),
            r.end == (if pos_lt(self.end, other.end) { other.end } else { self.end }),
    {
        let lowest = if position_lt(other.start, self.start) { other.start } else { self.start };
        let highest = if position_lt(self.end, other.end) { other.end } else { self.end };
        Span { start: lowest, end: highest }
    }
}

/// A syntax tree node. Children are indices of earlier nodes of the same
/// `AstArena`. A float literal holds the bit pattern of its value.
#[derive(Debug)]
pub enum Ast {
    BoolLit(bool, Span),
    StringLit(String, Span),
    IntLit(i64, Span),
    FloatLit(u64, Span),
    ListLit(Vec<usize>, Span),
    MapLit(Vec<(usize, usize)>, Span),
    Symbol(Symbol, Span),
    Add(Vec<usize>, Span),
    Quote(usize, Span),
    List(Vec<usize>, Span),
    If(usize, usize, usize, Span),
    Lambda(Vec<Symbol>, usize, Span),
    Define(Symbol, usize, Span),
    Block(Vec<usize>, Span),
}

/// The span of a node.
pub open spec fn span_of(a: Ast) -> Span {
    match a {
        Ast::BoolLit(_, s) => s,
        Ast::StringLit(_, s) => s,
        Ast::IntLit(_, s) => s,
        Ast::FloatLit(_, s) => s,
        Ast::ListLit(_, s) => s,
        Ast::MapLit(_, s) => s,
        Ast::Symbol(_, s) => s,
        Ast::Add(_, s) => s,
        Ast::Quote(_, s) => s,
        Ast::List(_, s) => s,
        Ast::If(_, _, _, s) => s,
        Ast::Lambda(_, _, s) => s,
        Ast::Define(_, _, s) => s,
        Ast::Block(_, s) => s,
    }
}

/// Every child index of `a` is below `bound`.
pub open spec fn children_below(a: Ast, bound: int) -> bool {
    match a {
        Ast::ListLit(v, _) => forall|i: int| 0 <= i < v@.len() ==> (#[trigger] v@[i] as int) < bound,
        Ast::Add(v, _) => forall|i: int| 0 <= i < v@.len() ==> (#[trigger] v@[i] as int) < bound,
        Ast::List(v, _) => forall|i: int| 0 <= i < v@.len() ==> (#[trigger] v@[i] as int) < bound,
        Ast::Block(v, _) => forall|i: int| 0 <= i < v@.len() ==> (#[trigger] v@[i] as int) < bound,
        Ast::MapLit(v, _) => forall|i: int|
            0 <= i < v@.len() ==> (#[trigger] v@[i]).0 < bound && v@[i].1 < bound,
        Ast::Quote(q, _) => q < bound,
        Ast::If(c, t, e, _) => c < bound && t < bound && e < bound,
        Ast::Lambda(_, body, _) => body < bound,
        Ast::Define(_, value, _) => value < bound,
        _ => true,
    }
}

/// Whether nodes `a` of `s1` and `b` of `s2` are the same tree, spans
/// aside: same shape, same literal values and symbols, children equal
/// pairwise in order.
pub open spec fn ast_eq(s1: Seq<Ast>, a: int, s2: Seq<Ast>, b: int) -> bool
    decreases a, 1nat, 0nat,
{
    if !(0 <= a < s1.len() && 0 <= b < s2.len() && children_below(s1[a], a)) {
        false
    } else {
        match (s1[a], s2[b]) {
            (Ast::BoolLit(x, _), Ast::BoolLit(y, _)) => x == y,
            (Ast::StringLit(x, _), Ast::StringLit(y, _)) => x@ == y@,
            (Ast::IntLit(x, _), Ast::IntLit(y, _)) => x == y,
            (Ast::FloatLit(x, _), Ast::FloatLit(y, _)) => x == y,
            (Ast::ListLit(x, _), Ast::ListLit(y, _)) => ast_list_eq(s1, x@, s2, y@, a),
            (Ast::List(x, _), Ast::List(y, _)) => ast_list_eq(s1, x@, s2, y@, a),
            (Ast::Add(x, _), Ast::Add(y, _)) => ast_list_eq(s1, x@, s2, y@, a),
            (Ast::Block(x, _), Ast::Block(y, _)) => ast_list_eq(s1, x@, s2, y@, a),
            (Ast::MapLit(x, _), Ast::MapLit(y, _)) => ast_pairs_eq(s1, x@, s2, y@, a),
            (Ast::Symbol(x, _), Ast::Symbol(y, _)) => x == y,
            (Ast::Quote(x, _), Ast::Quote(y, _)) => ast_eq(s1, x as int, s2, y as int),
            (Ast::If(c1, t1, e1, _), Ast::If(c2, t2, e2, _)) => ast_eq(s1, c1 as int, s2, c2 as int)
                && ast_eq(s1, t1 as int, s2, t2 as int) && ast_eq(s1, e1 as int, s2, e2 as int),
            (Ast::Lambda(x, bx, _), Ast::Lambda(y, by, _)) => x@ == y@ && ast_eq(
                s1,
                bx as int,
                s2,
                by as int,
            ),
            (Ast::Define(x, vx, _), Ast::Define(y, vy, _)) => x == y && ast_eq(
                s1,
                vx as int,
                s2,
                vy as int,
            ),
            _ => false,
        }
    }
}

/// Pairwise `ast_eq` of two child lists whose first list lies below `bound`.
pub open spec fn ast_list_eq(s1: Seq<Ast>, x: Seq<usize>, s2: Seq<Ast>, y: Seq<usize>, bound: int) -> bool
    decreases bound, 0nat, x.len(),
{
    if x.len() == 0 {
        y.len() == 0
    } else {
        y.len() > 0 && x.last() < bound && ast_list_eq(s1, x.drop_last(), s2, y.drop_last(), bound)
            && ast_eq(s1, x.last() as int, s2, y.last() as int)
    }
}

/// Pairwise `ast_eq` of two key/value lists, keys and values alike.
pub open spec fn ast_pairs_eq(
    s1: Seq<Ast>,
    x: Seq<(usize, usize)>,
    s2: Seq<Ast>,
    y: Seq<(usize, usize)>,
    bound: int,
) -> bool
    decreases bound, 0nat, x.len(),
{
    if x.len() == 0 {
        y.len() == 0
    } else {
        y.len() > 0 && x.last().0 < bound && x.last().1 < bound && ast_pairs_eq(
            s1,
            x.drop_last(),
            s2,
            y.drop_last(),
            bound,
        ) && ast_eq(s1, x.last().0 as int, s2, y.last().0 as int) && ast_eq(
            s1,
            x.last().1 as int,
            s2,
            y.last().1 as int,
        )
    }
}

/// Whether two symbol lists are the same.
pub fn same_symbols(a: &Vec<Symbol>, b: &Vec<Symbol>) -> (r: bool)
    ensures
        r == (a@ == b@),
{
    if a.len() != b.len() {
        return false;
    }
    let mut i: usize = 0;
    while i < a.len()
        invariant
            a@.len() == b@.len(),
            i <= a@.len(),
            a@.subrange(0, i as int) == b@.subrange(0, i as int),
        decreases a@.len() - i,
    {
        if a[i] != b[i] {
            assert(a@.subrange(0, i + 1)[i as int] != b@.subrange(0, i + 1)[i as int]);
            return false;
        }
        assert(a@.subrange(0, i + 1) =~= a@.subrange(0, i as int).push(a@[i as int]));
        assert(b@.subrange(0, i + 1) =~= b@.subrange(0, i as int).push(b@[i as int]));
        i = i + 1;
    }
    assert(a@ =~= a@.subrange(0, i as int));
    assert(b@ =~= b@.subrange(0, i as int));
    true
}


proof fn lemma_list_eq_len(s1: Seq<Ast>, x: Seq<usize>, s2: Seq<Ast>, y: Seq<usize>, bound: int)
    requires
        ast_list_eq(s1, x, s2, y, bound),
    ensures
        x.len() == y.len(),
    decreases x.len(),
{
    if x.len() > 0 {
        lemma_list_eq_len(s1, x.drop_last(), s2, y.drop_last(), bound);
    }
}

proof fn lemma_pairs_eq_len(
    s1: Seq<Ast>,
    x: Seq<(usize, usize)>,
    s2: Seq<Ast>,
    y: Seq<(usize, usize)>,
    bound: int,
)
    requires
        ast_pairs_eq(s1, x, s2, y, bound),
    ensures
        x.len() == y.len(),
    decreases x.len(),
{
    if x.len() > 0 {
        lemma_pairs_eq_len(s1, x.drop_last(), s2, y.drop_last(), bound);
    }
}

/// Every symbol that `a` names (a reference, a parameter, a declared name)
/// is below `n`.
pub open spec fn symbols_below(a: Ast, n: nat) -> bool {
    match a {
        Ast::Symbol(s, _) => s < n,
        Ast::Define(s, _, _) => s < n,
        Ast::Lambda(args, _, _) => forall|j: int| 0 <= j < args@.len() ==> (#[trigger] args@[j]) < n,
        _ => true,
    }
}

/// Every symbol that the nodes of `s` name is below `n`: a symbol table
/// of `n` entries handed them all out.
pub open spec fn arena_symbols_below(s: Seq<Ast>, n: nat) -> bool {
    forall|i: int| 0 <= i < s.len() ==> symbols_below(#[trigger] s[i], n)
}

pub proof fn lemma_arena_symbols_mono(s: Seq<Ast>, n: nat, n2: nat)
    requires
        arena_symbols_below(s, n),
        n <= n2,
    ensures
        arena_symbols_below(s, n2),
{
    assert forall|i: int| 0 <= i < s.len() implies symbols_below(#[trigger] s[i], n2) by {
        assert(symbols_below(s[i], n));
    }
}

/// Every node's children are earlier nodes, so the arena is acyclic.
pub open spec fn arena_wf(s: Seq<Ast>) -> bool {
    forall|i: int| 0 <= i < s.len() ==> children_below(#[trigger] s[i], i)
}

/// On well-formed arenas, `ast_eq` does not depend on the order of its
/// two trees.
pub proof fn lemma_ast_eq_symmetric(s1: Seq<Ast>, a: int, s2: Seq<Ast>, b: int)
    requires
        arena_wf(s1),
        arena_wf(s2),
    ensures
        ast_eq(s1, a, s2, b) == ast_eq(s2, b, s1, a),
    decreases a, 1nat, 0nat,
{
    if 0 <= a < s1.len() && 0 <= b < s2.len() {
        assert(children_below(s1[a], a));
        assert(children_below(s2[b], b));
        match (s1[a], s2[b]) {
            (Ast::ListLit(x, _), Ast::ListLit(y, _)) => lemma_ast_list_eq_symmetric(s1, x@, s2, y@, a, b),
            (Ast::List(x, _), Ast::List(y, _)) => lemma_ast_list_eq_symmetric(s1, x@, s2, y@, a, b),
            (Ast::Add(x, _), Ast::Add(y, _)) => lemma_ast_list_eq_symmetric(s1, x@, s2, y@, a, b),
            (Ast::Block(x, _), Ast::Block(y, _)) => lemma_ast_list_eq_symmetric(s1, x@, s2, y@, a, b),
            (Ast::MapLit(x, _), Ast::MapLit(y, _)) => lemma_ast_pairs_eq_symmetric(s1, x@, s2, y@, a, b),
            (Ast::Quote(x, _), Ast::Quote(y, _)) => lemma_ast_eq_symmetric(s1, x as int, s2, y as int),
            (Ast::If(c1, t1, e1, _), Ast::If(c2, t2, e2, _)) => {
                lemma_ast_eq_symmetric(s1, c1 as int, s2, c2 as int);
                lemma_ast_eq_symmetric(s1, t1 as int, s2, t2 as int);
                lemma_ast_eq_symmetric(s1, e1 as int, s2, e2 as int);
            },
            (Ast::Lambda(_, bx, _), Ast::Lambda(_, by, _)) => lemma_ast_eq_symmetric(s1, bx as int, s2, by as int),
            (Ast::Define(_, vx, _), Ast::Define(_, vy, _)) => lemma_ast_eq_symmetric(s1, vx as int, s2, vy as int),
            _ => {},
        }
    }
}

proof fn lemma_ast_list_eq_symmetric(s1: Seq<Ast>, x: Seq<usize>, s2: Seq<Ast>, y: Seq<usize>, ba: int, bb: int)
    requires
        arena_wf(s1),
        arena_wf(s2),
        forall|i: int| 0 <= i < x.len() ==> (#[trigger] x[i] as int) < ba,
        forall|i: int| 0 <= i < y.len() ==> (#[trigger] y[i] as int) < bb,
    ensures
        ast_list_eq(s1, x, s2, y, ba) == ast_list_eq(s2, y, s1, x, bb),
    decreases ba, 0nat, x.len(),
{
    if x.len() > 0 && y.len() > 0 {
        assert(x.last() == x[x.len() - 1]);
        assert(y.last() == y[y.len() - 1]);
        lemma_ast_list_eq_symmetric(s1, x.drop_last(), s2, y.drop_last(), ba, bb);
        lemma_ast_eq_symmetric(s1, x.last() as int, s2, y.last() as int);
    }
}

proof fn lemma_ast_pairs_eq_symmetric(
    s1: Seq<Ast>,
    x: Seq<(usize, usize)>,
    s2: Seq<Ast>,
    y: Seq<(usize, usize)>,
    ba: int,
    bb: int,
)
    requires
        arena_wf(s1),
        arena_wf(s2),
        forall|i: int| 0 <= i < x.len() ==> (#[trigger] x[i]).0 < ba && x[i].1 < ba,
        forall|i: int| 0 <= i < y.len() ==> (#[trigger] y[i]).0 < bb && y[i].1 < bb,
    ensures
        ast_pairs_eq(s1, x, s2, y, ba) == ast_pairs_eq(s2, y, s1, x, bb),
    decreases ba, 0nat, x.len(),
{
    if x.len() > 0 && y.len() > 0 {
        assert(x.last() == x[x.len() - 1]);
        assert(y.last() == y[y.len() - 1]);
        lemma_ast_pairs_eq_symmetric(s1, x.drop_last(), s2, y.drop_last(), ba, bb);
        lemma_ast_eq_symmetric(s1, x.last().0 as int, s2, y.last().0 as int);
        lemma_ast_eq_symmetric(s1, x.last().1 as int, s2, y.last().1 as int);
    }
}

/// An append-only store of syntax tree nodes, addressed by index.
pub struct AstArena {
    nodes: Vec<Ast>,
}

impl View for AstArena {
    type V = Seq<Ast>;

    closed spec fn view(&self) -> Seq<Ast> {
        self.nodes@
    }
}

impl Ast {
    /// A placeholder node for trees built by hand.
    pub fn dummy() -> (r: Ast)
        ensures
            r matches Ast::StringLit(s, sp) && s@ == "dummy"@ && sp == (Span {
                start: Position(0, 0),
                end: Position(0, 0),
            }),
    {
        Ast::StringLit("dummy".to_owned(), Span::dummy())
    }

    /// Whether this node is a reference to `symbol`.
    pub fn is_symbol_lit_with(&self, symbol: &Symbol) -> (r: bool)
        ensures
            r == (*self matches Ast::Symbol(s, _) && s == *symbol),
    {
        match self {
            Ast::Symbol(s, _) => *s == *symbol,
            _ => false,
        }
    }

    /// The source span of this node.
    pub fn span(&self) -> (r: Span)
        ensures
            r == span_of(*self),
    {
        match self {
            Ast::BoolLit(_, s) => *s,
            Ast::StringLit(_, s) => *s,
            Ast::IntLit(_, s) => *s,
            Ast::FloatLit(_, s) => *s,
            Ast::ListLit(_, s) => *s,
            Ast::MapLit(_, s) => *s,
            Ast::Symbol(_, s) => *s,
            Ast::Add(_, s) => *s,
            Ast::Quote(_, s) => *s,
            Ast::List(_, s) => *s,
            Ast::If(_, _, _, s) => *s,
            Ast::Lambda(_, _, s) => *s,
            Ast::Define(_, _, s) => *s,
            Ast::Block(_, s) => *s,
        }
    }
}

impl AstArena {
    pub open spec fn wf(&self) -> bool {
        arena_wf(self@)
    }

    pub fn new() -> (r: AstArena)
        ensures
            r@ == Seq::<Ast>::empty(),
            r.wf(),
    {
        AstArena { nodes: Vec::new() }
    }

    /// Number of nodes stored.
    pub fn len(&self) -> (r: usize)
        ensures
            r == self@.len(),
    {
        self.nodes.len()
    }

    /// Stores `node`, whose children must be stored already, and returns
    /// its index.
    pub fn push_node(&mut self, node: Ast) -> (r: usize)
        requires
            old(self).wf(),
            children_below(node, old(self)@.len() as int),
        ensures
            final(self).wf(),
            final(self)@ == old(self)@.push(node),
            r == old(self)@.len(),
    {
        let r = self.nodes.len();
        self.nodes.push(node);
        r
    }

    /// The node at `id`.
    pub fn get(&self, id: usize) -> (r: &Ast)
        requires
            id < self@.len(),
        ensures
            *r == self@[id as int],
    {
        &self.nodes[id]
    }

    /// Whether node `a` here and node `b` of `other` are the same tree,
    /// spans aside.
    pub fn equals_sans_span(&self, a: usize, other: &AstArena, b: usize) -> (r: bool)
        requires
            self.wf(),
            other.wf(),
            a < self@.len(),
            b < other@.len(),
        ensures
            r == ast_eq(self@, a as int, other@, b as int),
        decreases a, 1nat, 0nat,
    {
        let na = &self.nodes[a];
        let nb = &other.nodes[b];
        proof {
            assert(children_below(self@[a as int], a as int));
        }
        match (na, nb) {
            (Ast::BoolLit(x, _), Ast::BoolLit(y, _)) => *x == *y,
            (Ast::StringLit(x, _), Ast::StringLit(y, _)) => *x == *y,
            (Ast::IntLit(x, _), Ast::IntLit(y, _)) => *x == *y,
            (Ast::FloatLit(x, _), Ast::FloatLit(y, _)) => *x == *y,
            (Ast::ListLit(x, _), Ast::ListLit(y, _)) => self.list_equals(x, other, y, a),
            (Ast::List(x, _), Ast::List(y, _)) => self.list_equals(x, other, y, a),
            (Ast::Add(x, _), Ast::Add(y, _)) => self.list_equals(x, other, y, a),
            (Ast::Block(x, _), Ast::Block(y, _)) => self.list_equals(x, other, y, a),
            (Ast::MapLit(x, _), Ast::MapLit(y, _)) => self.pairs_equal(x, other, y, a),
            (Ast::Symbol(x, _), Ast::Symbol(y, _)) => *x == *y,
            (Ast::Quote(x, _), Ast::Quote(y, _)) => self.equals_sans_span(*x, other, *y),
            (Ast::If(c1, t1, e1, _), Ast::If(c2, t2, e2, _)) => self.equals_sans_span(
                *c1,
                other,
                *c2,
            ) && self.equals_sans_span(*t1, other, *t2) && self.equals_sans_span(*e1, other, *e2),
            (Ast::Lambda(x, bx, _), Ast::Lambda(y, by, _)) => same_symbols(x, y)
                && self.equals_sans_span(*bx, other, *by),
            (Ast::Define(x, vx, _), Ast::Define(y, vy, _)) => *x == *y && self.equals_sans_span(
                *vx,
                other,
                *vy,
            ),
            _ => false,
        }
    }

    fn list_equals(&self, x: &Vec<usize>, other: &AstArena, y: &Vec<usize>, bound: usize) -> (r:
        bool)
        requires
            self.wf(),
            other.wf(),
            bound <= self@.len(),
            forall|i: int| 0 <= i < x@.len() ==> (#[trigger] x@[i] as int) < bound,
            forall|i: int| 0 <= i < y@.len() ==> (#[trigger] y@[i] as int) < other@.len(),
        ensures
            r == ast_list_eq(self@, x@, other@, y@, bound as int),
        decreases bound, 0nat, x@.len(),
    {
        if x.len() != y.len() {
            proof {
                if ast_list_eq(self@, x@, other@, y@, bound as int) {
                    lemma_list_eq_len(self@, x@, other@, y@, bound as int);
                }
            }
            return false;
        }
        let mut ok = true;
        let mut i: usize = 0;
        while i < x.len()
            invariant
                self.wf(),
                other.wf(),
                bound <= self@.len(),
                forall|i: int| 0 <= i < x@.len() ==> (#[trigger] x@[i] as int) < bound,
                forall|i: int| 0 <= i < y@.len() ==> (#[trigger] y@[i] as int) < other@.len(),
                x@.len() == y@.len(),
                i <= x@.len(),
                ok == ast_list_eq(
                    self@,
                    x@.subrange(0, i as int),
                    other@,
                    y@.subrange(0, i as int),
                    bound as int,
                ),
            decreases x@.len() - i,
        {
            proof {
                assert(x@.subrange(0, i + 1).drop_last() =~= x@.subrange(0, i as int));
                assert(y@.subrange(0, i + 1).drop_last() =~= y@.subrange(0, i as int));
            }
            ok = ok && self.equals_sans_span(x[i], other, y[i]);
            i = i + 1;
        }
        proof {
            assert(x@.subrange(0, i as int) =~= x@);
            assert(y@.subrange(0, i as int) =~= y@);
        }
        ok
    }

    fn pairs_equal(
        &self,
        x: &Vec<(usize, usize)>,
        other: &AstArena,
        y: &Vec<(usize, usize)>,
        bound: usize,
    ) -> (r: bool)
        requires
            self.wf(),
            other.wf(),
            bound <= self@.len(),
            forall|i: int| 0 <= i < x@.len() ==> (#[trigger] x@[i]).0 < bound && x@[i].1 < bound,
            forall|i: int|
                0 <= i < y@.len() ==> (#[trigger] y@[i]).0 < other@.len() && y@[i].1 < other@.len(),
        ensures
            r == ast_pairs_eq(self@, x@, other@, y@, bound as int),
        decreases bound, 0nat, x@.len(),
    {
        if x.len() != y.len() {
            proof {
                if ast_pairs_eq(self@, x@, other@, y@, bound as int) {
                    lemma_pairs_eq_len(self@, x@, other@, y@, bound as int);
                }
            }
            return false;
        }
        let mut ok = true;
        let mut i: usize = 0;
        while i < x.len()
            invariant
                self.wf(),
                other.wf(),
                bound <= self@.len(),
                forall|i: int| 0 <= i < x@.len() ==> (#[trigger] x@[i]).0 < bound && x@[i].1 < bound,
                forall|i: int|
                    0 <= i < y@.len() ==> (#[trigger] y@[i]).0 < other@.len() && y@[i].1
                        < other@.len(),
                x@.len() == y@.len(),
                i <= x@.len(),
                ok == ast_pairs_eq(
                    self@,
                    x@.subrange(0, i as int),
                    other@,
                    y@.subrange(0, i as int),
                    bound as int,
                ),
            decreases x@.len() - i,
        {
            proof {
                assert(x@.subrange(0, i + 1).drop_last() =~= x@.subrange(0, i as int));
                assert(y@.subrange(0, i + 1).drop_last() =~= y@.subrange(0, i as int));
            }
            let (k1, v1) = x[i];
            let (k2, v2) = y[i];
            ok = ok && self.equals_sans_span(k1, other, k2) && self.equals_sans_span(v1, other, v2);
            i = i + 1;
        }
        proof {
            assert(x@.subrange(0, i as int) =~= x@);
            assert(y@.subrange(0, i as int) =~= y@);
        }
        ok
    }
}

} // verus!
