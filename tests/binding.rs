use std::collections::HashMap;

use ares::bindings::{LambdaBindings, SymbolBindSource};
use ares::bound::{Bound, BoundArena, BindingError};
use ares::interner::{Symbol, SymbolIntern};
use ares::syntax::{Ast, AstArena, Position, Span};

fn sp() -> Span {
    Span::dummy()
}

fn at(line: u32, col: u32) -> Span {
    Span { start: Position(line, col), end: Position(line, col + 1) }
}

fn summary(entries: Vec<(Symbol, SymbolBindSource)>, args: u32, locals: u32) -> LambdaBindings {
    let bindings: HashMap<Symbol, SymbolBindSource> = entries.into_iter().collect();
    LambdaBindings { bindings, num_args: args, num_upvars: 0, num_declarations: locals }
}

#[test]
fn bind_lambda_one_arg() {
    let mut interner = SymbolIntern::new();
    let a = interner.intern("a");
    let mut asts = AstArena::new();
    let ra = asts.push_node(Ast::Symbol(a, sp()));
    let body = asts.push_node(Ast::Block(vec![ra], sp()));
    let lam = asts.push_node(Ast::Lambda(vec![a], body, sp()));
    let mut out = BoundArena::new();
    let bound = Bound::bind_top(&asts, lam, &mut out, &mut interner);

    let mut dummies = AstArena::new();
    let d = dummies.push_node(Ast::dummy());
    let mut should = BoundArena::new();
    let s = should.push_node(Bound::Symbol { symbol: a, ast: d, source: SymbolBindSource::Arg(0) });
    let b = should.push_node(Bound::Block(vec![s], d));
    let l = should.push_node(Bound::Lambda {
        arg_symbols: vec![a],
        body: b,
        ast: d,
        bindings: summary(vec![(a, SymbolBindSource::Arg(0))], 1, 0),
    });
    assert!(Bound::equals_sans_ast(&should, l, &dummies, &out, bound.unwrap(), &asts));
}

#[test]
fn bind_lambda_two_args() {
    let mut interner = SymbolIntern::new();
    let a = interner.intern("a");
    let b = interner.intern("b");
    let mut asts = AstArena::new();
    let ra = asts.push_node(Ast::Symbol(a, sp()));
    let rb = asts.push_node(Ast::Symbol(b, sp()));
    let add = asts.push_node(Ast::Add(vec![ra, rb], sp()));
    let body = asts.push_node(Ast::Block(vec![add], sp()));
    let lam = asts.push_node(Ast::Lambda(vec![a, b], body, sp()));
    let mut out = BoundArena::new();
    let bound = Bound::bind_top(&asts, lam, &mut out, &mut interner);

    let mut dummies = AstArena::new();
    let d = dummies.push_node(Ast::dummy());
    let mut should = BoundArena::new();
    let sa = should.push_node(Bound::Symbol { symbol: a, ast: d, source: SymbolBindSource::Arg(0) });
    let sb = should.push_node(Bound::Symbol { symbol: b, ast: d, source: SymbolBindSource::Arg(1) });
    let sadd = should.push_node(Bound::Add(vec![sa, sb], d));
    let blk = should.push_node(Bound::Block(vec![sadd], d));
    let l = should.push_node(Bound::Lambda {
        arg_symbols: vec![a, b],
        body: blk,
        ast: d,
        bindings: summary(vec![(a, SymbolBindSource::Arg(0)), (b, SymbolBindSource::Arg(1))], 2, 0),
    });
    assert!(Bound::equals_sans_ast(&should, l, &dummies, &out, bound.unwrap(), &asts));
}

#[test]
fn literal_wraps_its_own_node() {
    let mut interner = SymbolIntern::new();
    let mut asts = AstArena::new();
    let lit = asts.push_node(Ast::IntLit(5, at(3, 4)));
    let mut out = BoundArena::new();
    let r = Bound::bind_top(&asts, lit, &mut out, &mut interner).unwrap();
    assert!(matches!(out.get(r), Bound::Literal(x) if *x == lit));

    let mut other = AstArena::new();
    let same = other.push_node(Ast::IntLit(5, sp()));
    let different = other.push_node(Ast::IntLit(6, sp()));
    let mut should = BoundArena::new();
    let s = should.push_node(Bound::Literal(same));
    let t = should.push_node(Bound::Literal(different));
    assert!(Bound::equals_sans_ast(&out, r, &asts, &should, s, &other));
    assert!(!Bound::equals_sans_ast(&out, r, &asts, &should, t, &other));
}

#[test]
fn other_literals_bind_to_themselves() {
    let mut interner = SymbolIntern::new();
    let mut asts = AstArena::new();
    let b = asts.push_node(Ast::BoolLit(true, sp()));
    let s = asts.push_node(Ast::StringLit("hi".to_string(), sp()));
    let f = asts.push_node(Ast::FloatLit(10.0f64.to_bits(), sp()));
    let mut out = BoundArena::new();
    for id in [b, s, f] {
        let r = Bound::bind_top(&asts, id, &mut out, &mut interner).unwrap();
        assert!(matches!(out.get(r), Bound::Literal(x) if *x == id));
    }
}

#[test]
fn function_parameters_are_arguments_in_order() {
    let mut interner = SymbolIntern::new();
    let a = interner.intern("a");
    let b = interner.intern("b");
    let c = interner.intern("c");
    let mut asts = AstArena::new();
    let ra = asts.push_node(Ast::Symbol(a, sp()));
    let rb = asts.push_node(Ast::Symbol(b, sp()));
    let rc = asts.push_node(Ast::Symbol(c, sp()));
    let add = asts.push_node(Ast::Add(vec![ra, rb, rc], sp()));
    let body = asts.push_node(Ast::Block(vec![add], sp()));
    let lam = asts.push_node(Ast::Lambda(vec![a, b, c], body, sp()));
    let mut out = BoundArena::new();
    let r = Bound::bind_top(&asts, lam, &mut out, &mut interner).unwrap();
    match out.get(r) {
        Bound::Lambda { bindings, .. } => {
            assert_eq!(bindings.num_args, 3);
            assert_eq!(bindings.num_upvars, 0);
            assert_eq!(bindings.num_declarations, 0);
            assert_eq!(bindings.bindings.get(&a), Some(&SymbolBindSource::Arg(0)));
            assert_eq!(bindings.bindings.get(&b), Some(&SymbolBindSource::Arg(1)));
            assert_eq!(bindings.bindings.get(&c), Some(&SymbolBindSource::Arg(2)));
        },
        _ => panic!("expected a function node"),
    }
}

#[test]
fn later_duplicate_parameter_wins() {
    let mut interner = SymbolIntern::new();
    let a = interner.intern("a");
    let mut asts = AstArena::new();
    let ra = asts.push_node(Ast::Symbol(a, sp()));
    let lam = asts.push_node(Ast::Lambda(vec![a, a], ra, sp()));
    let mut out = BoundArena::new();
    let r = Bound::bind_top(&asts, lam, &mut out, &mut interner).unwrap();
    match out.get(r) {
        Bound::Lambda { bindings, body, .. } => {
            assert_eq!(bindings.num_args, 2);
            assert_eq!(bindings.bindings.len(), 1);
            assert!(matches!(out.get(*body),
                Bound::Symbol { source: SymbolBindSource::Arg(1), .. }));
        },
        _ => panic!("expected a function node"),
    }
}

#[test]
fn undeclared_symbol_at_top_level_is_global() {
    let mut interner = SymbolIntern::new();
    let foo = interner.intern("foo");
    let mut asts = AstArena::new();
    let r = asts.push_node(Ast::Symbol(foo, sp()));
    let mut out = BoundArena::new();
    let b = Bound::bind_top(&asts, r, &mut out, &mut interner).unwrap();
    assert!(matches!(out.get(b),
        Bound::Symbol { symbol, source: SymbolBindSource::Global(g), .. } if *symbol == foo && *g == foo));
}

#[test]
fn undeclared_symbol_in_top_level_block_is_global() {
    let mut interner = SymbolIntern::new();
    let foo = interner.intern("foo");
    let mut asts = AstArena::new();
    let r = asts.push_node(Ast::Symbol(foo, sp()));
    let blk = asts.push_node(Ast::Block(vec![r], sp()));
    let mut out = BoundArena::new();
    let b = Bound::bind_top(&asts, blk, &mut out, &mut interner).unwrap();
    match out.get(b) {
        Bound::Block(ids, _) => assert!(matches!(out.get(ids[0]),
            Bound::Symbol { source: SymbolBindSource::Global(g), .. } if *g == foo)),
        _ => panic!("expected a block"),
    }
}

#[test]
fn top_level_define_is_global() {
    let mut interner = SymbolIntern::new();
    let x = interner.intern("x");
    let mut asts = AstArena::new();
    let five = asts.push_node(Ast::IntLit(5, sp()));
    let def = asts.push_node(Ast::Define(x, five, sp()));
    let mut out = BoundArena::new();
    let b = Bound::bind_top(&asts, def, &mut out, &mut interner).unwrap();
    assert!(matches!(out.get(b),
        Bound::Define(s, SymbolBindSource::Global(g), _, _) if *s == x && *g == x));
}

#[test]
fn duplicate_define_in_block_fails() {
    let mut interner = SymbolIntern::new();
    let x = interner.intern("x");
    let mut asts = AstArena::new();
    let one = asts.push_node(Ast::IntLit(1, sp()));
    let two = asts.push_node(Ast::IntLit(2, sp()));
    let d1 = asts.push_node(Ast::Define(x, one, sp()));
    let d2 = asts.push_node(Ast::Define(x, two, sp()));
    let blk = asts.push_node(Ast::Block(vec![d1, d2], sp()));
    let mut out = BoundArena::new();
    let r = Bound::bind_top(&asts, blk, &mut out, &mut interner);
    assert_eq!(r, Err(BindingError::AlreadyDefined(x)));
}

#[test]
fn lambda_duplicate_define_fails() {
    let mut interner = SymbolIntern::new();
    let x = interner.intern("x");
    let mut asts = AstArena::new();
    let five = asts.push_node(Ast::IntLit(5, sp()));
    let six = asts.push_node(Ast::IntLit(6, sp()));
    let d1 = asts.push_node(Ast::Define(x, five, sp()));
    let d2 = asts.push_node(Ast::Define(x, six, sp()));
    let rx = asts.push_node(Ast::Symbol(x, sp()));
    let body = asts.push_node(Ast::Block(vec![d1, d2, rx], sp()));
    let lam = asts.push_node(Ast::Lambda(vec![], body, sp()));
    let mut out = BoundArena::new();
    let r = Bound::bind_top(&asts, lam, &mut out, &mut interner);
    assert_eq!(r, Err(BindingError::AlreadyDefined(x)));
}

#[test]
fn define_shadowing_parameter_fails() {
    let mut interner = SymbolIntern::new();
    let a = interner.intern("a");
    let mut asts = AstArena::new();
    let one = asts.push_node(Ast::IntLit(1, sp()));
    let def = asts.push_node(Ast::Define(a, one, sp()));
    let inner = asts.push_node(Ast::Block(vec![def], sp()));
    let body = asts.push_node(Ast::Block(vec![inner], sp()));
    let lam = asts.push_node(Ast::Lambda(vec![a], body, sp()));
    let mut out = BoundArena::new();
    let r = Bound::bind_top(&asts, lam, &mut out, &mut interner);
    assert_eq!(r, Err(BindingError::AlreadyDefined(a)));
}

#[test]
fn sibling_blocks_get_distinct_slots() {
    let mut interner = SymbolIntern::new();
    let x = interner.intern("x");
    let mut asts = AstArena::new();
    let one = asts.push_node(Ast::IntLit(1, sp()));
    let d1 = asts.push_node(Ast::Define(x, one, sp()));
    let r1 = asts.push_node(Ast::Symbol(x, sp()));
    let b1 = asts.push_node(Ast::Block(vec![d1, r1], sp()));
    let two = asts.push_node(Ast::IntLit(2, sp()));
    let d2 = asts.push_node(Ast::Define(x, two, sp()));
    let r2 = asts.push_node(Ast::Symbol(x, sp()));
    let b2 = asts.push_node(Ast::Block(vec![d2, r2], sp()));
    let body = asts.push_node(Ast::Block(vec![b1, b2], sp()));
    let lam = asts.push_node(Ast::Lambda(vec![], body, sp()));
    let mut out = BoundArena::new();
    let r = Bound::bind_top(&asts, lam, &mut out, &mut interner).unwrap();
    let (body_id, locals) = match out.get(r) {
        Bound::Lambda { body, bindings, .. } => (*body, bindings.num_declarations),
        _ => panic!("expected a function node"),
    };
    assert_eq!(locals, 2);
    let blocks = match out.get(body_id) {
        Bound::Block(ids, _) => ids.clone(),
        _ => panic!("expected a block"),
    };
    let mut sources = vec![];
    for blk in blocks {
        match out.get(blk) {
            Bound::Block(ids, _) => {
                let def = match out.get(ids[0]) {
                    Bound::Define(_, src, _, _) => *src,
                    _ => panic!("expected a declaration"),
                };
                let used = match out.get(ids[1]) {
                    Bound::Symbol { source, .. } => *source,
                    _ => panic!("expected a symbol"),
                };
                assert_eq!(def, used);
                sources.push(def);
            },
            _ => panic!("expected a block"),
        }
    }
    assert_eq!(sources, vec![SymbolBindSource::LocalDefine(0), SymbolBindSource::LocalDefine(1)]);
}

#[test]
fn declaration_is_visible_to_its_own_value() {
    let mut interner = SymbolIntern::new();
    let f = interner.intern("f");
    let mut asts = AstArena::new();
    let rf = asts.push_node(Ast::Symbol(f, sp()));
    let def = asts.push_node(Ast::Define(f, rf, sp()));
    let body = asts.push_node(Ast::Block(vec![def], sp()));
    let lam = asts.push_node(Ast::Lambda(vec![], body, sp()));
    let mut out = BoundArena::new();
    let r = Bound::bind_top(&asts, lam, &mut out, &mut interner).unwrap();
    let body_id = match out.get(r) {
        Bound::Lambda { body, .. } => *body,
        _ => panic!("expected a function node"),
    };
    let def_id = match out.get(body_id) {
        Bound::Block(ids, _) => ids[0],
        _ => panic!("expected a block"),
    };
    match out.get(def_id) {
        Bound::Define(_, SymbolBindSource::LocalDefine(0), v, _) => assert!(matches!(out.get(*v),
            Bound::Symbol { source: SymbolBindSource::LocalDefine(0), .. })),
        _ => panic!("expected a declaration in slot 0"),
    }
}

#[test]
fn declaration_is_not_visible_before_it() {
    let mut interner = SymbolIntern::new();
    let x = interner.intern("x");
    let mut asts = AstArena::new();
    let early = asts.push_node(Ast::Symbol(x, at(1, 12)));
    let one = asts.push_node(Ast::IntLit(1, sp()));
    let def = asts.push_node(Ast::Define(x, one, sp()));
    let body = asts.push_node(Ast::Block(vec![early, def], sp()));
    let lam = asts.push_node(Ast::Lambda(vec![], body, sp()));
    let mut out = BoundArena::new();
    let r = Bound::bind_top(&asts, lam, &mut out, &mut interner);
    assert_eq!(r, Err(BindingError::CouldNotBind(x, at(1, 12))));
}

#[test]
fn enclosing_function_parameter_is_not_visible() {
    let mut interner = SymbolIntern::new();
    let a = interner.intern("a");
    let mut asts = AstArena::new();
    let ra = asts.push_node(Ast::Symbol(a, at(1, 22)));
    let inner_body = asts.push_node(Ast::Block(vec![ra], sp()));
    let inner = asts.push_node(Ast::Lambda(vec![], inner_body, sp()));
    let outer_body = asts.push_node(Ast::Block(vec![inner], sp()));
    let outer = asts.push_node(Ast::Lambda(vec![a], outer_body, sp()));
    let mut out = BoundArena::new();
    let r = Bound::bind_top(&asts, outer, &mut out, &mut interner);
    assert_eq!(r, Err(BindingError::CouldNotBind(a, at(1, 22))));
}

#[test]
fn quote_suppresses_resolution() {
    let mut interner = SymbolIntern::new();
    let zzz = interner.intern("zzz");
    let mut asts = AstArena::new();
    let rz = asts.push_node(Ast::Symbol(zzz, sp()));
    let q = asts.push_node(Ast::Quote(rz, sp()));
    let lam = asts.push_node(Ast::Lambda(vec![], q, sp()));
    let mut out = BoundArena::new();
    let r = Bound::bind_top(&asts, lam, &mut out, &mut interner).unwrap();
    let body = match out.get(r) {
        Bound::Lambda { body, .. } => *body,
        _ => panic!("expected a function node"),
    };
    assert!(matches!(out.get(body), Bound::Quote { quoting, ast } if *quoting == rz && *ast == q));
}

#[test]
fn conditional_uses_enclosing_scope() {
    let mut interner = SymbolIntern::new();
    let a = interner.intern("a");
    let b = interner.intern("b");
    let mut asts = AstArena::new();
    let c = asts.push_node(Ast::BoolLit(true, sp()));
    let ra = asts.push_node(Ast::Symbol(a, sp()));
    let rb = asts.push_node(Ast::Symbol(b, sp()));
    let cond = asts.push_node(Ast::If(c, ra, rb, sp()));
    let lam = asts.push_node(Ast::Lambda(vec![a, b], cond, sp()));
    let mut out = BoundArena::new();
    let r = Bound::bind_top(&asts, lam, &mut out, &mut interner).unwrap();
    let body = match out.get(r) {
        Bound::Lambda { body, .. } => *body,
        _ => panic!("expected a function node"),
    };
    match out.get(body) {
        Bound::If(_, t, e, _) => {
            assert!(matches!(out.get(*t), Bound::Symbol { source: SymbolBindSource::Arg(0), .. }));
            assert!(matches!(out.get(*e), Bound::Symbol { source: SymbolBindSource::Arg(1), .. }));
        },
        _ => panic!("expected a conditional"),
    }
}

#[test]
fn first_error_in_list_wins() {
    let mut interner = SymbolIntern::new();
    let p = interner.intern("p");
    let q = interner.intern("q");
    let mut asts = AstArena::new();
    let rp = asts.push_node(Ast::Symbol(p, at(2, 1)));
    let rq = asts.push_node(Ast::Symbol(q, at(2, 3)));
    let list = asts.push_node(Ast::List(vec![rp, rq], sp()));
    let lam = asts.push_node(Ast::Lambda(vec![], list, sp()));
    let mut out = BoundArena::new();
    let r = Bound::bind_top(&asts, lam, &mut out, &mut interner);
    assert_eq!(r, Err(BindingError::CouldNotBind(p, at(2, 1))));
}

#[test]
fn map_literal_resolves_keys_and_values() {
    let mut interner = SymbolIntern::new();
    let a = interner.intern("a");
    let mut asts = AstArena::new();
    let k = asts.push_node(Ast::StringLit("k".to_string(), sp()));
    let v = asts.push_node(Ast::Symbol(a, sp()));
    let m = asts.push_node(Ast::MapLit(vec![(k, v)], sp()));
    let lst = asts.push_node(Ast::ListLit(vec![m], sp()));
    let lam = asts.push_node(Ast::Lambda(vec![a], lst, sp()));
    let mut out = BoundArena::new();
    let r = Bound::bind_top(&asts, lam, &mut out, &mut interner).unwrap();

    let mut dummies = AstArena::new();
    let dk = dummies.push_node(Ast::StringLit("k".to_string(), at(9, 9)));
    let d = dummies.push_node(Ast::dummy());
    let mut should = BoundArena::new();
    let sk = should.push_node(Bound::Literal(dk));
    let sv = should.push_node(Bound::Symbol { symbol: a, ast: d, source: SymbolBindSource::Arg(0) });
    let sm = should.push_node(Bound::MapLit(vec![(sk, sv)], d));
    let sl = should.push_node(Bound::ListLit(vec![sm], d));
    let l = should.push_node(Bound::Lambda {
        arg_symbols: vec![a],
        body: sl,
        ast: d,
        bindings: summary(vec![(a, SymbolBindSource::Arg(0))], 1, 0),
    });
    assert!(Bound::equals_sans_ast(&out, r, &asts, &should, l, &dummies));
}

#[test]
fn different_summaries_are_not_equal() {
    let mut interner = SymbolIntern::new();
    let a = interner.intern("a");
    let b = interner.intern("b");
    let one = summary(vec![(a, SymbolBindSource::Arg(0))], 1, 0);
    let same = summary(vec![(a, SymbolBindSource::Arg(0))], 1, 0);
    let other_name = summary(vec![(b, SymbolBindSource::Arg(0))], 1, 0);
    let other_count = summary(vec![(a, SymbolBindSource::Arg(0))], 2, 0);
    assert!(one.same_as(&same));
    assert!(!one.same_as(&other_name));
    assert!(!one.same_as(&other_count));
}

#[test]
fn stack_offsets() {
    let mut interner = SymbolIntern::new();
    let a = interner.intern("a");
    let b = interner.intern("b");
    let bindings = LambdaBindings::new(&vec![a, b]);
    assert_eq!(bindings.compute_stack_offset(SymbolBindSource::Arg(0)), 0);
    assert_eq!(bindings.compute_stack_offset(SymbolBindSource::Arg(1)), 1);
    assert_eq!(bindings.compute_stack_offset(SymbolBindSource::LocalDefine(0)), 2);
    assert_eq!(bindings.compute_stack_offset(SymbolBindSource::LocalDefine(3)), 5);
    let with_upvars = LambdaBindings {
        bindings: HashMap::new(),
        num_args: 2,
        num_upvars: 3,
        num_declarations: 1,
    };
    assert_eq!(with_upvars.compute_stack_offset(SymbolBindSource::LocalDefine(0)), 5);
}

#[test]
fn equality_is_symmetric() {
    let mut interner = SymbolIntern::new();
    let a = interner.intern("a");
    let mut asts = AstArena::new();
    let ra = asts.push_node(Ast::Symbol(a, sp()));
    let body = asts.push_node(Ast::Block(vec![ra], sp()));
    let lam = asts.push_node(Ast::Lambda(vec![a], body, sp()));
    let mut out = BoundArena::new();
    let r = Bound::bind_top(&asts, lam, &mut out, &mut interner).unwrap();

    let mut dummies = AstArena::new();
    let d = dummies.push_node(Ast::dummy());
    let mut should = BoundArena::new();
    let s = should.push_node(Bound::Symbol { symbol: a, ast: d, source: SymbolBindSource::Arg(0) });
    let b = should.push_node(Bound::Block(vec![s], d));
    let wrong = should.push_node(Bound::Block(vec![s, s], d));
    let l = should.push_node(Bound::Lambda {
        arg_symbols: vec![a],
        body: b,
        ast: d,
        bindings: summary(vec![(a, SymbolBindSource::Arg(0))], 1, 0),
    });
    assert!(Bound::equals_sans_ast(&out, r, &asts, &should, l, &dummies));
    assert!(Bound::equals_sans_ast(&should, l, &dummies, &out, r, &asts));
    assert!(!Bound::equals_sans_ast(&out, r - 1, &asts, &should, wrong, &dummies));
    assert!(!Bound::equals_sans_ast(&should, wrong, &dummies, &out, r - 1, &asts));
}

#[test]
fn summary_offsets_fill_frame() {
    let mut interner = SymbolIntern::new();
    let a = interner.intern("a");
    let b = interner.intern("b");
    let x = interner.intern("x");
    let y = interner.intern("y");
    let mut asts = AstArena::new();
    let one = asts.push_node(Ast::IntLit(1, sp()));
    let dx = asts.push_node(Ast::Define(x, one, sp()));
    let two = asts.push_node(Ast::IntLit(2, sp()));
    let dy = asts.push_node(Ast::Define(y, two, sp()));
    let inner = asts.push_node(Ast::Block(vec![dy], sp()));
    let body = asts.push_node(Ast::Block(vec![dx, inner], sp()));
    let lam = asts.push_node(Ast::Lambda(vec![a, b], body, sp()));
    let mut out = BoundArena::new();
    let r = Bound::bind_top(&asts, lam, &mut out, &mut interner).unwrap();
    match out.get(r) {
        Bound::Lambda { bindings, .. } => {
            assert_eq!(bindings.num_declarations, 2);
            let mut offsets: Vec<u32> = bindings
                .bindings
                .values()
                .map(|src| bindings.compute_stack_offset(*src))
                .collect();
            offsets.sort();
            assert_eq!(offsets, vec![0, 1, 2, 3]);
        },
        _ => panic!("expected a function node"),
    }
}
