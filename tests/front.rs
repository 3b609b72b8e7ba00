use ares::interner::SymbolIntern;
use ares::syntax::{Ast, AstArena, Position, Span};
use ares::value::ValueKind;

#[test]
fn intern_returns_same_symbol_for_same_name() {
    let mut interner = SymbolIntern::new();
    let a = interner.intern("a");
    let b = interner.intern("b");
    let a2 = interner.intern("a");
    assert_eq!(a, a2);
    assert_ne!(a, b);
    assert_eq!(interner.len(), 2);
}

#[test]
fn gensym_is_fresh() {
    let mut interner = SymbolIntern::new();
    let a = interner.intern("a");
    let g1 = interner.gensym().unwrap();
    let g2 = interner.gensym().unwrap();
    assert_ne!(g1, a);
    assert_ne!(g1, g2);
    let b = interner.intern("b");
    assert_ne!(b, g1);
    assert_ne!(b, g2);
}

#[test]
fn equal_trees_ignore_spans() {
    let mut left = AstArena::new();
    let l0 = left.push_node(Ast::IntLit(0, Span::from_pos(Position(1, 4), Position(1, 3))));
    let l1 = left.push_node(Ast::IntLit(1, Span::dummy()));
    let l2 = left.push_node(Ast::IntLit(2, Span::dummy()));
    let ladd = left.push_node(Ast::Add(vec![l0, l1, l2], Span::dummy()));

    let mut right = AstArena::new();
    let r0 = right.push_node(Ast::IntLit(0, Span::dummy()));
    let r1 = right.push_node(Ast::IntLit(1, Span::dummy()));
    let r2 = right.push_node(Ast::IntLit(2, Span::dummy()));
    let radd = right.push_node(Ast::Add(vec![r0, r1, r2], Span::dummy()));
    let rshort = right.push_node(Ast::Add(vec![r0, r1], Span::dummy()));
    let rother = right.push_node(Ast::Add(vec![r0, r2, r1], Span::dummy()));

    assert!(left.equals_sans_span(ladd, &right, radd));
    assert!(!left.equals_sans_span(ladd, &right, rshort));
    assert!(!left.equals_sans_span(ladd, &right, rother));
}

#[test]
fn lambda_trees_compare_parameters() {
    let mut left = AstArena::new();
    let la = left.push_node(Ast::Symbol(0, Span::dummy()));
    let llam = left.push_node(Ast::Lambda(vec![0, 1], la, Span::dummy()));
    let mut right = AstArena::new();
    let ra = right.push_node(Ast::Symbol(0, Span::dummy()));
    let rlam = right.push_node(Ast::Lambda(vec![0, 1], ra, Span::dummy()));
    let rlam2 = right.push_node(Ast::Lambda(vec![0], ra, Span::dummy()));
    assert!(left.equals_sans_span(llam, &right, rlam));
    assert!(!left.equals_sans_span(llam, &right, rlam2));
}

#[test]
fn span_order_and_join() {
    let s = Span::from_pos(Position(2, 5), Position(1, 9));
    assert_eq!(s, Span { start: Position(1, 9), end: Position(2, 5) });
    let t = Span::from_pos(Position(1, 2), Position(1, 3));
    assert_eq!(t, Span { start: Position(1, 2), end: Position(1, 3) });
    let j = s.join(t);
    assert_eq!(j, Span { start: Position(1, 2), end: Position(2, 5) });
}

#[test]
fn node_span_and_symbol_check() {
    let span = Span { start: Position(4, 1), end: Position(4, 2) };
    let node = Ast::Symbol(7, span);
    assert_eq!(node.span(), span);
    assert!(node.is_symbol_lit_with(&7));
    assert!(!node.is_symbol_lit_with(&8));
    assert!(!Ast::dummy().is_symbol_lit_with(&7));
    assert!(matches!(Ast::dummy(), Ast::StringLit(s, sp) if s == "dummy" && sp == Span::dummy()));
}

#[test]
fn value_kinds_are_distinct() {
    assert_ne!(ValueKind::Int, ValueKind::Float);
    assert_eq!(ValueKind::List, ValueKind::List);
}
