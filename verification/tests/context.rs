use creamui::context::ContextStack;

#[derive(Clone, Debug, PartialEq)]
enum Ctx {
    Number(i32),
    Text(String),
}

const NUMBER: u64 = 1;
const TEXT: u64 = 2;

#[test]
fn use_context_reads_the_matching_provided_value() {
    let mut stack: ContextStack<Ctx> = ContextStack::new();
    stack.with_context_scope(|s: &mut ContextStack<Ctx>| {
        s.provide_context(NUMBER, Ctx::Number(42));
        s.provide_context(TEXT, Ctx::Text("hello".to_string()));
        assert_eq!(s.use_context(NUMBER), Ctx::Number(42));
        assert_eq!(s.use_context(TEXT), Ctx::Text("hello".to_string()));
    });
}

#[test]
fn try_use_context_is_none_for_an_unprovided_type() {
    let mut stack: ContextStack<Ctx> = ContextStack::new();
    stack.with_context_scope(|s: &mut ContextStack<Ctx>| {
        assert_eq!(s.try_use_context(NUMBER), None);
    });
}

#[test]
fn try_use_context_is_none_outside_any_scope() {
    let stack: ContextStack<Ctx> = ContextStack::new();
    assert_eq!(stack.try_use_context(NUMBER), None);
    assert!(!stack.in_context_scope());
}

#[test]
fn nested_scope_shadows_then_restores_the_outer_value() {
    let mut stack: ContextStack<Ctx> = ContextStack::new();
    stack.with_context_scope(|s: &mut ContextStack<Ctx>| {
        s.provide_context(NUMBER, Ctx::Number(1));
        s.with_context_scope(|inner: &mut ContextStack<Ctx>| {
            inner.provide_context(NUMBER, Ctx::Number(2));
            assert_eq!(inner.use_context(NUMBER), Ctx::Number(2));
        });
        assert_eq!(s.use_context(NUMBER), Ctx::Number(1));
    });
}

#[test]
fn scopes_close_after_their_body_and_return_its_result() {
    let mut stack: ContextStack<Ctx> = ContextStack::new();
    let inside = stack.with_context_scope(|s: &mut ContextStack<Ctx>| {
        s.require_context_scope("use_theme");
        s.in_context_scope()
    });
    assert!(inside);
    assert!(!stack.in_context_scope());
}

#[test]
fn a_later_value_under_the_same_key_wins_within_a_scope() {
    let mut stack: ContextStack<Ctx> = ContextStack::new();
    stack.with_context_scope(|s: &mut ContextStack<Ctx>| {
        s.provide_context(NUMBER, Ctx::Number(1));
        s.provide_context(NUMBER, Ctx::Number(3));
        assert_eq!(s.try_use_context(NUMBER), Some(Ctx::Number(3)));
        assert_eq!(s.try_use_context(TEXT), None);
    });
}
