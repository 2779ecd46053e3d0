use minicourse::context::Context;

#[test]
fn context_test() {
    let mut ctx: Context<usize> = Context::new();
    assert_eq!(ctx.get(), None);

    ctx.set(0);
    assert_eq!(ctx.get(), Some(0));

    fn inner(ctx: &mut Context<usize>) {
        assert_eq!(ctx.get(), Some(0));

        ctx.set(1);
        assert_eq!(ctx.get(), Some(1));
        ctx.reset();
    }
    inner(&mut ctx);

    assert_eq!(ctx.get(), Some(0));
}

#[test]
fn context_reset_without_a_value_changes_nothing() {
    let mut ctx: Context<u8> = Context::new();
    ctx.reset();
    assert_eq!(ctx.get(), None);
    ctx.set(3);
    ctx.reset();
    ctx.reset();
    assert_eq!(ctx.get(), None);
}

#[test]
fn context_scopes_nest() {
    let mut ctx: Context<char> = Context::new();
    ctx.set('a');
    ctx.set('b');
    ctx.set('c');
    assert_eq!(ctx.get(), Some('c'));
    ctx.reset();
    assert_eq!(ctx.get(), Some('b'));
    ctx.reset();
    assert_eq!(ctx.get(), Some('a'));
    ctx.reset();
    assert_eq!(ctx.get(), None);
}
