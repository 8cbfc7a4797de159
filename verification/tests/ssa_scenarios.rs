use ssa_builder::errors::SsaError;
use ssa_builder::ssa::Builder;
use ssa_builder::context::BuilderContext;

const TY: u32 = 32;

#[test]
fn straight_line_read() {
    // One sealed entry block: a read sees the local definition.
    let mut bld = Builder::new();
    let x: usize = 0;
    bld.declare_var(x, TY).unwrap();
    let b0 = bld.create_block();
    bld.seal_block(b0).unwrap();
    bld.switch_to_block(b0);
    let a = bld.mint_value(TY);
    bld.def_var(x, a).unwrap();
    assert_eq!(bld.use_var(x), Ok(a));
}

#[test]
fn single_predecessor_inherits() {
    // b0 defines x and jumps to b1: the read in b1 sees exactly the value
    // from b0, and b1 gains no parameter.
    let mut bld = Builder::new();
    let x: usize = 0;
    bld.declare_var(x, TY).unwrap();
    let b0 = bld.create_block();
    let b1 = bld.create_block();
    bld.seal_block(b0).unwrap();
    bld.switch_to_block(b0);
    let a = bld.mint_value(TY);
    bld.def_var(x, a).unwrap();
    bld.declare_edge(b1, b0).unwrap();
    bld.seal_block(b1).unwrap();
    bld.switch_to_block(b1);
    assert_eq!(bld.use_var(x), Ok(a));
    assert!(!bld.block_has_param(b1));
}

#[test]
fn diamond_merge_keeps_parameter() {
    // b0 branches to b1 and b2, which both branch to b3; x is defined
    // differently on the two sides, so b3 needs a genuine merge.
    let mut bld = Builder::new();
    let x: usize = 0;
    bld.declare_var(x, TY).unwrap();
    let b0 = bld.create_block();
    let b1 = bld.create_block();
    let b2 = bld.create_block();
    let b3 = bld.create_block();
    bld.seal_block(b0).unwrap();
    bld.declare_edge(b1, b0).unwrap();
    bld.declare_edge(b2, b0).unwrap();
    bld.seal_block(b1).unwrap();
    bld.seal_block(b2).unwrap();
    bld.switch_to_block(b1);
    let a = bld.mint_value(TY);
    bld.def_var(x, a).unwrap();
    bld.switch_to_block(b2);
    let bv = bld.mint_value(TY);
    bld.def_var(x, bv).unwrap();
    bld.declare_edge(b3, b1).unwrap();
    bld.declare_edge(b3, b2).unwrap();
    bld.seal_block(b3).unwrap();
    bld.switch_to_block(b3);
    let r = bld.use_var(x).unwrap();
    assert!(bld.block_has_param(b3));
    assert_ne!(r, a);
    assert_ne!(r, bv);
    let params = bld.block_params(b3);
    assert_eq!(params, vec![r]);
    let incoming = bld.param_incoming(r);
    assert_eq!(incoming, vec![a, bv]);
}

#[test]
fn loop_header_collapses_to_outside_value() {
    // b0 defines x and jumps to b1; b1 loops back to itself without
    // writing x: the self-referential placeholder is rewritten away and
    // the read resolves to the outside value.
    let mut bld = Builder::new();
    let x: usize = 0;
    bld.declare_var(x, TY).unwrap();
    let b0 = bld.create_block();
    let b1 = bld.create_block();
    bld.seal_block(b0).unwrap();
    bld.switch_to_block(b0);
    let a = bld.mint_value(TY);
    bld.def_var(x, a).unwrap();
    bld.declare_edge(b1, b0).unwrap();
    bld.declare_edge(b1, b1).unwrap();
    bld.seal_block(b1).unwrap();
    bld.switch_to_block(b1);
    assert_eq!(bld.use_var(x), Ok(a));
    assert!(!bld.block_has_param(b1));
}

#[test]
fn deferred_sealing_resolves_placeholder() {
    // Reading in an unsealed loop header hands out a placeholder; sealing
    // after the back-edge is declared wires and then collapses it.
    let mut bld = Builder::new();
    let x: usize = 0;
    bld.declare_var(x, TY).unwrap();
    let b0 = bld.create_block();
    let b1 = bld.create_block();
    bld.seal_block(b0).unwrap();
    bld.switch_to_block(b0);
    let a = bld.mint_value(TY);
    bld.def_var(x, a).unwrap();
    bld.declare_edge(b1, b0).unwrap();
    bld.switch_to_block(b1);
    let placeholder = bld.use_var(x).unwrap();
    assert_ne!(placeholder, a);
    bld.declare_edge(b1, b1).unwrap();
    bld.seal_block(b1).unwrap();
    // The placeholder was trivial: a fresh read now resolves to the
    // outside value, and the earlier handle resolves to the same place.
    assert_eq!(bld.use_var(x), Ok(a));
    assert_eq!(bld.resolve_value(placeholder), a);
    assert!(bld.finalize().is_ok());
}

#[test]
fn reads_are_idempotent() {
    let mut bld = Builder::new();
    let x: usize = 0;
    bld.declare_var(x, TY).unwrap();
    let b0 = bld.create_block();
    bld.seal_block(b0).unwrap();
    bld.switch_to_block(b0);
    let a = bld.mint_value(TY);
    bld.def_var(x, a).unwrap();
    let first = bld.use_var(x).unwrap();
    let second = bld.use_var(x).unwrap();
    assert_eq!(first, second);
}

#[test]
fn later_definition_shadows_earlier() {
    let mut bld = Builder::new();
    let x: usize = 0;
    bld.declare_var(x, TY).unwrap();
    let b0 = bld.create_block();
    bld.seal_block(b0).unwrap();
    bld.switch_to_block(b0);
    let a = bld.mint_value(TY);
    let c = bld.mint_value(TY);
    bld.def_var(x, a).unwrap();
    bld.def_var(x, c).unwrap();
    assert_eq!(bld.use_var(x), Ok(c));
}

#[test]
fn read_without_reaching_definition_fails() {
    let mut bld = Builder::new();
    let x: usize = 0;
    bld.declare_var(x, TY).unwrap();
    let b0 = bld.create_block();
    bld.seal_block(b0).unwrap();
    bld.switch_to_block(b0);
    assert_eq!(bld.use_var(x), Err(SsaError::UninitializedVariable));
}

#[test]
fn redeclaration_with_other_type_is_refused() {
    let mut bld = Builder::new();
    let x: usize = 0;
    assert_eq!(bld.declare_var(x, TY), Ok(()));
    assert_eq!(bld.declare_var(x, TY), Ok(()));
    assert_eq!(bld.declare_var(x, 64), Err(SsaError::TypeConflict));
    assert_eq!(bld.var_type(x), Ok(TY));
    assert_eq!(bld.var_type(5), Err(SsaError::UndeclaredVariable));
}

#[test]
fn definition_with_wrong_type_is_refused() {
    let mut bld = Builder::new();
    let x: usize = 0;
    bld.declare_var(x, TY).unwrap();
    let b0 = bld.create_block();
    bld.seal_block(b0).unwrap();
    bld.switch_to_block(b0);
    let wrong = bld.mint_value(64);
    assert_eq!(bld.def_var(x, wrong), Err(SsaError::TypeMismatch));
}

#[test]
fn undeclared_variable_is_refused() {
    let mut bld = Builder::new();
    let b0 = bld.create_block();
    bld.seal_block(b0).unwrap();
    bld.switch_to_block(b0);
    assert_eq!(bld.use_var(7), Err(SsaError::UndeclaredVariable));
    let a = bld.mint_value(TY);
    assert_eq!(bld.def_var(7, a), Err(SsaError::UndeclaredVariable));
}

#[test]
fn sealing_twice_is_refused() {
    let mut bld = Builder::new();
    let b0 = bld.create_block();
    assert_eq!(bld.seal_block(b0), Ok(()));
    assert_eq!(bld.seal_block(b0), Err(SsaError::AlreadySealed));
}

#[test]
fn edge_into_sealed_block_is_refused() {
    let mut bld = Builder::new();
    let b0 = bld.create_block();
    let b1 = bld.create_block();
    bld.seal_block(b1).unwrap();
    assert_eq!(bld.declare_edge(b1, b0), Err(SsaError::SealedBlock));
}

#[test]
fn finalize_with_unsealed_block_is_refused() {
    let mut bld = Builder::new();
    let b0 = bld.create_block();
    let _ = b0;
    assert_eq!(bld.finalize(), Err(SsaError::UnsealedBlockAtFinalize));
}

#[test]
fn finalize_after_sealing_everything_passes() {
    let mut bld = Builder::new();
    let x: usize = 0;
    bld.declare_var(x, TY).unwrap();
    let b0 = bld.create_block();
    let b1 = bld.create_block();
    bld.seal_block(b0).unwrap();
    bld.switch_to_block(b0);
    let a = bld.mint_value(TY);
    bld.def_var(x, a).unwrap();
    bld.declare_edge(b1, b0).unwrap();
    bld.seal_block(b1).unwrap();
    bld.switch_to_block(b1);
    bld.use_var(x).unwrap();
    assert_eq!(bld.finalize(), Ok(()));
}

#[test]
fn context_guards_reuse() {
    let mut ctx = BuilderContext::new();
    assert_eq!(ctx.acquire(), Ok(()));
    assert_eq!(ctx.acquire(), Err(SsaError::ContextAlreadyInUse));
    ctx.clear();
    assert_eq!(ctx.acquire(), Ok(()));
}
