use vstd::prelude::*;
use crate::errors::SsaError;
use crate::ssa::Builder;

verus! {

/// Process-lifetime storage for the SSA builder, reused across function
/// builds so the tables need not be reallocated for every function.
/// `acquire` claims it for one build and fails fast when it is already
/// claimed; `clear` empties the storage and releases the claim.
pub struct BuilderContext {
    pub in_use: bool,
    pub builder: Builder,
}

impl BuilderContext {
    pub fn new() -> (c: BuilderContext)
        ensures
            !c.in_use,
            c.builder.wf(),
            c.builder.collapsed(),
            c.builder.nvars() == 0,
            c.builder.nblocks() == 0,
            c.builder.nvalues() == 0,
            c.builder.current is None,
    {
        BuilderContext { in_use: false, builder: Builder::new() }
    }

    /// Claims the context for one function build; a context still claimed
    /// by an unfinished build is refused.
    pub fn acquire(&mut self) -> (r: Result<(), SsaError>)
        ensures
            r is Ok <==> !old(self).in_use,
            r is Err ==> r == Result::<(), SsaError>::Err(SsaError::ContextAlreadyInUse)
                && *final(self) == *old(self),
            r is Ok ==> final(self).in_use && final(self).builder == old(self).builder,
    {
        if self.in_use {
            Err(SsaError::ContextAlreadyInUse)
        } else {
            self.in_use = true;
            Ok(())
        }
    }

    /// Empties every table and releases the claim, making the context
    /// ready for the next build.
    pub fn clear(&mut self)
        ensures
            !final(self).in_use,
            final(self).builder.wf(),
            final(self).builder.collapsed(),
            final(self).builder.nvars() == 0,
            final(self).builder.nblocks() == 0,
            final(self).builder.nvalues() == 0,
            final(self).builder.current is None,
    {
        self.builder = Builder::new();
        self.in_use = false;
    }
}

}
