use vstd::prelude::*;

verus! {

/// Failures of the capability-checked path layer.
#[derive(Clone, Copy, PartialEq, Eq, Structural, Debug)]
pub enum Errno {
    /// The entry's rights do not include the rights the operation needs.
    NotCapable,
    /// An argument combination the interface rejects.
    Inval,
    /// A size does not fit the interface's size type.
    Overflow,
}

/// Failures of the SSA builder.
///
/// The misuse variants (`SealedBlock`, `AlreadySealed`,
/// `UnsealedBlockAtFinalize`, `ContextAlreadyInUse`) point at a bug in the
/// front end driving the builder; the data variants (`TypeConflict`,
/// `UndeclaredVariable`, `UninitializedVariable`, `TypeMismatch`) describe
/// the program being translated and can be reported as diagnostics.
#[derive(Clone, Copy, PartialEq, Eq, Structural, Debug)]
pub enum SsaError {
    /// A variable was declared again with a different type.
    TypeConflict,
    /// A variable was used before any declaration gave it a type.
    UndeclaredVariable,
    /// A read found no definition on some path into the block.
    UninitializedVariable,
    /// A predecessor was added to a block whose predecessor list is frozen.
    SealedBlock,
    /// A block was sealed twice.
    AlreadySealed,
    /// A value's type differs from the variable's declared type.
    TypeMismatch,
    /// `finalize` found a block that was never sealed.
    UnsealedBlockAtFinalize,
    /// A builder context was taken while a build was still using it.
    ContextAlreadyInUse,
}

impl SsaError {
    /// A short description, for callers that report the failure.
    pub fn describe(&self) -> (s: &'static str)
    {
        match self {
            SsaError::TypeConflict => "variable redeclared with a different type",
            SsaError::UndeclaredVariable => "variable used before declaration",
            SsaError::UninitializedVariable => "variable read before any definition reaches the block",
            SsaError::SealedBlock => "predecessor added to a sealed block",
            SsaError::AlreadySealed => "block sealed twice",
            SsaError::TypeMismatch => "value type differs from the variable's declared type",
            SsaError::UnsealedBlockAtFinalize => "finalize reached while a block is unsealed",
            SsaError::ContextAlreadyInUse => "builder context taken while a build is using it",
        }
    }
}

}
