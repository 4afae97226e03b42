//! The typed core of the experimental embedded rule language: expression
//! kinds, the method registry entry, and the errors its evaluator reports.
//! The parser and interpreter around these types are not wired into the
//! engine and are not part of the core.

use vstd::prelude::*;

verus! {

/// A named binding of the rule language.
#[derive(Debug, Clone)]
pub struct Variable(pub String);

/// The kind of value a rule expression produces.
#[derive(Debug, PartialEq, Eq)]
pub enum ExpressionKind {
    Number,
    Chars,
    Void,
    GameObject(String),
    MethodCall { arguments: Vec<ExpressionKind>, return_kind: Box<ExpressionKind> },
    Array(Box<ExpressionKind>),
}

/// Why evaluating a rule expression failed.
#[derive(Debug)]
pub enum EvaluationError {
    DuplicateValue(String),
    ValueNotFound(String),
    MethodNotFound(String),
    InvalidType { expected: ExpressionKind, found: ExpressionKind },
}

/// A callable the rule language may register; implementations come from the
/// host.
pub trait MethodFunction {
    /// The kind signature under which the host registered this callable.
    fn kind(&self) -> ExpressionKind;
}

/// One entry of the rule language's method registry: a host callable and
/// the kind signature it was registered under.
pub struct Method {
    implementation: Box<dyn MethodFunction>,
    kind_signature: ExpressionKind,
}

impl Method {
    /// The kind signature this entry was registered under.
    pub closed spec fn spec_kind_signature(&self) -> ExpressionKind {
        self.kind_signature
    }

    /// Registers a callable under a kind signature, which must be a
    /// method-call kind.
    pub fn new(function: Box<dyn MethodFunction>, kind_signature: ExpressionKind) -> (r: Method)
        requires
            kind_signature is MethodCall,
        ensures
            r.spec_kind_signature() == kind_signature,
    {
        Method { implementation: function, kind_signature }
    }

    /// The kind signature this entry was registered under.
    pub fn kind_signature(&self) -> (r: &ExpressionKind)
        ensures
            r == &self.spec_kind_signature(),
    {
        &self.kind_signature
    }
}

} // verus!
