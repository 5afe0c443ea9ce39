//! Errors of the engine.
//!
//! Every failure carries a kind, and a context trail of `(site, cause)`
//! pairs appended as the error unwinds, plus optional debug snapshots.

use vstd::prelude::*;

verus! {

/// The result type of every fallible operation of the engine.
pub type BPResult<T> = Result<T, BPError>;

/// What went wrong, independent of where.
#[derive(Clone, Copy, PartialEq, Eq, Structural, Debug)]
pub enum ErrorKind {
    /// A node index exceeds the graph size.
    IndexOutOfBounds,
    /// An edge would connect two nodes of the same kind.
    BipartiteViolation,
    /// The edge is already present.
    DuplicateEdge,
    /// A declared arity disagrees with the observed degree.
    ArityMismatch,
    /// The node has not been initialized yet.
    NotInitialized,
    /// The node is already initialized.
    AlreadyInitialized,
    /// A message was sent along a non-adjacent pair.
    MissingEdge,
    /// A message failed the validity check.
    InvalidMessage,
    /// A message with empty support cannot be normalized.
    NormalizationFailure,
    /// The largest entry of the message is zero.
    Degenerate,
    /// A variable node was scheduled with no inbox and no prior.
    EmptyInbox,
    /// The graph failed its validity check before a step.
    InvalidGraph,
    /// The step counter reached its machine limit.
    StepLimit,
    /// An error propagated from a node behavior.
    BehaviorError,
}

/// An error with a context trail: the sites and causes collected while it
/// unwound, and optional debug snapshots.
#[derive(Debug)]
pub struct BPError {
    kind: ErrorKind,
    function_name: Vec<String>,
    cause: Vec<String>,
    debug_info: Vec<String>,
}

/// Relies on the `format!` macro of std to render a value for the debug
/// trail of an error.
#[verifier::external_body]
fn render_debug<T: core::fmt::Debug>(name: &str, object: &T) -> String {
    format!("{}: {:?}", name, object)
}

impl BPError {
    /// The kind of this error.
    pub closed spec fn spec_kind(&self) -> ErrorKind {
        self.kind
    }

    /// The trail of sites, innermost first.
    pub closed spec fn sites(&self) -> Seq<Seq<char>> {
        self.function_name@.map_values(|s: String| s@)
    }

    /// The trail of causes, innermost first.
    pub closed spec fn causes(&self) -> Seq<Seq<char>> {
        self.cause@.map_values(|s: String| s@)
    }

    /// How many debug snapshots the error carries.
    pub closed spec fn debug_count(&self) -> nat {
        self.debug_info@.len()
    }

    /// A fresh error of the given kind, with one `(site, cause)` pair.
    pub fn with_kind(kind: ErrorKind, function_name: String, cause: String) -> (r: Self)
        ensures
            r.spec_kind() == kind,
            r.sites() == seq![function_name@],
            r.causes() == seq![cause@],
            r.debug_count() == 0,
    {
        let r = BPError {
            kind,
            function_name: vec![function_name],
            cause: vec![cause],
            debug_info: Vec::new(),
        };
        proof {
            assert(r.sites() =~= seq![r.function_name@[0]@]);
            assert(r.causes() =~= seq![r.cause@[0]@]);
        }
        r
    }

    /// A fresh behavior error, as raised by user-facing node behaviors.
    pub fn new(function_name: String, cause: String) -> (r: Self)
        ensures
            r.spec_kind() == ErrorKind::BehaviorError,
            r.sites() == seq![function_name@],
            r.causes() == seq![cause@],
            r.debug_count() == 0,
    {
        Self::with_kind(ErrorKind::BehaviorError, function_name, cause)
    }

    /// A fresh behavior error that already carries one debug snapshot.
    pub fn new_with_debug(function_name: String, cause: String, debug_info: String) -> (r: Self)
        ensures
            r.spec_kind() == ErrorKind::BehaviorError,
            r.sites() == seq![function_name@],
            r.causes() == seq![cause@],
            r.debug_count() == 1,
    {
        let r = BPError {
            kind: ErrorKind::BehaviorError,
            function_name: vec![function_name],
            cause: vec![cause],
            debug_info: vec![debug_info],
        };
        proof {
            assert(r.sites() =~= seq![r.function_name@[0]@]);
            assert(r.causes() =~= seq![r.cause@[0]@]);
        }
        r
    }

    /// Appends a `(site, cause)` pair to the context trail.
    pub fn attach_info(self, function_name: String, cause: String) -> (r: Self)
        ensures
            r.spec_kind() == self.spec_kind(),
            r.sites() == self.sites().push(function_name@),
            r.causes() == self.causes().push(cause@),
            r.debug_count() == self.debug_count(),
    {
        let mut r = self;
        r.function_name.push(function_name);
        r.cause.push(cause);
        proof {
            assert(r.sites() =~= self.sites().push(r.function_name@.last()@));
            assert(r.causes() =~= self.causes().push(r.cause@.last()@));
        }
        r
    }

    /// Appends a `(site, cause)` pair, with the site given as a literal.
    pub fn attach_info_str(self, function_name: &str, cause: String) -> (r: Self)
        ensures
            r.spec_kind() == self.spec_kind(),
            r.sites() == self.sites().push(function_name@),
            r.causes() == self.causes().push(cause@),
            r.debug_count() == self.debug_count(),
    {
        self.attach_info(function_name.to_owned(), cause)
    }

    /// Appends one debug snapshot to the error.
    pub fn attach_debug_info(self, debug_info: String) -> (r: Self)
        ensures
            r.spec_kind() == self.spec_kind(),
            r.sites() == self.sites(),
            r.causes() == self.causes(),
            r.debug_count() == self.debug_count() + 1,
    {
        let mut r = self;
        r.debug_info.push(debug_info);
        r
    }

    /// Renders `object` and appends it to the debug snapshots.
    pub fn attach_debug_object<T: core::fmt::Debug>(self, name: &str, object: &T) -> (r: Self)
        ensures
            r.spec_kind() == self.spec_kind(),
            r.sites() == self.sites(),
            r.causes() == self.causes(),
            r.debug_count() == self.debug_count() + 1,
    {
        let rendered = render_debug(name, object);
        self.attach_debug_info(rendered)
    }

    /// The kind of this error.
    pub fn kind(&self) -> (k: ErrorKind)
        ensures
            k == self.spec_kind(),
    {
        self.kind
    }
}

} // verus!
