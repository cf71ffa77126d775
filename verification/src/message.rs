//! Message-passing infrastructure for belief propagation.
//!
//! Messages are associated with directed edges of a factor graph and carry
//! information about a single variable. The concrete representation of that
//! information is provided by the factor system.
//!
//! This module also defines stable message identifiers and the storage used
//! by inference algorithms.

use vstd::prelude::*;

pub mod directed_edge;
pub mod store;

pub use directed_edge::{DirectedEdge, Endpoint};
pub use store::MessageStore;

use crate::factor::{Factor, FactorKind};
use crate::variable::VariableId;

verus! {

/// Stable identifier for a directed message in a belief-propagation state.
///
/// A `MessageId` indexes a message slot in [`MessageStore`]. Message IDs
/// remain stable as long as the underlying inference state is extended
/// append-only.
#[derive(Clone, Copy, Debug, PartialEq, Eq, Structural, Hash)]
pub struct MessageId(usize);

impl View for MessageId {
    type V = nat;

    /// The storage index represented by this identifier.
    closed spec fn view(&self) -> nat {
        self.0 as nat
    }
}

/// Identifiers with the same index are the same identifier.
pub broadcast proof fn lemma_message_id_view_injective(a: MessageId, b: MessageId)
    ensures
        #![trigger a@, b@]
        (a@ == b@) == (a == b),
{
}

impl MessageId {
    /// Creates a message identifier from its storage index.
    pub fn new(index: usize) -> (id: Self)
        ensures
            id@ == index,
    {
        Self(index)
    }

    /// Returns the storage index represented by this identifier.
    pub fn index(self) -> (i: usize)
        ensures
            i == self@,
    {
        self.0
    }
}

/// Information passed along a directed edge of a factor graph.
///
/// A message is represented by a factor over exactly one variable. The
/// underlying [`FactorKind`] determines the concrete representation and the
/// semiring operations supported by the message.
///
/// Construction is restricted so that multivariate factors cannot be stored
/// as belief-propagation messages.
#[derive(Debug)]
pub struct Message<V> {
    factor: FactorKind<V>,
}

impl<V: Copy> Clone for Message<V> {
    fn clone(&self) -> (r: Self)
        ensures
            r.factor_view()@ == self.factor_view()@,
            self.wf() ==> r.wf(),
    {
        Message { factor: self.factor.clone() }
    }
}

impl<V> Message<V> {
    /// The factor carried by the message.
    pub closed spec fn factor_view(&self) -> FactorKind<V> {
        self.factor
    }

    /// The message carries a well-formed factor over exactly one variable.
    pub open spec fn wf(&self) -> bool {
        &&& self.factor_view().wf()
        &&& self.factor_view().scope_view().len() == 1
    }

    /// Attempts to construct a message from a factor.
    ///
    /// A valid belief-propagation message must represent exactly one variable.
    /// The factor is handed back if this constraint is not satisfied.
    pub fn try_from_factor(factor: FactorKind<V>) -> (r: Result<Self, FactorKind<V>>)
        requires
            factor.wf(),
        ensures
            factor.scope_view().len() == 1 <==> r is Ok,
            r matches Ok(m) ==> m.wf() && m.factor_view() == factor,
            r matches Err(f) ==> f == factor,
    {
        if factor.ndim() == 1 {
            Ok(Self { factor })
        } else {
            Err(factor)
        }
    }

    /// Returns the variable represented by this message.
    pub fn variable(&self) -> (v: VariableId)
        requires
            self.wf(),
        ensures
            v == self.factor_view().scope_view()[0],
    {
        self.factor.scope()[0]
    }

    /// Returns the factor carried by this message.
    pub fn factor(&self) -> (f: &FactorKind<V>)
        ensures
            *f == self.factor_view(),
    {
        &self.factor
    }

    /// Consumes the message and returns its underlying factor.
    pub fn into_factor(self) -> (f: FactorKind<V>)
        ensures
            f == self.factor_view(),
    {
        self.factor
    }
}

} // verus!
