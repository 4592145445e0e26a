//! The dispatch contract and capability descriptors: the two interfaces that
//! every actor/host/provider interaction rides on, and the immutable metadata
//! record by which a provider describes itself and the operations it
//! supports.

use vstd::prelude::*;
use vstd::pervasive::VecAdditionalExecFns;

use crate::error::CodecError;

verus! {

/// Indicates which side initiates an operation: the provider calling into an
/// actor, the actor calling into the provider, or both.
#[derive(Clone, Copy, Debug, PartialEq, Eq, Structural)]
pub enum OperationDirection {
    ToActor,
    ToProvider,
    Both,
}

/// A description of a single operation supported by a capability provider.
#[derive(Clone, Debug, PartialEq)]
pub struct OperationDescriptor {
    /// The name of the operation; unique within one capability descriptor.
    pub name: String,
    /// The direction of the operation.
    pub direction: OperationDirection,
    /// Documentation-suitable text for the operation.
    pub doctext: String,
}

/// The mathematical value of an [`OperationDescriptor`].
pub struct OperationView {
    pub name: Seq<char>,
    pub direction: OperationDirection,
    pub doctext: Seq<char>,
}

impl View for OperationDescriptor {
    type V = OperationView;

    open spec fn view(&self) -> OperationView {
        OperationView { name: self.name@, direction: self.direction, doctext: self.doctext@ }
    }
}

impl OperationDescriptor {
    /// Creates a new operation descriptor.
    pub fn new(name: &str, direction: OperationDirection, doctext: &str) -> (r: OperationDescriptor)
        ensures
            r@ == (OperationView { name: name@, direction, doctext: doctext@ }),
    {
        OperationDescriptor { name: name.to_owned(), direction, doctext: doctext.to_owned() }
    }
}

/// Holds when no two operations of `ops` share a name.
pub open spec fn ops_unique(ops: Seq<OperationView>) -> bool {
    forall|i: int, j: int| #![trigger ops[i], ops[j]] 0 <= i < j < ops.len() ==> ops[i].name
        != ops[j].name
}

/// Holds when some operation of `ops` is named `name`.
pub open spec fn has_op(ops: Seq<OperationView>, name: Seq<char>) -> bool {
    exists|i: int| #![trigger ops[i]] 0 <= i < ops.len() && ops[i].name == name
}

/// Metadata describing a capability provider and the operations it supports.
#[derive(Clone, Debug, PartialEq)]
pub struct CapabilityDescriptor {
    /// The capability ID of the provider, e.g. `wascc:messaging`.
    pub id: String,
    /// The human-friendly name of the provider.
    pub name: String,
    /// A semver string representing the version of the provider module.
    pub version: String,
    /// A monotonically increasing revision number.
    pub revision: u32,
    /// A longer, documentation-friendly description of the provider.
    pub long_description: String,
    /// All operations supported by this provider, with unique names.
    pub supported_operations: Vec<OperationDescriptor>,
}

/// The mathematical value of a [`CapabilityDescriptor`].
pub struct DescriptorView {
    pub id: Seq<char>,
    pub name: Seq<char>,
    pub version: Seq<char>,
    pub revision: u32,
    pub long_description: Seq<char>,
    pub supported_operations: Seq<OperationView>,
}

impl View for CapabilityDescriptor {
    type V = DescriptorView;

    open spec fn view(&self) -> DescriptorView {
        DescriptorView {
            id: self.id@,
            name: self.name@,
            version: self.version@,
            revision: self.revision,
            long_description: self.long_description@,
            supported_operations: self.supported_operations@.map_values(
                |o: OperationDescriptor| o@,
            ),
        }
    }
}

impl DescriptorView {
    /// A well-formed descriptor has no two operations with the same name.
    pub open spec fn wf(self) -> bool {
        ops_unique(self.supported_operations)
    }
}

impl CapabilityDescriptor {
    /// Whether this provider supports an operation of the given name.
    /// Calling an operation a descriptor does not list is a caller error,
    /// so dispatch layers check against this before forwarding a call.
    pub fn supports(&self, operation: &str) -> (r: bool)
        ensures
            r == has_op(self@.supported_operations, operation@),
    {
        let key: String = operation.to_owned();
        let n = self.supported_operations.len();
        let mut i: usize = 0;
        while i < n
            invariant
                n == self.supported_operations@.len(),
                i <= n,
                key@ == operation@,
                forall|j: int| 0 <= j < i ==> self@.supported_operations[j].name != operation@,
            decreases n - i,
        {
            if self.supported_operations[i].name == key {
                proof {
                    assert(self@.supported_operations[i as int].name == operation@);
                }
                return true;
            }
            i += 1;
        }
        false
    }

    /// Creates a builder for accumulating a descriptor's configuration.
    pub fn builder() -> (r: CapabilityDescriptorBuilder)
        ensures
            r@ == (DescriptorView {
                id: Seq::<char>::empty(),
                name: Seq::<char>::empty(),
                version: Seq::<char>::empty(),
                revision: 0u32,
                long_description: Seq::<char>::empty(),
                supported_operations: Seq::<OperationView>::empty(),
            }),
            r@.wf(),
    {
        CapabilityDescriptorBuilder::new()
    }
}

impl Default for CapabilityDescriptor {
    /// An empty descriptor: all strings empty, revision zero, no operations.
    fn default() -> (r: Self)
        ensures
            r@ == (DescriptorView {
                id: Seq::<char>::empty(),
                name: Seq::<char>::empty(),
                version: Seq::<char>::empty(),
                revision: 0u32,
                long_description: Seq::<char>::empty(),
                supported_operations: Seq::<OperationView>::empty(),
            }),
            r@.wf(),
    {
        let r = CapabilityDescriptor {
            id: String::new(),
            name: String::new(),
            version: String::new(),
            revision: 0,
            long_description: String::new(),
            supported_operations: Vec::new(),
        };
        proof {
            assert(r@.supported_operations =~= Seq::<OperationView>::empty());
        }
        r
    }
}

/// A fluent builder for a capability descriptor. Each setter returns an
/// updated copy, so a partially built descriptor can be passed around without
/// anyone observing a half-initialized structure.
pub struct CapabilityDescriptorBuilder {
    descriptor: CapabilityDescriptor,
}

impl View for CapabilityDescriptorBuilder {
    type V = DescriptorView;

    closed spec fn view(&self) -> DescriptorView {
        self.descriptor@
    }
}

impl CapabilityDescriptorBuilder {
    /// Creates a new, empty capability descriptor builder.
    fn new() -> (r: CapabilityDescriptorBuilder)
        ensures
            r@ == (DescriptorView {
                id: Seq::<char>::empty(),
                name: Seq::<char>::empty(),
                version: Seq::<char>::empty(),
                revision: 0u32,
                long_description: Seq::<char>::empty(),
                supported_operations: Seq::<OperationView>::empty(),
            }),
            r@.wf(),
    {
        CapabilityDescriptorBuilder { descriptor: CapabilityDescriptor::default() }
    }

    /// Sets the capability ID (e.g. `wascc:messaging`) of the provider.
    pub fn id(self, id: &str) -> (r: Self)
        ensures
            r@ == (DescriptorView { id: id@, ..self@ }),
    {
        let d = self.descriptor;
        CapabilityDescriptorBuilder {
            descriptor: CapabilityDescriptor {
                id: id.to_owned(),
                name: d.name,
                version: d.version,
                revision: d.revision,
                long_description: d.long_description,
                supported_operations: d.supported_operations,
            },
        }
    }

    /// Sets the human-friendly name of the capability provider.
    pub fn name(self, name: &str) -> (r: Self)
        ensures
            r@ == (DescriptorView { name: name@, ..self@ }),
    {
        let d = self.descriptor;
        CapabilityDescriptorBuilder {
            descriptor: CapabilityDescriptor {
                id: d.id,
                name: name.to_owned(),
                version: d.version,
                revision: d.revision,
                long_description: d.long_description,
                supported_operations: d.supported_operations,
            },
        }
    }

    /// Sets the longer, documentation-friendly description of the provider.
    pub fn long_description(self, desc: &str) -> (r: Self)
        ensures
            r@ == (DescriptorView { long_description: desc@, ..self@ }),
    {
        let d = self.descriptor;
        CapabilityDescriptorBuilder {
            descriptor: CapabilityDescriptor {
                id: d.id,
                name: d.name,
                version: d.version,
                revision: d.revision,
                long_description: desc.to_owned(),
                supported_operations: d.supported_operations,
            },
        }
    }

    /// Sets the version string (semver by convention) of the provider.
    pub fn version(self, ver: &str) -> (r: Self)
        ensures
            r@ == (DescriptorView { version: ver@, ..self@ }),
    {
        let d = self.descriptor;
        CapabilityDescriptorBuilder {
            descriptor: CapabilityDescriptor {
                id: d.id,
                name: d.name,
                version: ver.to_owned(),
                revision: d.revision,
                long_description: d.long_description,
                supported_operations: d.supported_operations,
            },
        }
    }

    /// Sets the monotonically increasing revision number of the provider.
    pub fn revision(self, rev: u32) -> (r: Self)
        ensures
            r@ == (DescriptorView { revision: rev, ..self@ }),
    {
        let d = self.descriptor;
        CapabilityDescriptorBuilder {
            descriptor: CapabilityDescriptor {
                id: d.id,
                name: d.name,
                version: d.version,
                revision: rev,
                long_description: d.long_description,
                supported_operations: d.supported_operations,
            },
        }
    }

    /// Adds an operation to the descriptor. Operation names are unique within
    /// one descriptor: adding an operation whose name is already present
    /// overwrites that operation in place, deterministically, rather than
    /// producing a duplicate.
    pub fn with_operation(self, name: &str, direction: OperationDirection, doctext: &str) -> (r:
        Self)
        requires
            self@.wf(),
        ensures
            r@.wf(),
            r@.id == self@.id,
            r@.name == self@.name,
            r@.version == self@.version,
            r@.revision == self@.revision,
            r@.long_description == self@.long_description,
            has_op(r@.supported_operations, name@),
            !has_op(self@.supported_operations, name@) ==> r@.supported_operations
                == self@.supported_operations.push(
                OperationView { name: name@, direction, doctext: doctext@ },
            ),
            forall|i: int|
                0 <= i < self@.supported_operations.len()
                    && self@.supported_operations[i].name == name@
                    ==> r@.supported_operations == self@.supported_operations.update(
                    i,
                    OperationView { name: name@, direction, doctext: doctext@ },
                ),
    {
        let op = OperationDescriptor::new(name, direction, doctext);
        let mut d = self.descriptor;
        let n = d.supported_operations.len();
        let mut i: usize = 0;
        while i < n
            invariant
                n == d.supported_operations.len(),
                i <= n,
                d == self.descriptor,
                self@.wf(),
                op@ == (OperationView { name: name@, direction, doctext: doctext@ }),
                forall|j: int| 0 <= j < i ==> self@.supported_operations[j].name != name@,
            decreases n - i,
        {
            if d.supported_operations[i].name == op.name {
                let ghost prev = self@.supported_operations;
                d.supported_operations.set(i, op);
                let r = CapabilityDescriptorBuilder { descriptor: d };
                proof {
                    assert(r@.supported_operations =~= prev.update(i as int, op@));
                    assert(prev[i as int].name == name@);
                    assert(r@.supported_operations[i as int] == op@);
                    assert(has_op(r@.supported_operations, name@));
                    assert forall|p: int, q: int|
                        0 <= p < q < r@.supported_operations.len() implies r@.supported_operations[p].name
                        != r@.supported_operations[q].name by {
                        if p != i {
                            assert(r@.supported_operations[p] == prev[p]);
                        }
                        if q != i {
                            assert(r@.supported_operations[q] == prev[q]);
                        }
                    }
                    assert forall|k: int|
                        0 <= k < prev.len() && prev[k].name == name@ implies r@.supported_operations
                        == prev.update(k, OperationView { name: name@, direction, doctext: doctext@ }) by {
                        if k != i {
                            assert(false);
                        }
                    }
                }
                return r;
            }
            i += 1;
        }
        let ghost prev = self@.supported_operations;
        d.supported_operations.push(op);
        let r = CapabilityDescriptorBuilder { descriptor: d };
        proof {
            assert(r@.supported_operations =~= prev.push(op@));
            assert(r@.supported_operations[prev.len() as int] == op@);
            assert(has_op(r@.supported_operations, name@));
            assert forall|p: int, q: int|
                0 <= p < q < r@.supported_operations.len() implies r@.supported_operations[p].name
                != r@.supported_operations[q].name by {
                assert(r@.supported_operations[p] == prev[p]);
                if q < prev.len() {
                    assert(r@.supported_operations[q] == prev[q]);
                } else {
                    assert(r@.supported_operations[q] == op@);
                }
            }
        }
        r
    }

    /// Produces the immutable capability descriptor from the accumulated
    /// configuration.
    pub fn build(self) -> (r: CapabilityDescriptor)
        ensures
            r@ == self@,
    {
        self.descriptor
    }
}

/// The dispatcher half of the dispatch contract: held by a provider,
/// implemented by the host, and used by the provider to push an operation
/// toward a specific actor. A dispatcher must be safe to invoke
/// concurrently from multiple provider threads, so implementations with
/// shared state do their own locking. What a call establishes is given by
/// the implementation through `dispatch_ens`.
pub trait Dispatcher: Send + Sync {
    /// What `dispatch` guarantees about its result.
    spec fn dispatch_ens(
        &self,
        actor: Seq<char>,
        op: Seq<char>,
        msg: Seq<u8>,
        r: Result<Vec<u8>, CodecError>,
    ) -> bool;

    /// Sends the operation `op` with payload `msg` to the actor identified by
    /// `actor`, blocking until a result or an error is produced.
    fn dispatch(&self, actor: &str, op: &str, msg: &[u8]) -> (r: Result<Vec<u8>, CodecError>)
        ensures
            self.dispatch_ens(actor@, op@, msg@, r),
    ;
}

/// A dispatcher that refuses every call. It exists purely as a
/// pre-initialization placeholder: dispatching through it before a real
/// dispatcher has been configured is an initialization-order error, and it
/// therefore fails every call rather than ever returning a default success.
pub struct NullDispatcher {}

impl NullDispatcher {
    /// Creates a placeholder dispatcher that fails every call.
    pub fn new() -> (r: NullDispatcher) {
        NullDispatcher {  }
    }
}

impl Default for NullDispatcher {
    fn default() -> (r: Self) {
        NullDispatcher {  }
    }
}

impl Dispatcher for NullDispatcher {
    /// Every call fails with `BadDispatch`; none succeeds.
    open spec fn dispatch_ens(
        &self,
        actor: Seq<char>,
        op: Seq<char>,
        msg: Seq<u8>,
        r: Result<Vec<u8>, CodecError>,
    ) -> bool {
        r == Result::<Vec<u8>, CodecError>::Err(CodecError::BadDispatch)
    }

    fn dispatch(&self, actor: &str, op: &str, msg: &[u8]) -> (r: Result<Vec<u8>, CodecError>) {
        Err(CodecError::BadDispatch)
    }
}

/// The provider half of the dispatch contract: held by the host, implemented
/// by a provider. The host calls `configure_dispatch` exactly once, before
/// any `handle_call`, when a live dispatcher is ready.
pub trait CapabilityProvider: Send + Sync {
    /// Hands the provider the dispatcher through which it may call actors.
    /// Called exactly once, strictly before any `handle_call`.
    fn configure_dispatch<D: Dispatcher>(&self, dispatcher: D) -> Result<(), CodecError>;

    /// Invoked for every actor-initiated operation.
    fn handle_call(&self, actor: &str, op: &str, msg: &[u8]) -> Result<Vec<u8>, CodecError>;
}

} // verus!
