//! Protocol types shared by the kernel and the capsule adapters.
use vstd::prelude::*;
use std::collections::BTreeMap;

verus! {

/// Version of the adapter protocol spoken between the kernel and adapters.
#[derive(Debug, Clone, Copy, PartialEq, Eq, PartialOrd, Ord)]
pub struct ProtocolVersion {
    pub major: u16,
    pub minor: u16,
}

impl ProtocolVersion {
    /// The version this library speaks.
    pub fn current() -> (v: ProtocolVersion)
        ensures
            v.major == 0 && v.minor == 1,
    {
        ProtocolVersion { major: 0, minor: 1 }
    }

    /// A kernel speaking `self` accepts an adapter speaking `other` when the
    /// major versions agree and the adapter's minor version is not newer.
    pub open spec fn compatible(self, other: Self) -> bool {
        self.major == other.major && other.minor <= self.minor
    }

    pub fn is_compatible_with(self, other: Self) -> (result: bool)
        ensures
            result == self.compatible(other),
    {
        self.major == other.major && other.minor <= self.minor
    }
}

impl Default for ProtocolVersion {
    fn default() -> (v: Self)
        ensures
            v.major == 0 && v.minor == 1,
    {
        ProtocolVersion::current()
    }
}

/// Every version is compatible with itself, and compatibility is transitive.
pub proof fn lemma_compatibility_preorder(a: ProtocolVersion, b: ProtocolVersion, c: ProtocolVersion)
    ensures
        a.compatible(a),
        a.compatible(b) && b.compatible(c) ==> a.compatible(c),
{
}

#[derive(Debug, Clone, PartialEq, Eq)]
pub struct ResourceBudget {
    pub timeout_millis: u64,
    pub max_memory_bytes: u64,
    pub max_temporary_bytes: u64,
    pub max_output_bytes: u64,
    pub parallelism: u16,
}

impl Default for ResourceBudget {
    fn default() -> (b: Self)
        ensures
            b.timeout_millis == 300_000,
            b.max_memory_bytes == 512 * 1024 * 1024,
            b.max_temporary_bytes == 2 * 1024 * 1024 * 1024,
            b.max_output_bytes == 4 * 1024 * 1024 * 1024,
            b.parallelism == 1,
    {
        ResourceBudget {
            timeout_millis: 300_000,
            max_memory_bytes: 536_870_912,
            max_temporary_bytes: 2_147_483_648,
            max_output_bytes: 4_294_967_296,
            parallelism: 1,
        }
    }
}

#[derive(Debug, Clone, PartialEq, Eq)]
pub struct CapsuleIdentity {
    pub id: String,
    pub version: String,
    pub content_hash: Option<String>,
}

#[derive(Debug, Clone, PartialEq, Eq)]
pub struct CapabilityDescriptor {
    pub capability_id: String,
    pub source_formats: Vec<String>,
    pub target_formats: Vec<String>,
    pub strategy: String,
    pub backend: String,
    pub default_options: BTreeMap<String, String>,
    pub defaults_are_runnable: bool,
    pub streaming: bool,
    pub seek_required: bool,
}

#[derive(Debug, Clone, PartialEq, Eq)]
pub struct AdapterHandshake {
    pub protocol: ProtocolVersion,
    pub adapter_id: String,
    pub adapter_version: String,
    pub capsule: CapsuleIdentity,
    pub capabilities: Vec<CapabilityDescriptor>,
}

#[derive(Debug, Clone, PartialEq, Eq)]
pub struct InvocationRequest {
    pub capability_id: String,
    pub options: BTreeMap<String, String>,
    pub resource_budget: ResourceBudget,
    pub invariants: Vec<String>,
}

impl InvocationRequest {
    /// A request for `capability` with its default options and the default budget.
    pub fn with_defaults(capability: &CapabilityDescriptor) -> (r: Self)
        ensures
            r.capability_id@ == capability.capability_id@,
            r.options@ == capability.default_options@,
            r.resource_budget.timeout_millis == 300_000,
            r.resource_budget.max_memory_bytes == 512 * 1024 * 1024,
            r.resource_budget.max_temporary_bytes == 2 * 1024 * 1024 * 1024,
            r.resource_budget.max_output_bytes == 4 * 1024 * 1024 * 1024,
            r.resource_budget.parallelism == 1,
            r.invariants@.len() == 0,
    {
        InvocationRequest {
            capability_id: capability.capability_id.clone(),
            options: capability.default_options.clone(),
            resource_budget: ResourceBudget::default(),
            invariants: Vec::new(),
        }
    }
}

#[derive(Debug, Clone, Copy, PartialEq, Eq, Structural)]
pub enum InvocationStatus {
    Succeeded,
    Rejected,
    ResourceLimit,
    Failed,
}

#[derive(Debug, Clone, Copy, PartialEq, Eq, Structural)]
pub enum LossLevel {
    NoLoss,
    Normalized,
    Bounded,
    Unbounded,
    Unknown,
}

#[derive(Debug, Clone, PartialEq, Eq)]
pub struct Measurements {
    pub input_bytes: Option<u64>,
    pub output_bytes: Option<u64>,
    pub elapsed_micros: Option<u64>,
    pub peak_memory_bytes: Option<u64>,
}

impl Default for Measurements {
    fn default() -> (m: Self)
        ensures
            m.input_bytes is None,
            m.output_bytes is None,
            m.elapsed_micros is None,
            m.peak_memory_bytes is None,
    {
        Measurements {
            input_bytes: None,
            output_bytes: None,
            elapsed_micros: None,
            peak_memory_bytes: None,
        }
    }
}

#[derive(Debug, Clone, PartialEq, Eq)]
pub struct Provenance {
    pub capsule: CapsuleIdentity,
    pub adapter_id: String,
    pub adapter_version: String,
    pub capability_id: String,
    pub strategy: String,
    pub backend: String,
    pub effective_options: BTreeMap<String, String>,
}

#[derive(Debug, Clone, PartialEq, Eq)]
pub struct InvocationResult {
    pub status: InvocationStatus,
    pub effects: BTreeMap<String, String>,
    pub losses: BTreeMap<String, LossLevel>,
    pub measurements: Measurements,
    pub capsule_report: BTreeMap<String, String>,
    pub warnings: Vec<String>,
    pub provenance: Provenance,
}

#[derive(Debug, Clone, Copy, PartialEq, Eq, Structural)]
pub enum AdapterErrorKind {
    UnsupportedCapability,
    InvalidOptions,
    InvalidInput,
    ResourceLimit,
    Io,
    Internal,
}

#[derive(Debug, Clone, PartialEq, Eq)]
pub struct AdapterError {
    pub kind: AdapterErrorKind,
    pub message: String,
}

impl AdapterError {
    pub fn new(kind: AdapterErrorKind, message: String) -> (e: Self)
        ensures
            e.kind == kind,
            e.message@ == message@,
    {
        AdapterError { kind, message }
    }

    /// The error's message.
    pub fn to_string(&self) -> (s: String)
        ensures
            s@ == self.message@,
    {
        self.message.clone()
    }
}

/// A typed transformation from `I` to `O`.
pub trait AtomicOperator<I, O> {
    type Error;

    fn apply(&self, input: I) -> Result<O, Self::Error>;
}

} // verus!
