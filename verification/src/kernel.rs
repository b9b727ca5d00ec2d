//! The kernel's decisions about registered adapters: which handshakes it
//! accepts, which capabilities connect two formats, and which request a
//! default invocation sends.
use vstd::prelude::*;
use crate::protocol::{
    AdapterError, AdapterHandshake, CapabilityDescriptor, InvocationRequest, ProtocolVersion,
    ResourceBudget,
};
use crate::text::str_eq;

verus! {

#[derive(Debug, Clone, PartialEq, Eq)]
pub struct KernelConfig {
    pub protocol: ProtocolVersion,
    pub default_resource_budget: ResourceBudget,
    pub require_runnable_defaults: bool,
}

impl Default for KernelConfig {
    fn default() -> (c: Self)
        ensures
            c.protocol.major == 0 && c.protocol.minor == 1,
            c.default_resource_budget.timeout_millis == 300_000,
            c.default_resource_budget.max_memory_bytes == 512 * 1024 * 1024,
            c.default_resource_budget.max_temporary_bytes == 2 * 1024 * 1024 * 1024,
            c.default_resource_budget.max_output_bytes == 4 * 1024 * 1024 * 1024,
            c.default_resource_budget.parallelism == 1,
            c.require_runnable_defaults,
    {
        KernelConfig {
            protocol: ProtocolVersion::current(),
            default_resource_budget: ResourceBudget::default(),
            require_runnable_defaults: true,
        }
    }
}

#[derive(Debug, Clone, PartialEq, Eq)]
pub struct DirectCapability {
    pub adapter_id: String,
    pub descriptor: CapabilityDescriptor,
}

#[derive(Debug)]
pub enum KernelError {
    DuplicateAdapter(String),
    IncompatibleProtocol { adapter_id: String, kernel: ProtocolVersion, adapter: ProtocolVersion },
    MissingRunnableDefaults { adapter_id: String, capability_id: String },
    UnknownAdapter(String),
    UnknownCapability { adapter_id: String, capability_id: String },
    Adapter(AdapterError),
}

/// Whether some string of `v` reads `s`.
pub open spec fn contains_text(v: Seq<String>, s: Seq<char>) -> bool {
    exists|i: int| 0 <= i < v.len() && v[i]@ == s
}

/// The position of the first string of `v` that reads `s`.
pub fn position_of(v: &Vec<String>, s: &str) -> (r: Option<usize>)
    ensures
        match r {
            Some(i) => i < v@.len() && v@[i as int]@ == s@ && forall|j: int|
                0 <= j < i ==> v@[j]@ != s@,
            None => !contains_text(v@, s@),
        },
{
    let mut i: usize = 0;
    while i < v.len()
        invariant
            i <= v@.len(),
            forall|j: int| 0 <= j < i ==> v@[j]@ != s@,
        decreases v@.len() - i,
    {
        if str_eq(v[i].as_str(), s) {
            return Some(i);
        }
        i = i + 1;
    }
    None
}

/// The position of the first capability without runnable defaults.
pub open spec fn first_unrunnable(caps: Seq<CapabilityDescriptor>) -> Option<int>
    decreases caps.len(),
{
    if caps.len() == 0 {
        None
    } else {
        match first_unrunnable(caps.drop_last()) {
            Some(i) => Some(i),
            None => if !caps.last().defaults_are_runnable {
                Some(caps.len() - 1)
            } else {
                None
            },
        }
    }
}

/// The checks a handshake passes before its adapter is registered beside the
/// adapters `registered`: a new id, a compatible protocol and, when the
/// configuration asks for it, runnable defaults for every capability.
pub fn registration_check(config: &KernelConfig, registered: &Vec<String>, handshake: &AdapterHandshake) -> (r: Result<(), KernelError>)
    ensures
        contains_text(registered@, handshake.adapter_id@) ==> (r matches Err(
            KernelError::DuplicateAdapter(id),
        ) && id@ == handshake.adapter_id@),
        !contains_text(registered@, handshake.adapter_id@) && !config.protocol.compatible(
            handshake.protocol,
        ) ==> (r matches Err(KernelError::IncompatibleProtocol { adapter_id, kernel, adapter })
            && adapter_id@ == handshake.adapter_id@ && kernel == config.protocol && adapter
            == handshake.protocol),
        !contains_text(registered@, handshake.adapter_id@) && config.protocol.compatible(
            handshake.protocol,
        ) ==> match (if config.require_runnable_defaults {
            first_unrunnable(handshake.capabilities@)
        } else {
            None
        }) {
            Some(i) => r matches Err(KernelError::MissingRunnableDefaults { adapter_id, capability_id })
                && adapter_id@ == handshake.adapter_id@ && capability_id@
                == handshake.capabilities@[i].capability_id@,
            None => r is Ok,
        },
{
    if position_of(registered, handshake.adapter_id.as_str()).is_some() {
        return Err(KernelError::DuplicateAdapter(handshake.adapter_id.clone()));
    }
    if !config.protocol.is_compatible_with(handshake.protocol) {
        return Err(
            KernelError::IncompatibleProtocol {
                adapter_id: handshake.adapter_id.clone(),
                kernel: config.protocol,
                adapter: handshake.protocol,
            },
        );
    }
    if config.require_runnable_defaults {
        let caps = &handshake.capabilities;
        let mut i: usize = 0;
        while i < caps.len()
            invariant
                i <= caps@.len(),
                caps@ == handshake.capabilities@,
                !contains_text(registered@, handshake.adapter_id@),
                config.protocol.compatible(handshake.protocol),
                config.require_runnable_defaults,
                first_unrunnable(caps@.take(i as int)) is None,
            decreases caps@.len() - i,
        {
            assert(caps@.take(i + 1).drop_last() =~= caps@.take(i as int));
            if !caps[i].defaults_are_runnable {
                proof {
                    lemma_first_unrunnable_prefix(caps@, i as int + 1);
                }
                return Err(
                    KernelError::MissingRunnableDefaults {
                        adapter_id: handshake.adapter_id.clone(),
                        capability_id: caps[i].capability_id.clone(),
                    },
                );
            }
            i = i + 1;
        }
        assert(caps@.take(i as int) =~= caps@);
    }
    Ok(())
}

proof fn lemma_first_unrunnable_prefix(caps: Seq<CapabilityDescriptor>, k: int)
    requires
        0 <= k <= caps.len(),
        first_unrunnable(caps.take(k)) is Some,
    ensures
        first_unrunnable(caps) == first_unrunnable(caps.take(k)),
    decreases caps.len() - k,
{
    if k < caps.len() {
        assert(caps.take(k + 1).drop_last() =~= caps.take(k));
        lemma_first_unrunnable_prefix(caps, k + 1);
    } else {
        assert(caps.take(k) =~= caps);
    }
}

/// The position of the first capability of `caps` called `capability_id`.
pub fn find_capability(caps: &Vec<CapabilityDescriptor>, capability_id: &str) -> (r: Option<usize>)
    ensures
        match r {
            Some(i) => i < caps@.len() && caps@[i as int].capability_id@ == capability_id@
                && forall|j: int| 0 <= j < i ==> caps@[j].capability_id@ != capability_id@,
            None => forall|j: int| 0 <= j < caps@.len() ==> caps@[j].capability_id@ != capability_id@,
        },
{
    let mut i: usize = 0;
    while i < caps.len()
        invariant
            i <= caps@.len(),
            forall|j: int| 0 <= j < i ==> caps@[j].capability_id@ != capability_id@,
        decreases caps@.len() - i,
    {
        if str_eq(caps[i].capability_id.as_str(), capability_id) {
            return Some(i);
        }
        i = i + 1;
    }
    None
}

/// The request a default invocation of `capability_id` on the adapter
/// `adapter_id` with handshake `handshake` sends: the capability's default
/// options under the kernel's default budget.
pub fn default_request(config: &KernelConfig, adapter_id: &str, handshake: &AdapterHandshake, capability_id: &str) -> (r: Result<InvocationRequest, KernelError>)
    ensures
        (forall|j: int|
            0 <= j < handshake.capabilities@.len() ==> handshake.capabilities@[j].capability_id@
                != capability_id@) ==> (r matches Err(
            KernelError::UnknownCapability { adapter_id: a, capability_id: c },
        ) && a@ == adapter_id@ && c@ == capability_id@),
        forall|i: int|
            0 <= i < handshake.capabilities@.len() && handshake.capabilities@[i].capability_id@
                == capability_id@ && (forall|j: int|
                0 <= j < i ==> handshake.capabilities@[j].capability_id@ != capability_id@)
                ==> {
                let cap = handshake.capabilities@[i];
                if config.require_runnable_defaults && !cap.defaults_are_runnable {
                    r matches Err(KernelError::MissingRunnableDefaults { adapter_id: a, capability_id: c })
                        && a@ == adapter_id@ && c@ == capability_id@
                } else {
                    r matches Ok(request) && request.capability_id@ == cap.capability_id@
                        && request.options@ == cap.default_options@
                        && request.resource_budget == config.default_resource_budget
                        && request.invariants@.len() == 0
                }
            },
{
    let i = match find_capability(&handshake.capabilities, capability_id) {
        Some(i) => i,
        None => {
            return Err(
                KernelError::UnknownCapability {
                    adapter_id: String::from_str(adapter_id),
                    capability_id: String::from_str(capability_id),
                },
            );
        },
    };
    let cap = &handshake.capabilities[i];
    if config.require_runnable_defaults && !cap.defaults_are_runnable {
        return Err(
            KernelError::MissingRunnableDefaults {
                adapter_id: String::from_str(adapter_id),
                capability_id: String::from_str(capability_id),
            },
        );
    }
    let mut request = InvocationRequest::with_defaults(cap);
    let b = &config.default_resource_budget;
    request.resource_budget = ResourceBudget {
        timeout_millis: b.timeout_millis,
        max_memory_bytes: b.max_memory_bytes,
        max_temporary_bytes: b.max_temporary_bytes,
        max_output_bytes: b.max_output_bytes,
        parallelism: b.parallelism,
    };
    Ok(request)
}

/// Whether some string of `v` equals `s`.
fn contains_str(v: &Vec<String>, s: &str) -> (r: bool)
    ensures
        r == contains_text(v@, s@),
{
    position_of(v, s).is_some()
}

/// The capabilities of `handshake` that read `source` and write `target`.
/// Every field of a capability descriptor, as values.
pub open spec fn cap_view(c: CapabilityDescriptor) -> CapView {
    (
        c.capability_id@,
        (c.source_formats@, c.target_formats@),
        (c.strategy@, c.backend@),
        c.default_options@,
        (c.defaults_are_runnable, c.streaming, c.seek_required),
    )
}

pub type CapView = (
    Seq<char>,
    (Seq<String>, Seq<String>),
    (Seq<char>, Seq<char>),
    Map<String, String>,
    (bool, bool, bool),
);

pub open spec fn matching(handshake: AdapterHandshake, source: Seq<char>, target: Seq<char>) -> Seq<
    (Seq<char>, CapView),
> {
    handshake.capabilities@.filter(
        |c: CapabilityDescriptor|
            contains_text(c.source_formats@, source) && contains_text(c.target_formats@, target),
    ).map_values(|c: CapabilityDescriptor| (handshake.adapter_id@, cap_view(c)))
}

/// The adapter ids and capability descriptors that connect `source` to
/// `target`, adapters in the order given.
pub open spec fn direct_ids(handshakes: Seq<AdapterHandshake>, source: Seq<char>, target: Seq<char>) -> Seq<
    (Seq<char>, CapView),
>
    decreases handshakes.len(),
{
    if handshakes.len() == 0 {
        seq![]
    } else {
        direct_ids(handshakes.drop_last(), source, target) + matching(handshakes.last(), source, target)
    }
}

pub open spec fn ids_of(v: Seq<DirectCapability>) -> Seq<(Seq<char>, CapView)> {
    v.map_values(|d: DirectCapability| (d.adapter_id@, cap_view(d.descriptor)))
}

/// A copy of `d` whose fields read as `d`'s do.
fn copy_descriptor(d: &CapabilityDescriptor) -> (r: CapabilityDescriptor)
    ensures
        cap_view(r) == cap_view(*d),
        r.capability_id@ == d.capability_id@,
        r.default_options@ == d.default_options@,
        r.defaults_are_runnable == d.defaults_are_runnable,
        r.streaming == d.streaming,
        r.seek_required == d.seek_required,
        r.strategy@ == d.strategy@,
        r.backend@ == d.backend@,
{
    CapabilityDescriptor {
        capability_id: d.capability_id.clone(),
        source_formats: d.source_formats.clone(),
        target_formats: d.target_formats.clone(),
        strategy: d.strategy.clone(),
        backend: d.backend.clone(),
        default_options: d.default_options.clone(),
        defaults_are_runnable: d.defaults_are_runnable,
        streaming: d.streaming,
        seek_required: d.seek_required,
    }
}

/// Appends the capabilities of `handshake` that connect `source` to `target`.
fn push_matching(out: &mut Vec<DirectCapability>, handshake: &AdapterHandshake, source: &str, target: &str)
    ensures
        ids_of(final(out)@) == ids_of(old(out)@) + matching(*handshake, source@, target@),
{
    let caps = &handshake.capabilities;
    let ghost pred = |c: CapabilityDescriptor|
        contains_text(c.source_formats@, source@) && contains_text(c.target_formats@, target@);
    let ghost f = |c: CapabilityDescriptor| (handshake.adapter_id@, cap_view(c));
    let mut i: usize = 0;
    while i < caps.len()
        invariant
            i <= caps@.len(),
            pred == (|c: CapabilityDescriptor|
                contains_text(c.source_formats@, source@) && contains_text(c.target_formats@, target@)),
            f == (|c: CapabilityDescriptor| (handshake.adapter_id@, cap_view(c))),
            ids_of(out@) == ids_of(old(out)@) + caps@.take(i as int).filter(pred).map_values(f),
        decreases caps@.len() - i,
    {
        let ghost before = out@;
        let c = &caps[i];
        assert(caps@.take(i + 1).drop_last() =~= caps@.take(i as int));
        reveal(Seq::filter);
        if contains_str(&c.source_formats, source) && contains_str(&c.target_formats, target) {
            out.push(DirectCapability { adapter_id: handshake.adapter_id.clone(), descriptor: copy_descriptor(c) });
            assert(caps@.take(i + 1).filter(pred) == caps@.take(i as int).filter(pred).push(*c));
            assert(ids_of(out@) =~= ids_of(before).push((handshake.adapter_id@, cap_view(*c))));
        } else {
            assert(caps@.take(i + 1).filter(pred) == caps@.take(i as int).filter(pred));
        }
        i = i + 1;
    }
    assert(caps@.take(i as int) =~= caps@);
}

/// The capabilities, adapter by adapter in the order given, that read
/// `source` and write `target`.
pub fn direct_capabilities(handshakes: &Vec<AdapterHandshake>, source: &str, target: &str) -> (r: Vec<DirectCapability>)
    ensures
        ids_of(r@) == direct_ids(handshakes@, source@, target@),
{
    let mut out: Vec<DirectCapability> = Vec::new();
    let mut i: usize = 0;
    while i < handshakes.len()
        invariant
            i <= handshakes@.len(),
            ids_of(out@) == direct_ids(handshakes@.take(i as int), source@, target@),
        decreases handshakes@.len() - i,
    {
        assert(handshakes@.take(i + 1).drop_last() =~= handshakes@.take(i as int));
        push_matching(&mut out, &handshakes[i], source, target);
        i = i + 1;
    }
    assert(handshakes@.take(i as int) =~= handshakes@);
    out
}

/// The nearest-rank index of the `numerator / denominator` quantile among
/// `len` sorted samples: `ceil((len - 1) * numerator / denominator)`.
pub fn percentile_index(len: usize, numerator: usize, denominator: usize) -> (r: usize)
    requires
        len >= 1,
        1 <= denominator,
        numerator <= denominator,
        (len - 1) * numerator + denominator <= usize::MAX,
    ensures
        r == ((len - 1) * numerator + denominator - 1) / (denominator as int),
        r < len,
{
    assert((len - 1) * numerator <= (len - 1) * denominator) by (nonlinear_arith)
        requires
            numerator <= denominator,
            len >= 1,
    ;
    let r = ((len - 1) * numerator + denominator - 1) / denominator;
    assert(r < len) by (nonlinear_arith)
        requires
            r == ((len - 1) * numerator + denominator - 1) / (denominator as int),
            (len - 1) * numerator <= (len - 1) * denominator,
            denominator >= 1,
            len >= 1,
    ;
    r
}

} // verus!
