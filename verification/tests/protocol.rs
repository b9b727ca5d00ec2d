use everythingx::protocol::{AdapterError, AdapterErrorKind, CapabilityDescriptor, InvocationRequest, ProtocolVersion};
use std::collections::BTreeMap;

#[test]
fn compatible_minor_versions() {
    let kernel = ProtocolVersion { major: 0, minor: 1 };
    assert!(kernel.is_compatible_with(ProtocolVersion { major: 0, minor: 0 }));
    assert!(!kernel.is_compatible_with(ProtocolVersion { major: 0, minor: 2 }));
    assert!(!kernel.is_compatible_with(ProtocolVersion { major: 1, minor: 0 }));
}

#[test]
fn request_defaults_copy_capability_options() {
    let mut options = BTreeMap::new();
    options.insert("metadata".to_string(), "common-text".to_string());
    let capability = CapabilityDescriptor {
        capability_id: "wav-pcm-to-raw-pcm".to_string(),
        source_formats: vec!["wav".to_string()],
        target_formats: vec!["raw".to_string()],
        strategy: "pcm-exact".to_string(),
        backend: "native".to_string(),
        default_options: options.clone(),
        defaults_are_runnable: true,
        streaming: true,
        seek_required: false,
    };
    let request = InvocationRequest::with_defaults(&capability);
    assert_eq!(request.capability_id, "wav-pcm-to-raw-pcm");
    assert_eq!(request.options, options);
    assert_eq!(request.resource_budget.timeout_millis, 300_000);
    assert_eq!(request.resource_budget.max_output_bytes, 4 * 1024 * 1024 * 1024);
    assert!(request.invariants.is_empty());
    assert_eq!(ProtocolVersion::default(), ProtocolVersion::current());
}

#[test]
fn adapter_error_keeps_kind_and_message() {
    let error = AdapterError::new(AdapterErrorKind::InvalidInput, "bad header".to_string());
    assert_eq!(error.kind, AdapterErrorKind::InvalidInput);
    assert_eq!(error.to_string(), "bad header");
}
