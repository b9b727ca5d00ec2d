use std::collections::BTreeMap;

use everythingx::kernel::{
    default_request, direct_capabilities, registration_check, KernelConfig, KernelError,
};
use everythingx::protocol::{AdapterHandshake, CapabilityDescriptor, CapsuleIdentity, ProtocolVersion};

fn descriptor(id: &str, defaults_are_runnable: bool) -> CapabilityDescriptor {
    CapabilityDescriptor {
        capability_id: id.into(),
        source_formats: vec!["test:bytes".into()],
        target_formats: vec!["test:bytes".into()],
        strategy: "exact".into(),
        backend: "native".into(),
        default_options: BTreeMap::from([("level".to_string(), "1".to_string())]),
        defaults_are_runnable,
        streaming: true,
        seek_required: false,
    }
}

fn handshake(adapter_id: &str, capabilities: Vec<CapabilityDescriptor>) -> AdapterHandshake {
    AdapterHandshake {
        protocol: ProtocolVersion::current(),
        adapter_id: adapter_id.into(),
        adapter_version: "0.1.0".into(),
        capsule: CapsuleIdentity { id: "capsule:test-echo".into(), version: "0.1.0".into(), content_hash: None },
        capabilities,
    }
}

#[test]
fn rejects_adapter_without_runnable_defaults() {
    let config = KernelConfig::default();
    let bad = handshake("adapter:bad-defaults", vec![descriptor("capability:test/echo", false)]);
    let error = registration_check(&config, &Vec::new(), &bad).unwrap_err();
    assert!(matches!(error, KernelError::MissingRunnableDefaults { .. }));
}

#[test]
fn registration_rejects_duplicates_and_newer_protocols() {
    let config = KernelConfig::default();
    let echo = handshake("adapter:test-echo", vec![descriptor("capability:test/echo", true)]);
    assert!(registration_check(&config, &Vec::new(), &echo).is_ok());
    let error = registration_check(&config, &vec!["adapter:test-echo".to_string()], &echo).unwrap_err();
    assert!(matches!(error, KernelError::DuplicateAdapter(id) if id == "adapter:test-echo"));
    let mut newer = echo.clone();
    newer.protocol = ProtocolVersion { major: 0, minor: 2 };
    assert!(matches!(
        registration_check(&config, &Vec::new(), &newer).unwrap_err(),
        KernelError::IncompatibleProtocol { .. }
    ));
    let relaxed = KernelConfig { require_runnable_defaults: false, ..KernelConfig::default() };
    let bad = handshake("adapter:bad-defaults", vec![descriptor("capability:test/echo", false)]);
    assert!(registration_check(&relaxed, &Vec::new(), &bad).is_ok());
}

#[test]
fn default_invocation_uses_capability_defaults_and_kernel_budget() {
    let config = KernelConfig::default();
    let echo = handshake("adapter:test-echo", vec![descriptor("capability:test/echo", true)]);
    let request = default_request(&config, "adapter:test-echo", &echo, "capability:test/echo").unwrap();
    assert_eq!(request.capability_id, "capability:test/echo");
    assert_eq!(request.options["level"], "1");
    assert_eq!(request.resource_budget, config.default_resource_budget);
    let error = default_request(&config, "adapter:test-echo", &echo, "capability:missing").unwrap_err();
    assert!(matches!(error, KernelError::UnknownCapability { .. }));
}

#[test]
fn direct_capabilities_match_source_and_target() {
    let mut png = descriptor("capability:bmp/png", true);
    png.source_formats = vec!["exfmt:image:bmp".into()];
    png.target_formats = vec!["exfmt:image:png".into()];
    let adapters = vec![
        handshake("adapter:a", vec![descriptor("capability:test/echo", true), png]),
        handshake("adapter:b", vec![descriptor("capability:test/copy", true)]),
    ];
    let found = direct_capabilities(&adapters, "test:bytes", "test:bytes");
    let ids: Vec<_> = found.iter().map(|d| (d.adapter_id.as_str(), d.descriptor.capability_id.as_str())).collect();
    assert_eq!(ids, vec![("adapter:a", "capability:test/echo"), ("adapter:b", "capability:test/copy")]);
    let found = direct_capabilities(&adapters, "exfmt:image:bmp", "exfmt:image:png");
    assert_eq!(found.len(), 1);
    assert_eq!(found[0].descriptor.source_formats, vec!["exfmt:image:bmp".to_string()]);
    assert!(direct_capabilities(&adapters, "test:bytes", "exfmt:image:png").is_empty());
}
