use warden::sandbox::{containment_for_build, install_linux_containment, SandboxError};

#[test]
fn install_linux_containment_never_silently_succeeds() {
    assert!(install_linux_containment().is_err());
}

#[test]
fn enabled_build_reports_not_implemented() {
    assert_eq!(containment_for_build(true), Err(SandboxError::NotImplemented));
}

#[test]
fn disabled_build_reports_disabled() {
    assert_eq!(install_linux_containment(), Err(SandboxError::Disabled));
    assert_eq!(containment_for_build(false), Err(SandboxError::Disabled));
}

#[test]
fn sandbox_errors_describe_themselves() {
    assert_eq!(
        SandboxError::Disabled.message(),
        "linux containment is not enabled in this build"
    );
}
