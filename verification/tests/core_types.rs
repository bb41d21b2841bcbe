use kitt_memory::kinds::Sensitivity;
use kitt_memory::sensitivity::EgressPolicy;
use kitt_memory::text::normalize;

#[test]
fn secret_never_leaves_local() {
    assert!(
        !EgressPolicy {
            is_local_provider: false,
            allow_personal_remote: true
        }
        .allows(Sensitivity::Secret)
    );
}

#[test]
fn normalization_is_stable() {
    assert_eq!("hello world", normalize("  Hello   WORLD "));
}

#[test]
fn sensitivity_is_monotonic() {
    assert_eq!(
        Sensitivity::Secret,
        Sensitivity::Public.most_restrictive(Sensitivity::Secret)
    );
    assert_eq!(
        Sensitivity::Private,
        Sensitivity::Private.most_restrictive(Sensitivity::Personal)
    );
}
