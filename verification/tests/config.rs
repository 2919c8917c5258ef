use proto_uv_backend::config::UvBackendConfig;

#[test]
fn accepts_versions_but_not_paths_or_arguments() {
    for python in ["3.12", "3.13.2"] {
        assert!(UvBackendConfig { python: python.into() }.validate().is_ok());
    }
    for python in ["python", "../python", "3", "3.12 --system", "2.7", "3..1"] {
        assert!(UvBackendConfig { python: python.into() }.validate().is_err());
    }
}

#[test]
fn default_python_is_a_valid_setting() {
    let config = UvBackendConfig::default();
    assert_eq!(config.python, "3.12");
    assert!(config.validate().is_ok());
}

#[test]
fn invalid_python_setting_explains_the_expected_form() {
    let error = UvBackendConfig { python: "3.12.9.1".into() }.validate().unwrap_err();
    assert_eq!(
        error,
        "The python setting must be a Python 3 version, such as 3.12 or 3.12.9."
    );
    assert!(UvBackendConfig { python: "3.x".into() }.validate().is_err());
    assert!(UvBackendConfig { python: "3.".into() }.validate().is_err());
    assert!(UvBackendConfig { python: "3.1.0".into() }.validate().is_ok());
}
