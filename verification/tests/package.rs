use proto_uv_backend::package::{normalize_name, Package, Project, Release, ReleaseFile};

#[test]
fn extras_have_canonical_identity_and_python_requirement() {
    let package = Package::parse("black/colorama/d").unwrap();
    assert_eq!(package.name, "black");
    assert_eq!(package.requirement(), "black[colorama,d]");
    assert_eq!(Package::parse("black").unwrap().requirement(), "black");
    for id in ["black/d/colorama", "black/d/d", "Black/D", "black/dev_test"] {
        assert!(Package::parse(id).unwrap_err().contains("canonical"));
    }
    for id in [
        "black_colorama",
        "Black",
        "black/",
        "black//d",
        "black/../d",
        "black/d,other",
        "black[d]",
        "https://x",
        "black/--index",
    ] {
        assert!(Package::parse(id).is_err(), "{id}");
    }
}

#[test]
fn normalizes_python_distribution_names() {
    assert_eq!(normalize_name("My_Package.Name").unwrap(), "my-package-name");
    assert_eq!(normalize_name("a...___--b").unwrap(), "a-b");
    for name in [
        "", "-pip", "../pip", "foo/../bar", "foo[extra]", "foo==1", "https://x", "a b", "a\n", "é",
    ] {
        assert!(normalize_name(name).is_err(), "{name:?}");
    }
}

#[test]
fn excludes_empty_yanked_and_source_only_releases() {
    let file = |packagetype: &str, yanked: bool| ReleaseFile { yanked, packagetype: packagetype.into() };
    let project = Project {
        releases: vec![
            Release { version: "1.0".into(), files: vec![] },
            Release { version: "1.1".into(), files: vec![file("bdist_wheel", true)] },
            Release { version: "1.2".into(), files: vec![file("sdist", false)] },
            Release { version: "1.3".into(), files: vec![file("bdist_wheel", false)] },
        ],
    };
    assert_eq!(project.available_versions(), ["1.3"]);
}

#[test]
fn invalid_name_error_quotes_the_value() {
    assert_eq!(
        normalize_name("a b").unwrap_err(),
        "Invalid PyPI package name: \"a b\". Use a distribution name without extras or a URL."
    );
    assert_eq!(
        normalize_name("a\n").unwrap_err(),
        "Invalid PyPI package name: \"a\\n\". Use a distribution name without extras or a URL."
    );
}

#[test]
fn normalizing_twice_changes_nothing() {
    for name in ["My_Package.Name", "a...___--b", "Zope.Interface", "x"] {
        let once = normalize_name(name).unwrap();
        assert_eq!(normalize_name(&once).unwrap(), once);
    }
}

#[test]
fn canonical_error_names_the_canonical_identifier() {
    assert_eq!(
        Package::parse("Black/D").unwrap_err(),
        "Use the canonical tool identifier uv:black/d"
    );
    assert_eq!(
        Package::parse("black/d/colorama/d").unwrap_err(),
        "Use the canonical tool identifier uv:black/colorama/d"
    );
    assert!(Package::parse("black/../d").unwrap_err().starts_with("Invalid PyPI package name: \"..\""));
}

#[test]
fn parsed_identifier_is_the_input_and_extras_are_sorted() {
    let package = Package::parse("httpie/a-b/brotli/socks").unwrap();
    assert_eq!(package.name, "httpie");
    assert_eq!(package.extras, ["a-b", "brotli", "socks"]);
    assert_eq!(format!("{}/{}", package.name, package.extras.join("/")), "httpie/a-b/brotli/socks");
    assert_eq!(package.requirement(), "httpie[a-b,brotli,socks]");
}

#[test]
fn wheels_that_are_not_yanked_keep_a_release_with_other_files() {
    let project = Project {
        releases: vec![Release {
            version: "2.0".into(),
            files: vec![
                ReleaseFile { yanked: false, packagetype: "sdist".into() },
                ReleaseFile { yanked: true, packagetype: "bdist_wheel".into() },
                ReleaseFile { yanked: false, packagetype: "bdist_wheel".into() },
            ],
        }],
    };
    assert_eq!(project.available_versions(), ["2.0"]);
}
