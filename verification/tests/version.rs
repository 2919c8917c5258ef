use proto_pdk_api::VersionSpec;
use proto_uv_backend::package::{Package, Project, Release, ReleaseFile};
use proto_uv_backend::version::{
    discover_versions, load_versions, to_proto, to_python, version_less, PreKind, ProtoVersion, ResolvedSpec, SpecVersion,
};

fn spec(major: u32, minor: u32, patch: u32, prerelease: Option<&str>, build: Option<&str>) -> ResolvedSpec {
    ResolvedSpec::Version(SpecVersion {
        scope: None,
        major,
        minor,
        patch,
        prerelease: prerelease.map(String::from),
        build: build.map(String::from),
    })
}

#[test]
fn maps_common_python_versions_without_losing_prerelease_order() {
    for (python, proto) in [
        ("1", "1.0.0"),
        ("24.10", "24.10.0"),
        ("1.2.3a2", "1.2.3-a.2"),
        ("1.2.3rc12", "1.2.3-rc.12"),
    ] {
        let version = to_proto(python).unwrap();
        assert_eq!(version.to_text(), proto);
        let roundtrip: pep440_rs::Version =
            to_python(&ResolvedSpec::Version(version.to_spec_version())).unwrap().parse().unwrap();
        assert_eq!(roundtrip, python.parse::<pep440_rs::Version>().unwrap());
    }
}

#[test]
fn unsupported_versions_are_never_silently_changed() {
    for value in ["1!2.0", "1.2.post1", "1.2.dev1", "1.2+local", "1.2.3.4", "garbage"] {
        assert!(to_proto(value).is_none(), "{value}");
    }
    for value in [
        ResolvedSpec::Alias("latest".into()),
        ResolvedSpec::Canary,
        spec(1, 2, 3, None, Some("local")),
        spec(1, 2, 3, Some("preview.1"), None),
    ] {
        assert!(to_python(&value).is_err());
    }
}

#[test]
fn latest_ignores_prereleases_and_duplicates() {
    let texts = |values: &[&str]| values.iter().map(|v| v.to_string()).collect::<Vec<_>>();
    let output = load_versions(&texts(&["1.0", "1.0.0", "2.0rc1", "1.9", "broken"])).unwrap();
    assert_eq!(output.versions.len(), 3);
    assert_eq!(output.latest.unwrap().to_text(), "1.9.0");
    assert!(load_versions(&texts(&["1.0rc1"])).unwrap().latest.is_none());
    assert!(load_versions(&texts(&["1.0.post1"])).is_err());
}

#[test]
fn versions_are_ordered_with_prereleases_before_their_release() {
    let values: Vec<String> = ["2.0", "2.0rc1", "2.0b3", "2.0a10", "2.0a2", "1.10", "1.9"]
        .iter()
        .map(|v| v.to_string())
        .collect();
    let output = load_versions(&values).unwrap();
    let texts: Vec<String> = output.versions.iter().map(|v| v.to_text()).collect();
    assert_eq!(texts, ["1.9.0", "1.10.0", "2.0.0-a.2", "2.0.0-a.10", "2.0.0-b.3", "2.0.0-rc.1", "2.0.0"]);
    assert_eq!(output.latest.unwrap().to_text(), "2.0.0");
    assert_eq!(output.aliases.len(), 1);
    assert_eq!(output.aliases[0].0, "latest");
    assert_eq!(output.aliases[0].1, output.latest.unwrap());
}

#[test]
fn python_text_for_proto_versions() {
    assert_eq!(to_python(&spec(1, 2, 3, None, None)).unwrap(), "1.2.3");
    assert_eq!(to_python(&spec(1, 2, 3, Some("b.7"), None)).unwrap(), "1.2.3b7");
    for pre in ["rc", "rc.", "rc.1.2", "c.1", "rc.x", "RC.1"] {
        assert!(to_python(&spec(1, 2, 3, Some(pre), None)).is_err(), "{pre}");
    }
    let scoped = ResolvedSpec::Version(SpecVersion {
        scope: Some("vendor".into()),
        major: 1,
        minor: 0,
        patch: 0,
        prerelease: None,
        build: None,
    });
    assert_eq!(
        to_python(&scoped).unwrap_err(),
        "Use a numeric release (1.2.3) or an a/b/rc prerelease (1.2.3-rc.1). Epoch, post, dev, local, and four-part versions are not supported."
    );
}

#[test]
fn release_parts_beyond_proto_range_have_no_proto_version() {
    assert!(to_proto("4294967296").is_none());
    assert_eq!(to_proto("4294967295.1").unwrap().to_text(), "4294967295.1.0");
    let v = to_proto("0.0.1b0").unwrap();
    assert_eq!(v, ProtoVersion { major: 0, minor: 0, patch: 1, pre: v.pre });
    assert_eq!(v.pre.unwrap().kind, PreKind::Beta);
    assert_eq!(v.to_text(), "0.0.1-b.0");
}

#[test]
fn discovery_reports_the_package_when_nothing_is_installable() {
    let package = Package::parse("ruff").unwrap();
    let wheel = |v: &str| Release {
        version: v.into(),
        files: vec![ReleaseFile { yanked: false, packagetype: "bdist_wheel".into() }],
    };
    let project = Project { releases: vec![wheel("0.1.0"), wheel("0.2.0.post1"), wheel("0.3.0a1")] };
    let listing = discover_versions(&package, &project).unwrap();
    assert_eq!(listing.versions.len(), 2);
    assert_eq!(listing.latest.unwrap().to_text(), "0.1.0");
    let empty = Project { releases: vec![wheel("1!1.0")] };
    assert_eq!(
        discover_versions(&package, &empty).unwrap_err(),
        "ruff: No supported, non-yanked wheel releases were found on PyPI."
    );
}

#[test]
fn proto_order_and_text_agree_with_version_spec() {
    let values = ["1", "1.0.1", "1.2a1", "1.2a10", "1.2a2", "1.2b2", "1.2rc1", "1.2", "2.0", "10.0", "1.10", "0.0.0rc0"];
    let versions: Vec<ProtoVersion> = values.iter().map(|v| to_proto(v).unwrap()).collect();
    for a in &versions {
        let spec_a = VersionSpec::parse(a.to_text()).unwrap();
        assert_eq!(spec_a.to_string(), a.to_text());
        let parsed = spec_a.as_version().unwrap();
        let model = a.to_spec_version();
        assert_eq!((parsed.major, parsed.minor, parsed.patch), (model.major, model.minor, model.patch));
        assert_eq!(parsed.prerelease.as_deref(), model.prerelease.as_deref());
        for b in &versions {
            let spec_b = VersionSpec::parse(b.to_text()).unwrap();
            assert_eq!(version_less(a, b), spec_a < spec_b, "{} {}", a.to_text(), b.to_text());
        }
    }
}
