use proto_uv_backend::config::UvBackendConfig;
use proto_uv_backend::package::Package;
use proto_uv_backend::uv::{executable_config, install_command, install_outcome};

#[test]
fn extras_are_part_of_the_pinned_requirement() {
    let package = Package::parse("black/colorama/d").unwrap();
    let command = install_command("/tool", &package.requirement(), "25.1.0", &UvBackendConfig::default(), false);
    assert_eq!(command.args.last().unwrap(), "black[colorama,d]==25.1.0");
    assert_eq!(command.args[command.args.len() - 2], "--");
}

#[test]
fn install_keeps_paths_and_package_arguments_separate() {
    let command = install_command("C:/work space/tool", "httpie", "3.2.4", &UvBackendConfig::default(), false);
    assert_eq!(command.command, "uv");
    assert_eq!(command.args.last().unwrap(), "httpie==3.2.4");
    assert!(command.args.contains(&"--no-build".into()));
    assert!(command.args.contains(&"--managed-python".into()));
    for key in ["UV_TOOL_DIR", "UV_TOOL_BIN_DIR", "UV_PYTHON_INSTALL_DIR", "UV_CACHE_DIR", "TEMP"] {
        assert!(command.env_value(key).unwrap().starts_with("C:/work space/tool/"), "{key}");
    }
}

#[test]
fn forced_install_reinstalls_in_the_same_isolated_environment() {
    let command = install_command("/tool", "ruff", "0.11.13", &UvBackendConfig::default(), true);
    let reinstall = command.args.iter().position(|arg| arg == "--reinstall").unwrap();
    let separator = command.args.iter().position(|arg| arg == "--").unwrap();
    assert!(reinstall < separator);
    assert_eq!(command.env_value("UV_TOOL_DIR").unwrap(), "/tool/tools");
}

#[test]
fn registers_all_commands_and_chooses_the_package_command() {
    let output = executable_config("httpie", vec!["https".into(), "httpie".into(), "http".into()], false).unwrap();
    assert_eq!(output.exes.len(), 3);
    assert!(output.get("httpie").unwrap().primary);
    assert!(!output.get("http").unwrap().primary);
    assert_eq!(output.exes_dirs, ["bin"]);
}

#[test]
fn chooses_a_deterministic_primary_when_the_name_differs() {
    for files in [vec!["z".into(), "a".into()], vec!["a".into(), "z".into()]] {
        let output = executable_config("different-package", files, false).unwrap();
        assert!(output.get("a").unwrap().primary);
    }
}

#[test]
fn windows_names_strip_only_launcher_extensions() {
    let output = executable_config(
        "ruff",
        vec!["ruff.exe".into(), "helper.cmd".into(), "helper.ps1".into()],
        true,
    )
    .unwrap();
    assert_eq!(output.exes.len(), 2);
    assert_eq!(output.get("ruff").unwrap().exe_path, "bin/ruff.exe");
    assert!(output.get("ruff").unwrap().primary);
    assert!(executable_config("a", vec!["a.exe".into(), "a.cmd".into()], true).is_err());
}

#[test]
fn empty_exports_and_invalid_paths_are_not_registered() {
    assert!(executable_config("a", vec![], false).is_err());
    assert!(executable_config("a", vec!["../a".into(), ".lock".into()], false).is_err());
}

#[test]
fn install_arguments_are_exact() {
    let command = install_command("/t", "ruff", "1.0.0", &UvBackendConfig { python: "3.13".into() }, false);
    assert_eq!(
        command.args,
        [
            "--no-config", "--no-progress", "tool", "install", "--managed-python", "--python", "3.13",
            "--no-build", "--default-index", "https://pypi.org/simple", "--index-strategy",
            "first-index", "--", "ruff==1.0.0",
        ]
    );
    assert!(!command.stream);
    assert_eq!(command.env.len(), 19);
    assert_eq!(command.env_value("UV_PYTHON_CACHE_DIR").unwrap(), "/t/cache/python");
    assert_eq!(command.env_value("PROTO_UV_VERSION?").unwrap(), "*");
    assert_eq!(command.env_value("UV_INDEX_URL").unwrap(), "");
    assert!(command.env_value("UV_UNKNOWN").is_none());
}

#[test]
fn failed_install_reports_exit_code_and_output() {
    let ok = install_outcome(0, "warn", "done");
    assert!(ok.installed);
    assert!(ok.error.is_none());
    let failed = install_outcome(2, "boom", "partial");
    assert!(!failed.installed);
    assert_eq!(failed.error.unwrap(), "uv tool install failed (exit 2):\nboom\npartial");
    let negative = install_outcome(-1073741819, "", "");
    assert_eq!(negative.error.unwrap(), "uv tool install failed (exit -1073741819):\n\n");
    let minimum = install_outcome(i32::MIN, "e", "o");
    assert_eq!(minimum.error.unwrap(), "uv tool install failed (exit -2147483648):\ne\no");
}

#[test]
fn executable_errors_name_the_offending_file() {
    assert_eq!(
        executable_config("a", vec!["ok".into(), "bad name".into()], false).unwrap_err(),
        "Unsupported executable name: \"bad name\""
    );
    assert_eq!(
        executable_config("a", vec!["a.exe".into(), "a.CMD".into()], true).unwrap_err(),
        "Multiple uv executables have the same command name: a"
    );
    assert_eq!(
        executable_config("pkg", vec!["tool.ps1".into(), "noext".into()], true).unwrap_err(),
        "The package pkg did not export any supported commands."
    );
}

#[test]
fn primary_command_is_matched_after_normalization() {
    let output = executable_config("my-tool", vec!["a".into(), "My_Tool".into(), "z".into()], false).unwrap();
    assert_eq!(output.exes.len(), 3);
    assert!(output.get("My_Tool").unwrap().primary);
    assert_eq!(output.exes.iter().filter(|e| e.primary).count(), 1);
    assert!(output.exes.iter().all(|e| e.no_bin));
    let names: Vec<&str> = output.exes.iter().map(|e| e.name.as_str()).collect();
    assert_eq!(names, ["My_Tool", "a", "z"]);
}

#[test]
fn windows_launcher_extensions_ignore_case_and_keep_inner_dots() {
    let output = executable_config("x", vec!["py.test.BAT".into(), "x.Exe".into()], true).unwrap();
    assert_eq!(output.get("py.test").unwrap().exe_path, "bin/py.test.BAT");
    assert_eq!(output.get("x").unwrap().exe_path, "bin/x.Exe");
    assert!(output.get("x").unwrap().primary);
}

#[test]
fn file_order_changes_neither_commands_nor_failure() {
    let forward = executable_config("b", vec!["c".into(), "b".into(), "a".into()], false).unwrap();
    let backward = executable_config("b", vec!["a".into(), "b".into(), "c".into()], false).unwrap();
    let names = |set: &proto_uv_backend::uv::ExecutableSet| {
        set.exes.iter().map(|e| (e.name.clone(), e.exe_path.clone(), e.primary)).collect::<Vec<_>>()
    };
    assert_eq!(names(&forward), names(&backward));
    assert!(executable_config("a", vec!["a.exe".into(), "a.bat".into()], true).is_err());
    assert!(executable_config("a", vec!["a.bat".into(), "a.exe".into()], true).is_err());
}
