//! Which compiler invocations are indexed, and reading flags off a command
//! line.

use callscope::driver::{
    arg_value, crate_name_of, driver_args, driver_succeeded, exit_code_of, is_proc_macro, needs_sysroot, should_extract,
    sysroot_from, wrapper_plan, DriverOutcome, WrapperPlan,
};

fn args(v: &[&str]) -> Vec<String> {
    v.iter().map(|s| s.to_string()).collect()
}

#[test]
fn arg_value_reads_separate_and_joined_forms() {
    assert_eq!(arg_value(&args(&["--crate-name", "parser", "src/lib.rs"]), "--crate-name"), Some("parser".to_string()));
    assert_eq!(arg_value(&args(&["--crate-name=parser"]), "--crate-name"), Some("parser".to_string()));
    assert_eq!(arg_value(&args(&["--edition", "2021"]), "--crate-name"), None);
    // a trailing flag with nothing after it gives no value, and the scan goes on
    assert_eq!(arg_value(&args(&["--crate-name"]), "--crate-name"), None);
    // the first occurrence wins
    assert_eq!(
        arg_value(&args(&["--crate-name=first", "--crate-name", "second"]), "--crate-name"),
        Some("first".to_string())
    );
    // an argument that merely starts with the flag's name is not the flag
    assert_eq!(arg_value(&args(&["--crate-names", "x"]), "--crate-name"), None);
    assert_eq!(arg_value(&args(&["--crate-name="]), "--crate-name"), Some(String::new()));
}

#[test]
fn proc_macro_crates_are_recognised_in_both_forms() {
    assert!(is_proc_macro(&args(&["--crate-type", "proc-macro"])));
    assert!(is_proc_macro(&args(&["--crate-type=proc-macro"])));
    assert!(!is_proc_macro(&args(&["--crate-type", "lib"])));
    assert!(!is_proc_macro(&args(&["--crate-type"])));
    assert!(!is_proc_macro(&args(&["proc-macro", "--crate-type"])));
}

#[test]
fn only_real_workspace_compiles_are_extracted() {
    let lib = args(&["--crate-name", "parser", "--edition=2021", "src/lib.rs"]);
    assert!(should_extract(true, &lib));
    // not a workspace member
    assert!(!should_extract(false, &lib));
    // no crate name
    assert!(!should_extract(true, &args(&["src/lib.rs"])));
    // build script
    assert!(!should_extract(true, &args(&["--crate-name", "build_script_build", "build.rs"])));
    // proc-macro
    assert!(!should_extract(true, &args(&["--crate-name", "derive", "--crate-type", "proc-macro", "src/lib.rs"])));
    // a version or print probe names no input
    assert!(!should_extract(true, &args(&["--crate-name", "___", "--print=cfg", "-"])));
}


#[test]
fn the_wrapper_extracts_workspace_crates_and_passes_the_rest_through() {
    assert!(matches!(wrapper_plan(&args(&["callscope-index"]), true), WrapperPlan::MissingCompiler));
    let argv = args(&["callscope-index", "/bin/rustc", "--crate-name", "parser", "src/lib.rs"]);
    match wrapper_plan(&argv, true) {
        WrapperPlan::Extract { rustc, args } => {
            assert_eq!(rustc, "/bin/rustc");
            assert_eq!(args, vec!["--crate-name", "parser", "src/lib.rs"]);
        }
        _ => panic!("expected extraction"),
    }
    match wrapper_plan(&argv, false) {
        WrapperPlan::Passthrough { rustc, args } => {
            assert_eq!(rustc, "/bin/rustc");
            assert_eq!(args, vec!["--crate-name", "parser", "src/lib.rs"]);
        }
        _ => panic!("expected passthrough"),
    }
    match wrapper_plan(&args(&["w", "rustc", "-vV"]), true) {
        WrapperPlan::Passthrough { rustc, args } => {
            assert_eq!(rustc, "rustc");
            assert_eq!(args, vec!["-vV"]);
        }
        _ => panic!("expected passthrough"),
    }
}

#[test]
fn the_driver_is_told_its_sysroot_only_when_the_arguments_name_none() {
    let plain = args(&["--crate-name", "parser", "src/lib.rs"]);
    assert!(needs_sysroot(&plain));
    assert_eq!(
        driver_args("/bin/rustc", &plain, Some("/opt/sys".to_string())),
        vec!["/bin/rustc", "--crate-name", "parser", "src/lib.rs", "--sysroot", "/opt/sys"]
    );
    assert_eq!(driver_args("/bin/rustc", &plain, None), vec!["/bin/rustc", "--crate-name", "parser", "src/lib.rs"]);
    let given = args(&["--sysroot=/x", "src/lib.rs"]);
    assert!(!needs_sysroot(&given));
    assert_eq!(driver_args("rustc", &given, Some("/opt/sys".to_string())), vec!["rustc", "--sysroot=/x", "src/lib.rs"]);
}

#[test]
fn crate_name_sysroot_and_exit_status() {
    assert_eq!(crate_name_of(&args(&["--crate-name", "parser"])), "parser");
    assert_eq!(crate_name_of(&args(&["src/lib.rs"])), "crate");
    assert_eq!(sysroot_from(true, "  /opt/toolchain\n"), Some("/opt/toolchain".to_string()));
    assert_eq!(sysroot_from(false, "/opt/toolchain\n"), None);
    assert_eq!(exit_code_of(Some(0)), 0);
    assert_eq!(exit_code_of(Some(101)), 101);
    assert_eq!(exit_code_of(Some(256 + 3)), 3);
    assert_eq!(exit_code_of(Some(-1)), 255);
    assert_eq!(exit_code_of(None), 1);
    assert!(driver_succeeded(DriverOutcome::Finished));
    assert!(driver_succeeded(DriverOutcome::Skipped));
    assert!(driver_succeeded(DriverOutcome::Interrupted));
    assert!(!driver_succeeded(DriverOutcome::Failed));
}
