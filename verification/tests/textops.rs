use supervisor::service::{build_args, exec_file_name, resolve_exec_path, EnvPair};
use supervisor::text::{replace_all, str_eq, str_eq_ignore_case};

fn pair(k: &str, v: &str) -> EnvPair {
    EnvPair { key: k.to_string(), value: v.to_string() }
}

#[test]
fn build_args_substitutes_each_placeholder() {
    let args = vec![
        "--conf={CONF}".to_string(),
        "{A}{A}".to_string(),
        "plain".to_string(),
    ];
    let env = Some(vec![pair("CONF", "/etc/x"), pair("A", "1")]);
    let out = build_args(&args, &env);
    assert_eq!(
        out,
        vec!["--conf=/etc/x".to_string(), "11".to_string(), "plain".to_string()]
    );
}

#[test]
fn build_args_leaves_unresolved_placeholders_verbatim() {
    let args = vec!["{MISSING} and {HERE}".to_string()];
    let env = Some(vec![pair("HERE", "yes")]);
    let out = build_args(&args, &env);
    assert_eq!(out, vec!["{MISSING} and yes".to_string()]);
}

#[test]
fn build_args_without_env_copies_the_templates() {
    let args = vec!["{X}".to_string(), "y".to_string()];
    let out = build_args(&args, &None);
    assert_eq!(out, vec!["{X}".to_string(), "y".to_string()]);
}

#[test]
fn replace_all_scans_left_to_right_without_overlap() {
    assert_eq!(replace_all("aaa", "aa", "b"), "ba");
    assert_eq!(replace_all("xyxyx", "xyx", "z"), "zyx");
    assert_eq!(replace_all("none here", "zz", "q"), "none here");
    assert_eq!(replace_all("abab", "ab", "abab"), "abababab");
}

#[test]
fn exec_file_name_takes_the_last_path_component() {
    assert_eq!(exec_file_name("/usr/bin/tool"), "tool");
    assert_eq!(exec_file_name("tool.exe"), "tool.exe");
    assert_eq!(exec_file_name("dir\\sub\\prog.exe"), "prog.exe");
    assert_eq!(exec_file_name("mixed/dir\\prog"), "prog");
    assert_eq!(exec_file_name("trailing/"), "trailing");
    assert_eq!(exec_file_name("a/."), "a");
}

#[test]
fn exec_file_name_falls_back_to_the_whole_path() {
    assert_eq!(exec_file_name(""), "");
    assert_eq!(exec_file_name("/"), "/");
    assert_eq!(exec_file_name("a/.."), "a/..");
    assert_eq!(exec_file_name("."), ".");
}

#[test]
fn resolve_exec_path_joins_unless_absolute() {
    assert_eq!(resolve_exec_path(&Some("bin".to_string()), "tool"), "bin/tool");
    assert_eq!(resolve_exec_path(&Some("bin/".to_string()), "tool"), "bin/tool");
    assert_eq!(resolve_exec_path(&Some("bin".to_string()), "/abs/tool"), "/abs/tool");
    assert_eq!(resolve_exec_path(&None, "tool"), "tool");
    assert_eq!(resolve_exec_path(&Some("".to_string()), "tool"), "tool");
}

#[test]
fn string_comparisons_fold_ascii_case_only() {
    assert!(str_eq("same", "same"));
    assert!(!str_eq("same", "Same"));
    assert!(str_eq_ignore_case("Aria2C.EXE", "aria2c.exe"));
    assert!(!str_eq_ignore_case("aria2c", "aria2c.exe"));
}
