use cdbpatch::patch::append_args;
use cdbpatch::patch::apply_compiler_override;
use cdbpatch::patch::ensure_nostdinc;
use cdbpatch::patch::render_command;

fn words(v: &[&str]) -> Vec<String> {
    v.iter().map(|s| s.to_string()).collect()
}

#[test]
fn override_replaces_c_compiler() {
    let mut cmd = words(&["cc", "-O2", "a.c"]);
    apply_compiler_override(&mut cmd, "a.c", &Some("clang".to_string()), &None);
    assert_eq!(cmd, words(&["clang", "-O2", "a.c"]));
}

#[test]
fn override_replaces_cxx_compiler() {
    let mut cmd = words(&["c++", "b.cpp"]);
    apply_compiler_override(&mut cmd, "b.cpp", &None, &Some("clang++".to_string()));
    assert_eq!(cmd, words(&["clang++", "b.cpp"]));
}

#[test]
fn override_ignores_other_languages() {
    let mut cmd = words(&["cc", "x.py"]);
    apply_compiler_override(
        &mut cmd,
        "x.py",
        &Some("clang".to_string()),
        &Some("clang++".to_string()),
    );
    assert_eq!(cmd, words(&["cc", "x.py"]));
    let mut cmd2 = words(&["cc", "a.c"]);
    apply_compiler_override(&mut cmd2, "a.c", &None, &Some("clang++".to_string()));
    assert_eq!(cmd2, words(&["cc", "a.c"]));
}

#[test]
fn nostdinc_appended_once() {
    let mut cmd = words(&["cc", "-O2"]);
    ensure_nostdinc(&mut cmd);
    assert_eq!(cmd, words(&["cc", "-O2", "-nostdinc"]));
    ensure_nostdinc(&mut cmd);
    assert_eq!(cmd, words(&["cc", "-O2", "-nostdinc"]));
}

#[test]
fn ccadd_appended_verbatim() {
    let mut cmd = words(&["cc"]);
    append_args(&mut cmd, &words(&["-g", "-DX=1"]));
    assert_eq!(cmd, words(&["cc", "-g", "-DX=1"]));
}

#[test]
fn render_escapes_and_joins() {
    let cmd = words(&["cc", "a b", "", "-O2"]);
    assert_eq!(render_command(&cmd, &words(&[])), "cc \"a b\" \"\" -O2");
}

#[test]
fn ccdel_matches_escaped_form() {
    // Removal compares the escaped token: a plain flag matches its plain
    // spelling, and a flag that escaping quotes matches only the quoted
    // spelling.
    let cmd = words(&["cc", "-DFOO", "a b"]);
    assert_eq!(
        render_command(&cmd, &words(&["-DFOO"])),
        "cc \"a b\""
    );
    assert_eq!(
        render_command(&cmd, &words(&["a b"])),
        "cc -DFOO \"a b\""
    );
    assert_eq!(
        render_command(&cmd, &words(&["\"a b\""])),
        "cc -DFOO"
    );
}

#[test]
fn patch_pipeline_without_resolution() {
    let mut cmd = cdbpatch::codec::tokenize("gcc -c main.c -o main.o").unwrap();
    apply_compiler_override(&mut cmd, "main.c", &Some("cc".to_string()), &None);
    append_args(&mut cmd, &words(&["-g"]));
    let rendered = render_command(&cmd, &words(&["-c"]));
    assert_eq!(rendered, "cc main.c -o main.o -g");
}
