use cdbpatch::codec::tokenize;
use cdbpatch::lang::Language;
use cdbpatch::lang::file_to_language;
use cdbpatch::patch::ensure_nostdinc;
use cdbpatch::patch::render_command;
use cdbpatch::resolver::build_probe_key;
use cdbpatch::resolver::extract_includes;
use cdbpatch::resolver::splice_includes;
use cdbpatch::resolver::ResolveStep;
use cdbpatch::resolver::ToolchainInfoCache;

fn words(v: &[&str]) -> Vec<String> {
    v.iter().map(|s| s.to_string()).collect()
}

#[test]
fn classify_by_extension() {
    assert_eq!(file_to_language("foo.c"), Some(Language::C));
    assert_eq!(file_to_language("dir/foo.cpp"), Some(Language::Cxx));
    assert_eq!(file_to_language("foo.cc"), Some(Language::Cxx));
    assert_eq!(file_to_language("foo.py"), None);
    assert_eq!(file_to_language("foo"), None);
    assert_eq!(file_to_language("foo.C"), None);
}

#[test]
fn probe_key_strips_denied_and_positional() {
    let cmd = words(&["/usr/bin/cc", "-O2", "-Wall", "a.c", "-o", "a.o"]);
    let key = build_probe_key("a.c", &cmd).unwrap();
    assert_eq!(
        key,
        words(&["/usr/bin/cc", "-xc", "-P", "-E", "-Wp,-v", "/dev/null"])
    );
}

#[test]
fn probe_key_sorts_retained_flags() {
    let cmd = words(&["cc", "-zeta", "-fPIC", "-alpha"]);
    let key = build_probe_key("f.c", &cmd).unwrap();
    assert_eq!(
        key,
        words(&["cc", "-alpha", "-fPIC", "-zeta", "-xc", "-P", "-E", "-Wp,-v", "/dev/null"])
    );
}

#[test]
fn probe_key_cxx_selector() {
    let cmd = words(&["c++", "-fPIC"]);
    let key = build_probe_key("x.cpp", &cmd).unwrap();
    assert_eq!(
        key,
        words(&["c++", "-fPIC", "-xc++", "-P", "-E", "-Wp,-v", "/dev/null"])
    );
}

#[test]
fn probe_key_keeps_existing_language_flag() {
    let cmd = words(&["cc", "-xc++", "b.py"]);
    let key = build_probe_key("b.py", &cmd).unwrap();
    assert_eq!(key, words(&["cc", "-xc++", "-P", "-E", "-Wp,-v", "/dev/null"]));
}

#[test]
fn probe_key_unknown_language_is_none() {
    let cmd = words(&["cc", "-fPIC", "b.py"]);
    assert!(build_probe_key("b.py", &cmd).is_none());
}

#[test]
fn probe_key_bare_flag_consumes_value() {
    // "-include" in its bare form consumes the following argument, so
    // the header name is not mistaken for a retained flag.
    let cmd = words(&["cc", "-include", "-fake.h", "-fPIC"]);
    let key = build_probe_key("f.c", &cmd).unwrap();
    assert_eq!(key, words(&["cc", "-fPIC", "-xc", "-P", "-E", "-Wp,-v", "/dev/null"]));
}

#[test]
fn extract_include_lines() {
    let incs = extract_includes(" /usr/include\n /usr/local/include");
    assert_eq!(incs, words(&["/usr/include", "/usr/local/include"]));
}

#[test]
fn extract_ignores_other_lines() {
    let diag = "#include <...> search starts here:\n /usr/include\n  doubled\nEnd of search list.\n";
    assert_eq!(extract_includes(diag), words(&["/usr/include"]));
}

#[test]
fn extract_strips_carriage_return() {
    assert_eq!(extract_includes(" /a\r\n /b"), words(&["/a", "/b"]));
}

#[test]
fn splice_inserts_after_executable_in_reverse() {
    let mut cmd = words(&["cc", "-O2"]);
    splice_includes(&mut cmd, &words(&["/usr/include", "/usr/local/include"]));
    assert_eq!(
        cmd,
        words(&["cc", "-isystem/usr/local/include", "-isystem/usr/include", "-O2"])
    );
}

#[test]
fn resolve_scenario_entry_patched() {
    // One database entry resolved against a stub compiler whose probe
    // reports two include directories on its diagnostic stream.
    let mut cache = ToolchainInfoCache::new();
    let mut command = tokenize("/usr/bin/cc -O2 -Wall a.c -o a.o").unwrap();
    let args = match cache.begin_resolve("a.c", &mut command) {
        ResolveStep::NeedProbe { args } => args,
        ResolveStep::Done => panic!("expected a probe"),
    };
    assert_eq!(
        args,
        words(&["/usr/bin/cc", "-xc", "-P", "-E", "-Wp,-v", "/dev/null"])
    );
    cache.finish_resolve(args, " /usr/include\n /usr/local/include", &mut command);
    ensure_nostdinc(&mut command);
    let rendered = render_command(&command, &words(&[]));
    assert_eq!(
        rendered,
        "/usr/bin/cc -isystem/usr/local/include -isystem/usr/include -O2 -Wall a.c -o a.o -nostdinc"
    );
}

#[test]
fn resolve_hits_cache_for_denied_variants() {
    // Two commands differing only in deny-listed flags share a probe key:
    // the second resolution must not ask for a probe.
    let mut cache = ToolchainInfoCache::new();
    let mut first = words(&["cc", "-fPIC", "-O2", "-DFOO", "a.c"]);
    let args = match cache.begin_resolve("a.c", &mut first) {
        ResolveStep::NeedProbe { args } => args,
        ResolveStep::Done => panic!("expected a probe"),
    };
    cache.finish_resolve(args, " /x", &mut first);
    assert_eq!(first, words(&["cc", "-isystem/x", "-fPIC", "-O2", "-DFOO", "a.c"]));

    let mut second = words(&["cc", "-O0", "-Wextra", "-fPIC", "-o", "b.o", "b.c"]);
    match cache.begin_resolve("b.c", &mut second) {
        ResolveStep::Done => {}
        ResolveStep::NeedProbe { .. } => panic!("expected a cache hit"),
    }
    assert_eq!(
        second,
        words(&["cc", "-isystem/x", "-O0", "-Wextra", "-fPIC", "-o", "b.o", "b.c"])
    );
}

#[test]
fn resolve_skips_unknown_language() {
    let mut cache = ToolchainInfoCache::new();
    let mut command = words(&["cc", "-O2", "x.py"]);
    match cache.begin_resolve("x.py", &mut command) {
        ResolveStep::Done => {}
        ResolveStep::NeedProbe { .. } => panic!("expected no probe"),
    }
    assert_eq!(command, words(&["cc", "-O2", "x.py"]));
}

#[test]
fn store_primes_the_cache() {
    let mut cache = ToolchainInfoCache::new();
    let key = words(&["cc", "-xc", "-P", "-E", "-Wp,-v", "/dev/null"]);
    cache.store(key, words(&["/opt/inc"]));
    let mut command = words(&["cc", "main.c"]);
    match cache.begin_resolve("main.c", &mut command) {
        ResolveStep::Done => {}
        ResolveStep::NeedProbe { .. } => panic!("expected a cache hit"),
    }
    assert_eq!(command, words(&["cc", "-isystem/opt/inc", "main.c"]));
}
