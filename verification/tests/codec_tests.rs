use cdbpatch::codec::cdb_escape;
use cdbpatch::codec::tokenize;

fn words(v: &[&str]) -> Vec<String> {
    v.iter().map(|s| s.to_string()).collect()
}

#[test]
fn tokenize_plain_words() {
    assert_eq!(tokenize("a b c d").unwrap(), words(&["a", "b", "c", "d"]));
    assert_eq!(
        tokenize("/usr/bin/cc -O2 -Wall a.c -o a.o").unwrap(),
        words(&["/usr/bin/cc", "-O2", "-Wall", "a.c", "-o", "a.o"])
    );
}

#[test]
fn tokenize_double_quotes() {
    assert_eq!(
        tokenize("here are \"two words\"").unwrap(),
        words(&["here", "are", "two words"])
    );
    assert_eq!(tokenize("a\"b c\"d").unwrap(), words(&["ab cd"]));
    assert_eq!(tokenize("\"\"").unwrap(), words(&[""]));
}

#[test]
fn tokenize_single_quotes() {
    assert_eq!(tokenize("'a b' c").unwrap(), words(&["a b", "c"]));
    assert_eq!(tokenize("''").unwrap(), words(&[""]));
    assert_eq!(tokenize("it'{}'s").unwrap(), words(&["it{}s"]));
}

#[test]
fn tokenize_backslashes() {
    assert_eq!(tokenize("a\\ b").unwrap(), words(&["a b"]));
    assert_eq!(tokenize("\\\"x").unwrap(), words(&["\"x"]));
    assert_eq!(tokenize("\"a\\\"b\"").unwrap(), words(&["a\"b"]));
    assert_eq!(tokenize("\"a\\xb\"").unwrap(), words(&["a\\xb"]));
}

#[test]
fn tokenize_whitespace_only() {
    assert_eq!(tokenize("").unwrap(), words(&[]));
    assert_eq!(tokenize("   \t ").unwrap(), words(&[]));
}

#[test]
fn tokenize_mismatched_quotes() {
    assert!(tokenize("open \"quote").is_err());
    assert!(tokenize("open 'quote").is_err());
    assert!(tokenize("\"a\\\"").is_err());
}

#[test]
fn tokenize_agrees_with_shellwords() {
    let cases = [
        "a b c d",
        "here are \"two words\"",
        "cat file.txt | less",
        "'a b' c",
        "a\\ b",
        "a\"b c\"d",
        "/usr/bin/cc -O2 -Wall a.c -o a.o",
        "\"a\\\"b\" '{}' x\\\\y",
        "  leading and trailing  ",
        "",
    ];
    for case in cases {
        assert_eq!(
            tokenize(case).unwrap(),
            shellwords::split(case).unwrap(),
            "case: {:?}",
            case
        );
    }
    let bad = ["open \"quote", "open 'quote", "\"a\\\""];
    for case in bad {
        assert!(tokenize(case).is_err(), "case: {:?}", case);
        assert!(shellwords::split(case).is_err(), "case: {:?}", case);
    }
}

#[test]
fn escape_empty_is_quoted() {
    assert_eq!(cdb_escape(""), "\"\"");
}

#[test]
fn escape_space_is_quoted() {
    assert_eq!(cdb_escape("a b"), "\"a b\"");
}

#[test]
fn escape_plain_is_unchanged() {
    assert_eq!(cdb_escape("-O2"), "-O2");
    assert_eq!(cdb_escape("a\tb"), "a\tb");
    assert_eq!(cdb_escape("it's"), "it's");
}

#[test]
fn escape_specials() {
    assert_eq!(cdb_escape("a\"b"), "\"a\\\"b\"");
    assert_eq!(cdb_escape("a\\b"), "\"a\\\\b\"");
    assert_eq!(cdb_escape("a \\"), "\"a \\\\\"");
}

#[test]
fn round_trip_simple_command() {
    let s = "/usr/bin/cc -O2 -Wall a.c -o a.o";
    let toks = tokenize(s).unwrap();
    let joined = toks
        .iter()
        .map(|t| cdb_escape(t))
        .collect::<Vec<_>>()
        .join(" ");
    assert_eq!(joined, s);
}
