//! Toolchain include resolution: canonicalizes a compiler command into a
//! deterministic probe key, extracts the implicit system include
//! directories from the probe's diagnostic output, splices them into the
//! command, and caches the result per probe key.
//!
//! The probe process itself is spawned by the caller: `begin_resolve` says
//! whether a probe is needed and with which argument vector, and
//! `finish_resolve` takes the captured diagnostics back.

use vstd::prelude::*;
use vstd::multiset::Multiset;
use vstd::seq_lib::group_to_multiset_ensures;
use vstd::seq_lib::lemma_multiset_commutative;
use crate::strutil::is_prefix;
use crate::strutil::lex_le;
use crate::strutil::lex_lt;
use crate::strutil::lemma_lex_le_total;
use crate::strutil::lemma_lex_le_trans;
use crate::strutil::str_starts_with;
use crate::strutil::str_eq;
use crate::strutil::push_char;
use crate::lang::Language;
use crate::lang::classify;
use crate::lang::file_to_language;
use crate::codec::views;
use crate::codec::lemma_views_push;
use crate::codec::lemma_views_concat;
use crate::codec::lemma_views_insert;

verus! {

/// How an argument relates to the deny list of flags that cannot affect
/// the implicit include search: `Some(true)` when it is a deny-listed flag
/// in its bare form, whose value follows as the next argument; `Some(false)`
/// when it is a deny-listed flag with its value attached; `None` when it is
/// not deny-listed.
pub open spec fn deny_match(a: Seq<char>) -> Option<bool> {
    if is_prefix("-I"@, a) {
        Some(a == "-I"@)
    } else if is_prefix("-L"@, a) {
        Some(a == "-L"@)
    } else if is_prefix("-imacros"@, a) {
        Some(a == "-imacros"@)
    } else if is_prefix("-isystem"@, a) {
        Some(a == "-isystem"@)
    } else if is_prefix("-include"@, a) {
        Some(a == "-include"@)
    } else if is_prefix("-D"@, a) {
        Some(a == "-D"@)
    } else if is_prefix("-W"@, a) {
        Some(a == "-W"@)
    } else if is_prefix("-o"@, a) {
        Some(a == "-o"@)
    } else if is_prefix("-c"@, a) {
        Some(a == "-c"@)
    } else if is_prefix("-E"@, a) {
        Some(a == "-E"@)
    } else if is_prefix("-fmacro-prefix-map"@, a) {
        Some(a == "-fmacro-prefix-map"@)
    } else if is_prefix("-O"@, a) {
        Some(a == "-O"@)
    } else {
        None
    }
}

/// True when the argument is a flag rather than a positional argument.
pub open spec fn is_flag(a: Seq<char>) -> bool {
    a.len() > 0 && a[0] == '-'
}

/// The arguments retained for the probe key, in their original order:
/// deny-listed flags are dropped (a bare one together with the following
/// value argument), and so is every positional argument.
pub open spec fn filter_args(rest: Seq<Seq<char>>) -> Seq<Seq<char>>
    decreases rest.len(),
{
    if rest.len() == 0 {
        Seq::empty()
    } else {
        match deny_match(rest[0]) {
            Some(true) => if rest.len() >= 2 {
                filter_args(rest.skip(2))
            } else {
                Seq::empty()
            },
            Some(false) => filter_args(rest.skip(1)),
            None => if is_flag(rest[0]) {
                seq![rest[0]] + filter_args(rest.skip(1))
            } else {
                filter_args(rest.skip(1))
            },
        }
    }
}

/// `x` inserted into `s` before the first element it precedes strictly.
pub open spec fn insert_sorted(s: Seq<Seq<char>>, x: Seq<char>) -> Seq<Seq<char>>
    decreases s.len(),
{
    if s.len() == 0 {
        seq![x]
    } else if lex_lt(x, s[0]) {
        seq![x] + s
    } else {
        seq![s[0]] + insert_sorted(s.skip(1), x)
    }
}

/// `s` sorted by the lexicographic order, by repeated insertion.
pub open spec fn sort_lex(s: Seq<Seq<char>>) -> Seq<Seq<char>>
    decreases s.len(),
{
    if s.len() == 0 {
        Seq::empty()
    } else {
        insert_sorted(sort_lex(s.drop_last()), s.last())
    }
}

/// True when the sequence is ordered by `lex_le`.
pub open spec fn sorted_lex(s: Seq<Seq<char>>) -> bool {
    forall|i: int, j: int| 0 <= i < j < s.len() ==> lex_le(s[i], s[j])
}

/// True when some retained flag already selects a source language.
pub open spec fn lang_flag_present(flags: Seq<Seq<char>>) -> bool {
    exists|k: int| 0 <= k < flags.len() && #[trigger] is_prefix("-x"@, flags[k])
}

/// The fixed probe flags: preprocess only, discard primary output, report
/// the search paths verbosely, read the null device.
pub open spec fn probe_tail() -> Seq<Seq<char>> {
    seq!["-P"@, "-E"@, "-Wp,-v"@, "/dev/null"@]
}

/// The canonical probe argument vector of a command: its executable, the
/// retained flags sorted, a language selector when none is retained (and
/// nothing at all when the file's language is unknown), and the fixed
/// probe flags.
pub open spec fn probe_key_spec(file: Seq<char>, cmd: Seq<Seq<char>>) -> Option<Seq<Seq<char>>>
    recommends
        cmd.len() >= 1,
{
    let flags = sort_lex(filter_args(cmd.skip(1)));
    if lang_flag_present(flags) {
        Some(seq![cmd[0]] + flags + probe_tail())
    } else {
        match classify(file) {
            Some(Language::C) => Some(seq![cmd[0]] + flags + seq!["-xc"@] + probe_tail()),
            Some(Language::Cxx) => Some(seq![cmd[0]] + flags + seq!["-xc++"@] + probe_tail()),
            None => None,
        }
    }
}

/// Classifies one argument against one deny-list entry.
fn match_one(arg: &str, d: &str) -> (r: Option<bool>)
    ensures
        r == (if is_prefix(d@, arg@) {
            Some(arg@ == d@)
        } else {
            None::<bool>
        }),
{
    if str_starts_with(arg, d) {
        Some(str_eq(arg, d))
    } else {
        None
    }
}

/// Classifies one argument against the deny list.
fn deny_match_exec(arg: &str) -> (r: Option<bool>)
    ensures
        r == deny_match(arg@),
{
    if let Some(b) = match_one(arg, "-I") {
        return Some(b);
    }
    if let Some(b) = match_one(arg, "-L") {
        return Some(b);
    }
    if let Some(b) = match_one(arg, "-imacros") {
        return Some(b);
    }
    if let Some(b) = match_one(arg, "-isystem") {
        return Some(b);
    }
    if let Some(b) = match_one(arg, "-include") {
        return Some(b);
    }
    if let Some(b) = match_one(arg, "-D") {
        return Some(b);
    }
    if let Some(b) = match_one(arg, "-W") {
        return Some(b);
    }
    if let Some(b) = match_one(arg, "-o") {
        return Some(b);
    }
    if let Some(b) = match_one(arg, "-c") {
        return Some(b);
    }
    if let Some(b) = match_one(arg, "-E") {
        return Some(b);
    }
    if let Some(b) = match_one(arg, "-fmacro-prefix-map") {
        return Some(b);
    }
    if let Some(b) = match_one(arg, "-O") {
        return Some(b);
    }
    None
}

/// True when the argument is a flag.
fn is_flag_exec(arg: &str) -> (r: bool)
    ensures
        r == is_flag(arg@),
{
    arg.unicode_len() > 0 && arg.get_char(0) == '-'
}

/// The position in a sorted vector before which `x` belongs.
fn insert_position(v: &Vec<String>, x: &String) -> (j: usize)
    ensures
        j <= v@.len(),
        forall|k: int| 0 <= k < j ==> !lex_lt(x@, #[trigger] v@[k]@),
        j < v@.len() ==> lex_lt(x@, v@[j as int]@),
{
    let n: usize = v.len();
    let mut j: usize = 0;
    while j < n
        invariant
            j <= n,
            n == v@.len(),
            forall|k: int| 0 <= k < j ==> !lex_lt(x@, #[trigger] v@[k]@),
        decreases n - j,
    {
        if !crate::strutil::str_le(v[j].as_str(), x.as_str()) {
            return j;
        }
        j += 1;
    }
    j
}

proof fn lemma_insert_sorted_at(s: Seq<Seq<char>>, x: Seq<char>, j: int)
    requires
        0 <= j <= s.len(),
        forall|k: int| 0 <= k < j ==> !lex_lt(x, #[trigger] s[k]),
        j < s.len() ==> lex_lt(x, s[j]),
    ensures
        insert_sorted(s, x) == s.insert(j, x),
    decreases s.len(),
{
    if s.len() == 0 {
        assert(s.insert(0, x) =~= seq![x]);
    } else if j == 0 {
        assert(lex_lt(x, s[0]));
        assert(seq![x] + s =~= s.insert(0, x));
    } else {
        assert(!lex_lt(x, s[0]));
        assert(forall|k: int| 0 <= k < j - 1 ==> s.skip(1)[k] == s[k + 1]);
        lemma_insert_sorted_at(s.skip(1), x, j - 1);
        assert(seq![s[0]] + s.skip(1).insert(j - 1, x) =~= s.insert(j, x));
    }
}

/// Every element of `insert_sorted(s, x)` is `x` or an element of `s`.
proof fn lemma_insert_sorted_membership(s: Seq<Seq<char>>, x: Seq<char>)
    ensures
        forall|i: int|
            0 <= i < insert_sorted(s, x).len() ==> (#[trigger] insert_sorted(s, x)[i] == x
                || s.contains(insert_sorted(s, x)[i])),
    decreases s.len(),
{
    if s.len() == 0 {
    } else if lex_lt(x, s[0]) {
        assert(forall|i: int|
            1 <= i < (seq![x] + s).len() ==> (seq![x] + s)[i] == s[i - 1] && s.contains(s[i - 1]));
    } else {
        lemma_insert_sorted_membership(s.skip(1), x);
        let r = seq![s[0]] + insert_sorted(s.skip(1), x);
        assert(forall|k: int| 0 <= k < s.skip(1).len() ==> s.skip(1)[k] == s[k + 1]);
        assert forall|i: int| 1 <= i < r.len() implies (r[i] == x || s.contains(r[i])) by {
            assert(r[i] == insert_sorted(s.skip(1), x)[i - 1]);
            if r[i] != x {
                assert(s.skip(1).contains(r[i]));
                let k = choose|k: int| 0 <= k < s.skip(1).len() && s.skip(1)[k] == r[i];
                assert(s[k + 1] == r[i]);
            }
        }
        assert(s.contains(s[0]));
    }
}

proof fn lemma_insert_sorted_sorted(s: Seq<Seq<char>>, x: Seq<char>)
    requires
        sorted_lex(s),
    ensures
        sorted_lex(insert_sorted(s, x)),
    decreases s.len(),
{
    if s.len() == 0 {
    } else if lex_lt(x, s[0]) {
        let r = seq![x] + s;
        lemma_lex_le_total(x, s[0]);
        assert forall|i: int, j: int| 0 <= i < j < r.len() implies lex_le(r[i], r[j]) by {
            if i == 0 {
                if j == 1 {
                    assert(r[j] == s[0]);
                } else {
                    lemma_lex_le_trans(x, s[0], s[j - 1]);
                }
            }
        }
    } else {
        assert(sorted_lex(s.skip(1))) by {
            assert(forall|k: int| 0 <= k < s.skip(1).len() ==> s.skip(1)[k] == s[k + 1]);
        }
        lemma_insert_sorted_sorted(s.skip(1), x);
        lemma_insert_sorted_membership(s.skip(1), x);
        let t = insert_sorted(s.skip(1), x);
        let r = seq![s[0]] + t;
        assert(lex_le(s[0], x));
        assert forall|i: int, j: int| 0 <= i < j < r.len() implies lex_le(r[i], r[j]) by {
            if i == 0 {
                assert(r[j] == t[j - 1]);
                if t[j - 1] == x {
                } else {
                    assert(s.skip(1).contains(t[j - 1]));
                    let k = choose|k: int| 0 <= k < s.skip(1).len() && s.skip(1)[k] == t[j - 1];
                    assert(s[k + 1] == t[j - 1]);
                    assert(lex_le(s[0], s[k + 1]));
                }
            } else {
                assert(r[i] == t[i - 1] && r[j] == t[j - 1]);
            }
        }
    }
}

proof fn lemma_insert_sorted_multiset(s: Seq<Seq<char>>, x: Seq<char>)
    ensures
        insert_sorted(s, x).to_multiset() == s.to_multiset().insert(x),
    decreases s.len(),
{
    broadcast use group_to_multiset_ensures;

    if s.len() == 0 {
        assert(seq![x] =~= Seq::<Seq<char>>::empty().push(x));
        assert(s =~= Seq::<Seq<char>>::empty());
        assert(insert_sorted(s, x).to_multiset() =~= s.to_multiset().insert(x));
    } else if lex_lt(x, s[0]) {
        lemma_multiset_commutative(seq![x], s);
        assert(seq![x] =~= Seq::<Seq<char>>::empty().push(x));
        assert(seq![x].to_multiset() =~= Multiset::<Seq<char>>::empty().insert(x));
        assert((seq![x] + s).to_multiset() =~= s.to_multiset().insert(x));
    } else {
        lemma_insert_sorted_multiset(s.skip(1), x);
        lemma_multiset_commutative(seq![s[0]], insert_sorted(s.skip(1), x));
        lemma_multiset_commutative(seq![s[0]], s.skip(1));
        assert(s =~= seq![s[0]] + s.skip(1));
        assert(seq![s[0]] =~= Seq::<Seq<char>>::empty().push(s[0]));
        assert(seq![s[0]].to_multiset() =~= Multiset::<Seq<char>>::empty().insert(s[0]));
        assert((seq![s[0]] + insert_sorted(s.skip(1), x)).to_multiset() =~= s.to_multiset().insert(
            x,
        ));
    }
}

/// Sorting keeps exactly the given arguments.
pub proof fn lemma_sort_lex_multiset(s: Seq<Seq<char>>)
    ensures
        sort_lex(s).to_multiset() == s.to_multiset(),
    decreases s.len(),
{
    broadcast use group_to_multiset_ensures;

    if s.len() == 0 {
        assert(sort_lex(s).to_multiset() =~= s.to_multiset());
    } else {
        lemma_sort_lex_multiset(s.drop_last());
        lemma_insert_sorted_multiset(sort_lex(s.drop_last()), s.last());
        assert(s =~= s.drop_last().push(s.last()));
        assert(s.drop_last().push(s.last()).to_multiset() =~= s.drop_last().to_multiset().insert(
            s.last(),
        ));
    }
}

/// Sorting orders the arguments.
pub proof fn lemma_sort_lex_sorted(s: Seq<Seq<char>>)
    ensures
        sorted_lex(sort_lex(s)),
    decreases s.len(),
{
    if s.len() != 0 {
        lemma_sort_lex_sorted(s.drop_last());
        lemma_insert_sorted_sorted(sort_lex(s.drop_last()), s.last());
    }
}

/// Sorts the strings by the lexicographic order on their characters.
fn sort_strings(v: &Vec<String>) -> (r: Vec<String>)
    ensures
        views(r@) == sort_lex(views(v@)),
{
    let n: usize = v.len();
    let mut out: Vec<String> = Vec::new();
    let mut i: usize = 0;
    proof {
        assert(views(out@) =~= Seq::<Seq<char>>::empty());
        assert(views(v@).take(0) =~= Seq::<Seq<char>>::empty());
    }
    while i < n
        invariant
            i <= n,
            n == v@.len(),
            views(out@) == sort_lex(views(v@).take(i as int)),
        decreases n - i,
    {
        let x: String = v[i].clone();
        let j: usize = insert_position(&out, &x);
        let ghost prev = out@;
        proof {
            assert(forall|k: int| 0 <= k < prev.len() ==> views(prev)[k] == prev[k]@);
            lemma_insert_sorted_at(views(prev), x@, j as int);
        }
        out.insert(j, x);
        proof {
            lemma_views_insert(prev, j as int, x);
            assert(views(out@) == insert_sorted(views(prev), x@));
        }
        i += 1;
        proof {
            assert(views(v@).take(i as int).drop_last() =~= views(v@).take(i as int - 1));
            assert(views(v@).take(i as int).last() == v@[i as int - 1]@);
        }
    }
    proof {
        assert(views(v@).take(n as int) =~= views(v@));
    }
    out
}

/// Builds the probe argument vector for a command, or nothing when the
/// file's language is unknown and no retained flag selects one.
pub fn build_probe_key(file: &str, command: &Vec<String>) -> (r: Option<Vec<String>>)
    requires
        command@.len() >= 1,
    ensures
        match r {
            Some(key) => probe_key_spec(file@, views(command@)) == Some(views(key@)),
            None => probe_key_spec(file@, views(command@)) is None,
        },
{
    let ghost whole = views(command@).skip(1);
    let n: usize = command.len();
    let mut kept: Vec<String> = Vec::new();
    let mut i: usize = 1;
    proof {
        assert(views(kept@) =~= Seq::<Seq<char>>::empty());
        assert(Seq::<Seq<char>>::empty() + filter_args(whole) =~= filter_args(whole));
        assert(views(command@).skip(1) =~= whole);
    }
    while i < n
        invariant
            1 <= i <= n,
            n == command@.len(),
            whole == views(command@).skip(1),
            filter_args(whole) == views(kept@) + filter_args(views(command@).skip(i as int)),
        decreases n - i,
    {
        let ghost rest = views(command@).skip(i as int);
        proof {
            assert(rest[0] == views(command@)[i as int]);
            assert(rest.skip(1) =~= views(command@).skip(i as int + 1));
            assert(rest.len() == n - i);
        }
        match deny_match_exec(command[i].as_str()) {
            Some(true) => {
                if i + 1 < n {
                    proof {
                        assert(rest.skip(2) =~= views(command@).skip(i as int + 2));
                    }
                    i += 2;
                } else {
                    proof {
                        assert(views(command@).skip(n as int) =~= Seq::<Seq<char>>::empty());
                        assert(filter_args(Seq::<Seq<char>>::empty()) =~= Seq::<Seq<char>>::empty());
                    }
                    i = n;
                }
            },
            Some(false) => {
                i += 1;
            },
            None => {
                if is_flag_exec(command[i].as_str()) {
                    let a: String = command[i].clone();
                    proof {
                        lemma_views_push(kept@, a);
                        assert(views(kept@) + (seq![rest[0]] + filter_args(rest.skip(1))) =~= views(
                            kept@,
                        ).push(a@) + filter_args(rest.skip(1)));
                    }
                    kept.push(a);
                }
                i += 1;
            },
        }
    }
    proof {
        assert(views(command@).skip(n as int) =~= Seq::<Seq<char>>::empty());
        assert(filter_args(Seq::<Seq<char>>::empty()) =~= Seq::<Seq<char>>::empty());
        assert(views(kept@) + Seq::<Seq<char>>::empty() =~= views(kept@));
        assert(views(kept@) == filter_args(whole));
    }
    let sorted_flags = sort_strings(&kept);
    let ghost flags = sort_lex(filter_args(whole));
    let m: usize = sorted_flags.len();
    let mut has_lang = false;
    let mut k: usize = 0;
    while k < m
        invariant
            k <= m,
            m == sorted_flags@.len(),
            views(sorted_flags@) == flags,
            has_lang == exists|t: int| 0 <= t < k && #[trigger] is_prefix("-x"@, sorted_flags@[t]@),
        decreases m - k,
    {
        if str_starts_with(sorted_flags[k].as_str(), "-x") {
            has_lang = true;
        }
        k += 1;
    }
    proof {
        assert(forall|t: int| 0 <= t < m ==> flags[t] == sorted_flags@[t]@);
        if has_lang {
            let t = choose|t: int| 0 <= t < m && #[trigger] is_prefix("-x"@, sorted_flags@[t]@);
            assert(is_prefix("-x"@, flags[t]));
        }
        if lang_flag_present(flags) {
            let t = choose|t: int| 0 <= t < flags.len() && #[trigger] is_prefix("-x"@, flags[t]);
            assert(is_prefix("-x"@, sorted_flags@[t]@));
        }
        assert(has_lang == lang_flag_present(flags));
    }
    let mut key: Vec<String> = Vec::new();
    key.push(command[0].clone());
    proof {
        assert(views(key@) =~= seq![views(command@)[0]]);
    }
    let ghost before_append = key@;
    let mut sf = sorted_flags;
    let ghost sfv = sf@;
    key.append(&mut sf);
    proof {
        lemma_views_concat(before_append, sfv);
        assert(views(key@) =~= seq![views(command@)[0]] + flags);
    }
    if !has_lang {
        match file_to_language(file) {
            Some(Language::C) => {
                let ghost base = views(key@);
                key.push(String::from_str("-xc"));
                proof {
                    assert(views(key@) =~= base + seq!["-xc"@]);
                }
            },
            Some(Language::Cxx) => {
                let ghost base = views(key@);
                key.push(String::from_str("-xc++"));
                proof {
                    assert(views(key@) =~= base + seq!["-xc++"@]);
                }
            },
            None => {
                return None;
            },
        }
    }
    let ghost base2 = views(key@);
    key.push(String::from_str("-P"));
    key.push(String::from_str("-E"));
    key.push(String::from_str("-Wp,-v"));
    key.push(String::from_str("/dev/null"));
    proof {
        assert(views(key@) =~= base2 + probe_tail());
        if has_lang {
            assert(views(key@) =~= seq![views(command@)[0]] + flags + probe_tail());
        } else if classify(file@) == Some(Language::C) {
            assert(views(key@) =~= seq![views(command@)[0]] + flags + seq!["-xc"@] + probe_tail());
        } else {
            assert(classify(file@) == Some(Language::Cxx));
            assert(views(key@) =~= seq![views(command@)[0]] + flags + seq!["-xc++"@]
                + probe_tail());
        }
    }
    Some(key)
}

/// The command with a system-include flag for each directory inserted at
/// position 1, in discovery order; later insertions land nearer the
/// executable.
pub open spec fn splice_spec(cmd: Seq<Seq<char>>, incs: Seq<Seq<char>>) -> Seq<Seq<char>>
    recommends
        cmd.len() >= 1,
    decreases incs.len(),
{
    if incs.len() == 0 {
        cmd
    } else {
        splice_spec(cmd.insert(1, "-isystem"@ + incs[0]), incs.skip(1))
    }
}

/// Splices the include directories into the command.
pub fn splice_includes(command: &mut Vec<String>, includes: &Vec<String>)
    requires
        old(command)@.len() >= 1,
    ensures
        views(final(command)@) == splice_spec(views(old(command)@), views(includes@)),
{
    let n: usize = includes.len();
    let mut i: usize = 0;
    proof {
        assert(views(includes@).skip(0) =~= views(includes@));
    }
    while i < n
        invariant
            i <= n,
            n == includes@.len(),
            command@.len() >= 1,
            splice_spec(views(old(command)@), views(includes@)) == splice_spec(
                views(command@),
                views(includes@).skip(i as int),
            ),
        decreases n - i,
    {
        let mut s = String::from_str("-isystem");
        s.append(includes[i].as_str());
        let ghost prev = command@;
        proof {
            lemma_views_insert(prev, 1, s);
            assert(views(includes@).skip(i as int)[0] == views(includes@)[i as int]);
            assert(views(includes@).skip(i as int).skip(1) =~= views(includes@).skip(i as int + 1));
        }
        command.insert(1, s);
        i += 1;
    }
    proof {
        assert(views(includes@).skip(n as int) =~= Seq::<Seq<char>>::empty());
    }
}

/// A diagnostic line with a trailing carriage return removed.
pub open spec fn strip_cr(l: Seq<char>) -> Seq<char> {
    if l.len() > 0 && l.last() == '\r' {
        l.drop_last()
    } else {
        l
    }
}

/// The include directory a diagnostic line names: lines beginning with
/// exactly one space are include-path lines, and that space is stripped;
/// every other line is ignored.
pub open spec fn keep_line(l: Seq<char>) -> Seq<Seq<char>> {
    let t = strip_cr(l);
    if t.len() >= 1 && t[0] == ' ' && (t.len() == 1 || t[1] != ' ') {
        seq![t.skip(1)]
    } else {
        Seq::empty()
    }
}

/// Scans the diagnostics character by character: `cur` is the line
/// gathered so far, `acc` the directories already found.
pub open spec fn extract_rec(s: Seq<char>, cur: Seq<char>, acc: Seq<Seq<char>>) -> Seq<Seq<char>>
    decreases s.len(),
{
    if s.len() == 0 {
        acc + keep_line(cur)
    } else if s[0] == '\n' {
        extract_rec(s.skip(1), Seq::empty(), acc + keep_line(cur))
    } else {
        extract_rec(s.skip(1), cur.push(s[0]), acc)
    }
}

/// The include directories named by a probe's diagnostic output, in order.
pub open spec fn extract_includes_spec(s: Seq<char>) -> Seq<Seq<char>> {
    extract_rec(s, Seq::empty(), Seq::empty())
}

/// Appends the directory a finished line names, if any.
fn flush_line(line: &String, out: &mut Vec<String>)
    ensures
        views(final(out)@) == views(old(out)@) + keep_line(line@),
{
    let s: &str = line.as_str();
    let m: usize = s.unicode_len();
    let t: &str = if m > 0 && s.get_char(m - 1) == '\r' {
        s.substring_char(0, m - 1)
    } else {
        s
    };
    proof {
        assert(t@ =~= strip_cr(line@));
    }
    let tl: usize = t.unicode_len();
    if tl >= 1 && t.get_char(0) == ' ' {
        if tl == 1 || t.get_char(1) != ' ' {
            let dir = String::from_str(t.substring_char(1, tl));
            let ghost prev = out@;
            proof {
                assert(dir@ =~= strip_cr(line@).skip(1));
            }
            out.push(dir);
            proof {
                assert(views(out@) =~= views(prev) + keep_line(line@));
            }
            return ;
        }
    }
    proof {
        assert(keep_line(line@) =~= Seq::<Seq<char>>::empty());
        assert(views(out@) =~= views(out@) + keep_line(line@));
    }
}

/// Extracts the include directories from the probe's captured diagnostics.
pub fn extract_includes(diag: &str) -> (r: Vec<String>)
    ensures
        views(r@) == extract_includes_spec(diag@),
{
    let n: usize = diag.unicode_len();
    let mut out: Vec<String> = Vec::new();
    let mut cur = String::new();
    let mut i: usize = 0;
    proof {
        assert(diag@.skip(0) =~= diag@);
        assert(views(out@) =~= Seq::<Seq<char>>::empty());
    }
    while i < n
        invariant
            i <= n,
            n == diag@.len(),
            extract_rec(diag@.skip(i as int), cur@, views(out@)) == extract_includes_spec(diag@),
        decreases n - i,
    {
        let c = diag.get_char(i);
        proof {
            assert(diag@.skip(i as int)[0] == diag@[i as int]);
            assert(diag@.skip(i as int).skip(1) =~= diag@.skip(i as int + 1));
        }
        if c == '\n' {
            flush_line(&cur, &mut out);
            cur = String::new();
        } else {
            push_char(&mut cur, c);
        }
        i += 1;
    }
    proof {
        assert(diag@.skip(i as int) =~= Seq::<char>::empty());
    }
    flush_line(&cur, &mut out);
    out
}

/// One cached discovery: a probe argument vector and the include
/// directories its probe reported.
struct CacheEntry {
    key: Vec<String>,
    includes: Vec<String>,
}

/// The per-run cache of toolchain include discoveries, keyed by the
/// canonical probe argument vector.
pub struct ToolchainInfoCache {
    entries: Vec<CacheEntry>,
}

/// The mapping an association list denotes; an earlier entry shadows a
/// later one with the same key.
pub open spec fn assoc_map(es: Seq<(Seq<Seq<char>>, Seq<Seq<char>>)>) -> Map<
    Seq<Seq<char>>,
    Seq<Seq<char>>,
>
    decreases es.len(),
{
    if es.len() == 0 {
        Map::empty()
    } else {
        assoc_map(es.skip(1)).insert(es[0].0, es[0].1)
    }
}

proof fn lemma_assoc_contains(es: Seq<(Seq<Seq<char>>, Seq<Seq<char>>)>, k: Seq<Seq<char>>)
    ensures
        assoc_map(es).contains_key(k) == exists|j: int|
            0 <= j < es.len() && (#[trigger] es[j]).0 == k,
    decreases es.len(),
{
    if es.len() == 0 {
    } else {
        lemma_assoc_contains(es.skip(1), k);
        assert(forall|j: int| 0 <= j < es.skip(1).len() ==> #[trigger] es.skip(1)[j] == es[j + 1]);
        if es[0].0 == k {
            assert(exists|j: int| 0 <= j < es.len() && (#[trigger] es[j]).0 == k);
        } else {
            if exists|j: int| 0 <= j < es.len() && (#[trigger] es[j]).0 == k {
                let j = choose|j: int| 0 <= j < es.len() && (#[trigger] es[j]).0 == k;
                assert(es.skip(1)[j - 1].0 == k);
            }
        }
    }
}

proof fn lemma_assoc_found(es: Seq<(Seq<Seq<char>>, Seq<Seq<char>>)>, k: Seq<Seq<char>>, i: int)
    requires
        0 <= i < es.len(),
        es[i].0 == k,
        forall|j: int| 0 <= j < i ==> (#[trigger] es[j]).0 != k,
    ensures
        assoc_map(es).contains_key(k),
        assoc_map(es)[k] == es[i].1,
    decreases es.len(),
{
    if i == 0 {
    } else {
        assert(forall|j: int| 0 <= j < es.skip(1).len() ==> #[trigger] es.skip(1)[j] == es[j + 1]);
        lemma_assoc_found(es.skip(1), k, i - 1);
        assert(es[0].0 != k);
    }
}

proof fn lemma_assoc_push(
    es: Seq<(Seq<Seq<char>>, Seq<Seq<char>>)>,
    e: (Seq<Seq<char>>, Seq<Seq<char>>),
)
    ensures
        assoc_map(es).contains_key(e.0) ==> assoc_map(es.push(e)) == assoc_map(es),
        !assoc_map(es).contains_key(e.0) ==> assoc_map(es.push(e)) == assoc_map(es).insert(
            e.0,
            e.1,
        ),
    decreases es.len(),
{
    lemma_assoc_contains(es, e.0);
    if es.len() == 0 {
        assert(es.push(e)[0] == e);
        assert(es.push(e).skip(1) =~= Seq::<(Seq<Seq<char>>, Seq<Seq<char>>)>::empty());
        assert(assoc_map(Seq::<(Seq<Seq<char>>, Seq<Seq<char>>)>::empty()) == Map::<
            Seq<Seq<char>>,
            Seq<Seq<char>>,
        >::empty());
        assert(assoc_map(es.push(e)) =~= assoc_map(es).insert(e.0, e.1));
    } else {
        lemma_assoc_push(es.skip(1), e);
        lemma_assoc_contains(es.skip(1), e.0);
        assert(es.push(e)[0] == es[0]);
        assert(es.push(e).skip(1) =~= es.skip(1).push(e));
        assert(forall|j: int| 0 <= j < es.skip(1).len() ==> #[trigger] es.skip(1)[j] == es[j + 1]);
        if assoc_map(es.skip(1)).contains_key(e.0) {
            assert(assoc_map(es.push(e)) =~= assoc_map(es));
            assert(exists|j: int| 0 <= j < es.len() && (#[trigger] es[j]).0 == e.0) by {
                let j = choose|j: int|
                    0 <= j < es.skip(1).len() && (#[trigger] es.skip(1)[j]).0 == e.0;
                assert(es[j + 1].0 == e.0);
            }
        } else if es[0].0 == e.0 {
            assert(assoc_map(es.push(e)) =~= assoc_map(es));
        } else {
            assert(assoc_map(es.push(e)) =~= assoc_map(es).insert(e.0, e.1));
            assert(!assoc_map(es).contains_key(e.0));
        }
    }
}

/// True exactly when the two vectors hold the same strings.
fn vec_str_eq(a: &Vec<String>, b: &Vec<String>) -> (r: bool)
    ensures
        r == (views(a@) == views(b@)),
{
    let n: usize = a.len();
    if n != b.len() {
        proof {
            assert(views(a@).len() != views(b@).len());
        }
        return false;
    }
    let mut i: usize = 0;
    while i < n
        invariant
            i <= n,
            n == a@.len(),
            n == b@.len(),
            forall|j: int| 0 <= j < i ==> views(a@)[j] == views(b@)[j],
        decreases n - i,
    {
        if !str_eq(a[i].as_str(), b[i].as_str()) {
            proof {
                assert(views(a@)[i as int] != views(b@)[i as int]);
            }
            return false;
        }
        i += 1;
    }
    proof {
        assert(views(a@) =~= views(b@));
    }
    true
}

/// What resolution asks of the caller: nothing more, or one probe run
/// with the given argument vector, handed back to `finish_resolve`.
pub enum ResolveStep {
    Done,
    NeedProbe { args: Vec<String> },
}

impl ToolchainInfoCache {
    /// The cached mapping from probe argument vectors to include lists.
    pub closed spec fn entry_views(self) -> Seq<(Seq<Seq<char>>, Seq<Seq<char>>)> {
        self.entries@.map_values(|e: CacheEntry| (views(e.key@), views(e.includes@)))
    }

    pub open spec fn cache_map(self) -> Map<Seq<Seq<char>>, Seq<Seq<char>>> {
        assoc_map(self.entry_views())
    }

    /// An empty cache.
    pub fn new() -> (r: Self)
        ensures
            r.cache_map() == Map::<Seq<Seq<char>>, Seq<Seq<char>>>::empty(),
    {
        let r = ToolchainInfoCache { entries: Vec::new() };
        proof {
            assert(r.entry_views() =~= Seq::<(Seq<Seq<char>>, Seq<Seq<char>>)>::empty());
        }
        r
    }

    /// The index of the first entry with this key, if any.
    fn lookup_index(&self, key: &Vec<String>) -> (r: Option<usize>)
        ensures
            match r {
                Some(i) => i < self.entries@.len() && self.entry_views()[i as int].0 == views(key@)
                    && forall|j: int|
                    0 <= j < i ==> (#[trigger] self.entry_views()[j]).0 != views(key@),
                None => forall|j: int|
                    0 <= j < self.entry_views().len() ==> (#[trigger] self.entry_views()[j]).0
                        != views(key@),
            },
    {
        let n: usize = self.entries.len();
        let mut i: usize = 0;
        while i < n
            invariant
                i <= n,
                n == self.entries@.len(),
                forall|j: int| 0 <= j < i ==> (#[trigger] self.entry_views()[j]).0 != views(key@),
            decreases n - i,
        {
            if vec_str_eq(&self.entries[i].key, key) {
                proof {
                    assert(self.entry_views()[i as int].0 == views(self.entries@[i as int].key@));
                }
                return Some(i);
            }
            proof {
                assert(self.entry_views()[i as int].0 == views(self.entries@[i as int].key@));
            }
            i += 1;
        }
        None
    }

    /// Records a discovery; an already-present key keeps its first value.
    pub fn store(&mut self, key: Vec<String>, includes: Vec<String>)
        ensures
            final(self).cache_map() == if old(self).cache_map().contains_key(views(key@)) {
                old(self).cache_map()
            } else {
                old(self).cache_map().insert(views(key@), views(includes@))
            },
    {
        let ghost es = self.entry_views();
        let ghost e = (views(key@), views(includes@));
        proof {
            lemma_assoc_push(es, e);
        }
        self.entries.push(CacheEntry { key, includes });
        proof {
            assert(self.entry_views() =~= es.push(e));
        }
    }

    /// Begins include resolution for one entry: splices cached includes
    /// into the command, reports that a probe run is needed, or does
    /// nothing when the file's language is unknown.
    pub fn begin_resolve(&self, file: &str, command: &mut Vec<String>) -> (r: ResolveStep)
        requires
            old(command)@.len() >= 1,
        ensures
            probe_key_spec(file@, views(old(command)@)) is None ==> (r is Done && final(command)@
                == old(command)@),
            probe_key_spec(file@, views(old(command)@)) is Some ==> ({
                let k = probe_key_spec(file@, views(old(command)@)).unwrap();
                if self.cache_map().contains_key(k) {
                    r is Done && views(final(command)@) == splice_spec(
                        views(old(command)@),
                        self.cache_map()[k],
                    )
                } else {
                    (r matches ResolveStep::NeedProbe { args } && views(args@) == k)
                        && final(command)@ == old(command)@
                }
            }),
    {
        match build_probe_key(file, &*command) {
            None => ResolveStep::Done,
            Some(key) => {
                match self.lookup_index(&key) {
                    Some(idx) => {
                        proof {
                            lemma_assoc_found(self.entry_views(), views(key@), idx as int);
                            assert(self.entry_views()[idx as int].1 == views(
                                self.entries@[idx as int].includes@,
                            ));
                        }
                        splice_includes(command, &self.entries[idx].includes);
                        ResolveStep::Done
                    },
                    None => {
                        proof {
                            lemma_assoc_contains(self.entry_views(), views(key@));
                        }
                        ResolveStep::NeedProbe { args: key }
                    },
                }
            },
        }
    }

    /// Finishes a probe run: extracts the include directories from the
    /// captured diagnostics, caches them under the probe's argument
    /// vector, and splices them into the command.
    pub fn finish_resolve(&mut self, args: Vec<String>, diag: &str, command: &mut Vec<String>)
        requires
            old(command)@.len() >= 1,
        ensures
            views(final(command)@) == splice_spec(
                views(old(command)@),
                extract_includes_spec(diag@),
            ),
            final(self).cache_map() == if old(self).cache_map().contains_key(views(args@)) {
                old(self).cache_map()
            } else {
                old(self).cache_map().insert(views(args@), extract_includes_spec(diag@))
            },
    {
        let incs = extract_includes(diag);
        splice_includes(command, &incs);
        self.store(args, incs);
    }
}

/// Idempotent filtering: a command holding only plain flags — every
/// argument after the executable a flag, none deny-listed — canonicalizes
/// to exactly those flags, so its probe key differs from the command only
/// in the flags' sort order and the appended language and probe flags.
pub proof fn lemma_idempotent_filtering(file: Seq<char>, cmd: Seq<Seq<char>>)
    requires
        cmd.len() >= 1,
        forall|i: int|
            1 <= i < cmd.len() ==> is_flag(#[trigger] cmd[i]) && deny_match(cmd[i]) is None,
    ensures
        filter_args(cmd.skip(1)) == cmd.skip(1),
        sort_lex(cmd.skip(1)).to_multiset() == cmd.skip(1).to_multiset(),
        sorted_lex(sort_lex(cmd.skip(1))),
{
    assert(forall|i: int| 0 <= i < cmd.skip(1).len() ==> cmd.skip(1)[i] == cmd[i + 1]);
    lemma_filter_identity(cmd.skip(1));
    lemma_sort_lex_multiset(cmd.skip(1));
    lemma_sort_lex_sorted(cmd.skip(1));
}

proof fn lemma_filter_identity(rest: Seq<Seq<char>>)
    requires
        forall|i: int|
            0 <= i < rest.len() ==> is_flag(#[trigger] rest[i]) && deny_match(rest[i]) is None,
    ensures
        filter_args(rest) == rest,
    decreases rest.len(),
{
    if rest.len() != 0 {
        assert(forall|i: int| 0 <= i < rest.skip(1).len() ==> rest.skip(1)[i] == rest[i + 1]);
        lemma_filter_identity(rest.skip(1));
        assert(seq![rest[0]] + rest.skip(1) =~= rest);
    }
}

/// True when the filter consumes these arguments without a trailing bare
/// deny-listed flag left waiting for the value that follows them.
pub open spec fn self_delimited(a: Seq<Seq<char>>) -> bool
    decreases a.len(),
{
    if a.len() == 0 {
        true
    } else {
        match deny_match(a[0]) {
            Some(true) => a.len() >= 2 && self_delimited(a.skip(2)),
            Some(false) => self_delimited(a.skip(1)),
            None => self_delimited(a.skip(1)),
        }
    }
}

/// The filter distributes over concatenation at a self-delimited cut.
pub proof fn lemma_filter_concat(a: Seq<Seq<char>>, b: Seq<Seq<char>>)
    requires
        self_delimited(a),
    ensures
        filter_args(a + b) == filter_args(a) + filter_args(b),
    decreases a.len(),
{
    if a.len() == 0 {
        assert(a + b =~= b);
        assert(filter_args(a) + filter_args(b) =~= filter_args(b));
    } else {
        assert((a + b)[0] == a[0]);
        match deny_match(a[0]) {
            Some(true) => {
                assert(a.len() >= 2);
                assert((a + b).skip(2) =~= a.skip(2) + b);
                lemma_filter_concat(a.skip(2), b);
                if a.len() == 2 {
                    assert(filter_args(a) =~= filter_args(a.skip(2)));
                }
            },
            Some(false) => {
                assert((a + b).skip(1) =~= a.skip(1) + b);
                lemma_filter_concat(a.skip(1), b);
            },
            None => {
                assert((a + b).skip(1) =~= a.skip(1) + b);
                lemma_filter_concat(a.skip(1), b);
                if is_flag(a[0]) {
                    assert(seq![a[0]] + (filter_args(a.skip(1)) + filter_args(b)) =~= (seq![a[0]]
                        + filter_args(a.skip(1))) + filter_args(b));
                }
            },
        }
    }
}

/// One deny-listed insertion: an attached-form flag alone, or a bare flag
/// together with the value argument it consumes.
pub open spec fn denied_block(d: Seq<Seq<char>>) -> bool {
    (d.len() == 1 && deny_match(d[0]) == Some(false)) || (d.len() == 2 && deny_match(d[0])
        == Some(true))
}

/// Deny-listed flags are invisible to canonicalization: inserting one,
/// with the value it consumes, at any self-delimited point of the flag
/// list leaves the retained arguments unchanged.
pub proof fn lemma_filter_ignores_denied(a: Seq<Seq<char>>, d: Seq<Seq<char>>, b: Seq<Seq<char>>)
    requires
        self_delimited(a),
        denied_block(d),
    ensures
        filter_args(a + d + b) == filter_args(a + b),
{
    lemma_filter_concat(a, d + b);
    lemma_filter_concat(a, b);
    assert(a + d + b =~= a + (d + b));
    assert((d + b)[0] == d[0]);
    if d.len() == 1 {
        assert((d + b).skip(1) =~= b);
    } else {
        assert((d + b).len() >= 2);
        assert((d + b).skip(2) =~= b);
    }
    assert(filter_args(d + b) == filter_args(b));
}

/// Probe-key equality: two commands with the same executable whose flag
/// lists canonicalize alike share their probe key, so resolving the
/// second hits whatever cache entry resolving the first produced.
pub proof fn lemma_probe_key_ignores_denied(
    file: Seq<char>,
    c1: Seq<Seq<char>>,
    c2: Seq<Seq<char>>,
)
    requires
        c1.len() >= 1,
        c2.len() >= 1,
        c1[0] == c2[0],
        filter_args(c1.skip(1)) == filter_args(c2.skip(1)),
    ensures
        probe_key_spec(file, c1) == probe_key_spec(file, c2),
{
}

/// Language injection: when no retained flag selects a source language,
/// the probe key carries the classifier's selector just before the fixed
/// probe flags — and the key exists exactly when the file's language is
/// known.
pub proof fn lemma_language_injection(file: Seq<char>, cmd: Seq<Seq<char>>)
    requires
        cmd.len() >= 1,
        !lang_flag_present(sort_lex(filter_args(cmd.skip(1)))),
    ensures
        probe_key_spec(file, cmd) is None <==> classify(file) is None,
        classify(file) == Some(Language::C) ==> probe_key_spec(file, cmd) == Some(
            seq![cmd[0]] + sort_lex(filter_args(cmd.skip(1))) + seq!["-xc"@] + probe_tail(),
        ),
        classify(file) == Some(Language::Cxx) ==> probe_key_spec(file, cmd) == Some(
            seq![cmd[0]] + sort_lex(filter_args(cmd.skip(1))) + seq!["-xc++"@] + probe_tail(),
        ),
{
}

} // verus!
