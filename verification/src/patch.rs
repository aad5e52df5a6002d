//! Entry patching steps around include resolution: compiler substitution,
//! the implicit-search-disable flag, additive flag edits, and rendering
//! the patched command back into a database-safe string.

use vstd::prelude::*;
use crate::lang::Language;
use crate::lang::classify;
use crate::lang::file_to_language;
use crate::strutil::str_eq;
use crate::codec::views;
use crate::codec::escape_spec;
use crate::codec::cdb_escape;
use crate::codec::join_spec;
use crate::codec::lemma_join_push;

verus! {

/// The view of an optional string.
pub open spec fn opt_view(o: Option<String>) -> Option<Seq<char>> {
    match o {
        Some(s) => Some(s@),
        None => None,
    }
}

/// The command with its executable replaced by the override configured
/// for the file's language, when both exist.
pub open spec fn override_spec(
    cmd: Seq<Seq<char>>,
    file: Seq<char>,
    cc: Option<Seq<char>>,
    cxx: Option<Seq<char>>,
) -> Seq<Seq<char>> {
    if cmd.len() == 0 {
        cmd
    } else {
        match classify(file) {
            Some(Language::C) => match cc {
                Some(s) => cmd.update(0, s),
                None => cmd,
            },
            Some(Language::Cxx) => match cxx {
                Some(s) => cmd.update(0, s),
                None => cmd,
            },
            None => cmd,
        }
    }
}

/// Replaces the command's executable by the configured override for the
/// file's language, if any.
pub fn apply_compiler_override(
    command: &mut Vec<String>,
    file: &str,
    use_cc: &Option<String>,
    use_cxx: &Option<String>,
)
    ensures
        views(final(command)@) == override_spec(
            views(old(command)@),
            file@,
            opt_view(*use_cc),
            opt_view(*use_cxx),
        ),
{
    if command.len() == 0 {
        return ;
    }
    match file_to_language(file) {
        Some(Language::C) => {
            if let Some(s) = use_cc {
                let ghost prev = command@;
                command[0] = s.clone();
                proof {
                    assert(views(command@) =~= views(prev).update(0, s@));
                }
            }
        },
        Some(Language::Cxx) => {
            if let Some(s) = use_cxx {
                let ghost prev = command@;
                command[0] = s.clone();
                proof {
                    assert(views(command@) =~= views(prev).update(0, s@));
                }
            }
        },
        None => {},
    }
}

/// Appends the implicit-search-disable flag unless it is already present.
pub fn ensure_nostdinc(command: &mut Vec<String>)
    ensures
        views(final(command)@) == if views(old(command)@).contains("-nostdinc"@) {
            views(old(command)@)
        } else {
            views(old(command)@).push("-nostdinc"@)
        },
{
    let n: usize = command.len();
    let mut i: usize = 0;
    while i < n
        invariant
            i <= n,
            n == command@.len(),
            forall|j: int| 0 <= j < i ==> views(command@)[j] != "-nostdinc"@,
        decreases n - i,
    {
        if str_eq(command[i].as_str(), "-nostdinc") {
            proof {
                assert(views(command@)[i as int] == "-nostdinc"@);
            }
            return ;
        }
        i += 1;
    }
    proof {
        assert(!views(command@).contains("-nostdinc"@));
    }
    let ghost prev = command@;
    command.push(String::from_str("-nostdinc"));
    proof {
        assert(views(command@) =~= views(prev).push("-nostdinc"@));
    }
}

/// Appends the configured additional flags verbatim.
pub fn append_args(command: &mut Vec<String>, extra: &Vec<String>)
    ensures
        views(final(command)@) == views(old(command)@) + views(extra@),
{
    let n: usize = extra.len();
    let mut i: usize = 0;
    proof {
        assert(views(command@) =~= views(old(command)@) + views(extra@).take(0));
    }
    while i < n
        invariant
            i <= n,
            n == extra@.len(),
            views(command@) == views(old(command)@) + views(extra@).take(i as int),
        decreases n - i,
    {
        let ghost prev = command@;
        command.push(extra[i].clone());
        proof {
            assert(views(extra@).take(i as int + 1) =~= views(extra@).take(i as int).push(
                views(extra@)[i as int],
            ));
            assert(views(command@) =~= views(prev).push(extra@[i as int]@));
            assert(views(prev).push(views(extra@)[i as int]) =~= views(old(command)@) + views(
                extra@,
            ).take(i as int + 1));
        }
        i += 1;
    }
    proof {
        assert(views(extra@).take(n as int) =~= views(extra@));
    }
}

/// The escaped words of the command, with every word whose escaped form
/// stands in the removal list dropped.  Removal compares the escaped
/// word, exactly as it will be stored, against the removal value as
/// given.
pub open spec fn del_filter(args: Seq<Seq<char>>, dd: Seq<Seq<char>>) -> Seq<Seq<char>>
    decreases args.len(),
{
    if args.len() == 0 {
        Seq::empty()
    } else {
        let e = escape_spec(args[0]);
        (if dd.contains(e) {
            Seq::empty()
        } else {
            seq![e]
        }) + del_filter(args.skip(1), dd)
    }
}

/// The stored form of a patched command: every word escaped, words whose
/// escaped form is listed for removal dropped, the rest joined with
/// single spaces.
pub open spec fn render_spec(args: Seq<Seq<char>>, dd: Seq<Seq<char>>) -> Seq<char> {
    join_spec(del_filter(args, dd))
}

/// True exactly when some string in the list holds the same characters.
fn contains_string(list: &Vec<String>, x: &String) -> (r: bool)
    ensures
        r == views(list@).contains(x@),
{
    let n: usize = list.len();
    let mut i: usize = 0;
    while i < n
        invariant
            i <= n,
            n == list@.len(),
            forall|j: int| 0 <= j < i ==> views(list@)[j] != x@,
        decreases n - i,
    {
        if str_eq(list[i].as_str(), x.as_str()) {
            proof {
                assert(views(list@)[i as int] == x@);
            }
            return true;
        }
        i += 1;
    }
    proof {
        assert(!views(list@).contains(x@));
    }
    false
}

/// Renders the patched command for storage: escapes every word, drops
/// words whose escaped form is in the removal list, joins with spaces.
pub fn render_command(command: &Vec<String>, ccdel: &Vec<String>) -> (r: String)
    ensures
        r@ == render_spec(views(command@), views(ccdel@)),
{
    let ghost whole = views(command@);
    let ghost dd = views(ccdel@);
    let n: usize = command.len();
    let mut kept: Vec<String> = Vec::new();
    let mut i: usize = 0;
    proof {
        assert(whole.skip(0) =~= whole);
        assert(views(kept@) =~= Seq::<Seq<char>>::empty());
        assert(Seq::<Seq<char>>::empty() + del_filter(whole, dd) =~= del_filter(whole, dd));
    }
    while i < n
        invariant
            i <= n,
            n == command@.len(),
            whole == views(command@),
            dd == views(ccdel@),
            del_filter(whole, dd) == views(kept@) + del_filter(whole.skip(i as int), dd),
        decreases n - i,
    {
        proof {
            assert(whole.skip(i as int)[0] == whole[i as int]);
            assert(whole.skip(i as int).skip(1) =~= whole.skip(i as int + 1));
        }
        let esc = cdb_escape(command[i].as_str());
        if !contains_string(ccdel, &esc) {
            let ghost prev = kept@;
            let ghost ev = esc@;
            proof {
                assert(views(prev) + (seq![ev] + del_filter(whole.skip(i as int + 1), dd)) =~= (
                views(prev).push(ev)) + del_filter(whole.skip(i as int + 1), dd));
            }
            kept.push(esc);
            proof {
                assert(views(kept@) =~= views(prev).push(ev));
            }
        }
        i += 1;
    }
    proof {
        assert(whole.skip(n as int) =~= Seq::<Seq<char>>::empty());
        assert(del_filter(Seq::<Seq<char>>::empty(), dd) =~= Seq::<Seq<char>>::empty());
        assert(views(kept@) + Seq::<Seq<char>>::empty() =~= views(kept@));
    }
    let m: usize = kept.len();
    let mut out = String::new();
    let mut j: usize = 0;
    proof {
        assert(views(kept@).take(0) =~= Seq::<Seq<char>>::empty());
        assert(out@ =~= join_spec(views(kept@).take(0)));
    }
    while j < m
        invariant
            j <= m,
            m == kept@.len(),
            views(kept@) == del_filter(whole, dd),
            out@ == join_spec(views(kept@).take(j as int)),
        decreases m - j,
    {
        proof {
            lemma_join_push(views(kept@).take(j as int), views(kept@)[j as int]);
            assert(views(kept@).take(j as int + 1) =~= views(kept@).take(j as int).push(
                views(kept@)[j as int],
            ));
        }
        if j > 0 {
            out.append(" ");
            proof {
                reveal_strlit(" ");
                assert((" ")@ =~= seq![' ']);
            }
        }
        out.append(kept[j].as_str());
        j += 1;
    }
    proof {
        assert(views(kept@).take(m as int) =~= views(kept@));
    }
    out
}

} // verus!

