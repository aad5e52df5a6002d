//! Command tokenizer and escaper: splits a shell-quoted command string into
//! its words, and escapes words back into a database-safe command string.
//!
//! Splitting follows Bourne-shell conventions: words separated by
//! whitespace; single quotes protect their content verbatim; double quotes
//! protect their content with backslash escapes for `$`, backquote, `"` and
//! `\`; a backslash outside quotes protects the next character.  Mismatched
//! quoting is an error.
//!
//! Escaping is asymmetric on purpose: only `"` and `\` are escaped, but the
//! token is quoted whenever escaping changed it or it holds a space, so the
//! stored command stays splittable into the same words.

use vstd::prelude::*;
use crate::strutil::push_char;

verus! {

/// A command string whose quoting is unbalanced or malformed.
#[derive(Clone, Copy, PartialEq, Eq, Structural, Debug)]
pub struct ParseError;

/// The views of a sequence of strings.
pub open spec fn views(v: Seq<String>) -> Seq<Seq<char>> {
    v.map_values(|s: String| s@)
}

pub proof fn lemma_views_push(v: Seq<String>, s: String)
    ensures
        views(v.push(s)) == views(v).push(s@),
{
    assert(views(v.push(s)) =~= views(v).push(s@));
}

pub proof fn lemma_views_concat(a: Seq<String>, b: Seq<String>)
    ensures
        views(a + b) == views(a) + views(b),
{
    assert(views(a + b) =~= views(a) + views(b));
}

pub proof fn lemma_views_insert(v: Seq<String>, i: int, s: String)
    requires
        0 <= i <= v.len(),
    ensures
        views(v.insert(i, s)) == views(v).insert(i, s@),
{
    assert(views(v.insert(i, s)) =~= views(v).insert(i, s@));
}

/// Word-separating whitespace.
pub open spec fn is_space_char(c: char) -> bool {
    c == ' ' || c == '\t' || c == '\n' || c == '\r' || c == '\x0b' || c == '\x0c'
}

/// Splitting state outside quotes: `field` is the word gathered so far,
/// `in_field` says whether a word is open, `acc` the words already split.
pub open spec fn tok_spec(
    s: Seq<char>,
    field: Seq<char>,
    in_field: bool,
    acc: Seq<Seq<char>>,
) -> Option<Seq<Seq<char>>>
    decreases s.len(), 0int,
{
    if s.len() == 0 {
        if in_field {
            Some(acc.push(field))
        } else {
            Some(acc)
        }
    } else if is_space_char(s[0]) {
        if in_field {
            tok_spec(s.skip(1), Seq::empty(), false, acc.push(field))
        } else {
            tok_spec(s.skip(1), field, false, acc)
        }
    } else if s[0] == '\'' {
        sq_spec(s.skip(1), field, acc)
    } else if s[0] == '"' {
        dq_spec(s.skip(1), field, acc)
    } else if s[0] == '\\' {
        if s.len() >= 2 && s[1] != '\n' {
            tok_spec(s.skip(2), field.push(s[1]), true, acc)
        } else {
            tok_spec(s.skip(1), field.push('\\'), true, acc)
        }
    } else {
        tok_spec(s.skip(1), field.push(s[0]), true, acc)
    }
}

/// Splitting state inside a single-quoted section: content is verbatim;
/// a missing closing quote is an error.
pub open spec fn sq_spec(s: Seq<char>, field: Seq<char>, acc: Seq<Seq<char>>) -> Option<
    Seq<Seq<char>>,
>
    decreases s.len(), 1int,
{
    if s.len() == 0 {
        None
    } else if s[0] == '\'' {
        tok_spec(s.skip(1), field, true, acc)
    } else {
        sq_spec(s.skip(1), field.push(s[0]), acc)
    }
}

/// Splitting state inside a double-quoted section: a backslash before `$`,
/// backquote, `"` or `\` yields that character, before any other character
/// it is kept; a backslash before a newline or at the end, like a missing
/// closing quote, is an error.
pub open spec fn dq_spec(s: Seq<char>, field: Seq<char>, acc: Seq<Seq<char>>) -> Option<
    Seq<Seq<char>>,
>
    decreases s.len(), 1int,
{
    if s.len() == 0 {
        None
    } else if s[0] == '"' {
        tok_spec(s.skip(1), field, true, acc)
    } else if s[0] == '\\' {
        if s.len() >= 2 && s[1] != '\n' {
            if s[1] == '$' || s[1] == '`' || s[1] == '"' || s[1] == '\\' {
                dq_spec(s.skip(2), field.push(s[1]), acc)
            } else {
                dq_spec(s.skip(2), field.push('\\').push(s[1]), acc)
            }
        } else {
            None
        }
    } else {
        dq_spec(s.skip(1), field.push(s[0]), acc)
    }
}

/// The words a command string splits into, or nothing when its quoting is
/// malformed.
pub open spec fn tokenize_spec(s: Seq<char>) -> Option<Seq<Seq<char>>> {
    tok_spec(s, Seq::empty(), false, Seq::empty())
}

enum Mode {
    Norm,
    InSingle,
    InDouble,
}

/// Splits a shell-quoted command string into its words.
pub fn tokenize(s: &str) -> (r: Result<Vec<String>, ParseError>)
    ensures
        match r {
            Ok(words) => tokenize_spec(s@) == Some(views(words@)),
            Err(_) => tokenize_spec(s@) is None,
        },
{
    let n: usize = s.unicode_len();
    let mut i: usize = 0;
    let mut words: Vec<String> = Vec::new();
    let mut field: String = String::new();
    let mut in_field: bool = false;
    let mut mode: Mode = Mode::Norm;
    proof {
        assert(s@.skip(0) =~= s@);
        assert(views(words@) =~= Seq::<Seq<char>>::empty());
    }
    while i < n
        invariant
            i <= n,
            n == s@.len(),
            match mode {
                Mode::Norm => tok_spec(s@.skip(i as int), field@, in_field, views(words@))
                    == tokenize_spec(s@),
                Mode::InSingle => sq_spec(s@.skip(i as int), field@, views(words@))
                    == tokenize_spec(s@),
                Mode::InDouble => dq_spec(s@.skip(i as int), field@, views(words@))
                    == tokenize_spec(s@),
            },
        decreases n - i,
    {
        let c = s.get_char(i);
        proof {
            assert(s@.skip(i as int)[0] == s@[i as int]);
            assert(s@.skip(i as int).skip(1) =~= s@.skip(i as int + 1));
            assert(s@.skip(i as int).len() == n - i);
        }
        match mode {
            Mode::Norm => {
                if is_space(c) {
                    if in_field {
                        proof {
                            lemma_views_push(words@, field);
                        }
                        words.push(field);
                        field = String::new();
                        in_field = false;
                    }
                    i += 1;
                } else if c == '\'' {
                    mode = Mode::InSingle;
                    i += 1;
                } else if c == '"' {
                    mode = Mode::InDouble;
                    i += 1;
                } else if c == '\\' {
                    if i + 1 < n {
                        let d = s.get_char(i + 1);
                        proof {
                            assert(s@.skip(i as int)[1] == s@[i as int + 1]);
                            assert(s@.skip(i as int).skip(2) =~= s@.skip(i as int + 2));
                        }
                        if d != '\n' {
                            push_char(&mut field, d);
                            in_field = true;
                            i += 2;
                        } else {
                            push_char(&mut field, '\\');
                            in_field = true;
                            i += 1;
                        }
                    } else {
                        push_char(&mut field, '\\');
                        in_field = true;
                        i += 1;
                    }
                } else {
                    push_char(&mut field, c);
                    in_field = true;
                    i += 1;
                }
            },
            Mode::InSingle => {
                if c == '\'' {
                    mode = Mode::Norm;
                    in_field = true;
                    i += 1;
                } else {
                    push_char(&mut field, c);
                    i += 1;
                }
            },
            Mode::InDouble => {
                if c == '"' {
                    mode = Mode::Norm;
                    in_field = true;
                    i += 1;
                } else if c == '\\' {
                    if i + 1 < n {
                        let d = s.get_char(i + 1);
                        proof {
                            assert(s@.skip(i as int)[1] == s@[i as int + 1]);
                            assert(s@.skip(i as int).skip(2) =~= s@.skip(i as int + 2));
                        }
                        if d == '\n' {
                            return Err(ParseError);
                        }
                        if d == '$' || d == '`' || d == '"' || d == '\\' {
                            push_char(&mut field, d);
                        } else {
                            push_char(&mut field, '\\');
                            push_char(&mut field, d);
                        }
                        i += 2;
                    } else {
                        return Err(ParseError);
                    }
                } else {
                    push_char(&mut field, c);
                    i += 1;
                }
            },
        }
    }
    proof {
        assert(s@.skip(i as int).len() == 0);
        assert(s@.skip(i as int) =~= Seq::<char>::empty());
    }
    match mode {
        Mode::Norm => {
            if in_field {
                proof {
                    lemma_views_push(words@, field);
                }
                words.push(field);
            }
            Ok(words)
        },
        Mode::InSingle => Err(ParseError),
        Mode::InDouble => Err(ParseError),
    }
}

/// The body of an escaped word: each `\` and `"` prefixed with a backslash.
pub open spec fn escape_body(s: Seq<char>) -> Seq<char>
    decreases s.len(),
{
    if s.len() == 0 {
        Seq::empty()
    } else if s[0] == '\\' || s[0] == '"' {
        seq!['\\', s[0]] + escape_body(s.skip(1))
    } else {
        seq![s[0]] + escape_body(s.skip(1))
    }
}

/// True when the escaped word must be wrapped in double quotes: escaping
/// changed it, or it holds a literal space.
pub open spec fn needs_quoting(s: Seq<char>) -> bool {
    s.contains('\\') || s.contains('"') || s.contains(' ')
}

/// A word as stored in the database command string: the empty word becomes
/// `""`; a word holding `\`, `"` or a space is escaped and quoted; any
/// other word is stored unchanged.
pub open spec fn escape_spec(s: Seq<char>) -> Seq<char> {
    if s.len() == 0 {
        seq!['"', '"']
    } else if needs_quoting(s) {
        seq!['"'] + escape_body(s) + seq!['"']
    } else {
        s
    }
}

proof fn lemma_escape_body_append(a: Seq<char>, c: char)
    ensures
        escape_body(a.push(c)) == escape_body(a) + if c == '\\' || c == '"' {
            seq!['\\', c]
        } else {
            seq![c]
        },
    decreases a.len(),
{
    if a.len() == 0 {
        assert(a.push(c) =~= seq![c]);
        assert(seq![c][0] == c);
        assert(seq![c].skip(1) =~= Seq::<char>::empty());
        assert(escape_body(Seq::<char>::empty()) == Seq::<char>::empty());
        assert(escape_body(a) == Seq::<char>::empty());
        if c == '\\' || c == '"' {
            assert(escape_body(seq![c]) == seq!['\\', c] + Seq::<char>::empty());
            assert(seq!['\\', c] + Seq::<char>::empty() =~= escape_body(a) + seq!['\\', c]);
        } else {
            assert(escape_body(seq![c]) == seq![c] + Seq::<char>::empty());
            assert(seq![c] + Seq::<char>::empty() =~= escape_body(a) + seq![c]);
        }
    } else {
        lemma_escape_body_append(a.skip(1), c);
        assert(a.push(c)[0] == a[0]);
        assert(a.push(c).skip(1) =~= a.skip(1).push(c));
        if c == '\\' || c == '"' {
            if a[0] == '\\' || a[0] == '"' {
                assert(seq!['\\', a[0]] + (escape_body(a.skip(1)) + seq!['\\', c]) =~= (
                seq!['\\', a[0]] + escape_body(a.skip(1))) + seq!['\\', c]);
            } else {
                assert(seq![a[0]] + (escape_body(a.skip(1)) + seq!['\\', c]) =~= (seq![a[0]]
                    + escape_body(a.skip(1))) + seq!['\\', c]);
            }
        } else {
            if a[0] == '\\' || a[0] == '"' {
                assert(seq!['\\', a[0]] + (escape_body(a.skip(1)) + seq![c]) =~= (seq!['\\', a[0]]
                    + escape_body(a.skip(1))) + seq![c]);
            } else {
                assert(seq![a[0]] + (escape_body(a.skip(1)) + seq![c]) =~= (seq![a[0]]
                    + escape_body(a.skip(1))) + seq![c]);
            }
        }
    }
}

/// A word without `\` or `"` escapes to itself.
proof fn lemma_escape_body_identity(s: Seq<char>)
    requires
        !s.contains('\\'),
        !s.contains('"'),
    ensures
        escape_body(s) == s,
    decreases s.len(),
{
    if s.len() != 0 {
        assert(s[0] != '\\' && s[0] != '"');
        assert(forall|j: int| 0 <= j < s.skip(1).len() ==> s.skip(1)[j] == s[j + 1]);
        lemma_escape_body_identity(s.skip(1));
        assert(seq![s[0]] + s.skip(1) =~= s);
    }
}

/// Escapes one word for storage in the database command string.
pub fn cdb_escape(input: &str) -> (r: String)
    ensures
        r@ == escape_spec(input@),
{
    let n: usize = input.unicode_len();
    if n == 0 {
        let r = String::from_str("\"\"");
        proof {
            reveal_strlit("\"\"");
            assert(r@ =~= seq!['"', '"']);
        }
        return r;
    }
    let mut body = String::new();
    let mut special: bool = false;
    let mut space: bool = false;
    let mut i: usize = 0;
    while i < n
        invariant
            i <= n,
            n == input@.len(),
            body@ == escape_body(input@.take(i as int)),
            special == exists|j: int| 0 <= j < i && (input@[j] == '\\' || input@[j] == '"'),
            space == exists|j: int| 0 <= j < i && input@[j] == ' ',
        decreases n - i,
    {
        let c = input.get_char(i);
        proof {
            lemma_escape_body_append(input@.take(i as int), c);
            assert(input@.take(i as int + 1) =~= input@.take(i as int).push(input@[i as int]));
        }
        if c == '\\' || c == '"' {
            push_char(&mut body, '\\');
            push_char(&mut body, c);
            special = true;
        } else {
            push_char(&mut body, c);
            if c == ' ' {
                space = true;
            }
        }
        i += 1;
    }
    proof {
        assert(input@.take(n as int) =~= input@);
    }
    if special || space {
        let mut out = String::from_str("\"");
        out.append(body.as_str());
        out.append("\"");
        proof {
            reveal_strlit("\"");
            assert(("\"")@ =~= seq!['"']);
            assert(out@ =~= seq!['"'] + escape_body(input@) + seq!['"']);
            assert(needs_quoting(input@));
        }
        out
    } else {
        proof {
            assert(!input@.contains('\\') && !input@.contains('"') && !input@.contains(' '));
            lemma_escape_body_identity(input@);
        }
        body
    }
}

/// The words of a command joined with single spaces.
pub open spec fn join_spec(ws: Seq<Seq<char>>) -> Seq<char>
    decreases ws.len(),
{
    if ws.len() == 0 {
        Seq::empty()
    } else if ws.len() == 1 {
        ws[0]
    } else {
        ws[0] + seq![' '] + join_spec(ws.skip(1))
    }
}

pub proof fn lemma_join_push(ws: Seq<Seq<char>>, w: Seq<char>)
    ensures
        join_spec(ws.push(w)) == if ws.len() == 0 {
            w
        } else {
            join_spec(ws) + seq![' '] + w
        },
    decreases ws.len(),
{
    if ws.len() == 0 {
        assert(ws.push(w)[0] == w);
    } else if ws.len() == 1 {
        assert(ws.push(w)[0] == ws[0]);
        assert(ws.push(w).skip(1) =~= seq![w]);
        assert(join_spec(seq![w]) == w);
    } else {
        lemma_join_push(ws.skip(1), w);
        assert(ws.push(w)[0] == ws[0]);
        assert(ws.push(w).skip(1) =~= ws.skip(1).push(w));
        assert(ws[0] + seq![' '] + (join_spec(ws.skip(1)) + seq![' '] + w) =~= (ws[0] + seq![' ']
            + join_spec(ws.skip(1))) + seq![' '] + w);
    }
}

fn is_space(c: char) -> (r: bool)
    ensures
        r == is_space_char(c),
{
    c == ' ' || c == '\t' || c == '\n' || c == '\r' || c == '\x0b' || c == '\x0c'
}

/// A character with no meaning to splitting or escaping.
pub open spec fn simple_char(c: char) -> bool {
    !is_space_char(c) && c != '\'' && c != '"' && c != '\\'
}

/// A non-empty word of simple characters.
pub open spec fn simple_word(w: Seq<char>) -> bool {
    w.len() > 0 && forall|i: int| 0 <= i < w.len() ==> simple_char(#[trigger] w[i])
}

/// Splitting consumes a simple word whole, appending it to the open field.
proof fn lemma_tok_word(w: Seq<char>, t: Seq<char>, f: Seq<char>, b: bool, acc: Seq<Seq<char>>)
    requires
        simple_word(w),
    ensures
        tok_spec(w + t, f, b, acc) == tok_spec(t, f + w, true, acc),
    decreases w.len(),
{
    assert((w + t)[0] == w[0]);
    assert(simple_char(w[0]));
    if w.len() == 1 {
        assert((w + t).skip(1) =~= t);
        assert(f.push(w[0]) =~= f + w);
    } else {
        assert((w + t).skip(1) =~= w.skip(1) + t);
        assert(simple_word(w.skip(1))) by {
            assert(forall|i: int| 0 <= i < w.skip(1).len() ==> w.skip(1)[i] == w[i + 1]);
        }
        lemma_tok_word(w.skip(1), t, f.push(w[0]), true, acc);
        assert(f.push(w[0]) + w.skip(1) =~= f + w);
    }
}

/// Splitting the space-joined simple words yields exactly those words.
proof fn lemma_tokenize_join(ws: Seq<Seq<char>>, acc: Seq<Seq<char>>)
    requires
        forall|i: int| 0 <= i < ws.len() ==> simple_word(#[trigger] ws[i]),
    ensures
        tok_spec(join_spec(ws), Seq::empty(), false, acc) == Some(acc + ws),
    decreases ws.len(),
{
    if ws.len() == 0 {
        assert(acc + ws =~= acc);
    } else if ws.len() == 1 {
        assert(ws[0] + Seq::<char>::empty() =~= ws[0]);
        lemma_tok_word(ws[0], Seq::empty(), Seq::empty(), false, acc);
        assert(Seq::<char>::empty() + ws[0] =~= ws[0]);
        assert(tok_spec(Seq::empty(), ws[0], true, acc) == Some(acc.push(ws[0])));
        assert(acc.push(ws[0]) =~= acc + ws);
    } else {
        let rest = seq![' '] + join_spec(ws.skip(1));
        assert(join_spec(ws) =~= ws[0] + rest);
        lemma_tok_word(ws[0], rest, Seq::empty(), false, acc);
        assert(Seq::<char>::empty() + ws[0] =~= ws[0]);
        assert(rest[0] == ' ');
        assert(rest.skip(1) =~= join_spec(ws.skip(1)));
        assert(forall|i: int| 0 <= i < ws.skip(1).len() ==> ws.skip(1)[i] == ws[i + 1]);
        lemma_tokenize_join(ws.skip(1), acc.push(ws[0]));
        assert(acc.push(ws[0]) + ws.skip(1) =~= acc + ws);
    }
}

/// A simple word is stored unchanged.
pub proof fn lemma_escape_simple(w: Seq<char>)
    requires
        simple_word(w),
    ensures
        escape_spec(w) == w,
{
    assert(!w.contains('\\')) by {
        if w.contains('\\') {
            let i = choose|i: int| 0 <= i < w.len() && w[i] == '\\';
            assert(simple_char(w[i]));
        }
    }
    assert(!w.contains('"')) by {
        if w.contains('"') {
            let i = choose|i: int| 0 <= i < w.len() && w[i] == '"';
            assert(simple_char(w[i]));
        }
    }
    assert(!w.contains(' ')) by {
        if w.contains(' ') {
            let i = choose|i: int| 0 <= i < w.len() && w[i] == ' ';
            assert(simple_char(w[i]));
        }
    }
}

/// The round-trip law: a command string that is simple words joined by
/// single spaces splits into exactly those words, and escaping each word
/// back for storage and joining reproduces the string.
pub proof fn lemma_round_trip(ws: Seq<Seq<char>>)
    requires
        forall|i: int| 0 <= i < ws.len() ==> simple_word(#[trigger] ws[i]),
    ensures
        tokenize_spec(join_spec(ws)) == Some(ws),
        join_spec(ws.map_values(|w: Seq<char>| escape_spec(w))) == join_spec(ws),
{
    lemma_tokenize_join(ws, Seq::empty());
    assert(Seq::<Seq<char>>::empty() + ws =~= ws);
    assert forall|i: int| 0 <= i < ws.len() implies #[trigger] escape_spec(ws[i]) == ws[i] by {
        lemma_escape_simple(ws[i]);
    }
    assert(ws.map_values(|w: Seq<char>| escape_spec(w)) =~= ws);
}

} // verus!
