//! The command grammar: a spec-level description of what each input line
//! parses to, and an executable parser proved to match it.
//!
//! A line is a keyword followed by its arguments: `GET key`, `SET key value`,
//! `DEL key`, `FLUSH`, `INCR key`. Tokens are separated by runs of whitespace,
//! and keys and values are nonempty alphanumeric tokens. Anything left over
//! after a complete match is ignored, as the grammar has no end-of-input rule.

use crate::command::{Command, CommandModel};
use vstd::prelude::*;
use vstd::string::*;

verus! {

/// The whitespace that separates tokens: a space or a tab.
pub open spec fn is_space_char(c: char) -> bool {
    c == ' ' || c == '\t'
}

/// The characters a key or value may hold: ASCII letters and digits.
pub open spec fn is_alnum_char(c: char) -> bool {
    (('0' as int) <= (c as int) && (c as int) <= ('9' as int)) || (('a' as int) <= (c as int) && (c
        as int) <= ('z' as int)) || (('A' as int) <= (c as int) && (c as int) <= ('Z' as int))
}

/// Length of the longest whitespace run at the head of `s`.
pub open spec fn space_run(s: Seq<char>) -> nat
    decreases s.len(),
{
    if s.len() > 0 && is_space_char(s[0]) {
        (1 + space_run(s.drop_first())) as nat
    } else {
        0
    }
}

/// Length of the longest alphanumeric run at the head of `s`.
pub open spec fn alnum_run(s: Seq<char>) -> nat
    decreases s.len(),
{
    if s.len() > 0 && is_alnum_char(s[0]) {
        (1 + alnum_run(s.drop_first())) as nat
    } else {
        0
    }
}

/// One argument of the grammar: one-or-more whitespace characters, then a
/// nonempty alphanumeric token. Yields the token and what follows it.
pub open spec fn chomp_token(s: Seq<char>) -> Option<(Seq<char>, Seq<char>)> {
    let ns = space_run(s);
    if ns == 0 {
        None
    } else {
        let t = s.skip(ns as int);
        let na = alnum_run(t);
        if na == 0 {
            None
        } else {
            Some((t.take(na as int), t.skip(na as int)))
        }
    }
}

pub open spec fn kw_get() -> Seq<char> {
    seq!['G', 'E', 'T']
}

pub open spec fn kw_set() -> Seq<char> {
    seq!['S', 'E', 'T']
}

pub open spec fn kw_del() -> Seq<char> {
    seq!['D', 'E', 'L']
}

pub open spec fn kw_flush() -> Seq<char> {
    seq!['F', 'L', 'U', 'S', 'H']
}

pub open spec fn kw_incr() -> Seq<char> {
    seq!['I', 'N', 'C', 'R']
}

pub open spec fn has_prefix(s: Seq<char>, p: Seq<char>) -> bool {
    p.len() <= s.len() && s.take(p.len() as int) == p
}

/// What one line parses to. The keyword decides the rule — the five keywords
/// begin with five distinct letters, so at most one rule can apply — the
/// rule's arguments must follow, and input past a complete match is ignored.
pub open spec fn spec_parse(s: Seq<char>) -> Option<CommandModel> {
    if has_prefix(s, kw_get()) {
        match chomp_token(s.skip(3)) {
            Some(p) => Some(CommandModel::Get(p.0)),
            None => None,
        }
    } else if has_prefix(s, kw_set()) {
        match chomp_token(s.skip(3)) {
            Some(p) => match chomp_token(p.1) {
                Some(q) => Some(CommandModel::Put(p.0, q.0)),
                None => None,
            },
            None => None,
        }
    } else if has_prefix(s, kw_del()) {
        match chomp_token(s.skip(3)) {
            Some(p) => Some(CommandModel::Del(p.0)),
            None => None,
        }
    } else if has_prefix(s, kw_flush()) {
        Some(CommandModel::Flush)
    } else if has_prefix(s, kw_incr()) {
        match chomp_token(s.skip(4)) {
            Some(p) => Some(CommandModel::Incr(p.0)),
            None => None,
        }
    } else {
        None
    }
}

pub open spec fn rule_command() -> Seq<char> {
    seq!['c', 'o', 'm', 'm', 'a', 'n', 'd']
}

pub open spec fn rule_get() -> Seq<char> {
    seq!['p', 'a', 'r', 's', 'e', '-', 'g', 'e', 't']
}

pub open spec fn rule_set() -> Seq<char> {
    seq!['p', 'a', 'r', 's', 'e', '-', 's', 'e', 't']
}

pub open spec fn rule_del() -> Seq<char> {
    seq!['p', 'a', 'r', 's', 'e', '-', 'd', 'e', 'l', 'e', 't', 'e']
}

pub open spec fn rule_incr() -> Seq<char> {
    seq!['p', 'a', 'r', 's', 'e', '-', 'i', 'n', 'c', 'r']
}

/// The context trail reported when a line fails to parse: the rule of the
/// matched keyword under the top rule, or the top rule alone when no keyword
/// matches. (A line whose keyword is `FLUSH` always parses, so no trail
/// names that rule.)
pub open spec fn spec_trail(s: Seq<char>) -> Seq<Seq<char>> {
    if has_prefix(s, kw_get()) {
        seq![rule_command(), rule_get()]
    } else if has_prefix(s, kw_set()) {
        seq![rule_command(), rule_set()]
    } else if has_prefix(s, kw_del()) {
        seq![rule_command(), rule_del()]
    } else if has_prefix(s, kw_incr()) {
        seq![rule_command(), rule_incr()]
    } else {
        seq![rule_command()]
    }
}

/// A line that matches no grammar rule. `trail` names the rules that were
/// tried, outermost first.
#[derive(Debug)]
pub struct ParseError {
    pub trail: Vec<String>,
}

impl ParseError {
    /// The trail as sequences of characters.
    pub open spec fn trail_model(&self) -> Seq<Seq<char>> {
        self.trail@.map_values(|t: String| t@)
    }
}

proof fn lemma_space_run_exact(s: Seq<char>, n: int)
    requires
        0 <= n <= s.len(),
        forall|k: int| 0 <= k < n ==> is_space_char(#[trigger] s[k]),
        n == s.len() || !is_space_char(s[n]),
    ensures
        space_run(s) == n,
    decreases n,
{
    if n > 0 {
        assert(is_space_char(s[0]));
        let t = s.drop_first();
        assert forall|k: int| 0 <= k < n - 1 implies is_space_char(#[trigger] t[k]) by {
            assert(t[k] == s[k + 1]);
        }
        assert(n - 1 == t.len() || !is_space_char(t[n - 1])) by {
            if n - 1 < t.len() {
                assert(t[n - 1] == s[n]);
            }
        }
        lemma_space_run_exact(t, n - 1);
    }
}

proof fn lemma_alnum_run_exact(s: Seq<char>, n: int)
    requires
        0 <= n <= s.len(),
        forall|k: int| 0 <= k < n ==> is_alnum_char(#[trigger] s[k]),
        n == s.len() || !is_alnum_char(s[n]),
    ensures
        alnum_run(s) == n,
    decreases n,
{
    if n > 0 {
        assert(is_alnum_char(s[0]));
        let t = s.drop_first();
        assert forall|k: int| 0 <= k < n - 1 implies is_alnum_char(#[trigger] t[k]) by {
            assert(t[k] == s[k + 1]);
        }
        assert(n - 1 == t.len() || !is_alnum_char(t[n - 1])) by {
            if n - 1 < t.len() {
                assert(t[n - 1] == s[n]);
            }
        }
        lemma_alnum_run_exact(t, n - 1);
    }
}

/// Whether `c` is an ASCII letter or digit.
fn is_alnum(c: char) -> (b: bool)
    ensures
        b == is_alnum_char(c),
{
    let u = c as u32;
    (48 <= u && u <= 57) || (97 <= u && u <= 122) || (65 <= u && u <= 90)
}

/// First position at or after `i` whose character is not whitespace.
fn scan_spaces(s: &str, i: usize) -> (j: usize)
    requires
        i <= s@.len(),
    ensures
        i <= j <= s@.len(),
        j - i == space_run(s@.skip(i as int)),
{
    let len = s.unicode_len();
    let ghost sub = s@.skip(i as int);
    let mut j = i;
    while j < len
        invariant
            i <= j <= len,
            len == s@.len(),
            sub == s@.skip(i as int),
            forall|k: int| i <= k < j ==> is_space_char(#[trigger] s@[k]),
        decreases len - j,
    {
        let c = s.get_char(j);
        if !(c == ' ' || c == '\t') {
            proof {
                assert forall|k: int| 0 <= k < j - i implies is_space_char(#[trigger] sub[k]) by {
                    assert(sub[k] == s@[k + i]);
                }
                assert(sub[j - i] == s@[j as int]);
                lemma_space_run_exact(sub, j - i);
            }
            return j;
        }
        j += 1;
    }
    proof {
        assert forall|k: int| 0 <= k < j - i implies is_space_char(#[trigger] sub[k]) by {
            assert(sub[k] == s@[k + i]);
        }
        lemma_space_run_exact(sub, j - i);
    }
    j
}

/// First position at or after `i` whose character is not alphanumeric.
fn scan_alnum(s: &str, i: usize) -> (j: usize)
    requires
        i <= s@.len(),
    ensures
        i <= j <= s@.len(),
        j - i == alnum_run(s@.skip(i as int)),
{
    let len = s.unicode_len();
    let ghost sub = s@.skip(i as int);
    let mut j = i;
    while j < len
        invariant
            i <= j <= len,
            len == s@.len(),
            sub == s@.skip(i as int),
            forall|k: int| i <= k < j ==> is_alnum_char(#[trigger] s@[k]),
        decreases len - j,
    {
        let c = s.get_char(j);
        if !is_alnum(c) {
            proof {
                assert forall|k: int| 0 <= k < j - i implies is_alnum_char(#[trigger] sub[k]) by {
                    assert(sub[k] == s@[k + i]);
                }
                assert(sub[j - i] == s@[j as int]);
                lemma_alnum_run_exact(sub, j - i);
            }
            return j;
        }
        j += 1;
    }
    proof {
        assert forall|k: int| 0 <= k < j - i implies is_alnum_char(#[trigger] sub[k]) by {
            assert(sub[k] == s@[k + i]);
        }
        lemma_alnum_run_exact(sub, j - i);
    }
    j
}

/// Parse one argument (whitespace then a token) starting at position `i`,
/// exactly as [`chomp_token`] says of the line from `i` on.
fn parse_token_at(s: &str, i: usize) -> (r: Option<(String, usize)>)
    requires
        i <= s@.len(),
    ensures
        match r {
            Some(p) => ({
                &&& chomp_token(s@.skip(i as int)) matches Some(q)
                &&& p.0@ == q.0
                &&& i <= p.1 <= s@.len()
                &&& s@.skip(p.1 as int) == q.1
            }),
            None => chomp_token(s@.skip(i as int)) is None,
        },
{
    let ghost sub = s@.skip(i as int);
    let a = scan_spaces(s, i);
    if a == i {
        return None;
    }
    let b = scan_alnum(s, a);
    proof {
        assert(sub.skip(a - i) =~= s@.skip(a as int));
    }
    if b == a {
        return None;
    }
    let tok = s.substring_char(a, b);
    let key = String::from_str(tok);
    proof {
        assert(s@.skip(a as int).take(b - a) =~= s@.subrange(a as int, b as int));
        assert(s@.skip(a as int).skip(b - a) =~= s@.skip(b as int));
    }
    Some((key, b))
}

/// Whether `kw` is a prefix of `s`, character for character.
fn has_kw(s: &str, kw: &str) -> (b: bool)
    ensures
        b == has_prefix(s@, kw@),
{
    let kn = kw.unicode_len();
    let sn = s.unicode_len();
    if sn < kn {
        return false;
    }
    let mut i: usize = 0;
    while i < kn
        invariant
            0 <= i <= kn,
            kn == kw@.len() <= s@.len() == sn,
            forall|k: int| 0 <= k < i ==> s@[k] == kw@[k],
        decreases kn - i,
    {
        if s.get_char(i) != kw.get_char(i) {
            proof {
                if has_prefix(s@, kw@) {
                    assert(s@.take(kn as int)[i as int] == s@[i as int]);
                }
            }
            return false;
        }
        i += 1;
    }
    proof {
        assert(s@.take(kn as int) =~= kw@);
    }
    true
}

/// Build a trail of the top rule alone.
fn err_top() -> (e: ParseError)
    ensures
        e.trail_model() == seq![rule_command()],
{
    let mut trail: Vec<String> = Vec::new();
    trail.push(String::from_str("command"));
    proof {
        reveal_strlit("command");
        assert("command"@ =~= rule_command());
        assert(trail@.map_values(|t: String| t@) =~= seq![rule_command()]);
    }
    ParseError { trail }
}

/// Build a trail of the top rule over one inner rule.
fn err_rule(second: &str) -> (e: ParseError)
    ensures
        e.trail_model() == seq![rule_command(), second@],
{
    let mut trail: Vec<String> = Vec::new();
    trail.push(String::from_str("command"));
    trail.push(String::from_str(second));
    proof {
        reveal_strlit("command");
        assert("command"@ =~= rule_command());
        assert(trail@.map_values(|t: String| t@) =~= seq![rule_command(), second@]);
    }
    ParseError { trail }
}

/// Parse one line into a [`Command`], exactly as [`spec_parse`] says, or
/// report which rule failed, exactly as [`spec_trail`] says.
pub fn parse(line: &str) -> (r: Result<Command, ParseError>)
    ensures
        match r {
            Ok(c) => spec_parse(line@) == Some(c@),
            Err(e) => spec_parse(line@) is None && e.trail_model() == spec_trail(line@),
        },
{
    proof {
        reveal_strlit("GET");
        reveal_strlit("SET");
        reveal_strlit("DEL");
        reveal_strlit("FLUSH");
        reveal_strlit("INCR");
        assert("GET"@ =~= kw_get());
        assert("SET"@ =~= kw_set());
        assert("DEL"@ =~= kw_del());
        assert("FLUSH"@ =~= kw_flush());
        assert("INCR"@ =~= kw_incr());
    }
    if has_kw(line, "GET") {
        match parse_token_at(line, 3) {
            Some(p) => Ok(Command::Get(p.0)),
            None => {
                let e = err_rule("parse-get");
                proof {
                    reveal_strlit("parse-get");
                    assert("parse-get"@ =~= rule_get());
                }
                Err(e)
            },
        }
    } else if has_kw(line, "SET") {
        match parse_token_at(line, 3) {
            Some(p) => match parse_token_at(line, p.1) {
                Some(q) => Ok(Command::Put(p.0, q.0)),
                None => {
                    let e = err_rule("parse-set");
                    proof {
                        reveal_strlit("parse-set");
                        assert("parse-set"@ =~= rule_set());
                    }
                    Err(e)
                },
            },
            None => {
                let e = err_rule("parse-set");
                proof {
                    reveal_strlit("parse-set");
                    assert("parse-set"@ =~= rule_set());
                }
                Err(e)
            },
        }
    } else if has_kw(line, "DEL") {
        match parse_token_at(line, 3) {
            Some(p) => Ok(Command::Del(p.0)),
            None => {
                let e = err_rule("parse-delete");
                proof {
                    reveal_strlit("parse-delete");
                    assert("parse-delete"@ =~= rule_del());
                }
                Err(e)
            },
        }
    } else if has_kw(line, "FLUSH") {
        Ok(Command::Flush)
    } else if has_kw(line, "INCR") {
        match parse_token_at(line, 4) {
            Some(p) => Ok(Command::Incr(p.0)),
            None => {
                let e = err_rule("parse-incr");
                proof {
                    reveal_strlit("parse-incr");
                    assert("parse-incr"@ =~= rule_incr());
                }
                Err(e)
            },
        }
    } else {
        Err(err_top())
    }
}

} // verus!
