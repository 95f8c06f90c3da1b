//! Driving a whole log: parse each line, apply it to the store, collect one
//! reply per line, and halt at the first failure. Both the one-line step and
//! the whole pass are proved against a spec-level run function.

use crate::grammar::{parse, spec_parse, spec_trail, ParseError};
use crate::store::{spec_step, IncrTypeError, Store};
use vstd::prelude::*;

verus! {

/// Why a run halted: a line matched no grammar rule, or `Incr` hit a value
/// that does not read as an `i64`.
#[derive(Debug)]
pub enum RunError {
    Parse(ParseError),
    IncrType(IncrTypeError),
}

/// What a whole log does, line by line from the front: the final mapping and
/// the replies, or nothing if some line fails to parse or to apply.
pub open spec fn spec_run(m: Map<Seq<char>, Seq<char>>, lines: Seq<Seq<char>>) -> Option<
    (Map<Seq<char>, Seq<char>>, Seq<Seq<char>>),
>
    decreases lines.len(),
{
    if lines.len() == 0 {
        Some((m, Seq::empty()))
    } else {
        match spec_parse(lines[0]) {
            Some(c) => match spec_step(m, c) {
                Some(p) => match spec_run(p.0, lines.drop_first()) {
                    Some(q) => Some((q.0, seq![p.1] + q.1)),
                    None => None,
                },
                None => None,
            },
            None => None,
        }
    }
}

/// One more line at the back of a run: the run of the longer log is the run
/// of the shorter one, then that line.
proof fn lemma_spec_run_snoc(m: Map<Seq<char>, Seq<char>>, lines: Seq<Seq<char>>, x: Seq<char>)
    ensures
        spec_run(m, lines.push(x)) == (match spec_run(m, lines) {
            Some(p) => match spec_parse(x) {
                Some(c) => match spec_step(p.0, c) {
                    Some(q) => Some((q.0, p.1.push(q.1))),
                    None => None,
                },
                None => None,
            },
            None => None,
        }),
    decreases lines.len(),
{
    if lines.len() == 0 {
        assert(lines.push(x)[0] == x);
        assert(lines.push(x).drop_first() =~= Seq::<Seq<char>>::empty());
        match spec_parse(x) {
            Some(c) => {
                match spec_step(m, c) {
                    Some(q) => {
                        assert(spec_run(q.0, Seq::<Seq<char>>::empty()) == Some(
                            (q.0, Seq::<Seq<char>>::empty()),
                        ));
                        assert(seq![q.1] + Seq::<Seq<char>>::empty() =~= Seq::<Seq<
                            char,
                        >>::empty().push(q.1));
                    },
                    None => {},
                }
            },
            None => {},
        }
    } else {
        let t = lines.drop_first();
        assert(lines.push(x)[0] == lines[0]);
        assert(lines.push(x).drop_first() =~= t.push(x));
        match spec_parse(lines[0]) {
            Some(c) => {
                match spec_step(m, c) {
                    Some(p) => {
                        lemma_spec_run_snoc(p.0, t, x);
                        match spec_run(p.0, t) {
                            Some(q) => {
                                match spec_parse(x) {
                                    Some(c2) => {
                                        match spec_step(q.0, c2) {
                                            Some(q2) => {
                                                assert(seq![p.1] + q.1.push(q2.1) =~= (seq![p.1]
                                                    + q.1).push(q2.1));
                                            },
                                            None => {},
                                        }
                                    },
                                    None => {},
                                }
                            },
                            None => {},
                        }
                    },
                    None => {},
                }
            },
            None => {},
        }
    }
}

/// A run dies where a line dies: if the log up to line `i` runs fine but
/// line `i` fails to parse or to apply, the whole log runs to nothing.
proof fn lemma_spec_run_fail(m: Map<Seq<char>, Seq<char>>, lines: Seq<Seq<char>>, i: int)
    requires
        0 <= i < lines.len(),
        spec_run(m, lines.take(i)) is Some,
        match spec_parse(lines[i]) {
            Some(c) => spec_step(spec_run(m, lines.take(i))->Some_0.0, c) is None,
            None => true,
        },
    ensures
        spec_run(m, lines) is None,
    decreases i,
{
    if i == 0 {
        assert(lines.take(0) =~= Seq::<Seq<char>>::empty());
    } else {
        let pre = lines.take(i);
        assert(pre[0] == lines[0]);
        let c0 = spec_parse(lines[0])->Some_0;
        let p0 = spec_step(m, c0)->Some_0;
        assert(pre.drop_first() =~= lines.drop_first().take(i - 1));
        assert(lines.drop_first()[i - 1] == lines[i]);
        lemma_spec_run_fail(p0.0, lines.drop_first(), i - 1);
    }
}

/// Parse one line and apply it to `store`: the reply, exactly as
/// [`spec_parse`] and [`spec_step`] say, or the failure, with the store left
/// exactly as it was.
pub fn run_line(store: &mut Store, line: &str) -> (r: Result<String, RunError>)
    requires
        old(store).wf(),
    ensures
        final(store).wf(),
        match r {
            Ok(rep) => ({
                &&& spec_parse(line@) matches Some(c)
                &&& spec_step(old(store)@, c) matches Some(p)
                &&& final(store)@ == p.0
                &&& rep@ == p.1
            }),
            Err(RunError::Parse(e)) => ({
                &&& spec_parse(line@) is None
                &&& e.trail_model() == spec_trail(line@)
                &&& final(store)@ == old(store)@
            }),
            Err(RunError::IncrType(_)) => ({
                &&& spec_parse(line@) matches Some(c)
                &&& spec_step(old(store)@, c) is None
                &&& final(store)@ == old(store)@
            }),
        },
{
    match parse(line) {
        Ok(cmd) => match store.apply(cmd) {
            Ok(rep) => Ok(rep),
            Err(e) => Err(RunError::IncrType(e)),
        },
        Err(e) => Err(RunError::Parse(e)),
    }
}

/// Run a whole log against a fresh store, halting at the first failure:
/// exactly [`spec_run`] of the lines, from an empty mapping.
pub fn run(lines: &Vec<String>) -> (r: Result<Vec<String>, RunError>)
    ensures
        match r {
            Ok(reps) => ({
                &&& spec_run(Map::empty(), lines@.map_values(|l: String| l@)) matches Some(p)
                &&& reps@.map_values(|t: String| t@) == p.1
            }),
            Err(_) => spec_run(Map::empty(), lines@.map_values(|l: String| l@)) is None,
        },
{
    let ghost lv = lines@.map_values(|l: String| l@);
    let mut store = Store::new();
    let mut reps: Vec<String> = Vec::new();
    let n = lines.len();
    proof {
        assert(lv.take(0) =~= Seq::<Seq<char>>::empty());
        assert(reps@.map_values(|t: String| t@) =~= Seq::<Seq<char>>::empty());
    }
    let mut i: usize = 0;
    while i < n
        invariant
            i <= n,
            n == lines@.len(),
            lv == lines@.map_values(|l: String| l@),
            store.wf(),
            spec_run(Map::empty(), lv.take(i as int)) == Some(
                (store@, reps@.map_values(|t: String| t@)),
            ),
        decreases n - i,
    {
        let ghost pre_reps = reps@.map_values(|t: String| t@);
        let line = &lines[i];
        proof {
            assert(lv[i as int] == line@);
        }
        match run_line(&mut store, line.as_str()) {
            Ok(rep) => {
                reps.push(rep);
                proof {
                    lemma_spec_run_snoc(Map::empty(), lv.take(i as int), lv[i as int]);
                    assert(lv.take(i + 1) =~= lv.take(i as int).push(lv[i as int]));
                    assert(reps@.map_values(|t: String| t@) =~= pre_reps.push(rep@));
                }
            },
            Err(e) => {
                proof {
                    lemma_spec_run_fail(Map::empty(), lv, i as int);
                }
                return Err(e);
            },
        }
        i += 1;
    }
    proof {
        assert(lv.take(n as int) =~= lv);
    }
    Ok(reps)
}

} // verus!
