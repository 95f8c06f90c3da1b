//! The store executor: an in-memory key-value mapping, a spec-level
//! transition function saying what every command does to it, an `apply`
//! proved against that function, and the laws the semantics obey.

use crate::command::{Command, CommandModel};
use crate::ints::{int_to_string, lemma_int_string_roundtrip, parse_int, parse_int_spec,
    string_of_int};
use vstd::prelude::*;
use vstd::string::*;

verus! {

/// The reply `"OK"`.
pub open spec fn reply_ok() -> Seq<char> {
    seq!['O', 'K']
}

/// The reply `"nil"`.
pub open spec fn reply_nil() -> Seq<char> {
    seq!['n', 'i', 'l']
}

/// The value an absent key is treated as holding by `Incr`: `"0"`.
pub open spec fn zero_text() -> Seq<char> {
    seq!['0']
}

/// What one command does to the store's mapping and what it replies.
/// `None` is the one failure: `Incr` of a value that does not read as an
/// `i64`, or whose successor would leave the `i64` range.
pub open spec fn spec_step(m: Map<Seq<char>, Seq<char>>, c: CommandModel) -> Option<
    (Map<Seq<char>, Seq<char>>, Seq<char>),
> {
    match c {
        CommandModel::Put(k, v) => Some((m.insert(k, v), reply_ok())),
        CommandModel::Get(k) => Some(
            (
                m,
                if m.contains_key(k) {
                    m[k]
                } else {
                    reply_nil()
                },
            ),
        ),
        CommandModel::Del(k) => Some((m.remove(k), reply_ok())),
        CommandModel::Incr(k) => {
            let cur = if m.contains_key(k) {
                m[k]
            } else {
                zero_text()
            };
            match parse_int_spec(cur) {
                Some(v) => if v < i64::MAX {
                    Some((m.insert(k, string_of_int(v + 1)), reply_ok()))
                } else {
                    None
                },
                None => None,
            }
        },
        CommandModel::Flush => Some((Map::empty(), reply_ok())),
    }
}

/// `Incr` found a value that does not read as an `i64`, or one whose
/// successor would leave the `i64` range.
#[derive(Debug)]
pub struct IncrTypeError {}

/// The in-memory key-value store: an association list with pairwise
/// distinct keys.
pub struct Store {
    entries: Vec<(String, String)>,
}

spec fn entry_keys_distinct(s: Seq<(String, String)>) -> bool {
    forall|i: int, j: int|
        0 <= i < j < s.len() ==> (#[trigger] s[i]).0@ != (#[trigger] s[j]).0@
}

/// The mapping an association list denotes.
spec fn map_of(s: Seq<(String, String)>) -> Map<Seq<char>, Seq<char>>
    decreases s.len(),
{
    if s.len() == 0 {
        Map::empty()
    } else {
        map_of(s.drop_last()).insert(s.last().0@, s.last().1@)
    }
}

proof fn lemma_map_of_contains(s: Seq<(String, String)>, k: Seq<char>)
    ensures
        map_of(s).contains_key(k) <==> (exists|i: int|
            0 <= i < s.len() && (#[trigger] s[i]).0@ == k),
    decreases s.len(),
{
    if s.len() > 0 {
        let t = s.drop_last();
        lemma_map_of_contains(t, k);
        if s.last().0@ == k {
            assert(s[s.len() - 1].0@ == k);
        } else {
            if map_of(s).contains_key(k) {
                let i = choose|i: int| 0 <= i < t.len() && (#[trigger] t[i]).0@ == k;
                assert(s[i] == t[i]);
            }
            if exists|i: int| 0 <= i < s.len() && (#[trigger] s[i]).0@ == k {
                let i = choose|i: int| 0 <= i < s.len() && (#[trigger] s[i]).0@ == k;
                assert(i != s.len() - 1);
                assert(t[i] == s[i]);
            }
        }
    }
}

proof fn lemma_distinct_drop_last(s: Seq<(String, String)>)
    requires
        entry_keys_distinct(s),
        s.len() > 0,
    ensures
        entry_keys_distinct(s.drop_last()),
{
    let t = s.drop_last();
    assert forall|i: int, j: int| 0 <= i < j < t.len() implies (#[trigger] t[i]).0@ != (
    #[trigger] t[j]).0@ by {
        assert(t[i] == s[i]);
        assert(t[j] == s[j]);
    }
}

proof fn lemma_map_of_get(s: Seq<(String, String)>, i: int)
    requires
        entry_keys_distinct(s),
        0 <= i < s.len(),
    ensures
        map_of(s).contains_key(s[i].0@),
        map_of(s)[s[i].0@] == s[i].1@,
    decreases s.len(),
{
    if i == s.len() - 1 {
    } else {
        let t = s.drop_last();
        lemma_distinct_drop_last(s);
        assert(t[i] == s[i]);
        lemma_map_of_get(t, i);
        assert(s[i].0@ != s[s.len() - 1].0@);
    }
}

proof fn lemma_distinct_remove(s: Seq<(String, String)>, i: int)
    requires
        entry_keys_distinct(s),
        0 <= i < s.len(),
    ensures
        entry_keys_distinct(s.remove(i)),
        forall|j: int| 0 <= j < s.remove(i).len() ==> (#[trigger] s.remove(i)[j]).0@ != s[i].0@,
{
    let t = s.remove(i);
    assert forall|a: int, b: int| 0 <= a < b < t.len() implies (#[trigger] t[a]).0@ != (
    #[trigger] t[b]).0@ by {
        if a < i {
            assert(t[a] == s[a]);
        } else {
            assert(t[a] == s[a + 1]);
        }
        if b < i {
            assert(t[b] == s[b]);
        } else {
            assert(t[b] == s[b + 1]);
        }
    }
    assert forall|j: int| 0 <= j < t.len() implies (#[trigger] t[j]).0@ != s[i].0@ by {
        if j < i {
            assert(t[j] == s[j]);
        } else {
            assert(t[j] == s[j + 1]);
        }
    }
}

proof fn lemma_map_of_remove(s: Seq<(String, String)>, i: int)
    requires
        entry_keys_distinct(s),
        0 <= i < s.len(),
    ensures
        map_of(s.remove(i)) == map_of(s).remove(s[i].0@),
    decreases s.len(),
{
    let k = s[i].0@;
    if i == s.len() - 1 {
        assert(s.remove(i) =~= s.drop_last());
        lemma_distinct_drop_last(s);
        lemma_map_of_contains(s.drop_last(), k);
        assert(!map_of(s.drop_last()).contains_key(k)) by {
            if exists|j: int| 0 <= j < s.drop_last().len() && (#[trigger] s.drop_last()[j]).0@
                == k {
                let j = choose|j: int|
                    0 <= j < s.drop_last().len() && (#[trigger] s.drop_last()[j]).0@ == k;
                assert(s.drop_last()[j] == s[j]);
            }
        }
        assert(map_of(s).remove(k) =~= map_of(s.drop_last()));
    } else {
        let t = s.drop_last();
        lemma_distinct_drop_last(s);
        lemma_map_of_remove(t, i);
        assert(s.remove(i).drop_last() =~= t.remove(i));
        assert(s.remove(i).last() == s.last());
        assert(s[i].0@ != s.last().0@);
        assert(map_of(t).remove(k).insert(s.last().0@, s.last().1@) =~= map_of(t).insert(
            s.last().0@,
            s.last().1@,
        ).remove(k));
    }
}

impl View for Store {
    type V = Map<Seq<char>, Seq<char>>;

    /// The mapping this store holds.
    closed spec fn view(&self) -> Map<Seq<char>, Seq<char>> {
        map_of(self.entries@)
    }
}

impl Store {
    /// The store's invariant: one entry per key.
    pub closed spec fn wf(&self) -> bool {
        entry_keys_distinct(self.entries@)
    }

    /// A new, empty store.
    pub fn new() -> (s: Store)
        ensures
            s.wf(),
            s@ == Map::<Seq<char>, Seq<char>>::empty(),
    {
        let s = Store { entries: Vec::new() };
        proof {
            assert(s@ =~= Map::<Seq<char>, Seq<char>>::empty());
        }
        s
    }

    /// Index of the entry holding key `k`, if any.
    fn find_idx(&self, k: &String) -> (r: Option<usize>)
        ensures
            match r {
                Some(i) => i < self.entries@.len() && self.entries@[i as int].0@ == k@,
                None => forall|i: int|
                    0 <= i < self.entries@.len() ==> (#[trigger] self.entries@[i]).0@ != k@,
            },
    {
        let n = self.entries.len();
        let mut i: usize = 0;
        while i < n
            invariant
                i <= n,
                n == self.entries@.len(),
                forall|j: int| 0 <= j < i ==> (#[trigger] self.entries@[j]).0@ != k@,
            decreases n - i,
        {
            let e = &self.entries[i];
            if e.0 == *k {
                return Some(i);
            }
            i += 1;
        }
        None
    }

    /// Remove the entry holding `k`, if any is there.
    fn remove_key(&mut self, k: &String)
        requires
            old(self).wf(),
        ensures
            final(self).wf(),
            final(self)@ == old(self)@.remove(k@),
            forall|i: int|
                0 <= i < final(self).entries@.len() ==> (#[trigger] final(self).entries@[i]).0@
                    != k@,
    {
        match self.find_idx(k) {
            Some(i) => {
                proof {
                    lemma_map_of_remove(self.entries@, i as int);
                    lemma_distinct_remove(self.entries@, i as int);
                }
                self.entries.remove(i);
            },
            None => {
                proof {
                    lemma_map_of_contains(self.entries@, k@);
                    assert(self@.remove(k@) =~= self@);
                }
            },
        }
    }

    /// Insert or overwrite `k → v`.
    fn put_entry(&mut self, k: String, v: String)
        requires
            old(self).wf(),
        ensures
            final(self).wf(),
            final(self)@ == old(self)@.insert(k@, v@),
    {
        let ghost kk = k@;
        let ghost vv = v@;
        self.remove_key(&k);
        let ghost mid = self.entries@;
        self.entries.push((k, v));
        proof {
            let t = mid.push((k, v));
            assert(t.drop_last() =~= mid);
            assert(t.last().0@ == kk && t.last().1@ == vv);
            assert forall|a: int, b: int| 0 <= a < b < t.len() implies (#[trigger] t[a]).0@ != (
            #[trigger] t[b]).0@ by {
                assert(t[a] == mid[a]);
                if b < t.len() - 1 {
                    assert(t[b] == mid[b]);
                }
            }
            assert(old(self)@.remove(kk).insert(kk, vv) =~= old(self)@.insert(kk, vv));
        }
    }

    /// Apply one command, per [`spec_step`]: the mapping steps and the reply
    /// comes back, or `Incr` fails, the error comes back, and the store is
    /// left exactly as it was.
    pub fn apply(&mut self, cmd: Command) -> (r: Result<String, IncrTypeError>)
        requires
            old(self).wf(),
        ensures
            final(self).wf(),
            match r {
                Ok(rep) => ({
                    &&& spec_step(old(self)@, cmd@) matches Some(p)
                    &&& final(self)@ == p.0
                    &&& rep@ == p.1
                }),
                Err(_) => spec_step(old(self)@, cmd@) is None && final(self)@ == old(self)@,
            },
    {
        match cmd {
            Command::Put(k, v) => {
                self.put_entry(k, v);
                let rep = String::from_str("OK");
                proof {
                    reveal_strlit("OK");
                    assert(rep@ =~= reply_ok());
                }
                Ok(rep)
            },
            Command::Get(k) => {
                match self.find_idx(&k) {
                    Some(i) => {
                        proof {
                            lemma_map_of_get(self.entries@, i as int);
                        }
                        let e = &self.entries[i];
                        Ok(e.1.clone())
                    },
                    None => {
                        proof {
                            lemma_map_of_contains(self.entries@, k@);
                        }
                        let rep = String::from_str("nil");
                        proof {
                            reveal_strlit("nil");
                            assert(rep@ =~= reply_nil());
                        }
                        Ok(rep)
                    },
                }
            },
            Command::Del(k) => {
                self.remove_key(&k);
                let rep = String::from_str("OK");
                proof {
                    reveal_strlit("OK");
                    assert(rep@ =~= reply_ok());
                }
                Ok(rep)
            },
            Command::Incr(k) => {
                let cur: String = match self.find_idx(&k) {
                    Some(i) => {
                        proof {
                            lemma_map_of_get(self.entries@, i as int);
                        }
                        let e = &self.entries[i];
                        e.1.clone()
                    },
                    None => {
                        proof {
                            lemma_map_of_contains(self.entries@, k@);
                        }
                        let z = String::from_str("0");
                        proof {
                            reveal_strlit("0");
                            assert(z@ =~= zero_text());
                        }
                        z
                    },
                };
                match parse_int(cur.as_str()) {
                    Some(v) => {
                        if v < i64::MAX {
                            let nv = int_to_string(v + 1);
                            self.put_entry(k, nv);
                            let rep = String::from_str("OK");
                            proof {
                                reveal_strlit("OK");
                                assert(rep@ =~= reply_ok());
                            }
                            Ok(rep)
                        } else {
                            Err(IncrTypeError {  })
                        }
                    },
                    None => Err(IncrTypeError {  }),
                }
            },
            Command::Flush => {
                self.entries.clear();
                proof {
                    assert(self@ =~= Map::<Seq<char>, Seq<char>>::empty());
                }
                let rep = String::from_str("OK");
                proof {
                    reveal_strlit("OK");
                    assert(rep@ =~= reply_ok());
                }
                Ok(rep)
            },
        }
    }
}

/// Round trip: a `Put` of `v` under `k` succeeds with `"OK"`, and a `Get`
/// of `k` right after replies exactly `v`.
pub proof fn lemma_put_then_get(m: Map<Seq<char>, Seq<char>>, k: Seq<char>, v: Seq<char>)
    ensures
        spec_step(m, CommandModel::Put(k, v)) == Some((m.insert(k, v), reply_ok())),
        spec_step(m.insert(k, v), CommandModel::Get(k)) == Some((m.insert(k, v), v)),
{
}

/// A key the store does not hold reads as `"nil"`, and the store stands.
pub proof fn lemma_absent_get(m: Map<Seq<char>, Seq<char>>, k: Seq<char>)
    requires
        !m.contains_key(k),
    ensures
        spec_step(m, CommandModel::Get(k)) == Some((m, reply_nil())),
{
}

/// A deleted key reads as `"nil"`: a `Del` of `k` (present or not) leaves
/// the store without `k`, and a `Get` of `k` right after replies `"nil"`.
pub proof fn lemma_del_then_get(m: Map<Seq<char>, Seq<char>>, k: Seq<char>)
    ensures
        spec_step(m, CommandModel::Del(k)) == Some((m.remove(k), reply_ok())),
        spec_step(m.remove(k), CommandModel::Get(k)) == Some((m.remove(k), reply_nil())),
{
}

/// Deleting an absent key succeeds with `"OK"` and leaves the store
/// unchanged.
pub proof fn lemma_del_absent(m: Map<Seq<char>, Seq<char>>, k: Seq<char>)
    requires
        !m.contains_key(k),
    ensures
        spec_step(m, CommandModel::Del(k)) == Some((m, reply_ok())),
{
    assert(m.remove(k) =~= m);
}

/// `Incr` of an absent key succeeds and sets the key to `"1"`.
pub proof fn lemma_incr_absent(m: Map<Seq<char>, Seq<char>>, k: Seq<char>)
    requires
        !m.contains_key(k),
    ensures
        spec_step(m, CommandModel::Incr(k)) == Some((m.insert(k, seq!['1']), reply_ok())),
{
    assert(seq!['0'].drop_last() =~= Seq::<char>::empty());
    assert(seq!['0'].last() == '0');
    assert(crate::ints::digits_val(Seq::<char>::empty()) == 0);
    assert(crate::ints::digits_val(seq!['0']) == 0);
    assert(crate::ints::all_digits(zero_text()));
    assert(parse_int_spec(zero_text()) == Some(0int));
    assert(string_of_int(1) =~= seq!['1']);
}

/// After a `Flush`, the store is empty, so any `Get` replies `"nil"`.
pub proof fn lemma_flush_then_get(m: Map<Seq<char>, Seq<char>>, k: Seq<char>)
    ensures
        spec_step(m, CommandModel::Flush) == Some(
            (Map::<Seq<char>, Seq<char>>::empty(), reply_ok()),
        ),
        spec_step(Map::<Seq<char>, Seq<char>>::empty(), CommandModel::Get(k)) == Some(
            (Map::<Seq<char>, Seq<char>>::empty(), reply_nil()),
        ),
{
}

/// The mapping after `n` consecutive `Incr`s of `k`, or `None` if one of
/// them fails.
pub open spec fn incr_n(m: Map<Seq<char>, Seq<char>>, k: Seq<char>, n: nat) -> Option<
    Map<Seq<char>, Seq<char>>,
>
    decreases n,
{
    if n == 0 {
        Some(m)
    } else {
        match incr_n(m, k, (n - 1) as nat) {
            Some(m2) => match spec_step(m2, CommandModel::Incr(k)) {
                Some(p) => Some(p.0),
                None => None,
            },
            None => None,
        }
    }
}

/// Accumulation: `n` consecutive `Incr`s of a key the store did not hold
/// all succeed and leave the key holding the decimal text of `n`.
pub proof fn lemma_incr_accumulation(m: Map<Seq<char>, Seq<char>>, k: Seq<char>, n: nat)
    requires
        !m.contains_key(k),
        1 <= n <= i64::MAX,
    ensures
        incr_n(m, k, n) == Some(m.insert(k, string_of_int(n as int))),
    decreases n,
{
    if n == 1 {
        lemma_incr_absent(m, k);
        assert(string_of_int(1) =~= seq!['1']);
    } else {
        lemma_incr_accumulation(m, k, (n - 1) as nat);
        let m2 = m.insert(k, string_of_int(n - 1));
        lemma_int_string_roundtrip(n - 1);
        assert(m2.contains_key(k) && m2[k] == string_of_int(n - 1));
        assert(spec_step(m2, CommandModel::Incr(k)) == Some(
            (m2.insert(k, string_of_int(n as int)), reply_ok()),
        ));
        assert(m2.insert(k, string_of_int(n as int)) =~= m.insert(k, string_of_int(n as int)));
    }
}

} // verus!
