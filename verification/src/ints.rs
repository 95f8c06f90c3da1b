//! Decimal integers as text: spec-level reading and writing of `i64` values,
//! executable counterparts proved against them, and the round-trip law that
//! connects the two.

use vstd::prelude::*;
use vstd::string::*;

verus! {

/// The characters `'0'` through `'9'`.
pub open spec fn is_digit_char(c: char) -> bool {
    ('0' as int) <= (c as int) && (c as int) <= ('9' as int)
}

/// Numeric value of a digit character.
pub open spec fn digit_val(c: char) -> nat {
    ((c as int) - ('0' as int)) as nat
}

/// The digit character for a value below ten.
pub open spec fn digit_char(n: nat) -> char {
    if n == 0 {
        '0'
    } else if n == 1 {
        '1'
    } else if n == 2 {
        '2'
    } else if n == 3 {
        '3'
    } else if n == 4 {
        '4'
    } else if n == 5 {
        '5'
    } else if n == 6 {
        '6'
    } else if n == 7 {
        '7'
    } else if n == 8 {
        '8'
    } else {
        '9'
    }
}

pub open spec fn all_digits(s: Seq<char>) -> bool {
    forall|i: int| 0 <= i < s.len() ==> is_digit_char(s[i])
}

/// The number that a sequence of digit characters denotes.
pub open spec fn digits_val(s: Seq<char>) -> nat
    decreases s.len(),
{
    if s.len() == 0 {
        0
    } else {
        digits_val(s.drop_last()) * 10 + digit_val(s.last())
    }
}

/// The canonical digits of a number: most significant first, no leading zeros.
pub open spec fn digits_of(n: nat) -> Seq<char>
    decreases n,
{
    if n < 10 {
        seq![digit_char(n)]
    } else {
        digits_of(n / 10).push(digit_char(n % 10))
    }
}

/// The canonical decimal text of an integer: a minus sign ahead of the digits
/// of the magnitude when the integer is negative, the bare digits otherwise.
pub open spec fn string_of_int(n: int) -> Seq<char> {
    if n >= 0 {
        digits_of(n as nat)
    } else {
        seq!['-'] + digits_of((-n) as nat)
    }
}

/// What reading a whole string as an `i64` makes of a sequence of characters:
/// an optional single `+` or `-` sign, then one or more digit characters and
/// nothing else, with the signed value inside the `i64` range. Any other
/// sequence reads as nothing.
pub open spec fn parse_int_spec(s: Seq<char>) -> Option<int> {
    let neg = s.len() > 0 && s[0] == '-';
    let signed = s.len() > 0 && (s[0] == '-' || s[0] == '+');
    let ds = if signed {
        s.drop_first()
    } else {
        s
    };
    if ds.len() > 0 && all_digits(ds) {
        let v = if neg {
            -(digits_val(ds) as int)
        } else {
            digits_val(ds) as int
        };
        if i64::MIN <= v <= i64::MAX {
            Some(v)
        } else {
            None
        }
    } else {
        None
    }
}

/// A digit sequence denotes at least what any of its prefixes denotes.
proof fn lemma_digits_val_prefix(s: Seq<char>, k: int)
    requires
        0 <= k <= s.len(),
    ensures
        digits_val(s.take(k)) <= digits_val(s),
    decreases s.len() - k,
{
    if k < s.len() {
        assert(s.take(k + 1).drop_last() =~= s.take(k));
        assert(digits_val(s.take(k + 1)) == digits_val(s.take(k)) * 10 + digit_val(
            s.take(k + 1).last(),
        ));
        lemma_digits_val_prefix(s, k + 1);
    } else {
        assert(s.take(k) =~= s);
    }
}

proof fn lemma_digit_char_val(d: nat)
    requires
        d < 10,
    ensures
        is_digit_char(digit_char(d)),
        digit_val(digit_char(d)) == d,
{
}

/// The canonical digits of a number are nonempty and all digits.
proof fn lemma_digits_of_wf(n: nat)
    ensures
        digits_of(n).len() >= 1,
        all_digits(digits_of(n)),
    decreases n,
{
    if n < 10 {
        lemma_digit_char_val(n);
    } else {
        lemma_digits_of_wf(n / 10);
        lemma_digit_char_val(n % 10);
        assert forall|i: int| 0 <= i < digits_of(n).len() implies is_digit_char(
            digits_of(n)[i],
        ) by {
            if i < digits_of(n).len() - 1 {
                assert(digits_of(n)[i] == digits_of(n / 10)[i]);
            }
        }
    }
}

/// The canonical digits of a number denote that number.
proof fn lemma_digits_of_val(n: nat)
    ensures
        digits_val(digits_of(n)) == n,
    decreases n,
{
    if n < 10 {
        assert(seq![digit_char(n)].drop_last() =~= Seq::<char>::empty());
        assert(seq![digit_char(n)].last() == digit_char(n));
        assert(digits_val(Seq::<char>::empty()) == 0);
        lemma_digit_char_val(n);
        assert(digits_val(seq![digit_char(n)]) == n);
    } else {
        lemma_digits_of_val(n / 10);
        lemma_digit_char_val(n % 10);
        let s2 = digits_of(n / 10).push(digit_char(n % 10));
        assert(s2.last() == digit_char(n % 10));
        assert(s2.drop_last() =~= digits_of(n / 10));
        assert(digits_val(s2) == digits_val(digits_of(n / 10)) * 10 + digit_val(
            digit_char(n % 10),
        ));
        vstd::arithmetic::div_mod::lemma_fundamental_div_mod(n as int, 10);
        assert(digits_val(s2) == (n / 10) * 10 + n % 10);
    }
}

/// Round trip: reading back the canonical text of an integer yields exactly
/// that integer.
pub proof fn lemma_int_string_roundtrip(n: int)
    requires
        i64::MIN <= n <= i64::MAX,
    ensures
        parse_int_spec(string_of_int(n)) == Some(n),
{
    if n >= 0 {
        let s = digits_of(n as nat);
        lemma_digits_of_wf(n as nat);
        lemma_digits_of_val(n as nat);
        assert(is_digit_char(s[0]));
        assert(s[0] != '-' && s[0] != '+');
    } else {
        let m = (-n) as nat;
        let s = seq!['-'] + digits_of(m);
        lemma_digits_of_wf(m);
        lemma_digits_of_val(m);
        assert(s[0] == '-');
        assert(s.drop_first() =~= digits_of(m));
    }
}

/// Tell a digit character from any other, and give its value.
fn digit_of_char(c: char) -> (r: Option<u64>)
    ensures
        match r {
            Some(d) => is_digit_char(c) && d == digit_val(c) && d < 10,
            None => !is_digit_char(c),
        },
{
    let u = c as u32;
    if 48 <= u && u <= 57 {
        Some((u - 48) as u64)
    } else {
        None
    }
}

/// Read a whole string as an `i64`, exactly as [`parse_int_spec`] says.
pub fn parse_int(s: &str) -> (r: Option<i64>)
    ensures
        match r {
            Some(v) => parse_int_spec(s@) == Some(v as int),
            None => parse_int_spec(s@) is None,
        },
{
    let len = s.unicode_len();
    if len == 0 {
        return None;
    }
    let c0 = s.get_char(0);
    let neg = c0 == '-';
    let start: usize = if c0 == '-' || c0 == '+' {
        1
    } else {
        0
    };
    if start == len {
        return None;
    }
    let limit: u64 = if neg {
        9223372036854775808
    } else {
        9223372036854775807
    };
    let ghost ds: Seq<char> = s@.skip(start as int);
    proof {
        if start == 0 {
            assert(ds =~= s@);
        } else {
            assert(ds =~= s@.drop_first());
        }
    }
    let mut acc: u64 = 0;
    let mut j: usize = start;
    while j < len
        invariant
            start <= j <= len,
            len == s@.len(),
            start == 0 || start == 1,
            start == 1 ==> (s@[0] == '-' || s@[0] == '+'),
            start == 0 ==> !(s@[0] == '-' || s@[0] == '+'),
            neg == (s@[0] == '-'),
            ds == s@.skip(start as int),
            start == 0 ==> ds == s@,
            start == 1 ==> ds == s@.drop_first(),
            ds.len() == len - start,
            all_digits(ds.take(j - start)),
            acc == digits_val(ds.take(j - start)),
            acc <= limit,
            limit == if neg {
                9223372036854775808u64
            } else {
                9223372036854775807u64
            },
        decreases len - j,
    {
        let ghost prefix = ds.take(j - start);
        let c = s.get_char(j);
        proof {
            assert(ds[j - start] == s@[j as int]);
        }
        match digit_of_char(c) {
            Some(d) => {
                proof {
                    assert(ds.take(j + 1 - start).drop_last() =~= prefix);
                    assert(ds.take(j + 1 - start).last() == c);
                }
                let a2: u128 = (acc as u128) * 10 + (d as u128);
                assert(a2 == digits_val(ds.take(j + 1 - start)));
                if a2 > limit as u128 {
                    proof {
                        lemma_digits_val_prefix(ds, j + 1 - start);
                        let dv = digits_val(ds);
                        if all_digits(ds) {
                            assert(dv >= a2 as nat);
                            assert(dv > limit as nat);
                            if neg {
                                assert(-(dv as int) < i64::MIN);
                                assert(parse_int_spec(s@) is None);
                            } else {
                                assert(dv as int > i64::MAX);
                                assert(parse_int_spec(s@) is None);
                            }
                        } else {
                            assert(parse_int_spec(s@) is None);
                        }
                    }
                    return None;
                }
                acc = a2 as u64;
                proof {
                    assert forall|i: int| 0 <= i < j + 1 - start implies #[trigger] is_digit_char(
                        ds.take(j + 1 - start)[i],
                    ) by {
                        if i < j - start {
                            assert(ds.take(j + 1 - start)[i] == prefix[i]);
                            assert(is_digit_char(prefix[i]));
                        }
                    }
                }
                j += 1;
            },
            None => {
                proof {
                    assert(!is_digit_char(ds[j - start]));
                }
                return None;
            },
        }
    }
    proof {
        assert(ds.take(j - start) =~= ds);
    }
    if neg {
        if acc == 9223372036854775808u64 {
            Some(i64::MIN)
        } else {
            Some(-(acc as i64))
        }
    } else {
        Some(acc as i64)
    }
}

/// The digit character for a value below ten, as a one-character string.
fn digit_str(d: u64) -> (r: &'static str)
    requires
        d < 10,
    ensures
        r@ == seq![digit_char(d as nat)],
{
    if d == 0 {
        let r = "0";
        proof {
            reveal_strlit("0");
            assert(r@ =~= seq![digit_char(0)]);
        }
        r
    } else if d == 1 {
        let r = "1";
        proof {
            reveal_strlit("1");
            assert(r@ =~= seq![digit_char(1)]);
        }
        r
    } else if d == 2 {
        let r = "2";
        proof {
            reveal_strlit("2");
            assert(r@ =~= seq![digit_char(2)]);
        }
        r
    } else if d == 3 {
        let r = "3";
        proof {
            reveal_strlit("3");
            assert(r@ =~= seq![digit_char(3)]);
        }
        r
    } else if d == 4 {
        let r = "4";
        proof {
            reveal_strlit("4");
            assert(r@ =~= seq![digit_char(4)]);
        }
        r
    } else if d == 5 {
        let r = "5";
        proof {
            reveal_strlit("5");
            assert(r@ =~= seq![digit_char(5)]);
        }
        r
    } else if d == 6 {
        let r = "6";
        proof {
            reveal_strlit("6");
            assert(r@ =~= seq![digit_char(6)]);
        }
        r
    } else if d == 7 {
        let r = "7";
        proof {
            reveal_strlit("7");
            assert(r@ =~= seq![digit_char(7)]);
        }
        r
    } else if d == 8 {
        let r = "8";
        proof {
            reveal_strlit("8");
            assert(r@ =~= seq![digit_char(8)]);
        }
        r
    } else {
        let r = "9";
        proof {
            reveal_strlit("9");
            assert(r@ =~= seq![digit_char(9)]);
        }
        r
    }
}

/// The canonical digits of a `u64`, as a string.
fn mag_to_string(n: u64) -> (r: String)
    ensures
        r@ == digits_of(n as nat),
{
    let mut acc = String::from_str(digit_str(n % 10));
    proof {
        if n < 10 {
            assert(n % 10 == n);
        } else {
            assert(digits_of(n as nat) =~= digits_of((n / 10) as nat) + acc@);
        }
    }
    let mut m = n / 10;
    while m > 0
        invariant
            digits_of(n as nat) == if m > 0 {
                digits_of(m as nat) + acc@
            } else {
                acc@
            },
        decreases m,
    {
        let ghost accg = acc@;
        let mut next = String::from_str(digit_str(m % 10));
        next.append(acc.as_str());
        acc = next;
        proof {
            if m < 10 {
                assert(m % 10 == m);
                assert(digits_of(m as nat) + accg =~= acc@);
            } else {
                assert(digits_of(m as nat) =~= digits_of((m / 10) as nat) + seq![
                    digit_char((m % 10) as nat),
                ]);
                assert(digits_of((m / 10) as nat) + acc@ =~= digits_of(m as nat) + accg);
            }
        }
        m = m / 10;
    }
    acc
}

/// Write an `i64` as decimal text, exactly [`string_of_int`].
pub fn int_to_string(n: i64) -> (r: String)
    ensures
        r@ == string_of_int(n as int),
{
    if n < 0 {
        let mag: u64 = if n == i64::MIN {
            9223372036854775808
        } else {
            (-n) as u64
        };
        let digits = mag_to_string(mag);
        let mut out = String::from_str("-");
        out.append(digits.as_str());
        proof {
            reveal_strlit("-");
            assert(out@ =~= seq!['-'] + digits_of((-(n as int)) as nat));
        }
        out
    } else {
        mag_to_string(n as u64)
    }
}

} // verus!
