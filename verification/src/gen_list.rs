use vstd::prelude::*;
use vstd::string::StrSliceExecFns;

verus! {

/// Whether `c` is a decimal digit.
pub open spec fn is_ascii_digit(c: char) -> bool {
    48 <= c as u32 <= 57
}

/// The numeric value of a decimal digit.
pub open spec fn digit_val(c: char) -> nat {
    (c as u32 - 48) as nat
}

/// Whether every character of `s` is a decimal digit.
pub open spec fn all_digits(s: Seq<char>) -> bool {
    forall|i: int| 0 <= i < s.len() ==> is_ascii_digit(s[i])
}

/// The value of `s` read as a decimal numeral (leading zeros allowed,
/// the empty numeral reads as zero).
pub open spec fn dec_value(s: Seq<char>) -> nat
    decreases s.len(),
{
    if s.len() == 0 {
        0
    } else {
        dec_value(s.drop_last()) * 10 + digit_val(s.last())
    }
}

/// The extension a segment file's name carries.
pub open spec fn log_suffix() -> Seq<char> {
    seq!['.', 'l', 'o', 'g']
}

/// Whether `s` has the shape of a segment file's name: a nonempty decimal
/// numeral followed by `.log`.
pub open spec fn is_gen_file_name(s: Seq<char>) -> bool {
    &&& s.len() >= 5
    &&& s.subrange(s.len() - 4, s.len() as int) == log_suffix()
    &&& all_digits(s.subrange(0, s.len() - 4))
}

/// A numeral's prefixes never read as more than the numeral.
proof fn lemma_dec_value_prefix(s: Seq<char>, i: int)
    requires
        0 <= i <= s.len(),
    ensures
        dec_value(s.subrange(0, i)) <= dec_value(s),
    decreases s.len(),
{
    if i < s.len() {
        lemma_dec_value_prefix(s.drop_last(), i);
        assert(s.drop_last().subrange(0, i) =~= s.subrange(0, i));
        assert(dec_value(s.drop_last()) * 10 >= dec_value(s.drop_last()));
    } else {
        assert(s.subrange(0, i) =~= s);
    }
}

/// Parse a segment file's name, `{generation}.log` with a decimal id.
///
/// Returns the id exactly when the name is a decimal numeral followed by
/// `.log` and the numeral's value fits an unsigned 64-bit id; any other
/// name (another file in the directory) reads as `None` and is skipped by
/// enumeration.
pub fn parse_gen_file_name(name: &str) -> (r: Option<u64>)
    ensures
        match r {
            Some(g) => is_gen_file_name(name@) && dec_value(
                name@.subrange(0, name@.len() - 4),
            ) <= u64::MAX && g == dec_value(name@.subrange(0, name@.len() - 4)),
            None => !(is_gen_file_name(name@) && dec_value(name@.subrange(0, name@.len() - 4))
                <= u64::MAX),
        },
{
    let n = name.unicode_len();
    if n < 5 {
        return None;
    }
    let c1 = name.get_char(n - 4);
    let c2 = name.get_char(n - 3);
    let c3 = name.get_char(n - 2);
    let c4 = name.get_char(n - 1);
    if c1 != '.' || c2 != 'l' || c3 != 'o' || c4 != 'g' {
        proof {
            if name@.subrange(n - 4, n as int) == log_suffix() {
                assert(name@.subrange(n - 4, n as int)[0] == name@[n - 4]);
                assert(name@.subrange(n - 4, n as int)[1] == name@[n - 3]);
                assert(name@.subrange(n - 4, n as int)[2] == name@[n - 2]);
                assert(name@.subrange(n - 4, n as int)[3] == name@[n - 1]);
            }
        }
        return None;
    }
    proof {
        assert(name@.subrange(n - 4, n as int) =~= log_suffix());
    }
    let ghost stem = name@.subrange(0, n - 4);
    let mut v: u64 = 0;
    let mut i: usize = 0;
    while i < n - 4
        invariant
            5 <= n == name@.len(),
            i <= n - 4,
            stem == name@.subrange(0, n - 4),
            all_digits(name@.subrange(0, i as int)),
            v == dec_value(name@.subrange(0, i as int)),
        decreases n - 4 - i,
    {
        let c = name.get_char(i);
        let d = c as u32;
        let ghost pre = name@.subrange(0, i as int);
        let ghost pre1 = name@.subrange(0, i + 1);
        proof {
            assert(pre1.drop_last() =~= pre);
            assert(pre1.last() == name@[i as int]);
            assert(pre1 =~= stem.subrange(0, i + 1));
        }
        if d < 48 || d > 57 {
            proof {
                assert(stem[i as int] == name@[i as int]);
                assert(!is_ascii_digit(stem[i as int]));
            }
            return None;
        }
        let d64 = (d - 48) as u64;
        let w = match v.checked_mul(10) {
            Some(w) => w,
            None => {
                proof {
                    assert(dec_value(pre1) > u64::MAX);
                    lemma_dec_value_prefix(stem, i + 1);
                }
                return None;
            }
        };
        let nv = match w.checked_add(d64) {
            Some(nv) => nv,
            None => {
                proof {
                    assert(dec_value(pre1) > u64::MAX);
                    lemma_dec_value_prefix(stem, i + 1);
                }
                return None;
            }
        };
        v = nv;
        i += 1;
    }
    proof {
        assert(name@.subrange(0, i as int) == stem);
    }
    Some(v)
}

/// Sort a list of generation ids ascending; the result is a permutation
/// of the input.
pub fn sort_gens(gens: Vec<u64>) -> (r: Vec<u64>)
    ensures
        forall|i: int, j: int| 0 <= i < j < r@.len() ==> r@[i] <= r@[j],
        r@.to_multiset() == gens@.to_multiset(),
{
    broadcast use vstd::seq_lib::group_to_multiset_ensures;

    let mut rest = gens;
    let mut out: Vec<u64> = Vec::new();
    while rest.len() > 0
        invariant
            forall|i: int, j: int| 0 <= i < j < out@.len() ==> out@[i] <= out@[j],
            forall|i: int, j: int|
                0 <= i < out@.len() && 0 <= j < rest@.len() ==> out@[i] <= rest@[j],
            out@.to_multiset().add(rest@.to_multiset()) == gens@.to_multiset(),
        decreases rest@.len(),
    {
        let mut m: usize = 0;
        let mut i: usize = 1;
        while i < rest.len()
            invariant
                m < i <= rest@.len(),
                rest@.len() > 0,
                forall|j: int| 0 <= j < i ==> rest@[m as int] <= rest@[j],
            decreases rest@.len() - i,
        {
            if rest[i] < rest[m] {
                m = i;
            }
            i += 1;
        }
        let ghost rest0 = rest@;
        let ghost out0 = out@;
        let x = rest.remove(m);
        out.push(x);
        proof {
            broadcast use vstd::seq_lib::group_to_multiset_ensures;

            assert(rest0.contains(rest0[m as int]));
            assert(rest0.to_multiset().count(x) > 0);
            assert(out@.to_multiset() =~= out0.to_multiset().insert(x));
            assert(rest@.to_multiset() =~= rest0.to_multiset().remove(x));
            assert(out@.to_multiset().add(rest@.to_multiset()) =~= out0.to_multiset().add(
                rest0.to_multiset(),
            ));
            assert forall|j: int| 0 <= j < rest@.len() implies x <= rest@[j] by {
                if j < m {
                    assert(rest@[j] == rest0[j]);
                } else {
                    assert(rest@[j] == rest0[j + 1]);
                }
            }
        }
    }
    out
}

/// Collapse equal neighbours of an ascending list: the result is strictly
/// ascending and holds exactly the ids the input holds.
pub fn dedup_gens(gens: Vec<u64>) -> (r: Vec<u64>)
    requires
        forall|i: int, j: int| 0 <= i < j < gens@.len() ==> gens@[i] <= gens@[j],
    ensures
        forall|i: int, j: int| 0 <= i < j < r@.len() ==> r@[i] < r@[j],
        forall|x: u64| r@.contains(x) <==> gens@.contains(x),
{
    let mut out: Vec<u64> = Vec::new();
    let mut k: usize = 0;
    while k < gens.len()
        invariant
            k <= gens@.len(),
            forall|i: int, j: int| 0 <= i < j < gens@.len() ==> gens@[i] <= gens@[j],
            forall|i: int, j: int| 0 <= i < j < out@.len() ==> out@[i] < out@[j],
            k == 0 ==> out@.len() == 0,
            k > 0 ==> out@.len() > 0 && out@.last() <= gens@[k - 1],
            forall|x: u64| out@.contains(x) <==> gens@.subrange(0, k as int).contains(x),
        decreases gens@.len() - k,
    {
        let g = gens[k];
        let push_it = if out.len() == 0 {
            true
        } else {
            out[out.len() - 1] != g
        };
        let ghost out0 = out@;
        if push_it {
            proof {
                if out0.len() > 0 {
                    assert(out0.last() <= gens@[k - 1]);
                    assert(gens@[k - 1] <= gens@[k as int]);
                    assert(out0.last() < g);
                }
            }
            out.push(g);
        }
        proof {
            let prefix1 = gens@.subrange(0, k + 1);
            assert(prefix1.drop_last() =~= gens@.subrange(0, k as int));
            assert forall|x: u64| out@.contains(x) implies prefix1.contains(x) by {
                let wi = choose|wi: int| 0 <= wi < out@.len() && out@[wi] == x;
                if wi < out0.len() {
                    assert(out0.contains(x));
                    let wj = choose|wj: int|
                        0 <= wj < gens@.subrange(0, k as int).len() && gens@.subrange(
                            0,
                            k as int,
                        )[wj] == x;
                    assert(prefix1[wj] == x);
                } else {
                    assert(prefix1[k as int] == x);
                }
            }
            assert forall|x: u64| prefix1.contains(x) implies out@.contains(x) by {
                let wi = choose|wi: int| 0 <= wi < prefix1.len() && prefix1[wi] == x;
                if wi < k {
                    assert(gens@.subrange(0, k as int).contains(x));
                    assert(out0.contains(x));
                    let wj = choose|wj: int| 0 <= wj < out0.len() && out0[wj] == x;
                    assert(out@[wj] == x);
                } else {
                    if push_it {
                        assert(out@.last() == x);
                    } else {
                        assert(out0.last() == g);
                        assert(out@.contains(x));
                    }
                }
            }
        }
        k += 1;
    }
    proof {
        assert(gens@.subrange(0, gens@.len() as int) =~= gens@);
    }
    out
}

} // verus!
