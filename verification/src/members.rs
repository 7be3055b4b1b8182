//! The divisors of a number that are elements of a monoid, and their ordering.

use vstd::prelude::*;
use crate::divisors::divisors;
use crate::monoid::Monoid;
use crate::number_theory::divides;

verus! {

/// The numbers of the sequence increase strictly.
pub open spec fn increasing(s: Seq<u64>) -> bool {
    forall|i: int, j: int| 0 <= i < j < s.len() ==> s[i] < s[j]
}

/// What the list of element divisors of `n` holds: the divisors of `n` that
/// are elements of `m`; for zero, the number 1 if it is an element.
pub open spec fn is_element_divisor(m: Monoid, n: nat, x: nat) -> bool {
    m.contains(x) && if n == 0 {
        x == 1
    } else {
        divides(x, n)
    }
}

/// Decides whether `x` is an element of the monoid with the given parameters.
pub fn is_element(a: u64, b: u64, unit: bool, x: u64) -> (r: bool)
    requires
        b > 0,
    ensures
        r == (Monoid { a: a as nat, b: b as nat, unit }).contains(x as nat),
{
    (unit && x == 1) || x % b == a
}

/// Returns the divisors of `n` that are elements of the monoid, in the order
/// in which [`divisors`] yields them.
pub fn element_divisors(a: u64, b: u64, unit: bool, n: u64) -> (r: Vec<u64>)
    requires
        b > 0,
    ensures
        r@.no_duplicates(),
        forall|x: u64|
            #![trigger r@.contains(x)]
            r@.contains(x) <==> is_element_divisor(
                Monoid { a: a as nat, b: b as nat, unit },
                n as nat,
                x as nat,
            ),
{
    let ghost m = Monoid { a: a as nat, b: b as nat, unit };
    let all = divisors(n);
    let mut out: Vec<u64> = Vec::new();
    let mut i: usize = 0;
    proof {
        if n == 0 {
            assert(all@[0] == 1);
        }
    }
    while i < all.len()
        invariant
            0 <= i <= all.len(),
            b > 0,
            m == (Monoid { a: a as nat, b: b as nat, unit }),
            all@.no_duplicates(),
            out@.no_duplicates(),
            forall|x: u64|
                #![trigger out@.contains(x)]
                out@.contains(x) <==> m.contains(x as nat) && all@.take(i as int).contains(x),
        decreases all.len() - i,
    {
        let d = all[i];
        let ghost before = out@;
        let ghost prev = all@.take(i as int);
        let ghost next = all@.take(i + 1);
        proof {
            assert(next =~= prev.push(d));
            if prev.contains(d) {
                let k = choose|k: int| 0 <= k < i && prev[k] == d;
                assert(all@[k] == all@[i as int]);
            }
        }
        if is_element(a, b, unit, d) {
            out.push(d);
            proof {
                assert forall|x: u64| #![trigger out@.contains(x)] out@.contains(x) <==> m.contains(
                    x as nat,
                ) && next.contains(x) by {
                    if out@.contains(x) {
                        let k = choose|k: int| 0 <= k < out@.len() && out@[k] == x;
                        if k < before.len() {
                            assert(before[k] == x);
                            assert(before.contains(x));
                            let t = choose|t: int|
                                0 <= t < prev.len() && prev[t] == x;
                            assert(next[t] == x);
                        } else {
                            assert(next[i as int] == x);
                        }
                    }
                    if m.contains(x as nat) && next.contains(x) {
                        let t = choose|t: int| 0 <= t < i + 1 && next[t] == x;
                        if t < i {
                            assert(prev[t] == x);
                            assert(before.contains(x));
                            let k = choose|k: int| 0 <= k < before.len() && before[k] == x;
                            assert(out@[k] == x);
                        } else {
                            assert(out@[before.len() as int] == x);
                        }
                    }
                }
                assert(!before.contains(d));
            }
        } else {
            proof {
                assert forall|x: u64| #![trigger out@.contains(x)] out@.contains(x) <==> m.contains(
                    x as nat,
                ) && next.contains(x) by {
                    if out@.contains(x) {
                        let t = choose|t: int|
                            0 <= t < prev.len() && prev[t] == x;
                        assert(next[t] == x);
                    }
                    if m.contains(x as nat) && next.contains(x) {
                        let t = choose|t: int| 0 <= t < i + 1 && next[t] == x;
                        assert(prev[t] == x);
                    }
                }
            }
        }
        i += 1;
    }
    proof {
        assert(all@.take(all.len() as int) =~= all@);
        assert forall|x: u64| #![trigger out@.contains(x)] out@.contains(x) <==> is_element_divisor(
            m,
            n as nat,
            x as nat,
        ) by {
            if n == 0 {
                if all@.contains(x) {
                    let t = choose|t: int| 0 <= t < all@.len() && all@[t] == x;
                }
                if x == 1 {
                    assert(all@[0] == x);
                }
            }
        }
    }
    out
}

/// Returns the numbers of `v` in increasing order.
pub fn sorted(v: &Vec<u64>) -> (r: Vec<u64>)
    requires
        v@.no_duplicates(),
    ensures
        increasing(r@),
        r@.len() == v@.len(),
        forall|x: u64| #![trigger r@.contains(x)] r@.contains(x) <==> v@.contains(x),
{
    let mut out: Vec<u64> = Vec::new();
    let mut i: usize = 0;
    while i < v.len()
        invariant
            0 <= i <= v.len(),
            v@.no_duplicates(),
            increasing(out@),
            out@.len() == i,
            forall|x: u64|
                #![trigger out@.contains(x)]
                out@.contains(x) <==> v@.take(i as int).contains(x),
        decreases v.len() - i,
    {
        let x = v[i];
        let ghost before = out@;
        let ghost prev = v@.take(i as int);
        let ghost next = v@.take(i + 1);
        proof {
            assert(next =~= prev.push(x));
            if prev.contains(x) {
                let k = choose|k: int| 0 <= k < i && prev[k] == x;
                assert(v@[k] == v@[i as int]);
            }
            assert(!before.contains(x));
        }
        let mut pos: usize = 0;
        while pos < out.len() && out[pos] < x
            invariant
                0 <= pos <= out.len(),
                forall|k: int| 0 <= k < pos ==> out@[k] < x,
            decreases out.len() - pos,
        {
            pos += 1;
        }
        out.insert(pos, x);
        proof {
            assert(out@ =~= before.insert(pos as int, x));
            assert forall|k: int| pos <= k < before.len() implies before[k] > x by {
                assert(before[pos as int] <= before[k]);
                assert(before.contains(before[pos as int]));
            }
            assert forall|a: int, c: int| 0 <= a < c < out@.len() implies out@[a] < out@[c] by {
                let pa = if a < pos { a } else { a - 1 };
                let pc = if c < pos { c } else { c - 1 };
                if a != pos && c != pos {
                    assert(before[pa] < before[pc]);
                }
            }
            assert forall|y: u64| #![trigger out@.contains(y)] out@.contains(y) <==> next.contains(y) by {
                if out@.contains(y) {
                    let k = choose|k: int| 0 <= k < out@.len() && out@[k] == y;
                    if k == pos {
                        assert(next[i as int] == y);
                    } else {
                        let pk = if k < pos { k } else { k - 1 };
                        assert(before[pk] == y);
                        assert(before.contains(y));
                        let t = choose|t: int| 0 <= t < i && prev[t] == y;
                        assert(next[t] == y);
                    }
                }
                if next.contains(y) {
                    let t = choose|t: int| 0 <= t < i + 1 && next[t] == y;
                    if t < i {
                        assert(prev[t] == y);
                        assert(before.contains(y));
                        let k = choose|k: int| 0 <= k < before.len() && before[k] == y;
                        let nk = if k < pos { k } else { k + 1 };
                        assert(out@[nk] == y);
                    } else {
                        assert(out@[pos as int] == y);
                    }
                }
            }
        }
        i += 1;
    }
    proof {
        assert(v@.take(v.len() as int) =~= v@);
    }
    out
}

} // verus!
