use std::collections::{HashMap, HashSet};
use vstd::prelude::*;
use vstd::string::StrSliceExecFns;

use crate::cube::{digits_val, is_digits};

verus! {

broadcast use vstd::std_specs::hash::group_hash_axioms;

/// One hop of a route: `to` is one of the portal exits of the star `from`.
pub open spec fn portal_edge(portals: Map<usize, Vec<usize>>, from: usize, to: usize) -> bool {
    &&& portals.contains_key(from)
    &&& exists|k: int| 0 <= k < portals[from]@.len() && portals[from]@[k] == to
}

/// A route through the portal network: it starts at `start`, ends at star
/// zero, and every consecutive pair of stars is joined by a portal.
pub open spec fn valid_route(portals: Map<usize, Vec<usize>>, start: usize, path: Seq<usize>) -> bool {
    &&& path.len() >= 1
    &&& path[0] == start
    &&& path[path.len() - 1] == 0
    &&& forall|k: int|
        0 <= k < path.len() - 1 ==> portal_edge(portals, path[k], #[trigger] path[k + 1])
}

/// Search for a route from the current star to star zero through the
/// portal network, never revisiting a star in the travel history.  A route
/// that is returned is valid; `None` means this search found none.
pub fn travel(
    current: usize,
    history: HashSet<usize>,
    portals: &HashMap<usize, Vec<usize>>,
) -> (r: Option<Vec<usize>>)
    ensures
        match r {
            Some(path) => valid_route(portals@, current, path@),
            None => true,
        },
{
    let mut visited = history;
    travel_from(current, &mut visited, portals)
}

/// The depth-first search behind `travel`.  The history is used as the
/// set of stars on the path so far and is restored before returning.
#[verifier::loop_isolation(false)]
fn travel_from(
    current: usize,
    history: &mut HashSet<usize>,
    portals: &HashMap<usize, Vec<usize>>,
) -> (r: Option<Vec<usize>>)
    ensures
        final(history)@ == old(history)@,
        match r {
            Some(path) => valid_route(portals@, current, path@),
            None => true,
        },
    decreases portals@.dom().difference(old(history)@).len(),
{
    if current == 0 {
        let mut path: Vec<usize> = Vec::new();
        path.push(0);
        return Some(path);
    }
    if history.contains(&current) {
        return None;
    }
    match portals.get(&current) {
        None => None,
        Some(exits) => {
            let ghost hist0 = history@;
            history.insert(current);
            proof {
                assert(portals@.contains_key(current));
                assert(portals@.dom().difference(history@) =~= portals@.dom().difference(
                    hist0,
                ).remove(current));
                assert(portals@.dom().difference(hist0).contains(current));
            }
            let n = exits.len();
            let mut j: usize = 0;
            while j < n
                invariant
                    n == exits@.len(),
                    j <= n,
                    history@ == hist0.insert(current),
                decreases n - j,
            {
                let next = exits[j];
                match travel_from(next, history, portals) {
                    Some(rest) => {
                        let mut path: Vec<usize> = Vec::new();
                        path.push(current);
                        let mut tail = rest;
                        let ghost tail0 = tail@;
                        path.append(&mut tail);
                        history.remove(&current);
                        proof {
                            assert(history@ =~= hist0);
                            assert(path@ =~= seq![current] + tail0);
                            assert(valid_route(portals@, next, tail0));
                            assert forall|k: int| 0 <= k < path@.len() - 1 implies portal_edge(
                                portals@,
                                path@[k],
                                #[trigger] path@[k + 1],
                            ) by {
                                if k == 0 {
                                    assert(path@[0] == current);
                                    assert(path@[1] == tail0[0]);
                                    assert(tail0[0] == next);
                                    assert(portals@[current] == *exits);
                                    assert(portal_edge(portals@, current, next)) by {
                                        assert(portals@[current]@[j as int] == next);
                                    }
                                } else {
                                    let kk = k - 1;
                                    assert(path@[k] == tail0[kk]);
                                    assert(path@[k + 1] == tail0[kk + 1]);
                                    assert(portal_edge(portals@, tail0[kk], tail0[kk + 1]));
                                }
                            }
                        }
                        return Some(path);
                    },
                    None => {
                        j = j + 1;
                    },
                }
            }
            history.remove(&current);
            proof {
                assert(history@ =~= hist0);
            }
            None
        },
    }
}

/// The number a line stands for under unsigned decimal parsing: an
/// optional plus sign, then at least one digit, and a value within the
/// sixty-four-bit range; anything else has no value.
pub open spec fn parse_u64_spec(s: Seq<char>) -> Option<u64> {
    let ds = if s.len() > 0 && s[0] == '+' {
        s.skip(1)
    } else {
        s
    };
    if ds.len() == 0 || !is_digits(ds) {
        None
    } else if digits_val(ds) <= u64::MAX {
        Some(digits_val(ds) as u64)
    } else {
        None
    }
}

/// Parse a line as an unsigned decimal number.
pub fn parse_u64(s: &str) -> (r: Option<u64>)
    ensures
        r == parse_u64_spec(s@),
{
    let n = s.unicode_len();
    if n == 0 {
        return None;
    }
    let c0 = s.get_char(0);
    let start: usize = if c0 == '+' {
        1
    } else {
        0
    };
    let ghost ds = if c0 == '+' {
        s@.skip(1)
    } else {
        s@
    };
    if n == start {
        return None;
    }
    let mut acc: u64 = 0;
    let mut i: usize = start;
    while i < n
        invariant
            n == s@.len(),
            n <= usize::MAX,
            start <= i <= n,
            start <= 1,
            (start == 1) == (s@[0] == '+'),
            ds == (if start == 1 {
                s@.skip(1)
            } else {
                s@
            }),
            ds.len() == n - start,
            forall|j: int| 0 <= j < i - start ==> '0' <= #[trigger] ds[j] <= '9',
            acc == digits_val(ds.take(i - start)),
        decreases n - i,
    {
        let c = s.get_char(i);
        if c < '0' || c > '9' {
            proof {
                assert(ds[i - start] == s@[i as int]);
                assert(!is_digits(ds));
            }
            return None;
        }
        proof {
            assert(ds[i - start] == s@[i as int]);
            assert(ds.take(i - start + 1).drop_last() =~= ds.take(i - start));
            assert(ds.take(i - start + 1).last() == ds[i - start]);
        }
        let d = (c as u32) as u64 - 48;
        if acc > (u64::MAX - d) / 10 {
            proof {
                assert(parse_u64_spec(s@) == None::<u64>) by {
                    if is_digits(ds) {
                        crate::cube::lemma_digits_val_monotone(ds, i - start + 1);
                        assert(digits_val(ds.take(i - start + 1)) == acc * 10 + d);
                        assert(digits_val(ds) > u64::MAX);
                    }
                }
            }
            return None;
        }
        acc = acc * 10 + d;
        i = i + 1;
    }
    proof {
        assert(ds.take(n - start) =~= ds);
        assert(is_digits(ds));
    }
    Some(acc)
}

/// The exclusive-or fold of the numbers the lines stand for, unreadable
/// lines counting zero, starting from zero.
pub open spec fn xor_presents_spec(lines: Seq<String>) -> u64
    decreases lines.len(),
{
    if lines.len() == 0 {
        0u64
    } else {
        xor_presents_spec(lines.drop_last()) ^ (match parse_u64_spec(lines.last()@) {
            Some(v) => v,
            None => 0u64,
        })
    }
}

/// Fold the lines' numbers by exclusive-or.
pub fn xor_presents(lines: &Vec<String>) -> (r: u64)
    ensures
        r == xor_presents_spec(lines@),
{
    let n = lines.len();
    let mut acc: u64 = 0;
    let mut i: usize = 0;
    while i < n
        invariant
            n == lines@.len(),
            i <= n,
            acc == xor_presents_spec(lines@.take(i as int)),
        decreases n - i,
    {
        let v = match parse_u64(lines[i].as_str()) {
            Some(v) => v,
            None => 0,
        };
        acc = acc ^ v;
        proof {
            assert(lines@.take(i + 1).drop_last() =~= lines@.take(i as int));
            assert(lines@.take(i + 1).last() == lines@[i as int]);
        }
        i = i + 1;
    }
    proof {
        assert(lines@.take(n as int) =~= lines@);
    }
    acc
}

/// A present for each counted delivery: the gift emoji repeated that many
/// times.
pub fn gift_string(count: u64) -> (r: String)
    requires
        count <= 0xffff_ffff,
    ensures
        r@ == Seq::new(count as nat, |i: int| '\u{1f381}'),
{
    let mut out = String::new();
    let mut i: u64 = 0;
    proof {
        assert(out@ =~= Seq::new(0nat, |i: int| '\u{1f381}'));
    }
    while i < count
        invariant
            i <= count,
            out@ == Seq::new(i as nat, |i: int| '\u{1f381}'),
        decreases count - i,
    {
        out.push('\u{1f381}');
        proof {
            assert(out@ =~= Seq::new((i + 1) as nat, |i: int| '\u{1f381}'));
        }
        i = i + 1;
    }
    out
}

} // verus!
