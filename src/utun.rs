//! Choosing a free `utunN` interface number from the list of interface
//! names that the system reports (names separated by spaces or newlines).

use vstd::prelude::*;

verus! {

/// Unit numbers are looked for below this bound.
pub const UTUN_LIMIT: u32 = 99;

pub open spec fn is_separator(b: u8) -> bool {
    b == 0x20 || b == 0x0a
}

pub open spec fn is_digit(b: u8) -> bool {
    0x30 <= b <= 0x39
}

/// The value of a string of decimal digits.
pub open spec fn decimal(s: Seq<u8>) -> nat
    decreases s.len(),
{
    if s.len() == 0 {
        0
    } else {
        decimal(s.drop_last()) * 10 + (s.last() - 0x30) as nat
    }
}

/// The unit number that a name gives: `utun` followed by one or more
/// decimal digits.
pub open spec fn utun_unit(name: Seq<u8>) -> Option<nat> {
    if name.len() > 4 && name[0] == 0x75 && name[1] == 0x74 && name[2] == 0x75 && name[3] == 0x6e
        && forall|k: int| 4 <= k < name.len() ==> #[trigger] is_digit(name[k]) {
        Some(decimal(name.subrange(4, name.len() as int)))
    } else {
        None
    }
}

/// `list[i..j]` is one whole name of the list.
pub open spec fn is_name(list: Seq<u8>, i: int, j: int) -> bool {
    &&& 0 <= i <= j <= list.len()
    &&& (i == 0 || is_separator(list[i - 1]))
    &&& (j == list.len() || is_separator(list[j]))
    &&& forall|k: int| i <= k < j ==> !#[trigger] is_separator(list[k])
}

/// Some name of the list is `utun` with unit number `n`.
pub open spec fn unit_listed(list: Seq<u8>, n: nat) -> bool {
    exists|i: int, j: int| is_name(list, i, j) && utun_unit(list.subrange(i, j)) == Some(n)
}

/// The unit number that `list[i..j]` names, if it names one below the limit.
fn unit_below_limit(list: &[u8], i: usize, j: usize) -> (r: Option<u32>)
    requires
        i <= j <= list@.len(),
    ensures
        r is Some <==> (utun_unit(list@.subrange(i as int, j as int)) is Some && utun_unit(
            list@.subrange(i as int, j as int),
        )->Some_0 < UTUN_LIMIT),
        r is Some ==> r->Some_0 == utun_unit(list@.subrange(i as int, j as int))->Some_0,
{
    let ghost name = list@.subrange(i as int, j as int);
    if j - i <= 4 || list[i] != 0x75 || list[i + 1] != 0x74 || list[i + 2] != 0x75 || list[i + 3]
        != 0x6e {
        return None;
    }
    // `value` is the digits read so far, held at the limit.
    let mut value: u32 = 0;
    let mut k: usize = i + 4;
    assert(name.subrange(4, 4) =~= Seq::<u8>::empty());
    while k < j
        invariant
            i + 4 <= k <= j <= list@.len(),
            name == list@.subrange(i as int, j as int),
            forall|m: int| 4 <= m < k - i ==> #[trigger] is_digit(name[m]),
            value <= UTUN_LIMIT,
            value < UTUN_LIMIT ==> value == decimal(name.subrange(4, k - i)),
            value == UTUN_LIMIT ==> decimal(name.subrange(4, k - i)) >= UTUN_LIMIT,
        decreases j - k,
    {
        let b = list[k];
        if b < 0x30 || b > 0x39 {
            assert(!is_digit(name[k - i]));
            return None;
        }
        proof {
            let prefix = name.subrange(4, k - i + 1);
            assert(prefix.drop_last() =~= name.subrange(4, k - i));
            assert(prefix.last() == b);
        }
        if value < UTUN_LIMIT {
            let next: u32 = value * 10 + (b - 0x30) as u32;
            value = if next < UTUN_LIMIT {
                next
            } else {
                UTUN_LIMIT
            };
        }
        k = k + 1;
    }
    assert(name.subrange(4, name.len() as int) == name.subrange(4, j - i));
    if value < UTUN_LIMIT {
        Some(value)
    } else {
        None
    }
}

/// The lowest unit number below the limit that no `utunN` name of `list`
/// uses, or `None` when all are taken.
pub fn lowest_free_utun(list: &[u8]) -> (r: Option<u32>)
    ensures
        match r {
            Some(u) => u < UTUN_LIMIT && !unit_listed(list@, u as nat) && forall|m: nat|
                m < u ==> #[trigger] unit_listed(list@, m),
            None => forall|m: nat| m < UTUN_LIMIT ==> #[trigger] unit_listed(list@, m),
        },
{
    let ghost s = list@;
    let n: usize = list.len();
    let mut marks: Vec<bool> = vec![false; 99];
    let mut start: usize = 0;
    let mut pos: usize = 0;
    while pos < n
        invariant
            s == list@,
            n == s.len(),
            0 <= start <= pos <= n,
            start == 0 || is_separator(s[start - 1]),
            forall|k: int| start <= k < pos ==> !#[trigger] is_separator(s[k]),
            marks@.len() == UTUN_LIMIT,
            forall|m: int| 0 <= m < UTUN_LIMIT && #[trigger] marks@[m] ==> unit_listed(s, m as nat),
            forall|i: int, j: int|
                is_name(s, i, j) && j < start && #[trigger] utun_unit(s.subrange(i, j)) is Some
                    && utun_unit(s.subrange(i, j))->Some_0 < UTUN_LIMIT ==> marks@[utun_unit(
                    s.subrange(i, j),
                )->Some_0 as int],
        decreases n - pos,
    {
        if list[pos] == 0x20 || list[pos] == 0x0a {
            let found = unit_below_limit(list, start, pos);
            proof {
                assert(is_name(s, start as int, pos as int));
            }
            if let Some(u) = found {
                marks.set(u as usize, true);
            }
            proof {
                assert forall|i: int, j: int|
                    is_name(s, i, j) && j < pos + 1 && #[trigger] utun_unit(s.subrange(i, j))
                        is Some && utun_unit(s.subrange(i, j))->Some_0 < UTUN_LIMIT implies
                    marks@[utun_unit(s.subrange(i, j))->Some_0 as int] by {
                    if j >= start {
                        lemma_name_is_current(s, start as int, pos as int, i, j);
                    }
                }
            }
            start = pos + 1;
        }
        pos = pos + 1;
    }
    let found = unit_below_limit(list, start, n);
    proof {
        assert(is_name(s, start as int, n as int));
    }
    if let Some(u) = found {
        marks.set(u as usize, true);
    }
    proof {
        assert forall|i: int, j: int|
            is_name(s, i, j) && #[trigger] utun_unit(s.subrange(i, j)) is Some && utun_unit(
                s.subrange(i, j),
            )->Some_0 < UTUN_LIMIT implies marks@[utun_unit(s.subrange(i, j))->Some_0 as int] by {
            if j >= start {
                lemma_name_is_current(s, start as int, n as int, i, j);
            }
        }
    }
    let mut u: u32 = 0;
    while u < UTUN_LIMIT
        invariant
            s == list@,
            marks@.len() == UTUN_LIMIT,
            forall|m: int| 0 <= m < UTUN_LIMIT && #[trigger] marks@[m] ==> unit_listed(s, m as nat),
            forall|i: int, j: int|
                is_name(s, i, j) && #[trigger] utun_unit(s.subrange(i, j)) is Some && utun_unit(
                    s.subrange(i, j),
                )->Some_0 < UTUN_LIMIT ==> marks@[utun_unit(s.subrange(i, j))->Some_0 as int],
            forall|m: nat| m < u ==> #[trigger] unit_listed(s, m),
        decreases UTUN_LIMIT - u,
    {
        if !marks[u as usize] {
            proof {
                if unit_listed(s, u as nat) {
                    let (i, j) = choose|i: int, j: int|
                        is_name(s, i, j) && utun_unit(s.subrange(i, j)) == Some(u as nat);
                    assert(utun_unit(s.subrange(i, j)) is Some);
                }
            }
            return Some(u);
        }
        assert(unit_listed(s, u as nat));
        u = u + 1;
    }
    None
}

/// Between a separator (or the start) at `start - 1` and the separator (or
/// the end) at `end`, with no separator in between, the only name that ends
/// at or after `start` is `list[start..end]`.
proof fn lemma_name_is_current(list: Seq<u8>, start: int, end: int, i: int, j: int)
    requires
        0 <= start <= end <= list.len(),
        start == 0 || is_separator(list[start - 1]),
        forall|k: int| start <= k < end ==> !#[trigger] is_separator(list[k]),
        end == list.len() || is_separator(list[end]),
        is_name(list, i, j),
        start <= j <= end,
    ensures
        i == start,
        j == end,
{
    if j < end {
        assert(!is_separator(list[j]));
    }
    if i < start {
        assert(!is_separator(list[start - 1]));
    }
    if i > start {
        assert(!is_separator(list[i - 1]));
    }
}

} // verus!
