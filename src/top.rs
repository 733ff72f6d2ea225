use vstd::prelude::*;
use vstd::arithmetic::power2::{pow2, lemma2_to64, lemma2_to64_rest, lemma_pow2_unfold, lemma_pow2_pos};
use vstd::arithmetic::div_mod::lemma_div_denominator;
use itertools::Itertools;
use crate::group::{
    group_rows, in_some_group, is_grouping, key_rows, lemma_row_group_key, row_key,
    strictly_ascending, InstantValue,
};
use crate::labels::LabelModifier;

verus! {

pub const SIGN_BIT: u64 = 0x8000_0000_0000_0000;

pub const MANTISSA_UNIT: u64 = 0x10_0000_0000_0000;

/// The magnitude of a double's bits with the sign bit cleared.
pub open spec fn magnitude(bits: u64) -> u64 {
    bits % SIGN_BIT
}

/// The bits hold a NaN: exponent all ones and a non-zero fraction.
pub open spec fn is_nan_bits(bits: u64) -> bool {
    magnitude(bits) > 0x7FF0_0000_0000_0000
}

/// A key whose integer order is the order of the (non-NaN) doubles: both
/// zeros map to the middle, positive values above it by magnitude, negative
/// values below it by magnitude.
pub open spec fn order_key(bits: u64) -> u64 {
    if magnitude(bits) == 0 {
        SIGN_BIT
    } else if bits < SIGN_BIT {
        (SIGN_BIT + magnitude(bits)) as u64
    } else {
        (SIGN_BIT - magnitude(bits)) as u64
    }
}

/// The rank of a value: `bottomk` ranks ascending, `topk` descending, and a
/// NaN ranks after every number in both.
pub open spec fn rank_key(bits: u64, is_bottom: bool) -> u64 {
    if is_nan_bits(bits) {
        u64::MAX
    } else if is_bottom {
        order_key(bits)
    } else {
        (u64::MAX - order_key(bits)) as u64
    }
}

/// The rank of value bits for one direction of ranking.
pub fn rank_of(bits: u64, is_bottom: bool) -> (r: u64)
    ensures
        r == rank_key(bits, is_bottom),
{
    let mag = bits % SIGN_BIT;
    if mag > 0x7FF0_0000_0000_0000 {
        return u64::MAX;
    }
    let key = if mag == 0 {
        SIGN_BIT
    } else if bits < SIGN_BIT {
        SIGN_BIT + mag
    } else {
        SIGN_BIT - mag
    };
    if is_bottom {
        key
    } else {
        u64::MAX - key
    }
}

/// The count that a double's bits give when truncated toward zero into a
/// `u64`, as Rust's `as` casts do: NaN and negative values give zero, values
/// past the range give `u64::MAX`.
pub open spec fn float_count(bits: u64) -> u64 {
    let exp = magnitude(bits) / MANTISSA_UNIT;
    let frac = magnitude(bits) % MANTISSA_UNIT;
    if bits >= SIGN_BIT || exp < 1023 || is_nan_bits(bits) {
        0
    } else if exp >= 1087 {
        u64::MAX
    } else if exp >= 1075 {
        ((frac + MANTISSA_UNIT) * pow2((exp - 1075) as nat)) as u64
    } else {
        ((frac + MANTISSA_UNIT) / (pow2((1075 - exp) as nat) as int)) as u64
    }
}

/// How many items a `topk`/`bottomk` keeps per group, from the bits of the
/// scalar count: truncated toward zero, negative values and NaN clamped to
/// zero.
pub fn top_count(bits: u64) -> (n: u64)
    ensures
        n == float_count(bits),
{
    let mag = bits % SIGN_BIT;
    let exp = mag / MANTISSA_UNIT;
    let frac = mag % MANTISSA_UNIT;
    if bits >= SIGN_BIT || exp < 1023 || mag > 0x7FF0_0000_0000_0000 {
        return 0;
    }
    if exp >= 1087 {
        return u64::MAX;
    }
    let m: u64 = frac + MANTISSA_UNIT;
    proof {
        lemma2_to64();
        lemma2_to64_rest();
        assert(frac < MANTISSA_UNIT);
        assert(pow2(53) == 0x20_0000_0000_0000);
        assert(m < pow2(53));
        assert(m == m * pow2(0));
    }
    if exp >= 1075 {
        let k: u64 = exp - 1075;
        let mut r: u64 = m;
        let mut j: u64 = 0;
        while j < k
            invariant
                j <= k,
                k < 12,
                m < pow2(53),
                r == m * pow2(j as nat),
                r < pow2((53 + j) as nat),
            decreases k - j,
        {
            proof {
                lemma_pow2_unfold((j + 1) as nat);
                lemma_pow2_unfold((54 + j) as nat);
                lemma2_to64();
                lemma2_to64_rest();
                if 54 + j < 64 {
                    vstd::arithmetic::power2::lemma_pow2_strictly_increases((54 + j) as nat, 64);
                }
                assert(m * pow2((j + 1) as nat) == m * pow2(j as nat) * 2) by (nonlinear_arith)
                    requires
                        pow2((j + 1) as nat) == 2 * pow2(j as nat),
                ;
            }
            r = r * 2;
            j = j + 1;
        }
        r
    } else {
        let k: u64 = 1075 - exp;
        let mut r: u64 = m;
        let mut j: u64 = 0;
        proof {
            assert(pow2(0) == 1);
        }
        while j < k
            invariant
                j <= k,
                r as int == m as int / (pow2(j as nat) as int),
            decreases k - j,
        {
            proof {
                lemma_pow2_pos(j as nat);
                lemma_pow2_unfold((j + 1) as nat);
                lemma_div_denominator(m as int, pow2(j as nat) as int, 2);
            }
            r = r / 2;
            j = j + 1;
        }
        r
    }
}

/// The position of row `i` in the ranking: its rank, then its index, so
/// that rows of equal rank keep their order in the input.
pub open spec fn rank_pair(data: Seq<InstantValue>, is_bottom: bool, i: int) -> (u64, usize) {
    (rank_key(data[i].value, is_bottom), i as usize)
}

/// `a` comes no later than `b` in the lexicographic order of pairs.
pub open spec fn pair_le(a: (u64, usize), b: (u64, usize)) -> bool {
    a.0 < b.0 || (a.0 == b.0 && a.1 <= b.1)
}

/// Each pair comes no later than every later one.
pub open spec fn pairs_ascending(s: Seq<(u64, usize)>) -> bool {
    forall|a: int, b: int| 0 <= a < b < s.len() ==> pair_le(s[a], s[b])
}

/// How many of the first `upto` rows share the group of row `i` and rank
/// strictly before it.
pub open spec fn count_ahead(
    modifier: Option<LabelModifier>,
    data: Seq<InstantValue>,
    is_bottom: bool,
    i: int,
    upto: int,
) -> nat
    decreases upto,
{
    if upto <= 0 {
        0
    } else {
        let j = upto - 1;
        count_ahead(modifier, data, is_bottom, i, j) + if row_key(modifier, data, j) == row_key(
            modifier,
            data,
            i,
        ) && rank_pair(data, is_bottom, j) != rank_pair(data, is_bottom, i) && pair_le(
            rank_pair(data, is_bottom, j),
            rank_pair(data, is_bottom, i),
        ) {
            1nat
        } else {
            0nat
        }
    }
}

/// Row `i` is among the first `n` of its group.
pub open spec fn is_kept(
    modifier: Option<LabelModifier>,
    data: Seq<InstantValue>,
    n: u64,
    is_bottom: bool,
    i: int,
) -> bool {
    count_ahead(modifier, data, is_bottom, i, data.len() as int) < n
}

/// The ranking pairs of the kept rows among the first `upto`, in input order.
pub open spec fn kept_pairs(
    modifier: Option<LabelModifier>,
    data: Seq<InstantValue>,
    n: u64,
    is_bottom: bool,
    upto: int,
) -> Seq<(u64, usize)>
    decreases upto,
{
    if upto <= 0 {
        Seq::empty()
    } else {
        let before = kept_pairs(modifier, data, n, is_bottom, upto - 1);
        if is_kept(modifier, data, n, is_bottom, upto - 1) {
            before.push(rank_pair(data, is_bottom, upto - 1))
        } else {
            before
        }
    }
}

/// `s` is the outcome of ranking: the kept rows of every group, all of
/// them ordered together by rank, ties in input order.
pub open spec fn is_top_order(
    modifier: Option<LabelModifier>,
    data: Seq<InstantValue>,
    n: u64,
    is_bottom: bool,
    s: Seq<(u64, usize)>,
) -> bool {
    &&& s.to_multiset() == kept_pairs(modifier, data, n, is_bottom, data.len() as int).to_multiset()
    &&& pairs_ascending(s)
}

/// Relies on itertools::Itertools::sorted, which collects the items and sorts
/// them by their `Ord`: the same items, in ascending order; std orders tuples
/// lexicographically.
#[verifier::external_body]
pub(crate) fn sorted_pairs(v: Vec<(u64, usize)>) -> (r: Vec<(u64, usize)>)
    ensures
        r@.to_multiset() == v@.to_multiset(),
        pairs_ascending(r@),
{
    v.into_iter().sorted().collect()
}

/// How many of the first `k` rows of `rows` rank strictly before row `i`.
pub open spec fn count_ahead_in(
    data: Seq<InstantValue>,
    is_bottom: bool,
    i: int,
    rows: Seq<usize>,
    k: int,
) -> nat
    decreases k,
{
    if k <= 0 {
        0
    } else {
        let j = rows[k - 1] as int;
        count_ahead_in(data, is_bottom, i, rows, k - 1) + if rank_pair(data, is_bottom, j)
            != rank_pair(data, is_bottom, i) && pair_le(
            rank_pair(data, is_bottom, j),
            rank_pair(data, is_bottom, i),
        ) {
            1nat
        } else {
            0nat
        }
    }
}

proof fn lemma_count_ahead_in_group(
    modifier: Option<LabelModifier>,
    data: Seq<InstantValue>,
    is_bottom: bool,
    i: int,
    u: int,
)
    requires
        0 <= u <= data.len(),
        data.len() <= usize::MAX,
    ensures
        count_ahead_in(
            data,
            is_bottom,
            i,
            key_rows(modifier, data, row_key(modifier, data, i), u),
            key_rows(modifier, data, row_key(modifier, data, i), u).len() as int,
        ) == count_ahead(modifier, data, is_bottom, i, u),
    decreases u,
{
    let key = row_key(modifier, data, i);
    if u > 0 {
        lemma_count_ahead_in_group(modifier, data, is_bottom, i, u - 1);
        let prev = key_rows(modifier, data, key, u - 1);
        if row_key(modifier, data, u - 1) == key {
            let cur = prev.push((u - 1) as usize);
            assert forall|k: int| 0 <= k <= prev.len() implies count_ahead_in(data, is_bottom, i, cur, k)
                == count_ahead_in(data, is_bottom, i, prev, k) by {
                lemma_count_ahead_in_prefix(data, is_bottom, i, prev, cur, k);
            }
        }
    }
}

proof fn lemma_count_ahead_in_prefix(
    data: Seq<InstantValue>,
    is_bottom: bool,
    i: int,
    a: Seq<usize>,
    b: Seq<usize>,
    k: int,
)
    requires
        0 <= k <= a.len(),
        k <= b.len(),
        forall|t: int| 0 <= t < k ==> a[t] == b[t],
    ensures
        count_ahead_in(data, is_bottom, i, a, k) == count_ahead_in(data, is_bottom, i, b, k),
    decreases k,
{
    if k > 0 {
        lemma_count_ahead_in_prefix(data, is_bottom, i, a, b, k - 1);
    }
}

/// How many pairs of `s` come strictly before `x`.
pub open spec fn count_less(s: Seq<(u64, usize)>, x: (u64, usize)) -> nat
    decreases s.len(),
{
    if s.len() == 0 {
        0
    } else {
        count_less(s.drop_last(), x) + if s.last() != x && pair_le(s.last(), x) {
            1nat
        } else {
            0nat
        }
    }
}

/// The ranking pairs of the listed rows.
pub open spec fn pairs_of(data: Seq<InstantValue>, is_bottom: bool, rows: Seq<usize>) -> Seq<
    (u64, usize),
> {
    rows.map_values(|r: usize| rank_pair(data, is_bottom, r as int))
}

/// Some pair of `s` names row `r`.
pub open spec fn names_row(s: Seq<(u64, usize)>, r: usize) -> bool {
    exists|p: int| 0 <= p < s.len() && (#[trigger] s[p]).1 == r
}

/// Each pair comes strictly before every later one.
pub open spec fn pairs_strictly_ascending(s: Seq<(u64, usize)>) -> bool {
    forall|a: int, b: int|
        #![trigger s[a], s[b]]
        0 <= a < b < s.len() ==> s[a] != s[b] && pair_le(s[a], s[b])
}

proof fn lemma_count_ahead_in_pairs(
    data: Seq<InstantValue>,
    is_bottom: bool,
    i: int,
    rows: Seq<usize>,
    k: int,
)
    requires
        0 <= k <= rows.len(),
    ensures
        count_ahead_in(data, is_bottom, i, rows, k) == count_less(
            pairs_of(data, is_bottom, rows).take(k),
            rank_pair(data, is_bottom, i),
        ),
    decreases k,
{
    if k > 0 {
        lemma_count_ahead_in_pairs(data, is_bottom, i, rows, k - 1);
        assert(pairs_of(data, is_bottom, rows).take(k).drop_last() =~= pairs_of(
            data,
            is_bottom,
            rows,
        ).take(k - 1));
    }
}

proof fn lemma_count_less_remove(s: Seq<(u64, usize)>, x: (u64, usize), k: int)
    requires
        0 <= k < s.len(),
    ensures
        count_less(s, x) == count_less(s.remove(k), x) + if s[k] != x && pair_le(s[k], x) {
            1nat
        } else {
            0nat
        },
    decreases s.len(),
{
    if k == s.len() - 1 {
        assert(s.remove(k) =~= s.drop_last());
    } else {
        lemma_count_less_remove(s.drop_last(), x, k);
        assert(s.drop_last().remove(k) =~= s.remove(k).drop_last());
        assert(s.remove(k).last() == s.last());
    }
}

proof fn lemma_count_less_permutation(s: Seq<(u64, usize)>, t: Seq<(u64, usize)>, x: (u64, usize))
    requires
        s.to_multiset() == t.to_multiset(),
    ensures
        count_less(s, x) == count_less(t, x),
    decreases s.len(),
{
    broadcast use vstd::seq_lib::group_to_multiset_ensures;
    s.to_multiset_ensures();
    t.to_multiset_ensures();
    if s.len() == 0 {
        assert(t.len() == 0);
    } else {
        let y = s.last();
        assert(s.drop_last().push(y) =~= s);
        assert(s.contains(y));
        assert(s.to_multiset().count(y) > 0);
        assert(t.contains(y));
        let k = choose|k: int| 0 <= k < t.len() && t[k] == y;
        assert(t.remove(k).to_multiset() =~= s.drop_last().to_multiset());
        lemma_count_less_permutation(s.drop_last(), t.remove(k), x);
        lemma_count_less_remove(t, x, k);
    }
}

proof fn lemma_count_less_all_before(s: Seq<(u64, usize)>, x: (u64, usize))
    requires
        forall|a: int| 0 <= a < s.len() ==> s[a] != x && pair_le(s[a], x),
    ensures
        count_less(s, x) == s.len(),
    decreases s.len(),
{
    if s.len() > 0 {
        lemma_count_less_all_before(s.drop_last(), x);
    }
}

proof fn lemma_count_less_position(s: Seq<(u64, usize)>, p: int)
    requires
        pairs_strictly_ascending(s),
        0 <= p < s.len(),
    ensures
        count_less(s, s[p]) == p,
    decreases s.len(),
{
    let d = s.drop_last();
    if p == s.len() - 1 {
        assert forall|a: int| 0 <= a < d.len() implies d[a] != s[p] && pair_le(d[a], s[p]) by {
            assert(d[a] == s[a]);
        }
        lemma_count_less_all_before(d, s[p]);
    } else {
        assert(d[p] == s[p]);
        assert forall|a: int, b: int| 0 <= a < b < d.len() implies d[a] != d[b] && pair_le(d[a], d[b]) by {
            assert(d[a] == s[a]);
            assert(d[b] == s[b]);
        }
        lemma_count_less_position(d, p);
        assert(s[p] != s[s.len() - 1] && pair_le(s[p], s[s.len() - 1]));
    }
}

/// A sorted permutation of the pairs of distinct rows is strictly ascending,
/// and each of its pairs is the pair of one of the rows.
proof fn lemma_sorted_group_pairs(
    data: Seq<InstantValue>,
    is_bottom: bool,
    rows: Seq<usize>,
    s: Seq<(u64, usize)>,
)
    requires
        strictly_ascending(rows),
        s.to_multiset() == pairs_of(data, is_bottom, rows).to_multiset(),
        pairs_ascending(s),
    ensures
        pairs_strictly_ascending(s),
        s.len() == rows.len(),
        forall|p: int|
            0 <= p < s.len() ==> rows.contains((#[trigger] s[p]).1) && s[p] == rank_pair(
                data,
                is_bottom,
                s[p].1 as int,
            ),
        forall|t: int| 0 <= t < rows.len() ==> names_row(s, #[trigger] rows[t]),
{
    broadcast use vstd::seq_lib::group_to_multiset_ensures;
    let ps = pairs_of(data, is_bottom, rows);
    s.to_multiset_ensures();
    ps.to_multiset_ensures();
    assert forall|a: int, b: int| 0 <= a < ps.len() && 0 <= b < ps.len() && a != b implies ps[a] != ps[b] by {
        if a < b {
            assert(rows[a] < rows[b]);
        } else {
            assert(rows[b] < rows[a]);
        }
    }
    assert(ps.no_duplicates());
    ps.lemma_multiset_has_no_duplicates();
    s.lemma_multiset_has_no_duplicates_conv();
    assert forall|p: int| 0 <= p < s.len() implies rows.contains((#[trigger] s[p]).1) && s[p] == rank_pair(
        data,
        is_bottom,
        s[p].1 as int,
    ) by {
        assert(s.contains(s[p]));
        assert(s.to_multiset().count(s[p]) > 0);
        assert(ps.contains(s[p]));
        let u = choose|u: int| 0 <= u < ps.len() && ps[u] == s[p];
        assert(ps[u] == rank_pair(data, is_bottom, rows[u] as int));
    }
    assert forall|t: int| 0 <= t < rows.len() implies names_row(s, #[trigger] rows[t]) by {
        assert(ps[t] == rank_pair(data, is_bottom, rows[t] as int));
        assert(ps.contains(ps[t]));
        assert(ps.to_multiset().count(ps[t]) > 0);
        assert(s.to_multiset().count(ps[t]) > 0);
        assert(s.contains(ps[t]));
        let p = choose|p: int| 0 <= p < s.len() && s[p] == ps[t];
        assert(s[p].1 == rows[t]);
    }
}

/// Ranks the rows of `data` within their groups, keeps the first `n` of each
/// group, and orders all kept rows together by rank; each result names a
/// kept row by its rank and its index.
pub fn select_top(
    modifier: &Option<LabelModifier>,
    data: &Vec<InstantValue>,
    n: u64,
    is_bottom: bool,
) -> (r: Vec<(u64, usize)>)
    ensures
        is_top_order(*modifier, data@, n, is_bottom, r@),
{
    let groups = group_rows(modifier, data);
    let mut place: Vec<usize> = Vec::new();
    let mut ranks: Vec<u64> = Vec::new();
    let mut i: usize = 0;
    while i < data.len()
        invariant
            i <= data.len(),
            place.len() == i,
            ranks.len() == i,
            forall|j: int| 0 <= j < i ==> #[trigger] ranks@[j] == rank_key(data@[j].value, is_bottom),
        decreases data.len() - i,
    {
        place.push(0);
        ranks.push(rank_of(data[i].value, is_bottom));
        i = i + 1;
    }
    // Each row's place within its group, ranked: the number of its group's
    // rows that rank before it.
    let mut g: usize = 0;
    while g < groups.len()
        invariant
            g <= groups.len(),
            place.len() == data.len(),
            ranks.len() == data.len(),
            is_grouping(*modifier, data@, groups@),
            forall|j: int| 0 <= j < data.len() ==> #[trigger] ranks@[j] == rank_key(data@[j].value, is_bottom),
            forall|h: int, k: int|
                0 <= h < g && 0 <= k < groups@[h].rows@.len() ==> place@[#[trigger] groups@[h].rows@[k] as int]
                    == count_ahead(*modifier, data@, is_bottom, groups@[h].rows@[k] as int, data.len() as int),
        decreases groups.len() - g,
    {
        let rows = &groups[g].rows;
        let mut pairs: Vec<(u64, usize)> = Vec::new();
        let mut k: usize = 0;
        while k < rows.len()
            invariant
                g < groups.len(),
                *rows == groups@[g as int].rows,
                is_grouping(*modifier, data@, groups@),
                ranks.len() == data.len(),
                forall|j: int| 0 <= j < data.len() ==> #[trigger] ranks@[j] == rank_key(data@[j].value, is_bottom),
                k <= rows.len(),
                pairs@ == pairs_of(data@, is_bottom, rows@).take(k as int),
            decreases rows.len() - k,
        {
            proof {
                assert(rows@[k as int] < data.len());
            }
            pairs.push((ranks[rows[k]], rows[k]));
            k = k + 1;
            assert(pairs@ =~= pairs_of(data@, is_bottom, rows@).take(k as int));
        }
        assert(pairs_of(data@, is_bottom, rows@).take(rows.len() as int) =~= pairs_of(data@, is_bottom, rows@));
        let s = sorted_pairs(pairs);
        proof {
            lemma_sorted_group_pairs(data@, is_bottom, rows@, s@);
        }
        let mut p: usize = 0;
        while p < s.len()
            invariant
                g < groups.len(),
                *rows == groups@[g as int].rows,
                is_grouping(*modifier, data@, groups@),
                place.len() == data.len(),
                p <= s.len(),
                s@.to_multiset() == pairs_of(data@, is_bottom, rows@).to_multiset(),
                pairs_strictly_ascending(s@),
                s.len() == rows.len(),
                forall|t: int| 0 <= t < rows.len() ==> names_row(s@, #[trigger] rows@[t]),
                forall|q: int|
                    0 <= q < s.len() ==> rows@.contains((#[trigger] s@[q]).1) && s@[q] == rank_pair(
                        data@,
                        is_bottom,
                        s@[q].1 as int,
                    ),
                forall|h: int, k: int|
                    0 <= h < g && 0 <= k < groups@[h].rows@.len() ==> place@[#[trigger] groups@[h].rows@[k] as int]
                        == count_ahead(*modifier, data@, is_bottom, groups@[h].rows@[k] as int, data.len() as int),
                forall|q: int|
                    0 <= q < p ==> place@[(#[trigger] s@[q]).1 as int] == count_ahead(
                        *modifier,
                        data@,
                        is_bottom,
                        s@[q].1 as int,
                        data.len() as int,
                    ),
            decreases s.len() - p,
        {
            let ghost x = s@[p as int];
            let ghost i = x.1;
            proof {
                let t = choose|t: int| 0 <= t < rows@.len() && rows@[t] == i;
                assert(rows@[t] < data.len());
                lemma_row_group_key(*modifier, data@, groups@, g as int, i);
                lemma_count_ahead_in_group(*modifier, data@, is_bottom, i as int, data.len() as int);
                lemma_count_ahead_in_pairs(data@, is_bottom, i as int, rows@, rows@.len() as int);
                assert(pairs_of(data@, is_bottom, rows@).take(rows@.len() as int) =~= pairs_of(data@, is_bottom, rows@));
                lemma_count_less_permutation(pairs_of(data@, is_bottom, rows@), s@, x);
                lemma_count_less_position(s@, p as int);
                assert forall|h: int, k: int| 0 <= h < g && 0 <= k < groups@[h].rows@.len() implies groups@[h].rows@[k] != i by {
                    if groups@[h].rows@[k] == i {
                        assert(groups@[h].rows@.contains(i));
                        lemma_row_group_key(*modifier, data@, groups@, h, i);
                    }
                }
                assert forall|q: int| 0 <= q < p implies (#[trigger] s@[q]).1 != i by {
                    assert(s@[q] != s@[p as int]);
                }
            }
            place.set(s[p].1, p);
            p = p + 1;
        }
        proof {
            assert forall|k: int| 0 <= k < rows@.len() implies place@[#[trigger] rows@[k] as int] == count_ahead(
                *modifier,
                data@,
                is_bottom,
                rows@[k] as int,
                data.len() as int,
            ) by {
                assert(names_row(s@, rows@[k]));
                let q = choose|q: int| 0 <= q < s.len() && (#[trigger] s@[q]).1 == rows@[k];
            }
        }
        g = g + 1;
    }
    let mut kept: Vec<(u64, usize)> = Vec::new();
    let mut i: usize = 0;
    while i < data.len()
        invariant
            i <= data.len(),
            place.len() == data.len(),
            ranks.len() == data.len(),
            is_grouping(*modifier, data@, groups@),
            forall|h: int, k: int|
                0 <= h < groups.len() && 0 <= k < groups@[h].rows@.len() ==> place@[#[trigger] groups@[h].rows@[k] as int]
                    == count_ahead(*modifier, data@, is_bottom, groups@[h].rows@[k] as int, data.len() as int),
            forall|j: int| 0 <= j < data.len() ==> #[trigger] ranks@[j] == rank_key(data@[j].value, is_bottom),
            kept@ == kept_pairs(*modifier, data@, n, is_bottom, i as int),
        decreases data.len() - i,
    {
        proof {
            assert(in_some_group(groups@, i as int));
            let h = choose|h: int| 0 <= h < groups.len() && #[trigger] groups@[h].rows@.contains(i);
            let t = choose|t: int| 0 <= t < groups@[h].rows@.len() && groups@[h].rows@[t] == i;
            assert(place@[groups@[h].rows@[t] as int] == count_ahead(*modifier, data@, is_bottom, i as int, data.len() as int));
        }
        if (place[i] as u64) < n {
            kept.push((ranks[i], i));
        }
        i = i + 1;
    }
    sorted_pairs(kept)
}

proof fn lemma_kept_pairs_bounded(
    modifier: Option<LabelModifier>,
    data: Seq<InstantValue>,
    n: u64,
    is_bottom: bool,
    upto: int,
)
    requires
        upto <= data.len(),
    ensures
        forall|t: int|
            0 <= t < kept_pairs(modifier, data, n, is_bottom, upto).len() ==> #[trigger] kept_pairs(
                modifier,
                data,
                n,
                is_bottom,
                upto,
            )[t].1 < data.len(),
    decreases upto,
{
    if upto > 0 {
        lemma_kept_pairs_bounded(modifier, data, n, is_bottom, upto - 1);
        let prev = kept_pairs(modifier, data, n, is_bottom, upto - 1);
        let cur = kept_pairs(modifier, data, n, is_bottom, upto);
        assert forall|t: int| 0 <= t < cur.len() implies #[trigger] cur[t].1 < data.len() by {
            if t < prev.len() {
                assert(prev[t].1 < data.len());
            }
        }
    }
}

/// Every pair of a ranking names a row of the input.
pub proof fn lemma_kept_pairs_in_range(
    modifier: Option<LabelModifier>,
    data: Seq<InstantValue>,
    n: u64,
    is_bottom: bool,
    s: Seq<(u64, usize)>,
)
    requires
        is_top_order(modifier, data, n, is_bottom, s),
    ensures
        forall|t: int| 0 <= t < s.len() ==> #[trigger] s[t].1 < data.len(),
{
    let all = kept_pairs(modifier, data, n, is_bottom, data.len() as int);
    lemma_kept_pairs_bounded(modifier, data, n, is_bottom, data.len() as int);
    assert forall|t: int| 0 <= t < s.len() implies #[trigger] s[t].1 < data.len() by {
        broadcast use vstd::seq_lib::group_to_multiset_ensures;
        assert(s.contains(s[t]));
        assert(s.to_multiset().count(s[t]) > 0);
        assert(all.contains(s[t]));
        let u = choose|u: int| 0 <= u < all.len() && all[u] == s[t];
        assert(all[u].1 < data.len());
    }
}

} // verus!
