use vstd::prelude::*;
use vstd::multiset::Multiset;
use crate::group::{key_rows, lemma_row_group_key, in_some_group, is_grouping, row_key, strictly_ascending, Group, InstantValue};
use crate::labels::{projection, view_labels, LabelModifier, LabelView};
use crate::top::{count_ahead, is_kept, is_top_order, kept_pairs, pair_le, rank_pair};
use crate::aggregate::{is_top_result, rows_in_order};

verus! {

/// The rows whose projection is the label set `key`.
pub open spec fn rows_with_key(
    modifier: Option<LabelModifier>,
    data: Seq<InstantValue>,
    key: Seq<crate::labels::LabelView>,
) -> Set<usize> {
    Set::new(|i: usize| i < data.len() && row_key(modifier, data, i as int) == key)
}

/// Two rows whose labels agree after projection fall into one group, and a
/// group's rows are, each once, exactly the rows whose projection is its
/// label set; so its row count is the number of those rows.
pub proof fn lemma_equal_projections_merge(
    modifier: Option<LabelModifier>,
    data: Seq<InstantValue>,
    groups: Seq<Group>,
    i: usize,
    j: usize,
)
    requires
        is_grouping(modifier, data, groups),
        i < data.len(),
        j < data.len(),
        row_key(modifier, data, i as int) == row_key(modifier, data, j as int),
    ensures
        exists|g: int|
            0 <= g < groups.len() && #[trigger] groups[g].rows@.contains(i)
                && groups[g].rows@.contains(j),
        forall|g: int| 0 <= g < groups.len() ==> (#[trigger] groups[g].rows@).no_duplicates(),
        forall|g: int|
            0 <= g < groups.len() ==> (#[trigger] groups[g].rows@).to_set() == rows_with_key(
                modifier,
                data,
                view_labels(groups[g].labels@),
            ),
{
    assert(in_some_group(groups, i as int));
    assert(in_some_group(groups, j as int));
    let gi = choose|g: int| 0 <= g < groups.len() && #[trigger] groups[g].rows@.contains(i);
    let gj = choose|g: int| 0 <= g < groups.len() && #[trigger] groups[g].rows@.contains(j);
    lemma_row_group_key(modifier, data, groups, gi, i);
    lemma_row_group_key(modifier, data, groups, gj, j);
    assert(gi == gj) by {
        if gi < gj {
            assert(view_labels(groups[gi].labels@) != view_labels(groups[gj].labels@));
        } else if gj < gi {
            assert(view_labels(groups[gj].labels@) != view_labels(groups[gi].labels@));
        }
    }
    assert forall|g: int| 0 <= g < groups.len() implies (#[trigger] groups[g].rows@).no_duplicates()
        && groups[g].rows@.to_set() == rows_with_key(
        modifier,
        data,
        view_labels(groups[g].labels@),
    ) by {
        lemma_group_is_its_key(modifier, data, groups, g);
    }
}

proof fn lemma_group_is_its_key(
    modifier: Option<LabelModifier>,
    data: Seq<InstantValue>,
    groups: Seq<Group>,
    g: int,
)
    requires
        is_grouping(modifier, data, groups),
        0 <= g < groups.len(),
    ensures
        groups[g].rows@.no_duplicates(),
        groups[g].rows@.to_set() == rows_with_key(modifier, data, view_labels(groups[g].labels@)),
{
        let rows = groups[g].rows@;
        assert(strictly_ascending(rows));
        assert forall|a: int, b: int| 0 <= a < rows.len() && 0 <= b < rows.len() && a != b implies rows[a] != rows[b] by {
            if a < b {
                assert(rows[a] < rows[b]);
            } else {
                assert(rows[b] < rows[a]);
            }
        }
        let key = view_labels(groups[g].labels@);
        assert forall|r: usize| rows.to_set().contains(r) <==> rows_with_key(modifier, data, key).contains(r) by {
            if rows.contains(r) {
                let k = choose|k: int| 0 <= k < rows.len() && rows[k] == r;
                assert(rows[k] < data.len());
            }
            if rows_with_key(modifier, data, key).contains(r) {
                assert(in_some_group(groups, r as int));
                let h = choose|h: int| 0 <= h < groups.len() && #[trigger] groups[h].rows@.contains(r);
                lemma_row_group_key(modifier, data, groups, h, r);
                if h < g {
                    assert(view_labels(groups[h].labels@) != view_labels(groups[g].labels@));
                } else if g < h {
                    assert(view_labels(groups[g].labels@) != view_labels(groups[h].labels@));
                }
            }
        }
        assert(rows.to_set() =~= rows_with_key(modifier, data, key));
}

/// An empty vector forms no group.
pub proof fn lemma_empty_vector_no_groups(
    modifier: Option<LabelModifier>,
    data: Seq<InstantValue>,
    groups: Seq<Group>,
)
    requires
        data.len() == 0,
        is_grouping(modifier, data, groups),
    ensures
        groups.len() == 0,
{
    if groups.len() > 0 {
        assert(groups[0].rows@[0] < data.len());
    }
}

proof fn lemma_nothing_kept(
    modifier: Option<LabelModifier>,
    data: Seq<InstantValue>,
    is_bottom: bool,
    upto: int,
)
    ensures
        kept_pairs(modifier, data, 0, is_bottom, upto).len() == 0,
    decreases upto,
{
    if upto > 0 {
        lemma_nothing_kept(modifier, data, is_bottom, upto - 1);
    }
}

/// A ranking that keeps no row per group returns no row.
pub proof fn lemma_zero_count_empty(
    modifier: Option<LabelModifier>,
    data: Seq<InstantValue>,
    is_bottom: bool,
    out: Seq<InstantValue>,
)
    requires
        is_top_result(modifier, data, 0, is_bottom, out),
    ensures
        out.len() == 0,
{
    let s = choose|s: Seq<(u64, usize)>|
        is_top_order(modifier, data, 0, is_bottom, s) && #[trigger] rows_in_order(data, s, out);
    lemma_nothing_kept(modifier, data, is_bottom, data.len() as int);
    broadcast use vstd::seq_lib::group_to_multiset_ensures;
    assert(s.len() == s.to_multiset().len());
}

/// The values of the rows whose projection is `key`, with multiplicity.
pub open spec fn key_values(
    modifier: Option<LabelModifier>,
    data: Seq<InstantValue>,
    key: Seq<LabelView>,
) -> Multiset<u64>
    decreases data.len(),
{
    if data.len() == 0 {
        Multiset::empty()
    } else {
        let rest = key_values(modifier, data.drop_last(), key);
        if projection(modifier, view_labels(data.last().labels@)) == key {
            rest.insert(data.last().value)
        } else {
            rest
        }
    }
}

/// The values of the listed rows, with multiplicity.
pub open spec fn group_values(data: Seq<InstantValue>, rows: Seq<usize>) -> Multiset<u64> {
    rows.map_values(|r: usize| data[r as int].value).to_multiset()
}

proof fn lemma_key_values_remove(
    modifier: Option<LabelModifier>,
    s: Seq<InstantValue>,
    key: Seq<LabelView>,
    k: int,
)
    requires
        0 <= k < s.len(),
    ensures
        key_values(modifier, s, key) == if projection(modifier, view_labels(s[k].labels@)) == key {
            key_values(modifier, s.remove(k), key).insert(s[k].value)
        } else {
            key_values(modifier, s.remove(k), key)
        },
    decreases s.len(),
{
    if k == s.len() - 1 {
        assert(s.remove(k) =~= s.drop_last());
    } else {
        lemma_key_values_remove(modifier, s.drop_last(), key, k);
        assert(s.drop_last().remove(k) =~= s.remove(k).drop_last());
        assert(s.remove(k).last() == s.last());
        assert(s.remove(k).len() > 0);
        if projection(modifier, view_labels(s[k].labels@)) == key {
            if projection(modifier, view_labels(s.last().labels@)) == key {
                assert(key_values(modifier, s.remove(k), key).insert(s[k].value) =~= key_values(
                    modifier,
                    s.drop_last().remove(k),
                    key,
                ).insert(s[k].value).insert(s.last().value));
            }
        }
    }
}

proof fn lemma_key_values_permutation(
    modifier: Option<LabelModifier>,
    s1: Seq<InstantValue>,
    s2: Seq<InstantValue>,
    key: Seq<LabelView>,
)
    requires
        s1.to_multiset() == s2.to_multiset(),
    ensures
        key_values(modifier, s1, key) == key_values(modifier, s2, key),
    decreases s1.len(),
{
    broadcast use vstd::seq_lib::group_to_multiset_ensures;
    s1.to_multiset_ensures();
    s2.to_multiset_ensures();
    if s1.len() == 0 {
        assert(s2.len() == 0);
    } else {
        let x = s1.last();
        assert(s1.drop_last().push(x) =~= s1);
        assert(s1.contains(x));
        assert(s1.to_multiset().count(x) > 0);
        assert(s2.contains(x));
        let k = choose|k: int| 0 <= k < s2.len() && s2[k] == x;
        assert(s2.remove(k).to_multiset() =~= s1.drop_last().to_multiset());
        lemma_key_values_permutation(modifier, s1.drop_last(), s2.remove(k), key);
        lemma_key_values_remove(modifier, s2, key, k);
    }
}

proof fn lemma_key_rows_values(
    modifier: Option<LabelModifier>,
    data: Seq<InstantValue>,
    key: Seq<LabelView>,
    u: int,
)
    requires
        0 <= u <= data.len(),
        data.len() <= usize::MAX,
    ensures
        group_values(data, key_rows(modifier, data, key, u)) == key_values(
            modifier,
            data.take(u),
            key,
        ),
    decreases u,
{
    broadcast use vstd::seq_lib::group_to_multiset_ensures;
    if u == 0 {
        assert(key_rows(modifier, data, key, u).map_values(|r: usize| data[r as int].value) =~= Seq::<u64>::empty());
        assert(Seq::<u64>::empty().to_multiset() =~= Multiset::empty());
    } else {
        lemma_key_rows_values(modifier, data, key, u - 1);
        assert(data.take(u).drop_last() =~= data.take(u - 1));
        let prev = key_rows(modifier, data, key, u - 1);
        if row_key(modifier, data, u - 1) == key {
            assert(prev.push((u - 1) as usize).map_values(|r: usize| data[r as int].value) =~= prev.map_values(
                |r: usize| data[r as int].value,
            ).push(data[u - 1].value));
        }
    }
}

proof fn lemma_key_values_witness(
    modifier: Option<LabelModifier>,
    data: Seq<InstantValue>,
    key: Seq<LabelView>,
    v: u64,
) -> (i: usize)
    requires
        key_values(modifier, data, key).count(v) > 0,
        data.len() <= usize::MAX,
    ensures
        i < data.len(),
        row_key(modifier, data, i as int) == key,
    decreases data.len(),
{
    if data.len() == 0 {
        0
    } else if projection(modifier, view_labels(data.last().labels@)) == key && data.last().value == v {
        (data.len() - 1) as usize
    } else {
        let i = lemma_key_values_witness(modifier, data.drop_last(), key, v);
        assert(data.drop_last()[i as int] == data[i as int]);
        i
    }
}

/// Reordering the rows of a vector changes no group: for each group of one
/// order there is a group of the other with the same label set and the same
/// values, counted with multiplicity; so every fold that ignores order (a
/// sum, a minimum, a maximum, a count) gives each group the same result.
pub proof fn lemma_grouping_ignores_order(
    modifier: Option<LabelModifier>,
    data1: Seq<InstantValue>,
    groups1: Seq<Group>,
    data2: Seq<InstantValue>,
    groups2: Seq<Group>,
    g1: int,
)
    requires
        data1.to_multiset() == data2.to_multiset(),
        data1.len() <= usize::MAX,
        data2.len() <= usize::MAX,
        is_grouping(modifier, data1, groups1),
        is_grouping(modifier, data2, groups2),
        0 <= g1 < groups1.len(),
    ensures
        exists|g2: int|
            0 <= g2 < groups2.len() && view_labels(groups2[g2].labels@) == view_labels(
                groups1[g1].labels@,
            ) && #[trigger] group_values(data2, groups2[g2].rows@) == group_values(
                data1,
                groups1[g1].rows@,
            ),
{
    broadcast use vstd::seq_lib::group_to_multiset_ensures;
    let key = view_labels(groups1[g1].labels@);
    lemma_key_rows_values(modifier, data1, key, data1.len() as int);
    assert(data1.take(data1.len() as int) =~= data1);
    lemma_key_values_permutation(modifier, data1, data2, key);
    let rows1 = groups1[g1].rows@;
    let first = rows1.map_values(|r: usize| data1[r as int].value)[0];
    assert(rows1.map_values(|r: usize| data1[r as int].value).contains(first));
    let i = lemma_key_values_witness(modifier, data2, key, first);
    assert(in_some_group(groups2, i as int));
    let g2 = choose|g: int| 0 <= g < groups2.len() && #[trigger] groups2[g].rows@.contains(i);
    lemma_row_group_key(modifier, data2, groups2, g2, i);
    lemma_key_rows_values(modifier, data2, key, data2.len() as int);
    assert(data2.take(data2.len() as int) =~= data2);
    assert(group_values(data2, groups2[g2].rows@) == group_values(data1, groups1[g1].rows@));
}

/// Row `j` shares the group of row `i` and ranks strictly before it.
pub open spec fn ranks_ahead(
    modifier: Option<LabelModifier>,
    data: Seq<InstantValue>,
    is_bottom: bool,
    j: int,
    i: int,
) -> bool {
    row_key(modifier, data, j) == row_key(modifier, data, i) && rank_pair(data, is_bottom, j)
        != rank_pair(data, is_bottom, i) && pair_le(
        rank_pair(data, is_bottom, j),
        rank_pair(data, is_bottom, i),
    )
}

proof fn lemma_count_ahead_witness(
    modifier: Option<LabelModifier>,
    data: Seq<InstantValue>,
    is_bottom: bool,
    i: int,
    u: int,
) -> (j: int)
    requires
        count_ahead(modifier, data, is_bottom, i, u) > 0,
    ensures
        0 <= j < u,
        ranks_ahead(modifier, data, is_bottom, j, i),
    decreases u,
{
    if u <= 0 {
        0
    } else if ranks_ahead(modifier, data, is_bottom, u - 1, i) {
        u - 1
    } else {
        lemma_count_ahead_witness(modifier, data, is_bottom, i, u - 1)
    }
}

proof fn lemma_count_ahead_counts(
    modifier: Option<LabelModifier>,
    data: Seq<InstantValue>,
    is_bottom: bool,
    i: int,
    j: int,
    u: int,
)
    requires
        0 <= j < u,
        ranks_ahead(modifier, data, is_bottom, j, i),
    ensures
        count_ahead(modifier, data, is_bottom, i, u) > 0,
    decreases u,
{
    if j < u - 1 {
        lemma_count_ahead_counts(modifier, data, is_bottom, i, j, u - 1);
    }
}

proof fn lemma_some_row_kept(
    modifier: Option<LabelModifier>,
    data: Seq<InstantValue>,
    is_bottom: bool,
    i: int,
) -> (j: int)
    requires
        0 <= i < data.len(),
        data.len() <= usize::MAX,
    ensures
        0 <= j < data.len(),
        row_key(modifier, data, j) == row_key(modifier, data, i),
        is_kept(modifier, data, 1, is_bottom, j),
    decreases rank_pair(data, is_bottom, i).0 as int * (data.len() + 1) + i,
{
    if is_kept(modifier, data, 1, is_bottom, i) {
        i
    } else {
        let j = lemma_count_ahead_witness(modifier, data, is_bottom, i, data.len() as int);
        assert(rank_pair(data, is_bottom, j).0 as int * (data.len() + 1) + j < rank_pair(
            data,
            is_bottom,
            i,
        ).0 as int * (data.len() + 1) + i) by (nonlinear_arith)
            requires
                rank_pair(data, is_bottom, j).0 < rank_pair(data, is_bottom, i).0 || (rank_pair(
                    data,
                    is_bottom,
                    j,
                ).0 == rank_pair(data, is_bottom, i).0 && j < i),
                0 <= j < data.len(),
                0 <= i < data.len(),
        ;
        lemma_some_row_kept(modifier, data, is_bottom, j)
    }
}

/// Keeping one row per group (`topk(1)`, `bottomk(1)`) keeps exactly one
/// row of every group: some row of the group of each input row is kept, and
/// no two rows of one group are.
pub proof fn lemma_one_row_per_group(
    modifier: Option<LabelModifier>,
    data: Seq<InstantValue>,
    is_bottom: bool,
    i: int,
)
    requires
        0 <= i < data.len(),
        data.len() <= usize::MAX,
    ensures
        exists|j: int|
            0 <= j < data.len() && row_key(modifier, data, j) == row_key(modifier, data, i)
                && #[trigger] is_kept(modifier, data, 1, is_bottom, j),
        forall|a: int, b: int|
            0 <= a < data.len() && 0 <= b < data.len() && a != b && row_key(modifier, data, a)
                == row_key(modifier, data, b) ==> !(#[trigger] is_kept(modifier, data, 1, is_bottom, a)
                && #[trigger] is_kept(modifier, data, 1, is_bottom, b)),
{
    let j = lemma_some_row_kept(modifier, data, is_bottom, i);
    assert(is_kept(modifier, data, 1, is_bottom, j));
    assert forall|a: int, b: int|
        0 <= a < data.len() && 0 <= b < data.len() && a != b && row_key(modifier, data, a)
            == row_key(modifier, data, b) implies !(#[trigger] is_kept(modifier, data, 1, is_bottom, a)
        && #[trigger] is_kept(modifier, data, 1, is_bottom, b)) by {
        if pair_le(rank_pair(data, is_bottom, a), rank_pair(data, is_bottom, b)) {
            lemma_count_ahead_counts(modifier, data, is_bottom, b, a, data.len() as int);
        } else {
            lemma_count_ahead_counts(modifier, data, is_bottom, a, b, data.len() as int);
        }
    }
}

} // verus!
