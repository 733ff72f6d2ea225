use vstd::prelude::*;
use crate::group::{group_rows, is_grouping, Group, InstantValue};
use crate::labels::LabelModifier;
use crate::top::{
    float_count, is_top_order, magnitude, pairs_ascending, rank_of, rank_pair, select_top,
    sorted_pairs, top_count, SIGN_BIT,
};
use crate::value::{is_input_type_error, is_parameter_type_error, AggregationError, Value};

verus! {

/// The samples of one group of a `stddev`/`stdvar`: the group, and the
/// values of its rows in row order.
#[derive(Clone, Debug)]
pub struct StatisticItems {
    pub group: Group,
    pub values: Vec<u64>,
}

/// The items hold, for each group, the values of exactly its rows.
pub open spec fn holds_group_values(data: Seq<InstantValue>, items: Seq<StatisticItems>) -> bool {
    forall|g: int|
        0 <= g < items.len() ==> {
            &&& #[trigger] items[g].values@.len() == items[g].group.rows@.len()
            &&& forall|k: int|
                0 <= k < items[g].values@.len() ==> items[g].values@[k]
                    == data[items[g].group.rows@[k] as int].value
        }
}

/// The groups that the items stand for.
pub open spec fn groups_of(items: Seq<StatisticItems>) -> Seq<Group> {
    items.map_values(|it: StatisticItems| it.group)
}

/// Groups the rows of a vector for `sum`, `min`, `max`, `count` and `avg`.
/// An absent input gives `None`; any input but a vector is refused with an
/// input-type error naming `f_name`.
pub fn eval_arithmetic(param: &Option<LabelModifier>, data: &Value, f_name: &str) -> (r: Result<
    Option<Vec<Group>>,
    AggregationError,
>)
    ensures
        match *data {
            Value::Vector(v) => match r {
                Ok(Some(gs)) => is_grouping(*param, v@, gs@),
                _ => false,
            },
            Value::Absent => r matches Ok(None),
            _ => is_input_type_error(r, f_name@),
        },
{
    match data {
        Value::Vector(v) => Ok(Some(group_rows(param, v))),
        Value::Absent => Ok(None),
        _ => Err(AggregationError::InputType(f_name.to_owned())),
    }
}

/// Groups the rows of a vector for `stddev` and `stdvar`, keeping each
/// group's values. An absent input gives `None`; any input but a vector is
/// refused with an input-type error naming `f_name`.
pub fn eval_std_dev_var(param: &Option<LabelModifier>, data: &Value, f_name: &str) -> (r: Result<
    Option<Vec<StatisticItems>>,
    AggregationError,
>)
    ensures
        match *data {
            Value::Vector(v) => match r {
                Ok(Some(items)) => is_grouping(*param, v@, groups_of(items@))
                    && holds_group_values(v@, items@),
                _ => false,
            },
            Value::Absent => r matches Ok(None),
            _ => is_input_type_error(r, f_name@),
        },
{
    let v = match data {
        Value::Vector(v) => v,
        Value::Absent => {
            return Ok(None);
        },
        _ => {
            return Err(AggregationError::InputType(f_name.to_owned()));
        },
    };
    let mut groups = group_rows(param, v);
    let ghost orig = groups@;
    let mut items: Vec<StatisticItems> = Vec::new();
    let mut g: usize = 0;
    while g < groups.len()
        invariant
            g <= groups.len(),
            groups.len() == orig.len(),
            is_grouping(*param, v@, orig),
            forall|h: int| g <= h < orig.len() ==> #[trigger] groups@[h] == orig[h],
            items.len() == g,
            forall|h: int| 0 <= h < g ==> #[trigger] items@[h].group == orig[h],
            holds_group_values(v@, items@),
        decreases groups.len() - g,
    {
        let mut group = Group { labels: Vec::new(), rows: Vec::new() };
        std::mem::swap(&mut group, &mut groups[g]);
        let mut values: Vec<u64> = Vec::new();
        let mut k: usize = 0;
        while k < group.rows.len()
            invariant
                g < orig.len(),
                group == orig[g as int],
                is_grouping(*param, v@, orig),
                k <= group.rows.len(),
                values.len() == k,
                forall|t: int| 0 <= t < k ==> values@[t] == v@[group.rows@[t] as int].value,
            decreases group.rows.len() - k,
        {
            values.push(v[group.rows[k]].value);
            k = k + 1;
        }
        items.push(StatisticItems { group, values });
        g = g + 1;
    }
    assert(groups_of(items@) =~= orig);
    Ok(Some(items))
}

/// The name of the ranking operator.
pub open spec fn top_name(is_bottom: bool) -> Seq<char> {
    if is_bottom {
        "bottomk"@
    } else {
        "topk"@
    }
}

/// `out` lists the rows of `data` that the ranking `s` names, in its order.
pub open spec fn rows_in_order(
    data: Seq<InstantValue>,
    s: Seq<(u64, usize)>,
    out: Seq<InstantValue>,
) -> bool {
    &&& out.len() == s.len()
    &&& forall|k: int| 0 <= k < s.len() ==> s[k].1 < data.len() && #[trigger] out[k]@ == data[s[k].1 as int]@
}

/// `out` holds, whole and in order, the rows that a ranking of `data` keeps.
pub open spec fn is_top_result(
    modifier: Option<LabelModifier>,
    data: Seq<InstantValue>,
    n: u64,
    is_bottom: bool,
    out: Seq<InstantValue>,
) -> bool {
    exists|s: Seq<(u64, usize)>|
        is_top_order(modifier, data, n, is_bottom, s) && #[trigger] rows_in_order(data, s, out)
}

/// `topk` (or, with `is_bottom`, `bottomk`): within each group of `modifier`
/// keeps the `n` best-ranked rows, where `n` is the scalar `param` truncated
/// toward zero and clamped at zero, and returns every kept row, whole, ordered
/// together by rank (NaN last, ties in input order). A `param` that is not a
/// scalar is refused with a parameter-type error; an absent input gives an
/// absent result; any input but a vector is refused with an input-type error.
pub fn eval_top(param: &Value, modifier: &Option<LabelModifier>, data: &Value, is_bottom: bool) -> (r:
    Result<Value, AggregationError>)
    ensures
        match *param {
            Value::Float(bits) => match *data {
                Value::Vector(v) => match r {
                    Ok(Value::Vector(out)) => is_top_result(
                        *modifier,
                        v@,
                        float_count(bits),
                        is_bottom,
                        out@,
                    ),
                    _ => false,
                },
                Value::Absent => r matches Ok(Value::Absent),
                _ => is_input_type_error(r, top_name(is_bottom)),
            },
            _ => is_parameter_type_error(r, top_name(is_bottom)),
        },
{
    let n = match param {
        Value::Float(bits) => top_count(*bits),
        _ => {
            let name = if is_bottom {
                "bottomk".to_owned()
            } else {
                "topk".to_owned()
            };
            proof {
                reveal_strlit("bottomk");
                reveal_strlit("topk");
            }
            return Err(AggregationError::ParameterType(name));
        },
    };
    let v = match data {
        Value::Vector(v) => v,
        Value::Absent => {
            return Ok(Value::Absent);
        },
        _ => {
            let name = if is_bottom {
                "bottomk".to_owned()
            } else {
                "topk".to_owned()
            };
            proof {
                reveal_strlit("bottomk");
                reveal_strlit("topk");
            }
            return Err(AggregationError::InputType(name));
        },
    };
    let order = select_top(modifier, v, n, is_bottom);
    proof {
        crate::top::lemma_kept_pairs_in_range(*modifier, v@, n, is_bottom, order@);
    }
    let mut out: Vec<InstantValue> = Vec::new();
    let mut k: usize = 0;
    while k < order.len()
        invariant
            k <= order.len(),
            forall|t: int| 0 <= t < order.len() ==> #[trigger] order@[t].1 < v.len(),
            out.len() == k,
            forall|t: int| 0 <= t < k ==> #[trigger] out@[t]@ == v@[order@[t].1 as int]@,
        decreases order.len() - k,
    {
        out.push(v[order[k].1].duplicate());
        k = k + 1;
    }
    assert(rows_in_order(v@, order@, out@));
    assert(is_top_result(*modifier, v@, n, is_bottom, out@));
    Ok(Value::Vector(out))
}

/// The bits hold a number in `[0, 1]`; either zero counts.
pub open spec fn is_unit_rank(bits: u64) -> bool {
    magnitude(bits) == 0 || (bits < SIGN_BIT && bits <= 0x3FF0_0000_0000_0000)
}

/// The samples of one group of a `quantile`: the group, and the values of
/// its rows in ascending order (NaN last, ties in row order).
#[derive(Clone, Debug)]
pub struct QuantileItems {
    pub group: Group,
    pub sorted: Vec<u64>,
}

/// The groups that the items stand for.
pub open spec fn quantile_groups(items: Seq<QuantileItems>) -> Seq<Group> {
    items.map_values(|it: QuantileItems| it.group)
}

/// `out` is the values of `rows`, each once, in ascending rank.
pub open spec fn is_sorted_values(data: Seq<InstantValue>, rows: Seq<usize>, out: Seq<u64>) -> bool {
    exists|s: Seq<(u64, usize)>|
        s.to_multiset() == rows.map_values(|r: usize| rank_pair(data, true, r as int)).to_multiset()
            && pairs_ascending(s) && #[trigger] values_in_order(data, s, out)
}

/// `out` lists the values of the rows that `s` names, in its order.
pub open spec fn values_in_order(data: Seq<InstantValue>, s: Seq<(u64, usize)>, out: Seq<u64>) -> bool {
    &&& out.len() == s.len()
    &&& forall|k: int| 0 <= k < s.len() ==> s[k].1 < data.len() && #[trigger] out[k] == data[s[k].1 as int].value
}

fn sorted_values(data: &Vec<InstantValue>, rows: &Vec<usize>) -> (out: Vec<u64>)
    requires
        forall|k: int| 0 <= k < rows.len() ==> #[trigger] rows@[k] < data.len(),
    ensures
        is_sorted_values(data@, rows@, out@),
{
    let mut pairs: Vec<(u64, usize)> = Vec::new();
    let mut k: usize = 0;
    while k < rows.len()
        invariant
            k <= rows.len(),
            forall|t: int| 0 <= t < rows.len() ==> #[trigger] rows@[t] < data.len(),
            pairs@ == rows@.take(k as int).map_values(|r: usize| rank_pair(data@, true, r as int)),
        decreases rows.len() - k,
    {
        pairs.push((rank_of(data[rows[k]].value, true), rows[k]));
        proof {
            assert(rows@.take(k + 1) =~= rows@.take(k as int).push(rows@[k as int]));
        }
        k = k + 1;
        assert(pairs@ =~= rows@.take(k as int).map_values(|r: usize| rank_pair(data@, true, r as int)));
    }
    assert(rows@.take(rows.len() as int) =~= rows@);
    let ghost all = pairs@;
    let s = sorted_pairs(pairs);
    let mut out: Vec<u64> = Vec::new();
    let mut k: usize = 0;
    while k < s.len()
        invariant
            k <= s.len(),
            s@.to_multiset() == all.to_multiset(),
            all == rows@.map_values(|r: usize| rank_pair(data@, true, r as int)),
            forall|t: int| 0 <= t < rows.len() ==> #[trigger] rows@[t] < data.len(),
            out.len() == k,
            forall|t: int| 0 <= t < k ==> (#[trigger] s@[t]).1 < data.len(),
            forall|t: int| 0 <= t < k ==> #[trigger] out@[t] == data@[s@[t].1 as int].value,
        decreases s.len() - k,
    {
        proof {
            broadcast use vstd::seq_lib::group_to_multiset_ensures;
            assert(s@.contains(s@[k as int]));
            assert(s@.to_multiset().count(s@[k as int]) > 0);
            assert(all.contains(s@[k as int]));
            let u = choose|u: int| 0 <= u < all.len() && all[u] == s@[k as int];
            assert(all[u] == rank_pair(data@, true, rows@[u] as int));
            assert(s@[k as int].1 == rows@[u]);
            assert(rows@[u] < data.len());
        }
        let ghost before = out@;
        out.push(data[s[k].1].value);
        assert(forall|t: int| 0 <= t < k ==> out@[t] == before[t]);
        k = k + 1;
    }
    assert(values_in_order(data@, s@, out@));
    out
}

/// Groups the rows of a vector for `quantile`, with each group's values in
/// ascending order. A rank `param` that is not a scalar in `[0, 1]` is
/// refused with a parameter-type error; an absent input gives `None`; any
/// input but a vector is refused with an input-type error.
pub fn eval_quantile(param: &Value, modifier: &Option<LabelModifier>, data: &Value) -> (r: Result<
    Option<Vec<QuantileItems>>,
    AggregationError,
>)
    ensures
        match *param {
            Value::Float(bits) if is_unit_rank(bits) => match *data {
                Value::Vector(v) => match r {
                    Ok(Some(items)) => {
                        &&& is_grouping(*modifier, v@, quantile_groups(items@))
                        &&& forall|g: int|
                            0 <= g < items.len() ==> is_sorted_values(
                                v@,
                                #[trigger] items@[g].group.rows@,
                                items@[g].sorted@,
                            )
                    },
                    _ => false,
                },
                Value::Absent => r matches Ok(None),
                _ => is_input_type_error(r, "quantile"@),
            },
            _ => is_parameter_type_error(r, "quantile"@),
        },
{
    proof {
        reveal_strlit("quantile");
    }
    match param {
        Value::Float(bits) => {
            let mag = *bits % SIGN_BIT;
            if !(mag == 0 || (*bits < SIGN_BIT && *bits <= 0x3FF0_0000_0000_0000)) {
                return Err(AggregationError::ParameterType("quantile".to_owned()));
            }
        },
        _ => {
            return Err(AggregationError::ParameterType("quantile".to_owned()));
        },
    }
    let v = match data {
        Value::Vector(v) => v,
        Value::Absent => {
            return Ok(None);
        },
        _ => {
            return Err(AggregationError::InputType("quantile".to_owned()));
        },
    };
    let mut groups = group_rows(modifier, v);
    let ghost orig = groups@;
    let mut items: Vec<QuantileItems> = Vec::new();
    let mut g: usize = 0;
    while g < groups.len()
        invariant
            g <= groups.len(),
            groups.len() == orig.len(),
            is_grouping(*modifier, v@, orig),
            forall|h: int| g <= h < orig.len() ==> #[trigger] groups@[h] == orig[h],
            items.len() == g,
            forall|h: int| 0 <= h < g ==> #[trigger] items@[h].group == orig[h],
            forall|h: int|
                0 <= h < g ==> is_sorted_values(v@, #[trigger] items@[h].group.rows@, items@[h].sorted@),
        decreases groups.len() - g,
    {
        let mut group = Group { labels: Vec::new(), rows: Vec::new() };
        std::mem::swap(&mut group, &mut groups[g]);
        proof {
            assert forall|k: int| 0 <= k < group.rows.len() implies #[trigger] group.rows@[k] < v.len() by {
                assert(orig[g as int].rows@[k] < v.len());
            }
        }
        let sorted = sorted_values(v, &group.rows);
        items.push(QuantileItems { group, sorted });
        g = g + 1;
    }
    assert(quantile_groups(items@) =~= orig);
    Ok(Some(items))
}

} // verus!
