use promql_aggregations::aggregate::{eval_arithmetic, eval_quantile, eval_std_dev_var, eval_top};
use promql_aggregations::group::{group_rows, InstantValue};
use promql_aggregations::labels::{labels_to_exclude, labels_to_include, project, Label, LabelModifier};
use promql_aggregations::top::{rank_of, select_top, top_count};
use promql_aggregations::value::{AggregationError, Value};

fn label(name: &str, value: &str) -> Label {
    Label::new(name.to_string(), value.to_string())
}

fn row(labels: &[(&str, &str)], value: f64) -> InstantValue {
    InstantValue { labels: labels.iter().map(|(n, v)| label(n, v)).collect(), value: value.to_bits() }
}

fn names(ns: &[&str]) -> Vec<String> {
    ns.iter().map(|s| s.to_string()).collect()
}

fn label_pairs(ls: &[Label]) -> Vec<(String, String)> {
    ls.iter().map(|l| (l.name.clone(), l.value.clone())).collect()
}

fn values_of(v: &Value) -> Vec<f64> {
    match v {
        Value::Vector(rows) => rows.iter().map(|r| f64::from_bits(r.value)).collect(),
        _ => panic!("expected a vector"),
    }
}

fn five_rows() -> Vec<InstantValue> {
    [5.0, 1.0, 9.0, 3.0, 7.0]
        .iter()
        .enumerate()
        .map(|(i, v)| row(&[("__name__", "m"), ("id", &i.to_string())], *v))
        .collect()
}

#[test]
fn include_keeps_listed_labels_in_order_without_metric_name() {
    let actual = vec![label("__name__", "up"), label("job", "api"), label("instance", "a"), label("zone", "z1")];
    let r = labels_to_include(&names(&["zone", "__name__", "job"]), &actual);
    assert_eq!(
        label_pairs(&r),
        vec![("job".to_string(), "api".to_string()), ("zone".to_string(), "z1".to_string())]
    );
}

#[test]
fn exclude_drops_listed_labels_and_metric_name() {
    let actual = vec![label("__name__", "up"), label("job", "api"), label("instance", "a")];
    let r = labels_to_exclude(&names(&["instance"]), &actual);
    assert_eq!(label_pairs(&r), vec![("job".to_string(), "api".to_string())]);
    let none = labels_to_exclude(&names(&[]), &actual);
    assert_eq!(label_pairs(&none).len(), 2);
}

#[test]
fn absent_modifier_projects_to_empty_set() {
    let actual = vec![label("job", "api")];
    assert!(project(&None, &actual).is_empty());
}

#[test]
fn rows_differing_in_metric_name_merge() {
    let data = vec![
        row(&[("__name__", "a"), ("job", "x")], 1.0),
        row(&[("__name__", "b"), ("job", "x")], 2.0),
        row(&[("__name__", "c"), ("job", "y")], 3.0),
    ];
    let groups = group_rows(&Some(LabelModifier::Include(names(&["job", "__name__"]))), &data);
    assert_eq!(groups.len(), 2);
    assert_eq!(groups[0].rows, vec![0, 1]);
    assert_eq!(groups[1].rows, vec![2]);
    assert_eq!(label_pairs(&groups[0].labels), vec![("job".to_string(), "x".to_string())]);
}

#[test]
fn equal_projections_share_one_group_with_row_count() {
    let data = vec![
        row(&[("job", "x"), ("i", "1")], 1.0),
        row(&[("job", "y"), ("i", "2")], 2.0),
        row(&[("job", "x"), ("i", "3")], 3.0),
        row(&[("job", "x"), ("i", "4")], 4.0),
    ];
    let r = eval_arithmetic(&Some(LabelModifier::Exclude(names(&["i"]))), &Value::Vector(data), "count");
    let groups = r.unwrap().unwrap();
    assert_eq!(groups.len(), 2);
    assert_eq!(groups[0].rows, vec![0, 2, 3]);
    assert_eq!(groups[1].rows.len(), 1);
}

#[test]
fn grouping_ignores_row_order() {
    let a = vec![
        row(&[("job", "x")], 1.0),
        row(&[("job", "y")], 2.0),
        row(&[("job", "x")], 3.0),
    ];
    let b = vec![a[2].clone(), a[1].clone(), a[0].clone()];
    let m = Some(LabelModifier::Include(names(&["job"])));
    let ga = group_rows(&m, &a);
    let gb = group_rows(&m, &b);
    let summary = |data: &Vec<InstantValue>, gs: &Vec<promql_aggregations::group::Group>| {
        let mut s: Vec<(Vec<(String, String)>, f64, usize)> = gs
            .iter()
            .map(|g| {
                let total: f64 = g.rows.iter().map(|r| f64::from_bits(data[*r].value)).sum();
                (label_pairs(&g.labels), total, g.rows.len())
            })
            .collect();
        s.sort_by(|x, y| x.0.cmp(&y.0));
        s
    };
    assert_eq!(summary(&a, &ga), summary(&b, &gb));
}

#[test]
fn statistics_keep_group_values() {
    let data: Vec<InstantValue> =
        [1.0, 2.0, 3.0, 4.0].iter().map(|v| row(&[("job", "x"), ("v", &v.to_string())], *v)).collect();
    let r = eval_std_dev_var(&Some(LabelModifier::Include(names(&["job"]))), &Value::Vector(data), "stdvar");
    let items = r.unwrap().unwrap();
    assert_eq!(items.len(), 1);
    let values: Vec<f64> = items[0].values.iter().map(|b| f64::from_bits(*b)).collect();
    assert_eq!(values, vec![1.0, 2.0, 3.0, 4.0]);
    let mean = values.iter().sum::<f64>() / values.len() as f64;
    let var = values.iter().map(|v| (v - mean) * (v - mean)).sum::<f64>() / values.len() as f64;
    assert!((mean - 2.5).abs() < 1e-9);
    assert!((var - 1.25).abs() < 1e-9);
    assert!((var.sqrt() - 1.118033988749895).abs() < 1e-9);
}

#[test]
fn scalar_input_is_an_input_type_error() {
    for op in ["sum", "min", "max", "avg", "count"] {
        match eval_arithmetic(&None, &Value::Float(2.0f64.to_bits()), op) {
            Err(AggregationError::InputType(name)) => assert_eq!(name, op),
            other => panic!("unexpected {:?}", other),
        }
    }
    for op in ["stddev", "stdvar"] {
        match eval_std_dev_var(&None, &Value::Float(2.0f64.to_bits()), op) {
            Err(AggregationError::InputType(name)) => assert_eq!(name, op),
            other => panic!("unexpected {:?}", other),
        }
    }
    match eval_arithmetic(&None, &Value::Matrix(vec![]), "sum") {
        Err(AggregationError::InputType(name)) => assert_eq!(name, "sum"),
        other => panic!("unexpected {:?}", other),
    }
}

#[test]
fn absent_or_empty_input_gives_empty_result() {
    assert!(matches!(eval_arithmetic(&None, &Value::Absent, "sum"), Ok(None)));
    assert!(matches!(eval_std_dev_var(&None, &Value::Absent, "stddev"), Ok(None)));
    assert!(eval_arithmetic(&None, &Value::Vector(vec![]), "sum").unwrap().unwrap().is_empty());
    assert!(eval_std_dev_var(&None, &Value::Vector(vec![]), "stdvar").unwrap().unwrap().is_empty());
    let r = eval_top(&Value::Float(3.0f64.to_bits()), &None, &Value::Absent, false);
    assert!(matches!(r, Ok(Value::Absent)));
}

#[test]
fn topk_without_modifier() {
    let r = eval_top(&Value::Float(2.0f64.to_bits()), &None, &Value::Vector(five_rows()), false).unwrap();
    assert_eq!(values_of(&r), vec![9.0, 7.0]);
    match r {
        Value::Vector(rows) => assert_eq!(rows[0].labels[0].name, "__name__"),
        _ => panic!("expected a vector"),
    }
}

#[test]
fn bottomk_without_modifier() {
    let r = eval_top(&Value::Float(2.0f64.to_bits()), &None, &Value::Vector(five_rows()), true).unwrap();
    assert_eq!(values_of(&r), vec![1.0, 3.0]);
}

#[test]
fn topk_by_region_one_row_per_region() {
    let data = vec![
        row(&[("region", "eu"), ("host", "a")], 4.0),
        row(&[("region", "us"), ("host", "b")], 10.0),
        row(&[("region", "eu"), ("host", "c")], 6.0),
        row(&[("region", "us"), ("host", "d")], 2.0),
        row(&[("region", "eu"), ("host", "e")], 5.0),
    ];
    let m = Some(LabelModifier::Include(names(&["region"])));
    let r = eval_top(&Value::Float(1.0f64.to_bits()), &m, &Value::Vector(data), false).unwrap();
    assert_eq!(values_of(&r), vec![10.0, 6.0]);
    let b = eval_top(&Value::Float(2.0f64.to_bits()), &m, &Value::Vector(vec![
        row(&[("region", "eu")], 4.0),
        row(&[("region", "us")], 10.0),
        row(&[("region", "eu")], 6.0),
        row(&[("region", "us")], 2.0),
        row(&[("region", "eu")], 5.0),
    ]), true).unwrap();
    assert_eq!(values_of(&b), vec![2.0, 4.0, 5.0, 10.0]);
}

#[test]
fn topk_zero_or_negative_count_is_empty() {
    for n in [0.0, -1.0, -0.5, 0.9, f64::NAN] {
        let r = eval_top(&Value::Float(n.to_bits()), &None, &Value::Vector(five_rows()), false).unwrap();
        assert!(values_of(&r).is_empty());
    }
}

#[test]
fn topk_fractional_count_truncates() {
    let r = eval_top(&Value::Float(2.7f64.to_bits()), &None, &Value::Vector(five_rows()), false).unwrap();
    assert_eq!(values_of(&r), vec![9.0, 7.0]);
    let all = eval_top(&Value::Float(f64::INFINITY.to_bits()), &None, &Value::Vector(five_rows()), false).unwrap();
    assert_eq!(values_of(&all), vec![9.0, 7.0, 5.0, 3.0, 1.0]);
}

#[test]
fn topk_non_scalar_parameter_is_a_parameter_type_error() {
    match eval_top(&Value::Vector(vec![]), &None, &Value::Vector(five_rows()), false) {
        Err(AggregationError::ParameterType(name)) => assert_eq!(name, "topk"),
        other => panic!("unexpected {:?}", other),
    }
    match eval_top(&Value::Absent, &None, &Value::Vector(five_rows()), true) {
        Err(AggregationError::ParameterType(name)) => assert_eq!(name, "bottomk"),
        other => panic!("unexpected {:?}", other),
    }
    match eval_top(&Value::Float(1.0f64.to_bits()), &None, &Value::Float(1.0f64.to_bits()), true) {
        Err(AggregationError::InputType(name)) => assert_eq!(name, "bottomk"),
        other => panic!("unexpected {:?}", other),
    }
}

#[test]
fn nan_ranks_last_both_ways() {
    let data = vec![row(&[("i", "0")], f64::NAN), row(&[("i", "1")], 1.0), row(&[("i", "2")], -3.0)];
    let top = eval_top(&Value::Float(3.0f64.to_bits()), &None, &Value::Vector(data.clone()), false).unwrap();
    let t = values_of(&top);
    assert_eq!(&t[..2], &[1.0, -3.0]);
    assert!(t[2].is_nan());
    let bottom = eval_top(&Value::Float(3.0f64.to_bits()), &None, &Value::Vector(data), true).unwrap();
    let b = values_of(&bottom);
    assert_eq!(&b[..2], &[-3.0, 1.0]);
    assert!(b[2].is_nan());
}

#[test]
fn ties_keep_input_order() {
    let data = vec![row(&[("i", "0")], 2.0), row(&[("i", "1")], 2.0), row(&[("i", "2")], 0.0), row(&[("i", "3")], -0.0)];
    let order = select_top(&None, &data, 4, false);
    let idx: Vec<usize> = order.iter().map(|p| p.1).collect();
    assert_eq!(idx, vec![0, 1, 2, 3]);
    let order = select_top(&None, &data, 4, true);
    let idx: Vec<usize> = order.iter().map(|p| p.1).collect();
    assert_eq!(idx, vec![2, 3, 0, 1]);
}

#[test]
fn rank_keys_follow_value_order() {
    assert_eq!(rank_of(0.0f64.to_bits(), true), 0x8000_0000_0000_0000);
    assert_eq!(rank_of((-0.0f64).to_bits(), true), 0x8000_0000_0000_0000);
    assert_eq!(rank_of(1.0f64.to_bits(), true), 0x8000_0000_0000_0000 + 0x3FF0_0000_0000_0000);
    assert_eq!(rank_of(f64::NAN.to_bits(), true), u64::MAX);
    assert_eq!(rank_of(f64::NAN.to_bits(), false), u64::MAX);
    assert!(rank_of((-2.0f64).to_bits(), true) < rank_of((-1.0f64).to_bits(), true));
    assert!(rank_of(f64::INFINITY.to_bits(), false) < rank_of(5.0f64.to_bits(), false));
}

#[test]
fn count_from_float_bits() {
    assert_eq!(top_count(2.0f64.to_bits()), 2);
    assert_eq!(top_count(2.999f64.to_bits()), 2);
    assert_eq!(top_count(0.5f64.to_bits()), 0);
    assert_eq!(top_count((-7.0f64).to_bits()), 0);
    assert_eq!(top_count(f64::NAN.to_bits()), 0);
    assert_eq!(top_count(1e20f64.to_bits()), u64::MAX);
    assert_eq!(top_count(f64::INFINITY.to_bits()), u64::MAX);
    assert_eq!(top_count(9007199254740993.0f64.to_bits()), 9007199254740992);
    assert_eq!(top_count(4096.0f64.to_bits()), 4096);
    assert_eq!(top_count(18446744073709549568.0f64.to_bits()), 18446744073709549568);
}

#[test]
fn quantile_groups_hold_sorted_values() {
    let data = vec![
        row(&[("job", "x"), ("i", "0")], 4.0),
        row(&[("job", "y"), ("i", "1")], 8.0),
        row(&[("job", "x"), ("i", "2")], f64::NAN),
        row(&[("job", "x"), ("i", "3")], 1.0),
        row(&[("job", "x"), ("i", "4")], -2.0),
    ];
    let m = Some(LabelModifier::Include(names(&["job"])));
    let items = eval_quantile(&Value::Float(0.5f64.to_bits()), &m, &Value::Vector(data)).unwrap().unwrap();
    assert_eq!(items.len(), 2);
    assert_eq!(items[0].group.rows, vec![0, 2, 3, 4]);
    let xs: Vec<f64> = items[0].sorted.iter().map(|b| f64::from_bits(*b)).collect();
    assert_eq!(&xs[..3], &[-2.0, 1.0, 4.0]);
    assert!(xs[3].is_nan());
    assert_eq!(items[1].sorted, vec![8.0f64.to_bits()]);
}

#[test]
fn quantile_rank_must_lie_in_unit_interval() {
    let data = Value::Vector(five_rows());
    for q in [0.0f64, -0.0, 0.25, 1.0] {
        assert!(eval_quantile(&Value::Float(q.to_bits()), &None, &data).is_ok());
    }
    for q in [-0.1f64, 1.5, f64::NAN, f64::INFINITY] {
        match eval_quantile(&Value::Float(q.to_bits()), &None, &data) {
            Err(AggregationError::ParameterType(name)) => assert_eq!(name, "quantile"),
            other => panic!("unexpected {:?}", other),
        }
    }
    assert!(matches!(eval_quantile(&Value::Float(0.5f64.to_bits()), &None, &Value::Absent), Ok(None)));
    match eval_quantile(&Value::Float(0.5f64.to_bits()), &None, &Value::Float(1.0f64.to_bits())) {
        Err(AggregationError::InputType(name)) => assert_eq!(name, "quantile"),
        other => panic!("unexpected {:?}", other),
    }
}
