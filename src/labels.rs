use vstd::prelude::*;

verus! {

/// One name/value pair of a series.
#[derive(Clone, Debug)]
pub struct Label {
    pub name: String,
    pub value: String,
}

/// A label as the contracts see it: its name and its value.
pub type LabelView = (Seq<char>, Seq<char>);

impl View for Label {
    type V = LabelView;

    open spec fn view(&self) -> LabelView {
        (self.name@, self.value@)
    }
}

impl Label {
    pub fn new(name: String, value: String) -> (r: Label)
        ensures
            r.name@ == name@,
            r.value@ == value@,
    {
        Label { name, value }
    }

    /// A copy of the label, name and value alike.
    pub fn duplicate(&self) -> (r: Label)
        ensures
            r@ == self@,
    {
        Label { name: self.name.clone(), value: self.value.clone() }
    }
}

/// A grouping clause: `by (names)` keeps the listed labels, `without (names)`
/// drops them.
#[derive(Clone, Debug)]
pub enum LabelModifier {
    Include(Vec<String>),
    Exclude(Vec<String>),
}

/// The metric-name pseudo-label, `__name__`.
pub open spec fn is_metric_name(name: Seq<char>) -> bool {
    name == seq!['_', '_', 'n', 'a', 'm', 'e', '_', '_']
}

/// The labels of a label set as name/value pairs.
pub open spec fn view_labels(ls: Seq<Label>) -> Seq<LabelView> {
    ls.map_values(|l: Label| l@)
}

/// A list of label names as character sequences.
pub open spec fn view_names(ns: Seq<String>) -> Seq<Seq<char>> {
    ns.map_values(|s: String| s@)
}

/// Whether a label of this name survives a clause whose list is `names`:
/// for `by` when it is listed, for `without` when it is not, and never
/// when it is the metric name.
pub open spec fn survives(names: Seq<Seq<char>>, listed_kept: bool, name: Seq<char>) -> bool {
    names.contains(name) == listed_kept && !is_metric_name(name)
}

/// The labels of `labels` that survive, in their original order.
pub open spec fn project_names(
    names: Seq<Seq<char>>,
    listed_kept: bool,
    labels: Seq<LabelView>,
) -> Seq<LabelView> {
    labels.filter(|l: LabelView| survives(names, listed_kept, l.0))
}

/// The label set that decides a row's group under a clause; with no clause
/// every row falls into the one group of the empty label set.
pub open spec fn projection(modifier: Option<LabelModifier>, labels: Seq<LabelView>) -> Seq<
    LabelView,
> {
    match modifier {
        None => Seq::empty(),
        Some(LabelModifier::Include(ns)) => project_names(view_names(ns@), true, labels),
        Some(LabelModifier::Exclude(ns)) => project_names(view_names(ns@), false, labels),
    }
}

fn is_metric_name_label(name: &String) -> (r: bool)
    ensures
        r == is_metric_name(name@),
{
    let s = name.as_str();
    if s.unicode_len() != 8 {
        return false;
    }
    let ok = s.get_char(0) == '_' && s.get_char(1) == '_' && s.get_char(2) == 'n' && s.get_char(3)
        == 'a' && s.get_char(4) == 'm' && s.get_char(5) == 'e' && s.get_char(6) == '_'
        && s.get_char(7) == '_';
    proof {
        if ok {
            assert(s@ =~= seq!['_', '_', 'n', 'a', 'm', 'e', '_', '_']);
        }
    }
    ok
}

fn contains_name(names: &Vec<String>, name: &String) -> (r: bool)
    ensures
        r == view_names(names@).contains(name@),
{
    let mut i: usize = 0;
    while i < names.len()
        invariant
            i <= names.len(),
            forall|j: int| 0 <= j < i ==> names@[j]@ != name@,
        decreases names.len() - i,
    {
        if names[i] == *name {
            assert(view_names(names@)[i as int] == name@);
            return true;
        }
        i = i + 1;
    }
    proof {
        if view_names(names@).contains(name@) {
            let k = choose|k: int| 0 <= k < names@.len() && view_names(names@)[k] == name@;
            assert(names@[k]@ == name@);
        }
    }
    false
}

fn project_by_names(names: &Vec<String>, listed_kept: bool, actual: &Vec<Label>) -> (r: Vec<
    Label,
>)
    ensures
        view_labels(r@) == project_names(view_names(names@), listed_kept, view_labels(actual@)),
{
    let ghost keep = |l: LabelView| survives(view_names(names@), listed_kept, l.0);
    let mut out: Vec<Label> = Vec::new();
    let mut i: usize = 0;
    while i < actual.len()
        invariant
            i <= actual.len(),
            keep == (|l: LabelView| survives(view_names(names@), listed_kept, l.0)),
            view_labels(out@) == view_labels(actual@).take(i as int).filter(keep),
        decreases actual.len() - i,
    {
        let label = &actual[i];
        let listed = contains_name(names, &label.name);
        let metric = is_metric_name_label(&label.name);
        let ghost before = out@;
        if listed == listed_kept && !metric {
            out.push(label.duplicate());
        }
        proof {
            let s = view_labels(actual@).take(i + 1);
            assert(s.drop_last() =~= view_labels(actual@).take(i as int));
            assert(s.last() == actual@[i as int]@);
            reveal(Seq::filter);
            assert(view_labels(out@) =~= view_labels(actual@).take(i + 1).filter(keep));
        }
        i = i + 1;
    }
    assert(view_labels(actual@).take(actual.len() as int) =~= view_labels(actual@));
    out
}

/// The labels of `actual_labels` named in `include_labels`, in their
/// original order; the metric name is never kept.
pub fn labels_to_include(include_labels: &Vec<String>, actual_labels: &Vec<Label>) -> (r: Vec<
    Label,
>)
    ensures
        view_labels(r@) == project_names(
            view_names(include_labels@),
            true,
            view_labels(actual_labels@),
        ),
{
    project_by_names(include_labels, true, actual_labels)
}

/// The labels of `actual_labels` not named in `exclude_labels`, in their
/// original order; the metric name is never kept.
pub fn labels_to_exclude(exclude_labels: &Vec<String>, actual_labels: &Vec<Label>) -> (r: Vec<
    Label,
>)
    ensures
        view_labels(r@) == project_names(
            view_names(exclude_labels@),
            false,
            view_labels(actual_labels@),
        ),
{
    project_by_names(exclude_labels, false, actual_labels)
}

/// The label set that decides the group of a row carrying `labels`.
pub fn project(modifier: &Option<LabelModifier>, labels: &Vec<Label>) -> (r: Vec<Label>)
    ensures
        view_labels(r@) == projection(*modifier, view_labels(labels@)),
{
    match modifier {
        None => {
            let r: Vec<Label> = Vec::new();
            assert(view_labels(r@) =~= Seq::<LabelView>::empty());
            r
        },
        Some(LabelModifier::Include(ns)) => labels_to_include(ns, labels),
        Some(LabelModifier::Exclude(ns)) => labels_to_exclude(ns, labels),
    }
}

} // verus!
