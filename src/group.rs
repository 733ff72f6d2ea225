use vstd::prelude::*;
use crate::labels::{project, projection, view_labels, Label, LabelModifier, LabelView};

verus! {

/// One sample of a series: its labels and its value, held as the bits of an
/// IEEE-754 double.
#[derive(Clone, Debug)]
pub struct InstantValue {
    pub labels: Vec<Label>,
    pub value: u64,
}

impl View for InstantValue {
    type V = (Seq<LabelView>, u64);

    open spec fn view(&self) -> (Seq<LabelView>, u64) {
        (view_labels(self.labels@), self.value)
    }
}

/// A copy of a label set, label by label.
pub fn duplicate_labels(ls: &Vec<Label>) -> (r: Vec<Label>)
    ensures
        view_labels(r@) == view_labels(ls@),
{
    let mut out: Vec<Label> = Vec::new();
    let mut i: usize = 0;
    while i < ls.len()
        invariant
            i <= ls.len(),
            out@.len() == i,
            forall|j: int| 0 <= j < i ==> #[trigger] out@[j]@ == ls@[j]@,
        decreases ls.len() - i,
    {
        out.push(ls[i].duplicate());
        i = i + 1;
    }
    assert(view_labels(out@) =~= view_labels(ls@));
    out
}

impl InstantValue {
    /// A copy of the row, labels and value alike.
    pub fn duplicate(&self) -> (r: InstantValue)
        ensures
            r@ == self@,
    {
        InstantValue { labels: duplicate_labels(&self.labels), value: self.value }
    }
}

/// The rows of one group: the label set they share after projection, and
/// their positions in the input vector, in ascending order.
#[derive(Clone, Debug)]
pub struct Group {
    pub labels: Vec<Label>,
    pub rows: Vec<usize>,
}

/// The projected label set of row `i`.
pub open spec fn row_key(
    modifier: Option<LabelModifier>,
    data: Seq<InstantValue>,
    i: int,
) -> Seq<LabelView> {
    projection(modifier, view_labels(data[i].labels@))
}

/// The rows among the first `upto` whose projection is `key`, ascending.
pub open spec fn key_rows(
    modifier: Option<LabelModifier>,
    data: Seq<InstantValue>,
    key: Seq<LabelView>,
    upto: int,
) -> Seq<usize>
    decreases upto,
{
    if upto <= 0 {
        Seq::empty()
    } else if row_key(modifier, data, upto - 1) == key {
        key_rows(modifier, data, key, upto - 1).push((upto - 1) as usize)
    } else {
        key_rows(modifier, data, key, upto - 1)
    }
}

/// Where no row has the projection `key`, no row is listed for it.
pub proof fn lemma_key_rows_absent(
    modifier: Option<LabelModifier>,
    data: Seq<InstantValue>,
    key: Seq<LabelView>,
    upto: int,
)
    requires
        forall|j: int| 0 <= j < upto ==> row_key(modifier, data, j) != key,
    ensures
        key_rows(modifier, data, key, upto) == Seq::<usize>::empty(),
    decreases upto,
{
    if upto > 0 {
        lemma_key_rows_absent(modifier, data, key, upto - 1);
    }
}

/// Each entry is below every later one.
pub open spec fn strictly_ascending(s: Seq<usize>) -> bool {
    forall|a: int, b: int| 0 <= a < b < s.len() ==> s[a] < s[b]
}

/// Row `i` is listed by one of `groups`.
pub open spec fn in_some_group(groups: Seq<Group>, i: int) -> bool {
    exists|g: int| 0 <= g < groups.len() && #[trigger] groups[g].rows@.contains(i as usize)
}

/// `groups` partitions the rows of `data` by their projected label sets:
/// each group is non-empty and lists, in ascending order, exactly the rows
/// whose projection is its label set; no two groups share a label set; the
/// groups stand in the order of their first rows.
pub open spec fn is_grouping(
    modifier: Option<LabelModifier>,
    data: Seq<InstantValue>,
    groups: Seq<Group>,
) -> bool {
    &&& forall|g: int|
        0 <= g < groups.len() ==> {
            &&& groups[g].rows@.len() > 0
            &&& strictly_ascending(groups[g].rows@)
            &&& groups[g].rows@ == key_rows(modifier, data, view_labels(groups[g].labels@), data.len() as int)
            &&& forall|k: int|
                0 <= k < groups[g].rows@.len() ==> {
                    &&& groups[g].rows@[k] < data.len()
                    &&& row_key(modifier, data, groups[g].rows@[k] as int) == view_labels(
                        groups[g].labels@,
                    )
                }
        }
    &&& forall|i: int| 0 <= i < data.len() ==> #[trigger] in_some_group(groups, i)
    &&& forall|g: int, h: int|
        0 <= g < h < groups.len() ==> view_labels(groups[g].labels@) != view_labels(
            groups[h].labels@,
        ) && groups[g].rows@[0] < groups[h].rows@[0]
}

fn same_labels(a: &Vec<Label>, b: &Vec<Label>) -> (r: bool)
    ensures
        r == (view_labels(a@) == view_labels(b@)),
{
    if a.len() != b.len() {
        proof {
            if view_labels(a@) == view_labels(b@) {
                assert(view_labels(a@).len() == view_labels(b@).len());
            }
        }
        return false;
    }
    let mut i: usize = 0;
    while i < a.len()
        invariant
            i <= a.len(),
            a.len() == b.len(),
            forall|j: int| 0 <= j < i ==> a@[j]@ == b@[j]@,
        decreases a.len() - i,
    {
        if a[i].name != b[i].name || a[i].value != b[i].value {
            proof {
                assert(view_labels(a@)[i as int] != view_labels(b@)[i as int]);
            }
            return false;
        }
        i = i + 1;
    }
    assert(view_labels(a@) =~= view_labels(b@));
    true
}

/// A row that a group lists is a row of the input whose projection is the
/// group's label set.
pub proof fn lemma_row_group_key(
    modifier: Option<LabelModifier>,
    data: Seq<InstantValue>,
    groups: Seq<Group>,
    g: int,
    i: usize,
)
    requires
        is_grouping(modifier, data, groups),
        0 <= g < groups.len(),
        groups[g].rows@.contains(i),
    ensures
        row_key(modifier, data, i as int) == view_labels(groups[g].labels@),
        i < data.len(),
{
    let k = choose|k: int| 0 <= k < groups[g].rows@.len() && groups[g].rows@[k] == i;
    assert(groups[g].rows@[k] < data.len());
}

/// Partitions the rows of `data` into groups by their projected label sets.
pub fn group_rows(modifier: &Option<LabelModifier>, data: &Vec<InstantValue>) -> (r: Vec<Group>)
    ensures
        is_grouping(*modifier, data@, r@),
{
    let mut groups: Vec<Group> = Vec::new();
    let ghost owner: Seq<int> = Seq::empty();
    let mut i: usize = 0;
    while i < data.len()
        invariant
            i <= data.len(),
            owner.len() == i,
            forall|g: int|
                0 <= g < groups.len() ==> {
                    &&& groups[g].rows@.len() > 0
                    &&& strictly_ascending(groups[g].rows@)
                    &&& groups[g].rows@ == key_rows(*modifier, data@, view_labels(groups[g].labels@), i as int)
                    &&& forall|k: int|
                        0 <= k < groups[g].rows@.len() ==> {
                            &&& groups[g].rows@[k] < i
                            &&& row_key(*modifier, data@, groups[g].rows@[k] as int)
                                == view_labels(groups[g].labels@)
                        }
                },
            forall|j: int|
                0 <= j < i ==> 0 <= owner[j] < groups.len() && groups[owner[j]].rows@.contains(
                    j as usize,
                ),
            forall|g: int, h: int|
                0 <= g < h < groups.len() ==> view_labels(groups[g].labels@) != view_labels(
                    groups[h].labels@,
                ) && groups[g].rows@[0] < groups[h].rows@[0],
        decreases data.len() - i,
    {
        let key = project(modifier, &data[i].labels);
        let mut g: usize = 0;
        let mut found = false;
        while g < groups.len() && !found
            invariant
                g <= groups.len(),
                found ==> g < groups.len() && view_labels(groups[g as int].labels@) == view_labels(
                    key@,
                ),
                forall|h: int| 0 <= h < g ==> view_labels(groups[h].labels@) != view_labels(key@),
            decreases (groups.len() - g) * 2 + (if found { 0int } else { 1int }),
        {
            if same_labels(&groups[g].labels, &key) {
                found = true;
            } else {
                g = g + 1;
            }
        }
        let ghost old_groups = groups@;
        if found {
            groups[g].rows.push(i);
            proof {
                assert forall|h: int| 0 <= h < groups.len() && h != g implies groups[h] == old_groups[h] by {}
                assert(groups@[g as int].rows@.last() == i);
                assert(groups@[g as int].rows@[0] == old_groups[g as int].rows@[0]);
                assert forall|h: int| 0 <= h < groups.len() implies #[trigger] groups@[h].rows@ == key_rows(*modifier, data@, view_labels(groups@[h].labels@), i + 1) by {
                    if h != g {
                        assert(view_labels(groups@[h].labels@) != view_labels(groups@[g as int].labels@));
                    }
                }
                assert forall|a: int, b: int|
                    0 <= a < b < groups.len() implies view_labels(groups[a].labels@) != view_labels(
                    groups[b].labels@,
                ) && groups[a].rows@[0] < groups[b].rows@[0] by {
                    assert(groups[a].rows@[0] == old_groups[a].rows@[0]);
                    assert(groups[b].rows@[0] == old_groups[b].rows@[0]);
                }
                owner = owner.push(g as int);
                assert forall|j: int|
                    0 <= j < i + 1 implies 0 <= owner[j] < groups.len() && groups[owner[j]].rows@.contains(
                    j as usize,
                ) by {
                    if j < i {
                        if owner[j] == g {
                            let k = choose|k: int| 0 <= k < old_groups[g as int].rows@.len() && old_groups[g as int].rows@[k] == j as usize;
                            assert(groups[owner[j]].rows@[k] == j as usize);
                        }
                    } else {
                        assert(groups[owner[j]].rows@[groups[owner[j]].rows@.len() - 1] == j as usize);
                    }
                }
            }
        } else {
            let mut rows: Vec<usize> = Vec::new();
            rows.push(i);
            groups.push(Group { labels: key, rows });
            proof {
                owner = owner.push(old_groups.len() as int);
                assert forall|j: int| 0 <= j < i implies row_key(*modifier, data@, j) != view_labels(key@) by {
                    let k = choose|k: int| 0 <= k < old_groups[owner[j]].rows@.len() && old_groups[owner[j]].rows@[k] == j as usize;
                    assert(row_key(*modifier, data@, j) == view_labels(old_groups[owner[j]].labels@));
                }
                lemma_key_rows_absent(*modifier, data@, view_labels(key@), i as int);
                assert(groups@[old_groups.len() as int].rows@ =~= key_rows(*modifier, data@, view_labels(key@), i + 1));
                assert forall|h: int| 0 <= h < groups.len() implies #[trigger] groups@[h].rows@ == key_rows(*modifier, data@, view_labels(groups@[h].labels@), i + 1) by {
                    if h < old_groups.len() {
                        assert(view_labels(groups@[h].labels@) != view_labels(key@));
                    }
                }
                assert forall|a: int, b: int|
                    0 <= a < b < groups.len() implies view_labels(groups[a].labels@) != view_labels(
                    groups[b].labels@,
                ) && groups[a].rows@[0] < groups[b].rows@[0] by {
                    if b == old_groups.len() {
                        assert(old_groups[a].rows@[0] < i);
                    }
                }
                assert forall|j: int|
                    0 <= j < i + 1 implies 0 <= owner[j] < groups.len() && groups[owner[j]].rows@.contains(
                    j as usize,
                ) by {
                    if j < i {
                        assert(groups[owner[j]] == old_groups[owner[j]]);
                    } else {
                        assert(groups[owner[j]].rows@[0] == j as usize);
                    }
                }
            }
        }
        i = i + 1;
    }
    proof {
        assert forall|j: int| 0 <= j < data.len() implies #[trigger] in_some_group(groups@, j) by {
            assert(groups[owner[j]].rows@.contains(j as usize));
        }
    }
    groups
}

} // verus!
