use vstd::prelude::*;

verus! {

/// A field of the schema as this operator wants it.
pub struct Field {
    pub path: String,
    pub value: String,
}

/// A field as the cluster holds it, with the manager that last set it.
pub struct ManagedField {
    pub path: String,
    pub value: String,
    pub manager: String,
}

pub struct FieldModel {
    pub path: Seq<char>,
    pub value: Seq<char>,
}

pub struct ManagedModel {
    pub path: Seq<char>,
    pub value: Seq<char>,
    pub manager: Seq<char>,
}

impl View for Field {
    type V = FieldModel;

    open spec fn view(&self) -> FieldModel {
        FieldModel { path: self.path@, value: self.value@ }
    }
}

impl View for ManagedField {
    type V = ManagedModel;

    open spec fn view(&self) -> ManagedModel {
        ManagedModel { path: self.path@, value: self.value@, manager: self.manager@ }
    }
}

pub open spec fn fields_view(s: Seq<Field>) -> Seq<FieldModel> {
    s.map_values(|f: Field| f@)
}

pub open spec fn managed_view(s: Seq<ManagedField>) -> Seq<ManagedModel> {
    s.map_values(|f: ManagedField| f@)
}

pub open spec fn paths_view(s: Seq<String>) -> Seq<Seq<char>> {
    s.map_values(|p: String| p@)
}

/// The value that `desired` gives to `path`; a later entry overrides an earlier one.
pub open spec fn desired_value(desired: Seq<FieldModel>, path: Seq<char>) -> Option<Seq<char>>
    decreases desired.len(),
{
    if desired.len() == 0 {
        None
    } else if desired.last().path == path {
        Some(desired.last().value)
    } else {
        desired_value(desired.drop_last(), path)
    }
}

/// Whether `current` holds a field at `path`.
pub open spec fn held(current: Seq<ManagedModel>, path: Seq<char>) -> bool {
    exists|i: int| 0 <= i < current.len() && current[i].path == path
}

/// Whether applying `desired` as `manager` would overwrite `c`, a value that
/// another manager set.
pub open spec fn conflicts(desired: Seq<FieldModel>, manager: Seq<char>, c: ManagedModel) -> bool {
    match desired_value(desired, c.path) {
        Some(v) => c.manager != manager && c.value != v,
        None => false,
    }
}

/// The path of the first field of `current` that applying `desired` would
/// take from another manager.
pub open spec fn first_conflict(
    desired: Seq<FieldModel>,
    manager: Seq<char>,
    current: Seq<ManagedModel>,
) -> Option<Seq<char>>
    decreases current.len(),
{
    if current.len() == 0 {
        None
    } else {
        match first_conflict(desired, manager, current.drop_last()) {
            Some(p) => Some(p),
            None => if conflicts(desired, manager, current.last()) {
                Some(current.last().path)
            } else {
                None
            },
        }
    }
}

/// What becomes of one field the cluster holds: a desired field takes the
/// desired value under `manager`; a field that `manager` applied last time
/// and no longer wants is dropped; any other field stays.
pub open spec fn merge_field(
    desired: Seq<FieldModel>,
    last_applied: Seq<Seq<char>>,
    manager: Seq<char>,
    c: ManagedModel,
) -> Seq<ManagedModel> {
    match desired_value(desired, c.path) {
        Some(v) => seq![ManagedModel { path: c.path, value: v, manager }],
        None => if c.manager == manager && last_applied.contains(c.path) {
            Seq::empty()
        } else {
            seq![c]
        },
    }
}

pub open spec fn merge_held(
    desired: Seq<FieldModel>,
    last_applied: Seq<Seq<char>>,
    manager: Seq<char>,
    current: Seq<ManagedModel>,
) -> Seq<ManagedModel>
    decreases current.len(),
{
    if current.len() == 0 {
        Seq::empty()
    } else {
        merge_held(desired, last_applied, manager, current.drop_last()) + merge_field(
            desired,
            last_applied,
            manager,
            current.last(),
        )
    }
}

/// The desired fields that the cluster does not hold yet, under `manager`.
pub open spec fn merge_new(
    desired: Seq<FieldModel>,
    manager: Seq<char>,
    current: Seq<ManagedModel>,
) -> Seq<ManagedModel>
    decreases desired.len(),
{
    if desired.len() == 0 {
        Seq::empty()
    } else {
        merge_new(desired.drop_last(), manager, current) + if held(current, desired.last().path) {
            Seq::<ManagedModel>::empty()
        } else {
            seq![
                ManagedModel {
                    path: desired.last().path,
                    value: desired.last().value,
                    manager,
                },
            ]
        }
    }
}

/// A three-way apply of `desired` by `manager` over `current`, knowing what
/// `manager` applied last time: a conflict with another manager's value is
/// reported and nothing is changed; else the merged fields.
pub open spec fn apply_spec(
    desired: Seq<FieldModel>,
    last_applied: Seq<Seq<char>>,
    manager: Seq<char>,
    current: Seq<ManagedModel>,
) -> Result<Seq<ManagedModel>, Seq<char>> {
    match first_conflict(desired, manager, current) {
        Some(p) => Err(p),
        None => Ok(
            merge_held(desired, last_applied, manager, current) + merge_new(desired, manager, current),
        ),
    }
}

fn lookup(desired: &Vec<Field>, path: &String) -> (r: Option<String>)
    ensures
        (match r {
            Some(v) => Some(v@),
            None => None,
        }) == desired_value(fields_view(desired@), path@),
{
    let mut found: Option<String> = None;
    let mut i: usize = 0;
    while i < desired.len()
        invariant
            i <= desired@.len(),
            (match found {
                Some(v) => Some(v@),
                None => None,
            }) == desired_value(fields_view(desired@.subrange(0, i as int)), path@),
        decreases desired@.len() - i,
    {
        proof {
            assert(fields_view(desired@.subrange(0, i + 1)).drop_last() =~= fields_view(
                desired@.subrange(0, i as int),
            ));
        }
        if desired[i].path == *path {
            found = Some(desired[i].value.clone());
        }
        i = i + 1;
    }
    assert(desired@.subrange(0, desired@.len() as int) =~= desired@);
    found
}

fn holds(current: &Vec<ManagedField>, path: &String) -> (r: bool)
    ensures
        r == held(managed_view(current@), path@),
{
    let mut i: usize = 0;
    while i < current.len()
        invariant
            i <= current@.len(),
            forall|j: int| 0 <= j < i ==> current@[j].path@ != path@,
        decreases current@.len() - i,
    {
        if current[i].path == *path {
            assert(managed_view(current@)[i as int].path == path@);
            return true;
        }
        i = i + 1;
    }
    proof {
        assert forall|j: int| 0 <= j < current@.len() implies managed_view(current@)[j].path != path@ by {
            assert(managed_view(current@)[j] == current@[j]@);
        }
    }
    false
}

fn contains_path(paths: &Vec<String>, path: &String) -> (r: bool)
    ensures
        r == paths_view(paths@).contains(path@),
{
    let mut i: usize = 0;
    while i < paths.len()
        invariant
            i <= paths@.len(),
            forall|j: int| 0 <= j < i ==> paths@[j]@ != path@,
        decreases paths@.len() - i,
    {
        if paths[i] == *path {
            assert(paths_view(paths@)[i as int] == path@);
            return true;
        }
        i = i + 1;
    }
    proof {
        assert forall|j: int| 0 <= j < paths@.len() implies paths_view(paths@)[j] != path@ by {
            assert(paths_view(paths@)[j] == paths@[j]@);
        }
    }
    false
}

fn copy_field(c: &ManagedField) -> (r: ManagedField)
    ensures
        r@ == c@,
{
    ManagedField { path: c.path.clone(), value: c.value.clone(), manager: c.manager.clone() }
}

/// Applies `desired` as `manager` over the fields `current` that the cluster
/// holds, `last_applied` being the paths that `manager` applied last time.
/// Returns the merged fields, or the path of the first field whose value
/// another manager set and `desired` would change: such a field is not
/// taken over.
pub fn apply_merge(
    desired: &Vec<Field>,
    last_applied: &Vec<String>,
    manager: &String,
    current: &Vec<ManagedField>,
) -> (r: Result<Vec<ManagedField>, String>)
    ensures
        (match r {
            Ok(v) => Ok(managed_view(v@)),
            Err(p) => Err(p@),
        }) == apply_spec(fields_view(desired@), paths_view(last_applied@), manager@, managed_view(current@)),
{
    let ghost d = fields_view(desired@);
    let ghost la = paths_view(last_applied@);
    let ghost cur = managed_view(current@);
    let mut out: Vec<ManagedField> = Vec::new();
    let mut i: usize = 0;
    while i < current.len()
        invariant
            i <= current@.len(),
            cur == managed_view(current@),
            d == fields_view(desired@),
            la == paths_view(last_applied@),
            first_conflict(d, manager@, cur.subrange(0, i as int)) is None,
            managed_view(out@) == merge_held(d, la, manager@, cur.subrange(0, i as int)),
        decreases current@.len() - i,
    {
        proof {
            assert(cur.subrange(0, i + 1).drop_last() =~= cur.subrange(0, i as int));
            assert(cur.subrange(0, i + 1).last() == current@[i as int]@);
        }
        let c = &current[i];
        match lookup(desired, &c.path) {
            Some(v) => {
                if c.manager != *manager && c.value != v {
                    proof {
                        lemma_conflict_persists(d, manager@, cur, i as int + 1);
                    }
                    return Err(c.path.clone());
                }
                out.push(ManagedField { path: c.path.clone(), value: v, manager: manager.clone() });
            },
            None => {
                let drop = c.manager == *manager && contains_path(last_applied, &c.path);
                if !drop {
                    out.push(copy_field(c));
                }
            },
        }
        proof {
            assert(managed_view(out@) =~= merge_held(d, la, manager@, cur.subrange(0, i + 1)));
        }
        i = i + 1;
    }
    assert(cur.subrange(0, cur.len() as int) =~= cur);
    let ghost held_part = managed_view(out@);
    let mut j: usize = 0;
    while j < desired.len()
        invariant
            j <= desired@.len(),
            cur == managed_view(current@),
            d == fields_view(desired@),
            held_part == merge_held(d, la, manager@, cur),
            first_conflict(d, manager@, cur) is None,
            managed_view(out@) == held_part + merge_new(d.subrange(0, j as int), manager@, cur),
        decreases desired@.len() - j,
    {
        proof {
            assert(d.subrange(0, j + 1).drop_last() =~= d.subrange(0, j as int));
            assert(d.subrange(0, j + 1).last() == desired@[j as int]@);
        }
        let ghost out0 = out@;
        let f = &desired[j];
        if !holds(current, &f.path) {
            out.push(ManagedField { path: f.path.clone(), value: f.value.clone(), manager: manager.clone() });
            proof {
                assert(managed_view(out@) =~= managed_view(out0).push(out@[out@.len() - 1]@));
            }
        }
        proof {
            let prev = merge_new(d.subrange(0, j as int), manager@, cur);
            let step = merge_new(d.subrange(0, j + 1), manager@, cur);
            assert(managed_view(out0) == held_part + prev);
            if held(cur, desired@[j as int]@.path) {
                assert(step =~= prev);
                assert(out@ == out0);
            } else {
                assert(step =~= prev.push(out@[out@.len() - 1]@));
            }
            assert(managed_view(out@) =~= held_part + step);
        }
        j = j + 1;
    }
    assert(d.subrange(0, d.len() as int) =~= d);
    Ok(out)
}

proof fn lemma_conflict_persists(d: Seq<FieldModel>, manager: Seq<char>, cur: Seq<ManagedModel>, n: int)
    requires
        0 < n <= cur.len(),
        first_conflict(d, manager, cur.subrange(0, n - 1)) is None,
        conflicts(d, manager, cur[n - 1]),
    ensures
        first_conflict(d, manager, cur) == Some(cur[n - 1].path),
    decreases cur.len() - n,
{
    assert(cur.subrange(0, n).drop_last() =~= cur.subrange(0, n - 1));
    if n == cur.len() {
        assert(cur.subrange(0, n) =~= cur);
    } else {
        lemma_conflict_prefix(d, manager, cur, n);
    }
}

proof fn lemma_conflict_prefix(d: Seq<FieldModel>, manager: Seq<char>, cur: Seq<ManagedModel>, n: int)
    requires
        0 < n <= cur.len(),
        first_conflict(d, manager, cur.subrange(0, n)) is Some,
    ensures
        first_conflict(d, manager, cur) == first_conflict(d, manager, cur.subrange(0, n)),
    decreases cur.len() - n,
{
    if n == cur.len() {
        assert(cur.subrange(0, n) =~= cur);
    } else {
        assert(cur.subrange(0, n + 1).drop_last() =~= cur.subrange(0, n));
        lemma_conflict_prefix(d, manager, cur, n + 1);
    }
}

/// No two desired fields share a path.
pub open spec fn distinct_paths(d: Seq<FieldModel>) -> bool {
    forall|i: int, j: int| 0 <= i < d.len() && 0 <= j < d.len() && i != j ==> d[i].path != d[j].path
}

/// The paths of the desired fields: what is applied last once they are applied.
pub open spec fn desired_paths(d: Seq<FieldModel>) -> Seq<Seq<char>> {
    d.map_values(|f: FieldModel| f.path)
}

/// A held field that a further apply of `d` by `manager` leaves as it is.
pub open spec fn settled(d: Seq<FieldModel>, manager: Seq<char>, x: ManagedModel) -> bool {
    match desired_value(d, x.path) {
        Some(v) => x.value == v && x.manager == manager,
        None => !(x.manager == manager && desired_paths(d).contains(x.path)),
    }
}

proof fn lemma_value_of_distinct(d: Seq<FieldModel>, i: int)
    requires
        distinct_paths(d),
        0 <= i < d.len(),
    ensures
        desired_value(d, d[i].path) == Some(d[i].value),
    decreases d.len(),
{
    if i < d.len() - 1 {
        assert(d.last().path != d[i].path);
        assert(d.drop_last()[i] == d[i]);
        lemma_value_of_distinct(d.drop_last(), i);
    }
}

proof fn lemma_no_value_not_desired(d: Seq<FieldModel>, p: Seq<char>)
    requires
        desired_value(d, p) is None,
    ensures
        !desired_paths(d).contains(p),
    decreases d.len(),
{
    if d.len() > 0 {
        lemma_no_value_not_desired(d.drop_last(), p);
        assert forall|i: int| 0 <= i < d.len() implies desired_paths(d)[i] != p by {
            if i < d.len() - 1 {
                assert(desired_paths(d.drop_last())[i] == desired_paths(d)[i]);
            }
        }
    }
}

proof fn lemma_settled_unchanged(d: Seq<FieldModel>, manager: Seq<char>, s: Seq<ManagedModel>)
    requires
        forall|i: int| 0 <= i < s.len() ==> settled(d, manager, #[trigger] s[i]),
    ensures
        merge_held(d, desired_paths(d), manager, s) == s,
        first_conflict(d, manager, s) is None,
    decreases s.len(),
{
    if s.len() > 0 {
        let t = s.drop_last();
        assert forall|i: int| 0 <= i < t.len() implies settled(d, manager, #[trigger] t[i]) by {
            assert(t[i] == s[i]);
        }
        lemma_settled_unchanged(d, manager, t);
        assert(settled(d, manager, s[s.len() - 1]));
        let x = s.last();
        assert(merge_field(d, desired_paths(d), manager, x) =~= seq![x]);
        assert(merge_held(d, desired_paths(d), manager, s) =~= s);
    }
}

proof fn lemma_held_settled(
    d: Seq<FieldModel>,
    la: Seq<Seq<char>>,
    manager: Seq<char>,
    cur: Seq<ManagedModel>,
)
    ensures
        forall|i: int|
            0 <= i < merge_held(d, la, manager, cur).len() ==> settled(
                d,
                manager,
                #[trigger] merge_held(d, la, manager, cur)[i],
            ),
    decreases cur.len(),
{
    if cur.len() > 0 {
        lemma_held_settled(d, la, manager, cur.drop_last());
        let a = merge_held(d, la, manager, cur.drop_last());
        let b = merge_field(d, la, manager, cur.last());
        if desired_value(d, cur.last().path) is None {
            lemma_no_value_not_desired(d, cur.last().path);
        }
        assert forall|i: int| 0 <= i < (a + b).len() implies settled(d, manager, #[trigger] (a + b)[i]) by {
            if i < a.len() {
                assert((a + b)[i] == a[i]);
            } else {
                assert((a + b)[i] == b[i - a.len()]);
            }
        }
    }
}

proof fn lemma_new_settled(d: Seq<FieldModel>, manager: Seq<char>, cur: Seq<ManagedModel>, n: int)
    requires
        distinct_paths(d),
        0 <= n <= d.len(),
    ensures
        forall|i: int|
            0 <= i < merge_new(d.subrange(0, n), manager, cur).len() ==> settled(
                d,
                manager,
                #[trigger] merge_new(d.subrange(0, n), manager, cur)[i],
            ),
    decreases n,
{
    if n > 0 {
        let dn = d.subrange(0, n);
        assert(dn.drop_last() =~= d.subrange(0, n - 1));
        lemma_new_settled(d, manager, cur, n - 1);
        lemma_value_of_distinct(d, n - 1);
        let a = merge_new(d.subrange(0, n - 1), manager, cur);
        let b = if held(cur, dn.last().path) {
            Seq::<ManagedModel>::empty()
        } else {
            seq![ManagedModel { path: dn.last().path, value: dn.last().value, manager }]
        };
        assert(merge_new(dn, manager, cur) == a + b);
        assert forall|i: int| 0 <= i < (a + b).len() implies settled(d, manager, #[trigger] (a + b)[i]) by {
            if i < a.len() {
                assert((a + b)[i] == a[i]);
            } else {
                assert((a + b)[i] == b[i - a.len()]);
            }
        }
    }
}

proof fn lemma_held_keeps_path(
    d: Seq<FieldModel>,
    la: Seq<Seq<char>>,
    manager: Seq<char>,
    cur: Seq<ManagedModel>,
    k: int,
)
    requires
        0 <= k < cur.len(),
        desired_value(d, cur[k].path) is Some,
    ensures
        held(merge_held(d, la, manager, cur), cur[k].path),
    decreases cur.len(),
{
    let a = merge_held(d, la, manager, cur.drop_last());
    let b = merge_field(d, la, manager, cur.last());
    if k == cur.len() - 1 {
        assert((a + b)[a.len() as int] == b[0]);
    } else {
        assert(cur.drop_last()[k] == cur[k]);
        lemma_held_keeps_path(d, la, manager, cur.drop_last(), k);
        let j = choose|j: int| 0 <= j < a.len() && a[j].path == cur[k].path;
        assert((a + b)[j] == a[j]);
    }
}

proof fn lemma_new_keeps_path(d: Seq<FieldModel>, manager: Seq<char>, cur: Seq<ManagedModel>, n: int, i: int)
    requires
        0 <= i < n <= d.len(),
        !held(cur, d[i].path),
    ensures
        held(merge_new(d.subrange(0, n), manager, cur), d[i].path),
    decreases n,
{
    let dn = d.subrange(0, n);
    assert(dn.drop_last() =~= d.subrange(0, n - 1));
    let a = merge_new(d.subrange(0, n - 1), manager, cur);
    if i == n - 1 {
        assert(merge_new(dn, manager, cur)[a.len() as int].path == d[i].path);
    } else {
        lemma_new_keeps_path(d, manager, cur, n - 1, i);
        let j = choose|j: int| 0 <= j < a.len() && a[j].path == d[i].path;
        assert(merge_new(dn, manager, cur)[j] == a[j]);
    }
}

proof fn lemma_new_empty(d: Seq<FieldModel>, manager: Seq<char>, r: Seq<ManagedModel>)
    requires
        forall|i: int| 0 <= i < d.len() ==> held(r, #[trigger] d[i].path),
    ensures
        merge_new(d, manager, r) == Seq::<ManagedModel>::empty(),
    decreases d.len(),
{
    if d.len() > 0 {
        assert forall|i: int| 0 <= i < d.drop_last().len() implies held(r, #[trigger] d.drop_last()[i].path) by {
            assert(d.drop_last()[i] == d[i]);
        }
        lemma_new_empty(d.drop_last(), manager, r);
        assert(held(r, d[d.len() - 1].path));
        assert(merge_new(d, manager, r) =~= Seq::<ManagedModel>::empty());
    }
}

/// Applying the same fields again as the same manager, once the first apply
/// succeeded, succeeds and changes nothing.
pub proof fn lemma_reapply_is_noop(
    d: Seq<FieldModel>,
    la: Seq<Seq<char>>,
    manager: Seq<char>,
    cur: Seq<ManagedModel>,
)
    requires
        distinct_paths(d),
        apply_spec(d, la, manager, cur) is Ok,
    ensures
        apply_spec(d, desired_paths(d), manager, apply_spec(d, la, manager, cur)->Ok_0) == apply_spec(
            d,
            la,
            manager,
            cur,
        ),
{
    let h = merge_held(d, la, manager, cur);
    let n = merge_new(d, manager, cur);
    let r = h + n;
    assert(d.subrange(0, d.len() as int) =~= d);
    lemma_held_settled(d, la, manager, cur);
    lemma_new_settled(d, manager, cur, d.len() as int);
    assert forall|i: int| 0 <= i < r.len() implies settled(d, manager, #[trigger] r[i]) by {
        if i < h.len() {
            assert(r[i] == h[i]);
        } else {
            assert(r[i] == n[i - h.len()]);
        }
    }
    lemma_settled_unchanged(d, manager, r);
    assert forall|i: int| 0 <= i < d.len() implies held(r, #[trigger] d[i].path) by {
        lemma_value_of_distinct(d, i);
        if held(cur, d[i].path) {
            let k = choose|k: int| 0 <= k < cur.len() && cur[k].path == d[i].path;
            lemma_held_keeps_path(d, la, manager, cur, k);
            let j = choose|j: int| 0 <= j < h.len() && h[j].path == d[i].path;
            assert(r[j] == h[j]);
        } else {
            lemma_new_keeps_path(d, manager, cur, d.len() as int, i);
            let j = choose|j: int| 0 <= j < n.len() && n[j].path == d[i].path;
            assert(r[h.len() + j] == n[j]);
        }
    }
    lemma_new_empty(d, manager, r);
    assert(r + Seq::<ManagedModel>::empty() =~= r);
}

} // verus!
