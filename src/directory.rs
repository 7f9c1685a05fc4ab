//! The employee directory: departments, each with a sorted set of employee names, kept by the
//! four operations add, remove, move and rename, and listed by print.
use vstd::prelude::*;
use crate::command::{parse_command, parse_spec, Command, CommandText, DirError};
use crate::text::{
    lemma_text_le_transitive, lemma_text_lt_transitive, lemma_text_not_le,
    lemma_text_order_total, same_text, str_le, strictly_ascending, text_le, text_lt, text_order,
    texts, words,
};
use vstd::relations::sorted_by;

verus! {

/// A department and the employees in it.
pub type DepartmentText = (Seq<char>, Seq<Seq<char>>);

/// The departments are in strictly ascending order of name, and each holds a non-empty,
/// strictly ascending list of employee names. No name is empty.
pub open spec fn well_formed(v: Seq<DepartmentText>) -> bool {
    &&& forall|i: int, j: int| 0 <= i < j < v.len() ==> text_lt(#[trigger] v[i].0, #[trigger] v[j].0)
    &&& forall|i: int| 0 <= i < v.len() ==> (#[trigger] v[i]).1.len() > 0 && strictly_ascending(v[i].1)
    &&& forall|i: int| 0 <= i < v.len() ==> (#[trigger] v[i]).0.len() > 0
    &&& forall|i: int, k: int| 0 <= i < v.len() && 0 <= k < v[i].1.len() ==> (#[trigger] v[i].1[k]).len() > 0
}

/// Department `d` exists.
pub open spec fn has_department(v: Seq<DepartmentText>, d: Seq<char>) -> bool {
    exists|i: int| 0 <= i < v.len() && (#[trigger] v[i]).0 == d
}

/// The employees of department `d`, in order; none where there is no such department.
pub open spec fn members(v: Seq<DepartmentText>, d: Seq<char>) -> Seq<Seq<char>> {
    if has_department(v, d) {
        v[choose|i: int| 0 <= i < v.len() && (#[trigger] v[i]).0 == d].1
    } else {
        seq![]
    }
}

/// The directory as a map from department to the set of its employees.
pub open spec fn staff_map(v: Seq<DepartmentText>) -> Map<Seq<char>, Set<Seq<char>>> {
    Map::new(|d: Seq<char>| has_department(v, d), |d: Seq<char>| members(v, d).to_set())
}

/// The employees of department `d` in `m`; none where `m` has no such department.
pub open spec fn staff(m: Map<Seq<char>, Set<Seq<char>>>, d: Seq<char>) -> Set<Seq<char>> {
    if m.contains_key(d) {
        m[d]
    } else {
        Set::empty()
    }
}

/// `m` with employee `n` added to department `d`.
pub open spec fn with_member(m: Map<Seq<char>, Set<Seq<char>>>, d: Seq<char>, n: Seq<char>) -> Map<
    Seq<char>,
    Set<Seq<char>>,
> {
    m.insert(d, staff(m, d).insert(n))
}

/// `m` with employee `n` taken out of department `d`; a department left empty goes.
pub open spec fn without_member(m: Map<Seq<char>, Set<Seq<char>>>, d: Seq<char>, n: Seq<char>) -> Map<
    Seq<char>,
    Set<Seq<char>>,
> {
    if staff(m, d).remove(n) == Set::<Seq<char>>::empty() {
        m.remove(d)
    } else {
        m.insert(d, staff(m, d).remove(n))
    }
}

/// Why `Add(n, d)` fails on `m`, if it does.
pub open spec fn add_error(m: Map<Seq<char>, Set<Seq<char>>>, n: Seq<char>, d: Seq<char>) -> Option<
    DirError,
> {
    if n.len() == 0 || d.len() == 0 {
        Some(DirError::MissingArgument)
    } else if staff(m, d).contains(n) {
        Some(DirError::DuplicateEmployee)
    } else {
        None
    }
}

/// The result `r` and the states `before` and `after` are those of an operation that fails with
/// `err` where that is `Some`, changing nothing, and otherwise succeeds with the map `post`.
pub open spec fn settles(
    r: Result<(), DirError>,
    err: Option<DirError>,
    before: Seq<DepartmentText>,
    after: Seq<DepartmentText>,
    post: Map<Seq<char>, Set<Seq<char>>>,
) -> bool {
    match err {
        Some(e) => r == Err::<(), DirError>(e) && after == before,
        None => r is Ok && staff_map(after) == post,
    }
}

/// Why `Remove(n, d)` fails on `m`, if it does.
pub open spec fn remove_error(m: Map<Seq<char>, Set<Seq<char>>>, n: Seq<char>, d: Seq<char>) -> Option<
    DirError,
> {
    if !m.contains_key(d) {
        Some(DirError::DepartmentNotFound)
    } else if !m[d].contains(n) {
        Some(DirError::EmployeeNotFound)
    } else {
        None
    }
}

/// Why `Move(n, a, b)` fails on `m`, if it does. A name already in `b` is reported before
/// anything else.
pub open spec fn move_error(
    m: Map<Seq<char>, Set<Seq<char>>>,
    n: Seq<char>,
    a: Seq<char>,
    b: Seq<char>,
) -> Option<DirError> {
    if staff(m, b).contains(n) {
        Some(DirError::DuplicateEmployee)
    } else if n.len() == 0 || a.len() == 0 || b.len() == 0 {
        Some(DirError::MissingArgument)
    } else if !staff(m, a).contains(n) {
        Some(DirError::EmployeeNotFound)
    } else {
        None
    }
}

/// Why `Rename(n, d, n2)` fails on `m`, if it does.
pub open spec fn rename_error(
    m: Map<Seq<char>, Set<Seq<char>>>,
    n: Seq<char>,
    d: Seq<char>,
    n2: Seq<char>,
) -> Option<DirError> {
    if n2.len() == 0 {
        Some(DirError::MissingArgument)
    } else if !m.contains_key(d) {
        Some(DirError::DepartmentNotFound)
    } else if !m[d].contains(n) {
        Some(DirError::EmployeeNotFound)
    } else if n2 != n && m[d].contains(n2) {
        Some(DirError::DuplicateEmployee)
    } else {
        None
    }
}

/// How an employee shows in the list of everyone: `name (department)`.
pub open spec fn label(n: Seq<char>, d: Seq<char>) -> Seq<char> {
    n + seq![' ', '('] + d + seq![')']
}

/// The labels of the employees `ns` of department `d`, in order.
pub open spec fn labels_of(ns: Seq<Seq<char>>, d: Seq<char>) -> Seq<Seq<char>> {
    ns.map_values(|n: Seq<char>| label(n, d))
}

/// The labels of every employee, department by department.
pub open spec fn entries(v: Seq<DepartmentText>) -> Seq<Seq<char>>
    decreases v.len(),
{
    if v.len() == 0 {
        seq![]
    } else {
        entries(v.drop_last()) + labels_of(v.last().1, v.last().0)
    }
}

/// Every employee's label, in ascending order.
pub open spec fn everyone(v: Seq<DepartmentText>) -> Seq<Seq<char>> {
    entries(v).sort_by(text_order())
}

/// Each text is no later than the ones after it.
pub open spec fn ascending(s: Seq<Seq<char>>) -> bool {
    forall|i: int, j: int| 0 <= i < j < s.len() ==> text_le(#[trigger] s[i], #[trigger] s[j])
}

/// The lines that `Help` shows.
pub open spec fn help_lines() -> Seq<Seq<char>> {
    seq![
        "Add Employee:\t\t\t\"Add 'name' to 'department'\""@,
        "Move Employee:\t\t\t\"Move 'name' from 'old department' to 'new department'\""@,
        "Remove Employee:\t\t\"Remove 'name' from 'department'\""@,
        "Rename Employee:\t\t\"Rename 'name' in 'department' to 'new name'\""@,
        "Print Employees in Department:\t\"Print 'department'\""@,
        "Print All Employees:\t\t\"Print\""@,
        "Leave:\t\t\t\t\"Exit\""@,
        "Names and departments need no quotes, and may be more than one word."@,
    ]
}

/// Makes the label of employee `n` of department `d`.
fn make_label(n: &str, d: &str) -> (r: String)
    ensures
        r@ == label(n@, d@),
{
    let mut r = n.to_owned();
    proof {
        reveal_strlit(" (");
        reveal_strlit(")");
    }
    r.append(" (");
    r.append(d);
    r.append(")");
    assert(r@ =~= label(n@, d@));
    r
}

/// A copy of `v`.
fn copy_names(v: &Vec<String>) -> (r: Vec<String>)
    ensures
        r@ == v@,
{
    let mut r: Vec<String> = Vec::new();
    let mut i: usize = 0;
    while i < v.len()
        invariant
            i <= v.len(),
            r@ == v@.take(i as int),
        decreases v.len() - i,
    {
        r.push(v[i].clone());
        assert(r@ =~= v@.take(i + 1));
        i = i + 1;
    }
    assert(v@.take(v.len() as int) =~= v@);
    r
}

/// Puts `x` into the ascending `out`, before the first text that is not below it.
fn insert_ascending(out: &mut Vec<String>, x: String)
    requires
        ascending(texts(old(out)@)),
    ensures
        ascending(texts(final(out)@)),
        texts(final(out)@).to_multiset() == texts(old(out)@).to_multiset().insert(x@),
{
    let ghost s = texts(out@);
    let mut p: usize = 0;
    while p < out.len() && !str_le(x.as_str(), out[p].as_str())
        invariant
            s == texts(out@),
            p <= out.len(),
            forall|k: int| 0 <= k < p ==> text_le(#[trigger] s[k], x@),
        decreases out.len() - p,
    {
        proof {
            lemma_text_not_le(x@, s[p as int]);
        }
        p = p + 1;
    }
    proof {
        assert forall|j: int| p <= j < s.len() implies text_le(x@, #[trigger] s[j]) by {
            if j > p {
                lemma_text_le_transitive(x@, s[p as int], s[j]);
            }
        }
    }
    let ghost gx: String = x;
    out.insert(p, x);
    proof {
        let t = s.insert(p as int, gx@);
        assert(texts(out@) =~= t);
        assert forall|i: int, j: int| 0 <= i < j < t.len() implies text_le(
            #[trigger] t[i],
            #[trigger] t[j],
        ) by {
            if j < p {
            } else if i < p && j == p {
            } else if i < p {
                assert(t[j] == s[j - 1]);
                lemma_text_le_transitive(s[i], gx@, s[j - 1]);
            } else if i == p {
                assert(t[j] == s[j - 1]);
            } else {
                assert(t[i] == s[i - 1]);
                assert(t[j] == s[j - 1]);
            }
        }
        vstd::seq_lib::to_multiset_insert(s, p as int, gx@);
    }
}

/// What a command line gives back when it succeeds.
pub enum Reply {
    /// The directory was changed as asked.
    Done,
    /// Lines to show: a listing of employees, or the help text.
    Listing(Vec<String>),
    /// The session should end.
    Exit,
}

/// `r` reports `op` as a command line's outcome: `Done` for success, the same error otherwise.
pub open spec fn reported(r: Result<Reply, DirError>, op: Result<(), DirError>) -> bool {
    match op {
        Ok(_) => r matches Ok(Reply::Done),
        Err(e) => r == Err::<Reply, DirError>(e),
    }
}

/// The outcome of command `c` on directory `before`, with result `r` and directory `after`.
pub open spec fn command_outcome(
    c: CommandText,
    r: Result<Reply, DirError>,
    before: Seq<DepartmentText>,
    after: Seq<DepartmentText>,
) -> bool {
    let m = staff_map(before);
    match c {
        CommandText::Add { name, department } => exists|op: Result<(), DirError>|
            reported(r, op) && #[trigger] settles(
                op,
                add_error(m, name, department),
                before,
                after,
                with_member(m, department, name),
            ),
        CommandText::Remove { name, department } => exists|op: Result<(), DirError>|
            reported(r, op) && #[trigger] settles(
                op,
                remove_error(m, name, department),
                before,
                after,
                without_member(m, department, name),
            ),
        CommandText::Move { name, from, to } => exists|op: Result<(), DirError>|
            reported(r, op) && #[trigger] settles(
                op,
                move_error(m, name, from, to),
                before,
                after,
                with_member(without_member(m, from, name), to, name),
            ),
        CommandText::Rename { name, department, new_name } => exists|op: Result<(), DirError>|
            reported(r, op) && #[trigger] settles(
                op,
                rename_error(m, name, department, new_name),
                before,
                after,
                with_member(without_member(m, department, name), department, new_name),
            ),
        CommandText::Print { department } => after == before && if department.len() == 0 {
            (r matches Ok(Reply::Listing(l)) && texts(l@) == everyone(before))
        } else if has_department(before, department) {
            (r matches Ok(Reply::Listing(l)) && texts(l@) == members(before, department))
        } else {
            r == Err::<Reply, DirError>(DirError::DepartmentNotFound)
        },
        CommandText::Help => after == before && (r matches Ok(Reply::Listing(l)) && texts(l@)
            == help_lines()),
        CommandText::Exit => after == before && (r matches Ok(Reply::Exit)),
    }
}

struct Department {
    name: String,
    employees: Vec<String>,
}

/// Employees grouped by department.
pub struct Directory {
    departments: Vec<Department>,
}

impl View for Directory {
    type V = Seq<DepartmentText>;

    closed spec fn view(&self) -> Seq<DepartmentText> {
        view_of(self.departments@)
    }
}

/// In a well-formed directory the department at `i` is the one that its name looks up.
pub proof fn lemma_members_at(v: Seq<DepartmentText>, i: int)
    requires
        well_formed(v),
        0 <= i < v.len(),
    ensures
        has_department(v, v[i].0),
        members(v, v[i].0) == v[i].1,
        staff_map(v).contains_key(v[i].0),
        staff_map(v)[v[i].0] == v[i].1.to_set(),
{
    let j = choose|j: int| 0 <= j < v.len() && (#[trigger] v[j]).0 == v[i].0;
    if j < i {
        assert(text_lt(v[j].0, v[i].0));
    } else if i < j {
        assert(text_lt(v[i].0, v[j].0));
    }
}

proof fn lemma_insert_to_set(s: Seq<Seq<char>>, q: int, x: Seq<char>)
    requires
        0 <= q <= s.len(),
    ensures
        s.insert(q, x).to_set() == s.to_set().insert(x),
{
    let t = s.insert(q, x);
    assert forall|y: Seq<char>| t.to_set().contains(y) <==> s.to_set().insert(x).contains(y) by {
        if t.contains(y) {
            let k = choose|k: int| 0 <= k < t.len() && t[k] == y;
            if k < q {
                assert(s[k] == y);
            } else if k > q {
                assert(s[k - 1] == y);
            }
        }
        if s.contains(y) {
            let k = choose|k: int| 0 <= k < s.len() && s[k] == y;
            if k < q {
                assert(t[k] == y);
            } else {
                assert(t[k + 1] == y);
            }
        }
        if y == x {
            assert(t[q] == y);
        }
    }
    assert(t.to_set() =~= s.to_set().insert(x));
}

proof fn lemma_remove_to_set(s: Seq<Seq<char>>, q: int)
    requires
        0 <= q < s.len(),
        strictly_ascending(s),
    ensures
        s.remove(q).to_set() == s.to_set().remove(s[q]),
{
    let t = s.remove(q);
    assert forall|y: Seq<char>| t.to_set().contains(y) <==> s.to_set().remove(s[q]).contains(y) by {
        if t.contains(y) {
            let k = choose|k: int| 0 <= k < t.len() && t[k] == y;
            if k < q {
                assert(s[k] == y);
                assert(text_lt(s[k], s[q]));
            } else {
                assert(s[k + 1] == y);
                assert(text_lt(s[q], s[k + 1]));
            }
        }
        if s.contains(y) && y != s[q] {
            let k = choose|k: int| 0 <= k < s.len() && s[k] == y;
            if k < q {
                assert(t[k] == y);
            } else {
                assert(k != q);
                assert(t[k - 1] == y);
            }
        }
    }
    assert(t.to_set() =~= s.to_set().remove(s[q]));
}

proof fn lemma_map_update(v: Seq<DepartmentText>, p: int, ns: Seq<Seq<char>>)
    requires
        well_formed(v),
        0 <= p < v.len(),
        well_formed(v.update(p, (v[p].0, ns))),
    ensures
        staff_map(v.update(p, (v[p].0, ns))) == staff_map(v).insert(v[p].0, ns.to_set()),
{
    let w = v.update(p, (v[p].0, ns));
    let m = staff_map(v).insert(v[p].0, ns.to_set());
    assert forall|k: Seq<char>| staff_map(w).contains_key(k) <==> m.contains_key(k) by {
        if has_department(w, k) {
            let j = choose|j: int| 0 <= j < w.len() && (#[trigger] w[j]).0 == k;
            assert(v[j].0 == k);
        }
        if has_department(v, k) {
            let j = choose|j: int| 0 <= j < v.len() && (#[trigger] v[j]).0 == k;
            assert(w[j].0 == k);
        }
        if k == v[p].0 {
            assert(w[p].0 == k);
        }
    }
    assert forall|k: Seq<char>| #[trigger] staff_map(w).contains_key(k) implies staff_map(w)[k]
        == m[k] by {
        let j = choose|j: int| 0 <= j < w.len() && (#[trigger] w[j]).0 == k;
        lemma_members_at(w, j);
        if j != p {
            lemma_members_at(v, j);
        }
    }
    assert(staff_map(w) =~= m);
}

proof fn lemma_map_insert(v: Seq<DepartmentText>, p: int, e: DepartmentText)
    requires
        well_formed(v),
        0 <= p <= v.len(),
        well_formed(v.insert(p, e)),
    ensures
        staff_map(v.insert(p, e)) == staff_map(v).insert(e.0, e.1.to_set()),
{
    let w = v.insert(p, e);
    let m = staff_map(v).insert(e.0, e.1.to_set());
    assert forall|k: Seq<char>| staff_map(w).contains_key(k) <==> m.contains_key(k) by {
        if has_department(w, k) {
            let j = choose|j: int| 0 <= j < w.len() && (#[trigger] w[j]).0 == k;
            if j < p {
                assert(v[j].0 == k);
            } else if j > p {
                assert(v[j - 1].0 == k);
            }
        }
        if has_department(v, k) {
            let j = choose|j: int| 0 <= j < v.len() && (#[trigger] v[j]).0 == k;
            if j < p {
                assert(w[j].0 == k);
            } else {
                assert(w[j + 1].0 == k);
            }
        }
        if k == e.0 {
            assert(w[p].0 == k);
        }
    }
    assert forall|k: Seq<char>| #[trigger] staff_map(w).contains_key(k) implies staff_map(w)[k]
        == m[k] by {
        let j = choose|j: int| 0 <= j < w.len() && (#[trigger] w[j]).0 == k;
        lemma_members_at(w, j);
        lemma_members_at(w, p);
        if j < p {
            lemma_members_at(v, j);
        } else if j > p {
            lemma_members_at(v, j - 1);
        }
    }
    assert(staff_map(w) =~= m);
}

proof fn lemma_map_remove(v: Seq<DepartmentText>, p: int)
    requires
        well_formed(v),
        0 <= p < v.len(),
    ensures
        well_formed(v.remove(p)),
        staff_map(v.remove(p)) == staff_map(v).remove(v[p].0),
{
    let w = v.remove(p);
    let m = staff_map(v).remove(v[p].0);
    assert forall|i: int, j: int| 0 <= i < j < w.len() implies text_lt(
        #[trigger] w[i].0,
        #[trigger] w[j].0,
    ) by {
        if i < p && j >= p {
            assert(w[j] == v[j + 1]);
        } else if i >= p {
            assert(w[i] == v[i + 1]);
            assert(w[j] == v[j + 1]);
        }
    }
    assert forall|i: int| 0 <= i < w.len() implies (#[trigger] w[i]).1.len() > 0
        && strictly_ascending(w[i].1) && w[i].0.len() > 0 by {
        if i >= p {
            assert(w[i] == v[i + 1]);
        }
    }
    assert forall|i: int, k: int| 0 <= i < w.len() && 0 <= k < w[i].1.len() implies (
    #[trigger] w[i].1[k]).len() > 0 by {
        if i >= p {
            assert(w[i] == v[i + 1]);
        }
    }
    assert forall|k: Seq<char>| staff_map(w).contains_key(k) <==> m.contains_key(k) by {
        if has_department(w, k) {
            let j = choose|j: int| 0 <= j < w.len() && (#[trigger] w[j]).0 == k;
            if j < p {
                assert(v[j].0 == k);
                assert(text_lt(v[j].0, v[p].0));
            } else {
                assert(v[j + 1].0 == k);
                assert(text_lt(v[p].0, v[j + 1].0));
            }
        }
        if has_department(v, k) && k != v[p].0 {
            let j = choose|j: int| 0 <= j < v.len() && (#[trigger] v[j]).0 == k;
            if j < p {
                assert(w[j].0 == k);
            } else {
                assert(j != p);
                assert(w[j - 1].0 == k);
            }
        }
    }
    assert forall|k: Seq<char>| #[trigger] staff_map(w).contains_key(k) implies staff_map(w)[k]
        == m[k] by {
        let j = choose|j: int| 0 <= j < w.len() && (#[trigger] w[j]).0 == k;
        lemma_members_at(w, j);
        if j < p {
            lemma_members_at(v, j);
        } else {
            lemma_members_at(v, j + 1);
        }
    }
    assert(staff_map(w) =~= m);
}

/// Where `x` stands, or would stand, in the strictly ascending `names`: the first position whose
/// name is not below `x`, and whether that name is `x`.
fn find_name(names: &Vec<String>, x: &str) -> (r: (usize, bool))
    requires
        strictly_ascending(texts(names@)),
    ensures
        r.0 <= names.len(),
        forall|i: int| 0 <= i < r.0 ==> text_lt(#[trigger] texts(names@)[i], x@),
        r.1 == (r.0 < names.len() && texts(names@)[r.0 as int] == x@),
        r.1 ==> texts(names@).contains(x@),
        !r.1 ==> forall|j: int| r.0 <= j < names.len() ==> text_lt(x@, #[trigger] texts(names@)[j]),
        !r.1 ==> !texts(names@).contains(x@),
{
    let ghost s = texts(names@);
    let mut i: usize = 0;
    while i < names.len() && !str_le(x, names[i].as_str())
        invariant
            s == texts(names@),
            strictly_ascending(s),
            i <= names.len(),
            forall|k: int| 0 <= k < i ==> text_lt(#[trigger] s[k], x@),
        decreases names.len() - i,
    {
        proof {
            lemma_text_not_le(x@, s[i as int]);
        }
        i = i + 1;
    }
    if i == names.len() {
        assert(!s.contains(x@)) by {
            if s.contains(x@) {
                let k = choose|k: int| 0 <= k < s.len() && s[k] == x@;
                assert(text_lt(s[k], x@));
            }
        }
        return (i, false);
    }
    let found = same_text(names[i].as_str(), x);
    if !found {
        assert forall|j: int| i <= j < names.len() implies text_lt(x@, #[trigger] s[j]) by {
            if j > i {
                assert(text_lt(s[i as int], s[j]));
                lemma_text_lt_transitive(x@, s[i as int], s[j]);
            }
        }
        assert(!s.contains(x@)) by {
            if s.contains(x@) {
                let k = choose|k: int| 0 <= k < s.len() && s[k] == x@;
                if k < i {
                    assert(text_lt(s[k], x@));
                } else {
                    assert(text_lt(x@, s[k]));
                }
            }
        }
    } else {
        assert(s[i as int] == x@);
    }
    (i, found)
}

/// The departments as text.
spec fn view_of(ds: Seq<Department>) -> Seq<DepartmentText> {
    ds.map_values(|d: Department| (d.name@, texts(d.employees@)))
}

/// Where department `d` stands, or would stand: the first position whose name is not below
/// `d`, and whether that name is `d`.
fn find_department(deps: &Vec<Department>, d: &str) -> (r: (usize, bool))
    requires
        well_formed(view_of(deps@)),
    ensures
        r.0 <= view_of(deps@).len(),
        forall|i: int| 0 <= i < r.0 ==> text_lt((#[trigger] view_of(deps@)[i]).0, d@),
        r.1 == (r.0 < view_of(deps@).len() && view_of(deps@)[r.0 as int].0 == d@),
        r.1 ==> has_department(view_of(deps@), d@),
        !r.1 ==> forall|j: int| r.0 <= j < view_of(deps@).len() ==> text_lt(d@, (#[trigger] view_of(deps@)[j]).0),
        !r.1 ==> !has_department(view_of(deps@), d@),
{
    let ghost v = view_of(deps@);
    let mut i: usize = 0;
    while i < deps.len() && !str_le(d, deps[i].name.as_str())
        invariant
            v == view_of(deps@),
            well_formed(v),
            i <= v.len(),
            forall|k: int| 0 <= k < i ==> text_lt((#[trigger] v[k]).0, d@),
        decreases v.len() - i,
    {
        proof {
            lemma_text_not_le(d@, v[i as int].0);
        }
        i = i + 1;
    }
    if i == deps.len() {
        assert(!has_department(v, d@)) by {
            if has_department(v, d@) {
                let k = choose|k: int| 0 <= k < v.len() && (#[trigger] v[k]).0 == d@;
                assert(text_lt(v[k].0, d@));
            }
        }
        return (i, false);
    }
    let found = same_text(deps[i].name.as_str(), d);
    if !found {
        assert forall|j: int| i <= j < v.len() implies text_lt(d@, (#[trigger] v[j]).0) by {
            if j > i {
                assert(text_lt(v[i as int].0, v[j].0));
                lemma_text_lt_transitive(d@, v[i as int].0, v[j].0);
            }
        }
        assert(!has_department(v, d@)) by {
            if has_department(v, d@) {
                let k = choose|k: int| 0 <= k < v.len() && (#[trigger] v[k]).0 == d@;
                if k < i {
                    assert(text_lt(v[k].0, d@));
                } else {
                    assert(text_lt(d@, v[k].0));
                }
            }
        }
    } else {
        assert(v[i as int].0 == d@);
    }
    (i, found)
}
/// Adds employee `name` to `department`, which is created where it does not exist.
fn add_to(deps: &mut Vec<Department>, name: &str, department: &str) -> (r: Result<(), DirError>)
    requires
        well_formed(view_of(old(deps)@)),
    ensures
        well_formed(view_of(final(deps)@)),
        settles(
            r,
            add_error(staff_map(view_of(old(deps)@)), name@, department@),
            view_of(old(deps)@),
            view_of(final(deps)@),
            with_member(staff_map(view_of(old(deps)@)), department@, name@),
        ),
{
    if name.is_empty() || department.is_empty() {
        return Err(DirError::MissingArgument);
    }
    let ghost v = view_of(deps@);
    let (p, found) = find_department(deps, department);
    if found {
        proof {
            lemma_members_at(v, p as int);
        }
        let (q, present) = find_name(&deps[p].employees, name);
        if present {
            return Err(DirError::DuplicateEmployee);
        }
        let ghost ns = v[p as int].1;
        let ghost ds = deps@;
        let entry = name.to_owned();
        let ghost ge: String = entry;
        deps[p].employees.insert(q, entry);
        proof {
            let ns2 = ns.insert(q as int, name@);
            let e2 = deps@[p as int].employees@;
            assert(e2 == ds[p as int].employees@.insert(q as int, ge));
            assert(texts(e2) =~= ns2);
            assert forall|k: int| 0 <= k < view_of(deps@).len() implies #[trigger] view_of(deps@)[k] == v.update(
                p as int,
                (department@, ns2),
            )[k] by {
                if k != p {
                    assert(deps@[k] == ds[k]);
                }
            }
            assert(view_of(deps@) =~= v.update(p as int, (department@, ns2)));
            assert(strictly_ascending(ns2)) by {
                assert forall|i: int, j: int| 0 <= i < j < ns2.len() implies text_lt(
                    #[trigger] ns2[i],
                    #[trigger] ns2[j],
                ) by {
                    if j < q {
                    } else if i < q && j == q {
                    } else if i < q {
                        assert(ns2[j] == ns[j - 1]);
                    } else if i == q {
                        assert(ns2[j] == ns[j - 1]);
                    } else {
                        assert(ns2[i] == ns[i - 1]);
                        assert(ns2[j] == ns[j - 1]);
                    }
                }
            }
            assert forall|k: int| 0 <= k < ns2.len() implies (#[trigger] ns2[k]).len() > 0 by {
                if k > q {
                    assert(ns2[k] == ns[k - 1]);
                }
            }
            lemma_map_update(v, p as int, ns2);
            lemma_insert_to_set(ns, q as int, name@);
        }
    } else {
        let mut employees: Vec<String> = Vec::new();
        employees.push(name.to_owned());
        assert(texts(employees@) =~= seq![name@]);
        let ghost ds = deps@;
        let dep = Department { name: department.to_owned(), employees };
        let ghost gd: Department = dep;
        deps.insert(p, dep);
        proof {
            let e = (department@, seq![name@]);
            assert(deps@ == ds.insert(p as int, gd));
            assert(view_of(deps@) =~= v.insert(p as int, e));
            let w = v.insert(p as int, e);
            assert forall|i: int, j: int| 0 <= i < j < w.len() implies text_lt(
                #[trigger] w[i].0,
                #[trigger] w[j].0,
            ) by {
                if j < p {
                } else if i < p && j == p {
                } else if i < p {
                    assert(w[j] == v[j - 1]);
                } else if i == p {
                    assert(w[j] == v[j - 1]);
                } else {
                    assert(w[i] == v[i - 1]);
                    assert(w[j] == v[j - 1]);
                }
            }
            assert forall|i: int| 0 <= i < w.len() implies (#[trigger] w[i]).1.len() > 0
                && strictly_ascending(w[i].1) && w[i].0.len() > 0 by {
                if i < p {
                } else if i > p {
                    assert(w[i] == v[i - 1]);
                }
            }
            assert forall|i: int, k: int| 0 <= i < w.len() && 0 <= k < w[i].1.len() implies (
            #[trigger] w[i].1[k]).len() > 0 by {
                if i > p {
                    assert(w[i] == v[i - 1]);
                }
            }
            lemma_map_insert(v, p as int, e);
            assert(seq![name@].to_set() =~= Set::<Seq<char>>::empty().insert(name@)) by {
                assert(seq![name@][0] == name@);
            }
        }
    }
    Ok(())
}

/// Takes the employee at `q` out of the department at `p`, and the department out of the
/// directory where that leaves it empty.
fn take_out(deps: &mut Vec<Department>, p: usize, q: usize)
    requires
        well_formed(view_of(old(deps)@)),
        p < view_of(old(deps)@).len(),
        q < view_of(old(deps)@)[p as int].1.len(),
    ensures
        well_formed(view_of(final(deps)@)),
        staff_map(view_of(final(deps)@)) == without_member(
            staff_map(view_of(old(deps)@)),
            view_of(old(deps)@)[p as int].0,
            view_of(old(deps)@)[p as int].1[q as int],
        ),
{
    let ghost v = view_of(deps@);
    let ghost ds = deps@;
    let ghost d = v[p as int].0;
    let ghost ns = v[p as int].1;
    let ghost ns2 = ns.remove(q as int);
    proof {
        lemma_members_at(v, p as int);
        lemma_remove_to_set(ns, q as int);
    }
    deps[p].employees.remove(q);
    assert(texts(deps@[p as int].employees@) =~= ns2);
    assert forall|k: int| 0 <= k < ds.len() && k != p implies #[trigger] deps@[k]
        == ds[k] by {}
    if deps[p].employees.len() == 0 {
        deps.remove(p);
        proof {
            assert(view_of(deps@) =~= v.remove(p as int)) by {
                assert forall|k: int| 0 <= k < view_of(deps@).len() implies #[trigger] view_of(deps@)[k] == v.remove(
                    p as int,
                )[k] by {
                    if k >= p {
                        assert(deps@[k] == ds[k + 1]);
                    }
                }
            }
            lemma_map_remove(v, p as int);
            assert(ns2.to_set() =~= Set::<Seq<char>>::empty());
        }
    } else {
        proof {
            let w = v.update(p as int, (d, ns2));
            assert(view_of(deps@) =~= w) by {
                assert forall|k: int| 0 <= k < view_of(deps@).len() implies #[trigger] view_of(deps@)[k] == w[k] by {}
            }
            assert(strictly_ascending(ns2)) by {
                assert forall|i: int, j: int| 0 <= i < j < ns2.len() implies text_lt(
                    #[trigger] ns2[i],
                    #[trigger] ns2[j],
                ) by {
                    if i >= q {
                        assert(ns2[i] == ns[i + 1]);
                        assert(ns2[j] == ns[j + 1]);
                    } else if j >= q {
                        assert(ns2[j] == ns[j + 1]);
                    }
                }
            }
            assert forall|k: int| 0 <= k < ns2.len() implies (#[trigger] ns2[k]).len() > 0 by {
                if k >= q {
                    assert(ns2[k] == ns[k + 1]);
                }
            }
            lemma_map_update(v, p as int, ns2);
            assert(ns2.to_set().contains(ns2[0]));
            assert(ns2.to_set() != Set::<Seq<char>>::empty());
        }
    }
}

/// Removes employee `name` from `department`; a department left empty goes.
fn remove_from(deps: &mut Vec<Department>, name: &str, department: &str) -> (r: Result<(), DirError>)
    requires
        well_formed(view_of(old(deps)@)),
    ensures
        well_formed(view_of(final(deps)@)),
        settles(
            r,
            remove_error(staff_map(view_of(old(deps)@)), name@, department@),
            view_of(old(deps)@),
            view_of(final(deps)@),
            without_member(staff_map(view_of(old(deps)@)), department@, name@),
        ),
{
    let ghost v = view_of(deps@);
    let (p, found) = find_department(deps, department);
    if !found {
        return Err(DirError::DepartmentNotFound);
    }
    proof {
        lemma_members_at(v, p as int);
    }
    let (q, present) = find_name(&deps[p].employees, name);
    if !present {
        return Err(DirError::EmployeeNotFound);
    }
    take_out(deps, p, q);
    Ok(())
}

/// Moves employee `name` from department `from` to department `to`. Nothing changes unless
/// the whole move can be made.
fn move_within(deps: &mut Vec<Department>, name: &str, from: &str, to: &str) -> (r: Result<(), DirError>)
    requires
        well_formed(view_of(old(deps)@)),
    ensures
        well_formed(view_of(final(deps)@)),
        settles(
            r,
            move_error(staff_map(view_of(old(deps)@)), name@, from@, to@),
            view_of(old(deps)@),
            view_of(final(deps)@),
            with_member(without_member(staff_map(view_of(old(deps)@)), from@, name@), to@, name@),
        ),
{
    let ghost v = view_of(deps@);
    let ghost m = staff_map(v);
    let (pb, fb) = find_department(deps, to);
    if fb {
        proof {
            lemma_members_at(v, pb as int);
        }
        let (_, taken) = find_name(&deps[pb].employees, name);
        if taken {
            return Err(DirError::DuplicateEmployee);
        }
    }
    if name.is_empty() || from.is_empty() || to.is_empty() {
        return Err(DirError::MissingArgument);
    }
    let (pa, fa) = find_department(deps, from);
    if !fa {
        return Err(DirError::EmployeeNotFound);
    }
    proof {
        lemma_members_at(v, pa as int);
    }
    let (qa, present) = find_name(&deps[pa].employees, name);
    if !present {
        return Err(DirError::EmployeeNotFound);
    }
    take_out(deps, pa, qa);
    proof {
        let m1 = without_member(m, from@, name@);
        assert(from@ != to@);
        assert(staff(m1, to@) == staff(m, to@));
    }
    add_to(deps, name, to)
}

/// Renames employee `name` of `department` to `new_name`.
fn rename_within(deps: &mut Vec<Department>, name: &str, department: &str, new_name: &str) -> (r: Result<
    (),
    DirError,
>)
    requires
        well_formed(view_of(old(deps)@)),
    ensures
        well_formed(view_of(final(deps)@)),
        settles(
            r,
            rename_error(staff_map(view_of(old(deps)@)), name@, department@, new_name@),
            view_of(old(deps)@),
            view_of(final(deps)@),
            with_member(
                without_member(staff_map(view_of(old(deps)@)), department@, name@),
                department@,
                new_name@,
            ),
        ),
{
    if new_name.is_empty() {
        return Err(DirError::MissingArgument);
    }
    let ghost v = view_of(deps@);
    let ghost m = staff_map(v);
    let (p, found) = find_department(deps, department);
    if !found {
        return Err(DirError::DepartmentNotFound);
    }
    proof {
        lemma_members_at(v, p as int);
    }
    let (q, present) = find_name(&deps[p].employees, name);
    if !present {
        return Err(DirError::EmployeeNotFound);
    }
    if !same_text(name, new_name) {
        let (_, taken) = find_name(&deps[p].employees, new_name);
        if taken {
            return Err(DirError::DuplicateEmployee);
        }
    }
    take_out(deps, p, q);
    proof {
        let m1 = without_member(m, department@, name@);
        assert(!staff(m1, department@).contains(new_name@));
    }
    add_to(deps, new_name, department)
}

/// The employees of `department`, in ascending order.
fn list_department(deps: &Vec<Department>, department: &str) -> (r: Result<Vec<String>, DirError>)
    requires
        well_formed(view_of(deps@)),
    ensures
        has_department(view_of(deps@), department@) <==> r is Ok,
        staff_map(view_of(deps@)).contains_key(department@) <==> r is Ok,
        r matches Ok(l) ==> texts(l@) == members(view_of(deps@), department@),
        r matches Ok(l) ==> strictly_ascending(texts(l@)),
        r matches Ok(l) ==> texts(l@).to_set() == staff_map(view_of(deps@))[department@],
        r is Err ==> r == Err::<Vec<String>, DirError>(DirError::DepartmentNotFound),
{
    proof {
        assert(staff_map(view_of(deps@)).contains_key(department@) == has_department(view_of(deps@), department@));
    }
    let (p, found) = find_department(deps, department);
    if !found {
        return Err(DirError::DepartmentNotFound);
    }
    proof {
        lemma_members_at(view_of(deps@), p as int);
    }
    Ok(copy_names(&deps[p].employees))
}

/// Every employee as `name (department)`, in ascending order.
fn list_all(deps: &Vec<Department>) -> (r: Vec<String>)
    requires
        well_formed(view_of(deps@)),
    ensures
        texts(r@) == everyone(view_of(deps@)),
{
    let ghost v = view_of(deps@);
    let mut out: Vec<String> = Vec::new();
    let mut i: usize = 0;
    assert(v.take(0) =~= Seq::<DepartmentText>::empty());
    assert(texts(out@) =~= Seq::<Seq<char>>::empty());
    while i < deps.len()
        invariant
            v == view_of(deps@),
            i <= v.len(),
            ascending(texts(out@)),
            texts(out@).to_multiset() == entries(v.take(i as int)).to_multiset(),
        decreases v.len() - i,
    {
        let dep = &deps[i];
        let ghost d = v[i as int].0;
        let ghost ns = v[i as int].1;
        let ghost before = entries(v.take(i as int));
        let mut j: usize = 0;
        assert(labels_of(ns.take(0), d) =~= Seq::<Seq<char>>::empty());
        assert(before + labels_of(ns.take(0), d) =~= before);
        while j < dep.employees.len()
            invariant
                v == view_of(deps@),
                i < v.len(),
                *dep == deps@[i as int],
                d == v[i as int].0,
                ns == v[i as int].1,
                j <= ns.len(),
                ascending(texts(out@)),
                texts(out@).to_multiset() == (before + labels_of(ns.take(j as int), d)).to_multiset(),
            decreases ns.len() - j,
        {
            let lab = make_label(dep.employees[j].as_str(), dep.name.as_str());
            proof {
                let a = before + labels_of(ns.take(j as int), d);
                assert(before + labels_of(ns.take(j + 1), d) =~= a.push(lab@));
                vstd::seq_lib::to_multiset_build(a, lab@);
            }
            insert_ascending(&mut out, lab);
            j = j + 1;
        }
        proof {
            assert(ns.take(ns.len() as int) =~= ns);
            assert(v.take(i + 1).drop_last() =~= v.take(i as int));
            assert(v.take(i + 1).last() == v[i as int]);
        }
        i = i + 1;
    }
    proof {
        assert(v.take(v.len() as int) =~= v);
        let e = entries(v);
        let t = texts(out@);
        lemma_text_order_total();
        e.lemma_sort_by_ensures(text_order());
        assert(sorted_by(t, text_order())) by {
            assert forall|a: int, b: int| 0 <= a < b < t.len() implies #[trigger] text_order()(
                t[a],
                t[b],
            ) by {
                assert(text_le(t[a], t[b]));
            }
        }
        vstd::seq_lib::lemma_sorted_unique(t, e.sort_by(text_order()), text_order());
    }
    out
}

impl Directory {
    /// Every directory is well formed.
    #[verifier::type_invariant]
    spec fn inv(self) -> bool {
        well_formed(view_of(self.departments@))
    }

    /// An empty directory.
    pub fn new() -> (r: Directory)
        ensures
            r@ == Seq::<DepartmentText>::empty(),
            well_formed(r@),
    {
        let r = Directory { departments: Vec::new() };
        assert(r@ =~= Seq::<DepartmentText>::empty());
        r
    }

    /// Adds employee `name` to `department`, which is created where it does not exist.
    pub fn add_employee(&mut self, name: &str, department: &str) -> (r: Result<(), DirError>)
        ensures
            well_formed(final(self)@),
            settles(
                r,
                add_error(staff_map(old(self)@), name@, department@),
                old(self)@,
                final(self)@,
                with_member(staff_map(old(self)@), department@, name@),
            ),
    {
        proof {
            use_type_invariant(&*self);
        }
        let mut deps: Vec<Department> = Vec::new();
        std::mem::swap(&mut self.departments, &mut deps);
        let r = add_to(&mut deps, name, department);
        self.departments = deps;
        r
    }

    /// Removes employee `name` from `department`; a department left empty goes.
    pub fn remove_employee(&mut self, name: &str, department: &str) -> (r: Result<(), DirError>)
        ensures
            well_formed(final(self)@),
            settles(
                r,
                remove_error(staff_map(old(self)@), name@, department@),
                old(self)@,
                final(self)@,
                without_member(staff_map(old(self)@), department@, name@),
            ),
    {
        proof {
            use_type_invariant(&*self);
        }
        let mut deps: Vec<Department> = Vec::new();
        std::mem::swap(&mut self.departments, &mut deps);
        let r = remove_from(&mut deps, name, department);
        self.departments = deps;
        r
    }

    /// Moves employee `name` from department `from` to department `to`. Nothing changes unless
    /// the whole move can be made.
    pub fn move_employee(&mut self, name: &str, from: &str, to: &str) -> (r: Result<(), DirError>)
        ensures
            well_formed(final(self)@),
            settles(
                r,
                move_error(staff_map(old(self)@), name@, from@, to@),
                old(self)@,
                final(self)@,
                with_member(without_member(staff_map(old(self)@), from@, name@), to@, name@),
            ),
    {
        proof {
            use_type_invariant(&*self);
        }
        let mut deps: Vec<Department> = Vec::new();
        std::mem::swap(&mut self.departments, &mut deps);
        let r = move_within(&mut deps, name, from, to);
        self.departments = deps;
        r
    }

    /// Renames employee `name` of `department` to `new_name`.
    pub fn rename_employee(&mut self, name: &str, department: &str, new_name: &str) -> (r: Result<
        (),
        DirError,
    >)
        ensures
            well_formed(final(self)@),
            settles(
                r,
                rename_error(staff_map(old(self)@), name@, department@, new_name@),
                old(self)@,
                final(self)@,
                with_member(
                    without_member(staff_map(old(self)@), department@, name@),
                    department@,
                    new_name@,
                ),
            ),
    {
        proof {
            use_type_invariant(&*self);
        }
        let mut deps: Vec<Department> = Vec::new();
        std::mem::swap(&mut self.departments, &mut deps);
        let r = rename_within(&mut deps, name, department, new_name);
        self.departments = deps;
        r
    }

    /// The employees of `department`, in ascending order.
    pub fn print_department(&self, department: &str) -> (r: Result<Vec<String>, DirError>)
        ensures
            has_department(self@, department@) <==> r is Ok,
            staff_map(self@).contains_key(department@) <==> r is Ok,
            r matches Ok(l) ==> texts(l@) == members(self@, department@),
            r matches Ok(l) ==> strictly_ascending(texts(l@)),
            r matches Ok(l) ==> texts(l@).to_set() == staff_map(self@)[department@],
            r is Err ==> r == Err::<Vec<String>, DirError>(DirError::DepartmentNotFound),
    {
        proof {
            use_type_invariant(self);
        }
        list_department(&self.departments, department)
    }

    /// Every employee as `name (department)`, in ascending order.
    pub fn print_all(&self) -> (r: Vec<String>)
        ensures
            texts(r@) == everyone(self@),
    {
        proof {
            use_type_invariant(self);
        }
        list_all(&self.departments)
    }

    /// The employees of `department` where it is not empty, otherwise everyone as
    /// `name (department)`; both in ascending order.
    pub fn print(&self, department: &str) -> (r: Result<Vec<String>, DirError>)
        ensures
            department@.len() == 0 ==> (r matches Ok(l) && texts(l@) == everyone(self@)),
            department@.len() > 0 ==> (has_department(self@, department@) <==> r is Ok),
            department@.len() > 0 ==> (staff_map(self@).contains_key(department@) <==> r is Ok),
            department@.len() > 0 ==> (r matches Ok(l) ==> texts(l@) == members(self@, department@)),
            r is Err ==> r == Err::<Vec<String>, DirError>(DirError::DepartmentNotFound),
    {
        if department.is_empty() {
            Ok(self.print_all())
        } else {
            self.print_department(department)
        }
    }

    /// The description of the command language.
    pub fn help() -> (r: Vec<String>)
        ensures
            texts(r@) == help_lines(),
    {
        let mut r: Vec<String> = Vec::new();
        r.push("Add Employee:\t\t\t\"Add 'name' to 'department'\"".to_owned());
        r.push("Move Employee:\t\t\t\"Move 'name' from 'old department' to 'new department'\"".to_owned());
        r.push("Remove Employee:\t\t\"Remove 'name' from 'department'\"".to_owned());
        r.push("Rename Employee:\t\t\"Rename 'name' in 'department' to 'new name'\"".to_owned());
        r.push("Print Employees in Department:\t\"Print 'department'\"".to_owned());
        r.push("Print All Employees:\t\t\"Print\"".to_owned());
        r.push("Leave:\t\t\t\t\"Exit\"".to_owned());
        r.push("Names and departments need no quotes, and may be more than one word.".to_owned());
        assert(texts(r@) =~= help_lines());
        r
    }

    /// Carries out one line of the command language.
    pub fn update(&mut self, line: &str) -> (r: Result<Reply, DirError>)
        ensures
            well_formed(final(self)@),
            match parse_spec(words(line@)) {
                Err(e) => r == Err::<Reply, DirError>(e) && final(self)@ == old(self)@,
                Ok(c) => command_outcome(c, r, old(self)@, final(self)@),
            },
    {
        proof {
            use_type_invariant(&*self);
        }
        let command = match parse_command(line) {
            Ok(c) => c,
            Err(e) => return Err(e),
        };
        let op = match command {
            Command::Add { name, department } => self.add_employee(name.as_str(), department.as_str()),
            Command::Remove { name, department } => self.remove_employee(
                name.as_str(),
                department.as_str(),
            ),
            Command::Move { name, from, to } => self.move_employee(
                name.as_str(),
                from.as_str(),
                to.as_str(),
            ),
            Command::Rename { name, department, new_name } => self.rename_employee(
                name.as_str(),
                department.as_str(),
                new_name.as_str(),
            ),
            Command::Print { department } => {
                return match self.print(department.as_str()) {
                    Ok(l) => Ok(Reply::Listing(l)),
                    Err(e) => Err(e),
                };
            },
            Command::Help => {
                return Ok(Reply::Listing(Directory::help()));
            },
            Command::Exit => {
                return Ok(Reply::Exit);
            },
        };
        match op {
            Ok(()) => Ok(Reply::Done),
            Err(e) => Err(e),
        }
    }

}

/// A second `Add` of the same employee to the same department, right after a first one that
/// succeeded, fails with `DuplicateEmployee` and changes nothing.
pub proof fn lemma_add_twice_is_duplicate(
    v0: Seq<DepartmentText>,
    v1: Seq<DepartmentText>,
    v2: Seq<DepartmentText>,
    n: Seq<char>,
    d: Seq<char>,
    r1: Result<(), DirError>,
    r2: Result<(), DirError>,
)
    requires
        settles(r1, add_error(staff_map(v0), n, d), v0, v1, with_member(staff_map(v0), d, n)),
        r1 is Ok,
        settles(r2, add_error(staff_map(v1), n, d), v1, v2, with_member(staff_map(v1), d, n)),
    ensures
        r2 == Err::<(), DirError>(DirError::DuplicateEmployee),
        v2 == v1,
{
    assert(staff(staff_map(v1), d).contains(n));
}

/// Removing the only employee of a department takes the department away, so that printing it
/// then fails with `DepartmentNotFound`.
pub proof fn lemma_remove_last_drops_department(
    v0: Seq<DepartmentText>,
    v1: Seq<DepartmentText>,
    n: Seq<char>,
    d: Seq<char>,
    r: Result<(), DirError>,
)
    requires
        well_formed(v0),
        well_formed(v1),
        staff_map(v0).contains_key(d),
        staff_map(v0)[d] == Set::<Seq<char>>::empty().insert(n),
        settles(r, remove_error(staff_map(v0), n, d), v0, v1, without_member(staff_map(v0), d, n)),
    ensures
        r is Ok,
        !has_department(v1, d),
        !staff_map(v1).contains_key(d),
{
    assert(staff(staff_map(v0), d).remove(n) =~= Set::<Seq<char>>::empty());
    assert(!staff_map(v1).contains_key(d));
    assert(staff_map(v1).contains_key(d) == has_department(v1, d));
}

/// Moving an employee into a department that already has that name fails with
/// `DuplicateEmployee` and leaves every department, the source and the target among them, as it
/// was.
pub proof fn lemma_move_onto_existing_changes_nothing(
    v0: Seq<DepartmentText>,
    v1: Seq<DepartmentText>,
    n: Seq<char>,
    a: Seq<char>,
    b: Seq<char>,
    r: Result<(), DirError>,
)
    requires
        staff(staff_map(v0), b).contains(n),
        settles(
            r,
            move_error(staff_map(v0), n, a, b),
            v0,
            v1,
            with_member(without_member(staff_map(v0), a, n), b, n),
        ),
    ensures
        r == Err::<(), DirError>(DirError::DuplicateEmployee),
        v1 == v0,
        members(v1, a) == members(v0, a),
        members(v1, b) == members(v0, b),
{
}

} // verus!
