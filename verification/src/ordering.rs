//! The order in which the planner takes subjects and groups: subjects by
//! priority and size, groups by grade and section label.

use crate::model::{priority_of, required_of, Group, SubjectWithTeacher};
use vstd::prelude::*;
use vstd::string::StrSliceExecFns;

verus! {

/// `a` comes before `b` in the lexicographic order of their characters,
/// compared from position `i` on.
pub open spec fn text_less_from(a: Seq<char>, b: Seq<char>, i: int) -> bool
    decreases a.len() - i,
{
    if i < 0 || i >= b.len() {
        false
    } else if i >= a.len() {
        true
    } else if a[i] != b[i] {
        (a[i] as int) < (b[i] as int)
    } else {
        text_less_from(a, b, i + 1)
    }
}

/// `a` comes before `b` in the lexicographic order of their characters.
pub open spec fn text_less(a: Seq<char>, b: Seq<char>) -> bool {
    text_less_from(a, b, 0)
}

/// The order of texts is transitive.
pub proof fn lemma_text_less_transitive(a: Seq<char>, b: Seq<char>, c: Seq<char>, i: int)
    requires
        0 <= i,
        text_less_from(a, b, i),
        text_less_from(b, c, i),
    ensures
        text_less_from(a, c, i),
    decreases a.len() - i,
{
    if i < a.len() && i < b.len() && i < c.len() {
        if a[i] == b[i] && b[i] == c[i] {
            lemma_text_less_transitive(a, b, c, i + 1);
        }
    }
}

/// Of two texts one comes before the other or they are equal, and never
/// both come before each other.
pub proof fn lemma_text_less_total(a: Seq<char>, b: Seq<char>, i: int)
    requires
        0 <= i <= a.len(),
        i <= b.len(),
        forall|j: int| 0 <= j < i ==> a[j] == b[j],
    ensures
        text_less_from(a, b, i) || text_less_from(b, a, i) || a == b,
        !(text_less_from(a, b, i) && text_less_from(b, a, i)),
        a == b ==> !text_less_from(a, b, i),
    decreases a.len() - i,
{
    if i < a.len() && i < b.len() {
        if a[i] == b[i] {
            lemma_text_less_total(a, b, i + 1);
        }
    } else if i == a.len() && i == b.len() {
        assert(a =~= b);
    }
}

/// Whether `a` comes before `b` in the lexicographic order of their
/// characters.
pub fn label_less(a: &str, b: &str) -> (r: bool)
    ensures
        r == text_less(a@, b@),
{
    let la = a.unicode_len();
    let lb = b.unicode_len();
    let mut i: usize = 0;
    while i < la && i < lb
        invariant
            i <= la,
            i <= lb,
            la == a@.len(),
            lb == b@.len(),
            text_less(a@, b@) == text_less_from(a@, b@, i as int),
        decreases la - i,
    {
        let ca = a.get_char(i);
        let cb = b.get_char(i);
        if ca != cb {
            return (ca as u32) < (cb as u32);
        }
        i += 1;
    }
    i < lb
}

/// What an item is ordered by: first `major`, then `minor`, then `label`,
/// each ascending.
#[derive(Debug, Clone)]
pub struct SortKey {
    pub major: i32,
    pub minor: i32,
    pub label: String,
}

/// Item `x` is taken before item `y`: by the keys, and of two items with
/// equal keys the one that stands first.
pub open spec fn key_before(keys: Seq<SortKey>, x: int, y: int) -> bool {
    let a = keys[x];
    let b = keys[y];
    a.major < b.major || (a.major == b.major && (a.minor < b.minor || (a.minor == b.minor && (
    text_less(a.label@, b.label@) || (a.label@ == b.label@ && x < y)))))
}

/// The order of items is transitive, and of two different items exactly
/// one is taken before the other.
pub proof fn lemma_key_order(keys: Seq<SortKey>, x: int, y: int, z: int)
    ensures
        key_before(keys, x, y) && key_before(keys, y, z) ==> key_before(keys, x, z),
        x != y ==> key_before(keys, x, y) || key_before(keys, y, x),
        !(key_before(keys, x, y) && key_before(keys, y, x)),
{
    let a = keys[x].label@;
    let b = keys[y].label@;
    let c = keys[z].label@;
    lemma_text_less_total(a, b, 0);
    lemma_text_less_total(b, c, 0);
    lemma_text_less_total(a, c, 0);
    if text_less(a, b) && text_less(b, c) {
        lemma_text_less_transitive(a, b, c, 0);
    }
}

/// `order` lists every item once, each before those that come after it.
pub open spec fn is_order(keys: Seq<SortKey>, order: Seq<usize>) -> bool {
    &&& order.len() == keys.len()
    &&& forall|k: int| 0 <= k < order.len() ==> #[trigger] order[k] < keys.len()
    &&& forall|x: usize| x < keys.len() ==> order.contains(x)
    &&& forall|a: int, b: int|
        0 <= a < b < order.len() ==> key_before(keys, #[trigger] order[a] as int, #[trigger] order[b] as int)
}

fn key_less(keys: &Vec<SortKey>, x: usize, y: usize) -> (r: bool)
    requires
        x < keys.len(),
        y < keys.len(),
    ensures
        r == key_before(keys@, x as int, y as int),
{
    let a = &keys[x];
    let b = &keys[y];
    if a.major != b.major {
        return a.major < b.major;
    }
    if a.minor != b.minor {
        return a.minor < b.minor;
    }
    if label_less(a.label.as_str(), b.label.as_str()) {
        return true;
    }
    proof {
        lemma_text_less_total(a.label@, b.label@, 0);
    }
    if label_less(b.label.as_str(), a.label.as_str()) {
        return false;
    }
    x < y
}

/// Orders the items by their keys: a stable insertion sort that returns
/// the items' indices.
pub fn order_by_keys(keys: &Vec<SortKey>) -> (order: Vec<usize>)
    ensures
        is_order(keys@, order@),
{
    let mut order: Vec<usize> = Vec::new();
    let mut i: usize = 0;
    while i < keys.len()
        invariant
            i <= keys.len(),
            order@.len() == i,
            forall|k: int| 0 <= k < order@.len() ==> #[trigger] order@[k] < i,
            forall|x: usize| x < i ==> order@.contains(x),
            forall|a: int, b: int|
                0 <= a < b < order@.len() ==> key_before(
                    keys@,
                    #[trigger] order@[a] as int,
                    #[trigger] order@[b] as int,
                ),
        decreases keys.len() - i,
    {
        let mut pos: usize = order.len();
        while pos > 0 && key_less(keys, i, order[pos - 1])
            invariant
                pos <= order@.len(),
                order@.len() == i,
                i < keys.len(),
                forall|k: int| 0 <= k < order@.len() ==> #[trigger] order@[k] < i,
                forall|b: int|
                    pos <= b < order@.len() ==> key_before(
                        keys@,
                        i as int,
                        #[trigger] order@[b] as int,
                    ),
            decreases pos,
        {
            pos -= 1;
        }
        let ghost o1 = order@;
        order.insert(pos, i);
        proof {
            let o2 = order@;
            assert(o2.len() == i + 1);
            assert forall|k: int| 0 <= k < o2.len() implies o2[k] == (if k < pos {
                o1[k]
            } else if k == pos {
                i
            } else {
                o1[k - 1]
            }) by {}
            assert forall|x: usize| x < i + 1 implies o2.contains(x) by {
                if x < i {
                    assert(o1.contains(x));
                    let k = choose|k: int| 0 <= k < o1.len() && o1[k] == x;
                    if k < pos {
                        assert(o2[k] == x);
                    } else {
                        assert(o2[k + 1] == x);
                    }
                } else {
                    assert(o2[pos as int] == x);
                }
            }
            assert forall|a: int, b: int| 0 <= a < b < o2.len() implies key_before(
                keys@,
                #[trigger] o2[a] as int,
                #[trigger] o2[b] as int,
            ) by {
                if b == pos {
                    // o1[a] stands before the new item
                    assert(o2[a] == o1[a]);
                    lemma_key_order(keys@, o1[pos - 1] as int, i as int, o1[a] as int);
                    lemma_key_order(keys@, o1[a] as int, o1[pos - 1] as int, i as int);
                    if a < pos - 1 {
                        assert(key_before(keys@, o1[a] as int, o1[pos - 1] as int));
                    }
                } else if a == pos {
                    assert(o2[b] == o1[b - 1]);
                } else {
                    let a1 = if a < pos {
                        a
                    } else {
                        a - 1
                    };
                    let b1 = if b < pos {
                        b
                    } else {
                        b - 1
                    };
                    assert(o2[a] == o1[a1] && o2[b] == o1[b1]);
                }
            }
        }
        i += 1;
    }
    order
}

/// Subject `x` is taken before subject `y`: higher priority first, then
/// more required modules, then the subject that stands first.
pub open spec fn subject_before(s: Seq<SubjectWithTeacher>, x: int, y: int) -> bool {
    priority_of(s[x]) > priority_of(s[y]) || (priority_of(s[x]) == priority_of(s[y]) && (
    required_of(s[x]) > required_of(s[y]) || (required_of(s[x]) == required_of(s[y]) && x < y)))
}

/// Group `x` is taken before group `y`: lower grade first, then the section
/// label that comes first, then the group that stands first.
pub open spec fn group_before(g: Seq<Group>, x: int, y: int) -> bool {
    g[x].grade < g[y].grade || (g[x].grade == g[y].grade && (text_less(g[x].group@, g[y].group@)
        || (g[x].group@ == g[y].group@ && x < y)))
}

/// `order` lists every index below `n` once.
pub open spec fn lists_all(order: Seq<usize>, n: int) -> bool {
    &&& order.len() == n
    &&& forall|k: int| 0 <= k < order.len() ==> #[trigger] order[k] < n
    &&& forall|x: usize| x < n ==> order.contains(x)
}

/// The order in which the planner takes the subjects: by priority,
/// highest first, and among equals by required modules, most first.
pub fn sort_subjects_by_priority(subjects: &Vec<SubjectWithTeacher>) -> (order: Vec<usize>)
    ensures
        lists_all(order@, subjects@.len() as int),
        forall|a: int, b: int|
            0 <= a < b < order@.len() ==> subject_before(
                subjects@,
                #[trigger] order@[a] as int,
                #[trigger] order@[b] as int,
            ),
{
    let mut keys: Vec<SortKey> = Vec::new();
    let mut i: usize = 0;
    while i < subjects.len()
        invariant
            i <= subjects.len(),
            keys@.len() == i,
            forall|k: int|
                0 <= k < i ==> (#[trigger] keys@[k]).major == -priority_of(subjects@[k])
                    && keys@[k].minor == -required_of(subjects@[k]) && keys@[k].label@
                    == Seq::<char>::empty(),
        decreases subjects.len() - i,
    {
        keys.push(
            SortKey {
                major: -(subjects[i].rank() as i32),
                minor: -(subjects[i].modules() as i32),
                label: String::new(),
            },
        );
        i += 1;
    }
    let order = order_by_keys(&keys);
    proof {
        assert forall|a: int, b: int| 0 <= a < b < order@.len() implies subject_before(
            subjects@,
            #[trigger] order@[a] as int,
            #[trigger] order@[b] as int,
        ) by {
            let x = order@[a] as int;
            let y = order@[b] as int;
            assert(key_before(keys@, x, y));
            lemma_text_less_total(keys@[x].label@, keys@[y].label@, 0);
        }
    }
    order
}

/// The order in which the planner takes the groups: by grade, lowest
/// first, and within a grade by section label.
pub fn sort_groups_by_priority(groups: &Vec<Group>) -> (order: Vec<usize>)
    ensures
        lists_all(order@, groups@.len() as int),
        forall|a: int, b: int|
            0 <= a < b < order@.len() ==> group_before(
                groups@,
                #[trigger] order@[a] as int,
                #[trigger] order@[b] as int,
            ),
{
    let mut keys: Vec<SortKey> = Vec::new();
    let mut i: usize = 0;
    while i < groups.len()
        invariant
            i <= groups.len(),
            keys@.len() == i,
            forall|k: int|
                0 <= k < i ==> (#[trigger] keys@[k]).major == groups@[k].grade && keys@[k].minor
                    == 0 && keys@[k].label@ == groups@[k].group@,
        decreases groups.len() - i,
    {
        keys.push(SortKey { major: groups[i].grade as i32, minor: 0, label: groups[i].group.clone() });
        i += 1;
    }
    let order = order_by_keys(&keys);
    proof {
        assert forall|a: int, b: int| 0 <= a < b < order@.len() implies group_before(
            groups@,
            #[trigger] order@[a] as int,
            #[trigger] order@[b] as int,
        ) by {
            let x = order@[a] as int;
            let y = order@[b] as int;
            assert(key_before(keys@, x, y));
        }
    }
    order
}

} // verus!
