//! What a step key tells about its step.

use crate::text::chars_of;
use vstd::prelude::*;

verus! {

/// Whether `part` stands in `text` at `at`.
pub open spec fn stands_at(text: Seq<char>, part: Seq<char>, at: int) -> bool {
    0 <= at && at + part.len() <= text.len() && text.subrange(at, at + part.len()) == part
}

/// Whether a step key is that of a refinement.
pub open spec fn is_refine_key(key: Seq<char>) -> bool {
    exists|at: int| #[trigger] stands_at(key, "|phase:refine:"@, at)
}

/// The place of the first `|` at or after `from`, or the end.
pub open spec fn part_end(key: Seq<char>, from: int) -> int
    decreases key.len() - from,
{
    if from < 0 || from >= key.len() || key[from] == '|' {
        from
    } else {
        part_end(key, from + 1)
    }
}

/// The rest of the first `|`-separated part at or after `from` that starts with
/// `task:`.
pub open spec fn task_from(key: Seq<char>, from: int) -> Option<Seq<char>>
    decreases key.len() - from,
{
    let end = part_end(key, from);
    let name = "task:"@;
    if from < 0 || from > key.len() || end < from {
        None
    } else if from + name.len() <= end && stands_at(key, name, from) {
        Some(key.subrange(from + name.len(), end))
    } else if end >= key.len() {
        None
    } else {
        task_from(key, end + 1)
    }
}

/// The task id inside a step key, nothing for bridge steps.
pub open spec fn key_task(key: Seq<char>) -> Option<Seq<char>> {
    task_from(key, 0)
}

/// Whether `part` stands in `text` at `at`.
pub(crate) fn stands(text: &Vec<char>, part: &Vec<char>, at: usize) -> (r: bool)
    requires
        at <= text@.len(),
    ensures
        r == stands_at(text@, part@, at as int),
{
    let n: usize = text.len();
    if part.len() > n - at {
        return false;
    }
    let mut i: usize = 0;
    while i < part.len()
        invariant
            i <= part@.len(),
            n == text@.len(),
            at + part@.len() <= n,
            forall|j: int| 0 <= j < i ==> text@[at + j] == #[trigger] part@[j],
        decreases part@.len() - i,
    {
        if text[at + i] != part[i] {
            proof {
                assert(text@.subrange(at as int, at + part@.len())[i as int] == text@[at + i]);
            }
            return false;
        }
        i = i + 1;
    }
    assert(text@.subrange(at as int, at + part@.len()) =~= part@);
    true
}

/// Whether a step key is that of a refinement.
pub fn is_refine(key: &str) -> (r: bool)
    ensures
        r == is_refine_key(key@),
{
    let text: Vec<char> = chars_of(key);
    let part: Vec<char> = chars_of("|phase:refine:");
    let mut at: usize = 0;
    while at < text.len()
        invariant
            at <= text@.len(),
            text@ == key@,
            part@ == "|phase:refine:"@,
            forall|i: int| 0 <= i < at ==> !#[trigger] stands_at(key@, part@, i),
        decreases text@.len() - at,
    {
        if stands(&text, &part, at) {
            return true;
        }
        at = at + 1;
    }
    proof {
        reveal_strlit("|phase:refine:");
        assert(part@.len() == 14);
    }
    false
}

/// The task id inside a step key, `None` for bridge steps.
pub fn task_of_key(key: &str) -> (r: Option<Vec<char>>)
    ensures
        match r {
            Some(task) => key_task(key@) == Some(task@),
            None => key_task(key@) is None,
        },
{
    let text: Vec<char> = chars_of(key);
    let name: Vec<char> = chars_of("task:");
    let n: usize = text.len();
    let mut from: usize = 0;
    loop
        invariant
            from <= n,
            n == text@.len(),
            text@ == key@,
            name@ == "task:"@,
            key_task(key@) == task_from(key@, from as int),
        decreases n - from,
    {
        let mut end: usize = from;
        while end < n && text[end] != '|'
            invariant
                from <= end <= n,
                n == text@.len(),
                text@ == key@,
                part_end(key@, from as int) == part_end(key@, end as int),
            decreases n - end,
        {
            end = end + 1;
        }
        if name.len() <= end - from && stands(&text, &name, from) {
            let mut task: Vec<char> = Vec::new();
            let mut i: usize = from + name.len();
            while i < end
                invariant
                    from + name@.len() <= i <= end <= n,
                    n == text@.len(),
                    text@ == key@,
                    task@ == key@.subrange(from + name@.len(), i as int),
                decreases end - i,
            {
                task.push(text[i]);
                assert(task@ =~= key@.subrange(from + name@.len(), i + 1));
                i = i + 1;
            }
            return Some(task);
        }
        if end >= n {
            return None;
        }
        from = end + 1;
    }
}

/// Whether `from..end` is one of the parts that `|` separates.
pub open spec fn is_part(key: Seq<char>, from: int, end: int) -> bool {
    &&& 0 <= from <= end <= key.len()
    &&& from == 0 || key[from - 1] == '|'
    &&& end == key.len() || key[end] == '|'
    &&& forall|i: int| from <= i < end ==> #[trigger] key[i] != '|'
}

/// Whether the part `from..end` names a task.
pub open spec fn names_task(key: Seq<char>, from: int, end: int, task: Seq<char>) -> bool {
    is_part(key, from, end) && key.subrange(from, end) == "task:"@ + task
}

/// Whether no part before `a` names a task.
pub open spec fn none_before(key: Seq<char>, from: int, a: int) -> bool {
    forall|c: int, d: int, t: Seq<char>| from <= c < a ==> !#[trigger] names_task(key, c, d, t)
}

proof fn lemma_part_end(key: Seq<char>, from: int)
    requires
        0 <= from <= key.len(),
    ensures
        from <= part_end(key, from) <= key.len(),
        part_end(key, from) == key.len() || key[part_end(key, from)] == '|',
        forall|i: int| from <= i < part_end(key, from) ==> #[trigger] key[i] != '|',
    decreases key.len() - from,
{
    if from < key.len() && key[from] != '|' {
        lemma_part_end(key, from + 1);
    }
}

proof fn lemma_task_from(key: Seq<char>, from: int)
    requires
        0 <= from <= key.len(),
        from == 0 || key[from - 1] == '|',
    ensures
        task_from(key, from) is Some ==> exists|a: int, b: int|
            from <= a && #[trigger] names_task(key, a, b, task_from(key, from)->0) && none_before(key, from, a),
        task_from(key, from) is None ==> forall|c: int, d: int, t: Seq<char>|
            from <= c ==> !#[trigger] names_task(key, c, d, t),
    decreases key.len() - from,
{
    reveal_strlit("task:");
    let name = "task:"@;
    let end = part_end(key, from);
    lemma_part_end(key, from);
    if from + name.len() <= end && stands_at(key, name, from) {
        let task = key.subrange(from + name.len(), end);
        assert(key.subrange(from, end) =~= name + task) by {
            assert forall|i: int| 0 <= i < name.len() implies key.subrange(from, end)[i] == name[i] by {
                assert(key.subrange(from, from + name.len())[i] == name[i]);
            }
        }
        assert(names_task(key, from, end, task));
        assert(task_from(key, from) == Some(task));
        assert(none_before(key, from, from));
        assert(names_task(key, from, end, task_from(key, from)->0));
    } else {
        assert forall|d: int, t: Seq<char>| !#[trigger] names_task(key, from, d, t) by {
            if names_task(key, from, d, t) {
                if d < end {
                    assert(key[d] == '|');
                } else if end < d {
                    assert(key[end] == '|');
                }
                assert(key.subrange(from, end).len() == name.len() + t.len());
                assert(key.subrange(from, from + name.len()) =~= name) by {
                    assert forall|i: int| 0 <= i < name.len() implies key.subrange(from, from + name.len())[i] == name[i] by {
                        assert(key.subrange(from, end)[i] == (name + t)[i]);
                    }
                }
            }
        }
        if end < key.len() {
            lemma_task_from(key, end + 1);
            assert(task_from(key, from) == task_from(key, end + 1));
            assert forall|c: int, d: int, t: Seq<char>| from <= c <= end implies !#[trigger] names_task(key, c, d, t) by {
                if names_task(key, c, d, t) && c > from {
                    assert(key[c - 1] == '|');
                }
            }
            if task_from(key, end + 1) is Some {
                let task = task_from(key, end + 1)->0;
                let (a, b) = choose|a: int, b: int|
                    end + 1 <= a && #[trigger] names_task(key, a, b, task) && none_before(key, end + 1, a);
                assert(names_task(key, a, b, task));
                assert forall|c: int, d: int, t: Seq<char>| from <= c < a implies !#[trigger] names_task(key, c, d, t) by {
                    if c <= end {
                        assert(!names_task(key, c, d, t));
                    }
                }
                assert(none_before(key, from, a));
                assert(names_task(key, a, b, task_from(key, from)->0));
            } else {
                assert forall|c: int, d: int, t: Seq<char>| from <= c implies !#[trigger] names_task(key, c, d, t) by {
                    if c <= end {
                        assert(!names_task(key, c, d, t));
                    }
                }
            }
        } else {
            assert(task_from(key, from) is None);
            assert forall|c: int, d: int, t: Seq<char>| from <= c implies !#[trigger] names_task(key, c, d, t) by {
                if names_task(key, c, d, t) && c > from {
                    assert(key[c - 1] == '|');
                }
            }
        }
    }
}

/// The task of a key is what the first of its parts that starts with `task:`
/// says; a key without such a part has none.
pub proof fn tasks_are_named_by_the_first_part(key: Seq<char>)
    ensures
        match key_task(key) {
            Some(task) => exists|a: int, b: int| #[trigger] names_task(key, a, b, task) && none_before(key, 0, a),
            None => forall|c: int, d: int, t: Seq<char>| !#[trigger] names_task(key, c, d, t),
        },
{
    lemma_task_from(key, 0);
    if key_task(key) is Some {
        let task = key_task(key)->0;
        let (a, b) = choose|a: int, b: int| 0 <= a && #[trigger] names_task(key, a, b, task) && none_before(key, 0, a);
        assert(names_task(key, a, b, task));
    }
}

/// A key is that of a refinement exactly when it can be cut in three so that
/// the middle says so.
pub proof fn refinements_say_so(key: Seq<char>)
    ensures
        is_refine_key(key) <==> exists|a: Seq<char>, b: Seq<char>| key == #[trigger] cut(a, "|phase:refine:"@, b),
{
    let mark = "|phase:refine:"@;
    if is_refine_key(key) {
        let at = choose|at: int| #[trigger] stands_at(key, mark, at);
        let (a, b) = (key.take(at), key.skip(at + mark.len()));
        assert(key =~= cut(a, mark, b)) by {
            assert(key =~= a + key.subrange(at, at + mark.len()) + b);
        }
    }
    if exists|a: Seq<char>, b: Seq<char>| key == #[trigger] cut(a, mark, b) {
        let (a, b) = choose|a: Seq<char>, b: Seq<char>| key == #[trigger] cut(a, mark, b);
        assert(key.subrange(a.len() as int, (a.len() + mark.len()) as int) =~= mark);
        assert(stands_at(key, mark, a.len() as int));
    }
}

/// Three texts one after the other.
pub open spec fn cut(a: Seq<char>, middle: Seq<char>, b: Seq<char>) -> Seq<char> {
    a + middle + b
}

} // verus!
