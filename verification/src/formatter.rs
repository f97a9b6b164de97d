//! Rendering the task list as text.
use vstd::prelude::*;
use crate::task::Task;
use crate::text::{decimal, push_char, push_decimal};

verus! {

/// Renders a task list as text.
pub trait Formatter {
    fn format(&self, tasks: &[Task]) -> String;
}

/// A plain numbered checklist, one task per line:
///
/// ```text
/// [ ] #1: Buy groceries
/// [x] #2: Walk the dog
/// ```
pub struct PlainText;

/// The mark in a task's checkbox.
pub open spec fn check_mark(done: bool) -> char {
    if done {
        'x'
    } else {
        ' '
    }
}

/// One line of the checklist: `[x] #2: Walk the dog`.
pub open spec fn task_line(t: Task) -> Seq<char> {
    "["@ + seq![check_mark(t.done)] + "] #"@ + decimal(t.id as nat) + ": "@ + t.text@
}

/// Lines joined by newlines (no newline after the last).
pub open spec fn join_lines(lines: Seq<Seq<char>>) -> Seq<char>
    decreases lines.len(),
{
    if lines.len() == 0 {
        Seq::empty()
    } else if lines.len() == 1 {
        lines[0]
    } else {
        join_lines(lines.drop_last()) + "\n"@ + lines.last()
    }
}

/// The checklist lines of the tasks.
pub open spec fn task_lines(tasks: Seq<Task>) -> Seq<Seq<char>> {
    tasks.map_values(|t: Task| task_line(t))
}

/// The plain checklist of a task list: `No tasks.` for an empty list, else
/// the task lines joined by newlines.
pub open spec fn plain_text(tasks: Seq<Task>) -> Seq<char> {
    if tasks.len() == 0 {
        "No tasks."@
    } else {
        join_lines(task_lines(tasks))
    }
}

fn push_task_line(s: &mut String, t: &Task)
    ensures
        final(s)@ == old(s)@ + task_line(*t),
{
    s.append("[");
    if t.done {
        push_char(s, 'x');
    } else {
        push_char(s, ' ');
    }
    s.append("] #");
    push_decimal(s, t.id);
    s.append(": ");
    s.append(t.text.as_str());
    assert(final(s)@ =~= old(s)@ + task_line(*t));
}

impl Formatter for PlainText {
    fn format(&self, tasks: &[Task]) -> (r: String)
        ensures
            r@ == plain_text(tasks@),
    {
        let mut s = String::new();
        if tasks.len() == 0 {
            s.append("No tasks.");
            assert(s@ =~= "No tasks."@);
            return s;
        }
        let mut i: usize = 0;
        while i < tasks.len()
            invariant
                i <= tasks.len(),
                s@ == join_lines(task_lines(tasks@.take(i as int))),
            decreases tasks.len() - i,
        {
            let ghost before = s@;
            if i > 0 {
                s.append("\n");
            }
            push_task_line(&mut s, &tasks[i]);
            proof {
                let ls = task_lines(tasks@.take(i + 1));
                assert(ls.drop_last() =~= task_lines(tasks@.take(i as int)));
                assert(ls.last() == task_line(tasks@[i as int]));
                if i == 0 {
                    assert(before =~= Seq::<char>::empty());
                    assert(s@ =~= ls[0]);
                }
            }
            i = i + 1;
        }
        assert(tasks@.take(tasks@.len() as int) =~= tasks@);
        s
    }
}

// ── Laws ────────────────────────────────────────────────────────────────────

/// The last newline at or before position `i`.
pub open spec fn last_newline(s: Seq<char>, i: int) -> Option<int>
    decreases i + 1,
{
    if i < 0 {
        None
    } else if s[i] == '\n' {
        Some(i)
    } else {
        last_newline(s, i - 1)
    }
}

/// What `last_newline` says: a hit is a newline with none after it up to
/// `i`; a miss means no newline up to `i`.
pub proof fn lemma_last_newline(s: Seq<char>, i: int)
    requires
        i < s.len(),
    ensures
        match last_newline(s, i) {
            Some(p) => 0 <= p <= i && s[p] == '\n' && forall|k: int| p < k <= i ==> s[k] != '\n',
            None => forall|k: int| 0 <= k <= i ==> s[k] != '\n',
        },
    decreases i + 1,
{
    if i >= 0 && s[i] != '\n' {
        lemma_last_newline(s, i - 1);
    }
}

/// A text cut at its newlines into lines (the newlines dropped).
pub open spec fn split_lines(s: Seq<char>) -> Seq<Seq<char>>
    decreases s.len(),
{
    match last_newline(s, s.len() - 1) {
        None => seq![s],
        Some(p) => {
            proof {
                lemma_last_newline(s, s.len() - 1);
            }
            split_lines(s.subrange(0, p)).push(s.subrange(p + 1, s.len() as int))
        },
    }
}

/// The text holds no newline.
pub open spec fn one_line(s: Seq<char>) -> bool {
    forall|k: int| 0 <= k < s.len() ==> s[k] != '\n'
}

/// Cutting lines that were joined by newlines gives them back, where no line
/// holds a newline itself.
pub proof fn lemma_split_join(ls: Seq<Seq<char>>)
    requires
        ls.len() > 0,
        forall|i: int| 0 <= i < ls.len() ==> one_line(#[trigger] ls[i]),
    ensures
        split_lines(join_lines(ls)) == ls,
    decreases ls.len(),
{
    reveal_strlit("\n");
    let j = join_lines(ls);
    if ls.len() == 1 {
        lemma_last_newline(j, j.len() - 1);
        assert(ls =~= seq![ls[0]]);
    } else {
        let a = join_lines(ls.drop_last());
        let b = ls.last();
        assert(one_line(ls[ls.len() - 1]));
        assert(j == a + "\n"@ + b);
        lemma_last_newline(j, j.len() - 1);
        assert(j[a.len() as int] == '\n');
        assert forall|k: int| a.len() < k < j.len() implies j[k] != '\n' by {
            assert(j[k] == b[k - a.len() - 1]);
        }
        assert(last_newline(j, j.len() - 1) == Some(a.len() as int)) by {
            lemma_last_newline(j, j.len() - 1);
        }
        assert(j.subrange(0, a.len() as int) =~= a);
        assert(j.subrange(a.len() + 1int, j.len() as int) =~= b);
        assert forall|i: int| 0 <= i < ls.drop_last().len() implies one_line(
            #[trigger] ls.drop_last()[i],
        ) by {
            assert(ls.drop_last()[i] == ls[i]);
        }
        lemma_split_join(ls.drop_last());
        assert(ls.drop_last().push(b) =~= ls);
    }
}

proof fn lemma_decimal_digits(n: nat)
    ensures
        one_line(decimal(n)),
        decimal(n).len() > 0,
    decreases n,
{
    if n >= 10 {
        lemma_decimal_digits(n / 10);
    }
}

/// A checklist line is `[x] #{id}: {text}` for a done task and
/// `[ ] #{id}: {text}` for a pending one, the id in decimal; it begins with
/// the checkbox, and holds no newline where the text holds none.
pub proof fn lemma_task_line_shape(t: Task)
    ensures
        task_line(t) == seq!['[', if t.done {
            'x'
        } else {
            ' '
        }, ']', ' ', '#'] + decimal(t.id as nat) + seq![':', ' '] + t.text@,
        task_line(t).take(3) == seq!['[', check_mark(t.done), ']'],
        one_line(t.text@) ==> one_line(task_line(t)),
{
    reveal_strlit("[");
    reveal_strlit("] #");
    reveal_strlit(": ");
    lemma_decimal_digits(t.id as nat);
    assert(task_line(t).take(3) =~= seq!['[', check_mark(t.done), ']']);
    assert(task_line(t) =~= seq!['[', if t.done {
        'x'
    } else {
        ' '
    }, ']', ' ', '#'] + decimal(t.id as nat) + seq![':', ' '] + t.text@);
    let l = task_line(t);
    if one_line(t.text@) {
        let p = "["@ + seq![check_mark(t.done)] + "] #"@;
        let q = p + decimal(t.id as nat) + ": "@;
        assert forall|k: int| 0 <= k < l.len() implies l[k] != '\n' by {
            if k < p.len() {
            } else if k < p.len() + decimal(t.id as nat).len() {
                assert(l[k] == decimal(t.id as nat)[k - p.len()]);
            } else if k < q.len() {
            } else {
                assert(l[k] == t.text@[k - q.len()]);
            }
        }
    }
}

/// The plain checklist of a non-empty list whose texts hold no newline has
/// exactly one line per task, in list order.
pub proof fn lemma_plain_text_lines(tasks: Seq<Task>)
    requires
        tasks.len() > 0,
        forall|i: int| 0 <= i < tasks.len() ==> one_line(#[trigger] tasks[i].text@),
    ensures
        split_lines(plain_text(tasks)) == task_lines(tasks),
{
    let ls = task_lines(tasks);
    assert forall|i: int| 0 <= i < ls.len() implies one_line(#[trigger] ls[i]) by {
        lemma_task_line_shape(tasks[i]);
    }
    lemma_split_join(ls);
}

} // verus!
