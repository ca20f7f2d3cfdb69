use vstd::prelude::*;
use vstd::multiset::Multiset;
use crate::sleeptype::SleepType;
use crate::timestamp::Timestamp;
use crate::repetitions::{
    const_gap_next, monthly_next, yearly_next, CustomRepetition, NoCustomRepetition, RepetitionCount,
    RepetitionHelpers, RepetitionType, WEEK_MILLIS,
};

verus! {

/// A payload with its due date, its repetition rule and the way the runner waits for it.
/// Tasks are ordered by due date alone.
#[derive(Clone, Debug)]
pub struct ScheduledTask<TaskType> {
    pub task: TaskType,
    pub date: Timestamp,
    pub repetition: RepetitionType,
    pub sleep_type: SleepType,
}

impl<TaskType> ScheduledTask<TaskType> {
    /// Compares two tasks by due date alone.
    pub fn compare_due(&self, other: &Self) -> (r: core::cmp::Ordering)
        ensures
            r == core::cmp::Ordering::Less <==> self.date.millis < other.date.millis,
            r == core::cmp::Ordering::Equal <==> self.date.millis == other.date.millis,
            r == core::cmp::Ordering::Greater <==> self.date.millis > other.date.millis,
    {
        if self.date.millis < other.date.millis {
            core::cmp::Ordering::Less
        } else if self.date.millis > other.date.millis {
            core::cmp::Ordering::Greater
        } else {
            core::cmp::Ordering::Equal
        }
    }

    pub fn new(
        date: Timestamp,
        task: TaskType,
        repetition: RepetitionType,
        sleep_type: SleepType,
    ) -> (r: Self)
        ensures
            r.date == date,
            r.task == task,
            r.repetition == repetition,
            r.sleep_type == sleep_type,
    {
        ScheduledTask { task, date, repetition, sleep_type }
    }
}

/// Whether the tasks of `s` come in ascending order of due date.
pub open spec fn is_sorted<T>(s: Seq<ScheduledTask<T>>) -> bool {
    forall|i: int, j: int| 0 <= i <= j < s.len() ==> s[i].date.millis <= s[j].date.millis
}

/// The length of the longest prefix of `s` whose tasks are due no later than `at`.
pub open spec fn due_prefix_len<T>(s: Seq<ScheduledTask<T>>, at: i64) -> nat
    decreases s.len(),
{
    if s.len() == 0 {
        0
    } else if s[0].date.millis <= at {
        1 + due_prefix_len(s.subrange(1, s.len() as int), at)
    } else {
        0
    }
}

/// `t` placed into `s` after the leading tasks due no later than it.
pub open spec fn insert_by_due<T>(s: Seq<ScheduledTask<T>>, t: ScheduledTask<T>) -> Seq<ScheduledTask<T>> {
    s.insert(due_prefix_len(s, t.date.millis) as int, t)
}

/// The stable sort of `s` by due date: tasks due at the same instant keep their order.
pub open spec fn sort_by_due<T>(s: Seq<ScheduledTask<T>>) -> Seq<ScheduledTask<T>>
    decreases s.len(),
{
    if s.len() == 0 {
        s
    } else {
        insert_by_due(sort_by_due(s.drop_last()), s.last())
    }
}

/// The longest due prefix is characterised by its first task that is not due.
pub proof fn lemma_due_prefix_len<T>(s: Seq<ScheduledTask<T>>, at: i64)
    ensures
        due_prefix_len(s, at) <= s.len(),
        forall|j: int| 0 <= j < due_prefix_len(s, at) ==> s[j].date.millis <= at,
        due_prefix_len(s, at) < s.len() ==> s[due_prefix_len(s, at) as int].date.millis > at,
    decreases s.len(),
{
    if s.len() > 0 && s[0].date.millis <= at {
        let rest = s.subrange(1, s.len() as int);
        lemma_due_prefix_len(rest, at);
        assert forall|j: int| 0 <= j < due_prefix_len(s, at) implies s[j].date.millis <= at by {
            if j > 0 {
                assert(s[j] == rest[j - 1]);
            }
        }
    }
}

/// A prefix whose tasks are all due, followed by one that is not, is the longest due prefix.
pub proof fn lemma_due_prefix_len_is<T>(s: Seq<ScheduledTask<T>>, at: i64, p: int)
    requires
        0 <= p <= s.len(),
        forall|j: int| 0 <= j < p ==> s[j].date.millis <= at,
        p < s.len() ==> s[p].date.millis > at,
    ensures
        due_prefix_len(s, at) == p,
    decreases s.len(),
{
    if s.len() > 0 && p > 0 {
        let rest = s.subrange(1, s.len() as int);
        assert forall|j: int| 0 <= j < p - 1 implies rest[j].date.millis <= at by {
            assert(rest[j] == s[j + 1]);
        }
        if p < s.len() {
            assert(rest[p - 1] == s[p]);
        }
        lemma_due_prefix_len_is(rest, at, p - 1);
    }
}

/// Placing a task by due date keeps a sorted sequence sorted.
pub proof fn lemma_insert_by_due_sorted<T>(s: Seq<ScheduledTask<T>>, t: ScheduledTask<T>)
    requires
        is_sorted(s),
    ensures
        is_sorted(insert_by_due(s, t)),
        insert_by_due(s, t).to_multiset() == s.to_multiset().insert(t),
{
    lemma_due_prefix_len(s, t.date.millis);
    let p = due_prefix_len(s, t.date.millis) as int;
    let r = insert_by_due(s, t);
    assert forall|j: int| p < j < r.len() implies r[j].date.millis > t.date.millis by {
        assert(r[j] == s[j - 1]);
        assert(s[p].date.millis <= s[j - 1].date.millis);
    }
    assert forall|i: int, j: int| 0 <= i <= j < r.len() implies r[i].date.millis <= r[j].date.millis by {
        if i < p && j < p {
            assert(r[i] == s[i] && r[j] == s[j]);
        } else if i > p && j > p {
            assert(r[i] == s[i - 1] && r[j] == s[j - 1]);
        } else if i < p && j > p {
            assert(r[i] == s[i] && r[j] == s[j - 1]);
        } else if i < p {
            assert(r[i] == s[i]);
        }
    }
    vstd::seq_lib::to_multiset_insert(s, p, t);
}

/// The stable sort is sorted, holds the same tasks, and leaves a sorted sequence as it is.
pub proof fn lemma_sort_by_due<T>(s: Seq<ScheduledTask<T>>)
    ensures
        is_sorted(sort_by_due(s)),
        sort_by_due(s).to_multiset() == s.to_multiset(),
        sort_by_due(s).len() == s.len(),
        is_sorted(s) ==> sort_by_due(s) == s,
    decreases s.len(),
{
    if s.len() > 0 {
        let init = s.drop_last();
        lemma_sort_by_due(init);
        lemma_insert_by_due_sorted(sort_by_due(init), s.last());
        vstd::seq_lib::lemma_multiset_commutative(init, seq![s.last()]);
        assert(init + seq![s.last()] =~= s);
        assert(seq![s.last()].to_multiset() =~= Multiset::empty().insert(s.last())) by {
            assert(seq![s.last()] =~= Seq::<ScheduledTask<T>>::empty().push(s.last()));
            vstd::seq_lib::to_multiset_build(Seq::<ScheduledTask<T>>::empty(), s.last());
            Seq::<ScheduledTask<T>>::empty().to_multiset_ensures();
        }
        assert(sort_by_due(s).to_multiset() =~= s.to_multiset());
        sort_by_due(s).to_multiset_ensures();
        s.to_multiset_ensures();
        if is_sorted(s) {
            assert(is_sorted(init));
            lemma_due_prefix_len_is(init, s.last().date.millis, init.len() as int);
            assert(sort_by_due(s) =~= s);
        }
    }
}

/// The length of the longest prefix of `v` whose tasks are due no later than `at`.
fn due_prefix_length<T>(v: &Vec<ScheduledTask<T>>, at: i64) -> (p: usize)
    ensures
        p == due_prefix_len(v@, at),
        p <= v.len(),
{
    let mut i: usize = 0;
    while i < v.len() && v[i].date.millis <= at
        invariant
            i <= v.len(),
            forall|j: int| 0 <= j < i ==> v@[j].date.millis <= at,
        decreases v.len() - i,
    {
        i = i + 1;
    }
    proof {
        lemma_due_prefix_len_is(v@, at, i as int);
    }
    i
}

/// Sorts `v` by due date, keeping the order of tasks due at the same instant.
fn sort_tasks<T>(v: Vec<ScheduledTask<T>>) -> (r: Vec<ScheduledTask<T>>)
    ensures
        r@ == sort_by_due(v@),
{
    let ghost orig = v@;
    let mut rest = v;
    let mut out: Vec<ScheduledTask<T>> = Vec::new();
    let total = rest.len();
    let mut i: usize = 0;
    while rest.len() > 0
        invariant
            i <= orig.len(),
            orig.len() == total,
            rest@ == orig.subrange(i as int, orig.len() as int),
            out@ == sort_by_due(orig.subrange(0, i as int)),
        decreases rest.len(),
    {
        assert(rest@.len() == orig.len() - i);
        let t = rest.remove(0);
        let p = due_prefix_length(&out, t.date.millis);
        proof {
            lemma_sort_by_due(orig.subrange(0, i as int));
        }
        out.insert(p, t);
        proof {
            let next = orig.subrange(0, i + 1);
            assert(t == orig[i as int]);
            assert(next.drop_last() =~= orig.subrange(0, i as int));
            assert(next.last() == orig[i as int]);
        }
        i = i + 1;
        assert(rest@ =~= orig.subrange(i as int, orig.len() as int));
    }
    assert(orig.subrange(0, i as int) =~= orig);
    out
}

/// The budget of a recurring rule (`Infinite` for the others).
pub open spec fn count_of(r: RepetitionType) -> RepetitionCount {
    match r {
        RepetitionType::Weekly(c) => c,
        RepetitionType::Monthly(c) => c,
        RepetitionType::Yearly(c) => c,
        RepetitionType::ConstGap { gap, count } => count,
        _ => RepetitionCount::Infinite,
    }
}

/// The rule `r` with its budget replaced by `c` (the other rules have none).
pub open spec fn with_count(r: RepetitionType, c: RepetitionCount) -> RepetitionType {
    match r {
        RepetitionType::Weekly(_) => RepetitionType::Weekly(c),
        RepetitionType::Monthly(_) => RepetitionType::Monthly(c),
        RepetitionType::Yearly(_) => RepetitionType::Yearly(c),
        RepetitionType::ConstGap { gap, count } => RepetitionType::ConstGap { gap, count: c },
        _ => r,
    }
}

/// The next date of a task of a recurring calendar or gap rule; `None` where it cannot be
/// computed, and for the other rules.
pub open spec fn advanced_date(r: RepetitionType, now: Timestamp, date: Timestamp) -> Option<Timestamp> {
    match r {
        RepetitionType::Weekly(_) => const_gap_next(now, date, WEEK_MILLIS),
        RepetitionType::Monthly(_) => monthly_next(now, date),
        RepetitionType::Yearly(_) => yearly_next(now, date),
        RepetitionType::ConstGap { gap, count } => const_gap_next(now, date, gap),
        _ => None,
    }
}

pub open spec fn with_date<T>(t: ScheduledTask<T>, d: Timestamp) -> ScheduledTask<T> {
    ScheduledTask { task: t.task, date: d, repetition: t.repetition, sleep_type: t.sleep_type }
}

pub open spec fn with_rule<T>(t: ScheduledTask<T>, r: RepetitionType) -> ScheduledTask<T> {
    ScheduledTask { task: t.task, date: t.date, repetition: r, sleep_type: t.sleep_type }
}

/// Whether a task can be handled: a `Custom` task needs a handler that handles it, and a gap
/// must be positive.
pub open spec fn valid_task<T, C: CustomRepetition>(h: C, t: ScheduledTask<T>) -> bool {
    match t.repetition {
        RepetitionType::Custom => h.handles_custom(),
        RepetitionType::ConstGap { gap, count } => gap > 0,
        _ => true,
    }
}

pub open spec fn all_valid<T, C: CustomRepetition>(h: C, s: Seq<ScheduledTask<T>>) -> bool {
    forall|i: int| 0 <= i < s.len() ==> valid_task(h, #[trigger] s[i])
}

/// What becomes of a due task, seen from `now`: `Ok` with the task as it stays in the lane, or
/// `Err` with the task as it leaves. With `consume` (after the task fired), a recurring rule
/// first uses up one occurrence and leaves when its budget is exhausted; without it (catching
/// up), the budget is untouched. `Once` always leaves; `Custom` asks the handler.
pub open spec fn task_outcome<T, C: CustomRepetition>(
    h: C,
    t: ScheduledTask<T>,
    now: Timestamp,
    consume: bool,
) -> Result<ScheduledTask<T>, ScheduledTask<T>> {
    match t.repetition {
        RepetitionType::Once => Err(t),
        RepetitionType::Custom => match h.next_date(now, t.date) {
            Some(d) => Ok(with_date(t, d)),
            None => Err(t),
        },
        _ => {
            let c = count_of(t.repetition);
            let t1 = if consume {
                with_rule(t, with_count(t.repetition, c.consumed()))
            } else {
                t
            };
            if consume && c.exhausted_by_consume() {
                Err(t1)
            } else {
                match advanced_date(t.repetition, now, t.date) {
                    Some(d) => Ok(with_date(t1, d)),
                    None => Err(t1),
                }
            }
        },
    }
}

/// The tasks of `s` that stay, moved on, in their order.
pub open spec fn kept_of<T, C: CustomRepetition>(
    h: C,
    s: Seq<ScheduledTask<T>>,
    now: Timestamp,
    consume: bool,
) -> Seq<ScheduledTask<T>>
    decreases s.len(),
{
    if s.len() == 0 {
        Seq::empty()
    } else {
        let init = kept_of(h, s.drop_last(), now, consume);
        match task_outcome(h, s.last(), now, consume) {
            Ok(t) => init.push(t),
            Err(_) => init,
        }
    }
}

/// The tasks of `s` that leave, in their order.
pub open spec fn left_of<T, C: CustomRepetition>(
    h: C,
    s: Seq<ScheduledTask<T>>,
    now: Timestamp,
    consume: bool,
) -> Seq<ScheduledTask<T>>
    decreases s.len(),
{
    if s.len() == 0 {
        Seq::empty()
    } else {
        let init = left_of(h, s.drop_last(), now, consume);
        match task_outcome(h, s.last(), now, consume) {
            Ok(_) => init,
            Err(t) => init.push(t),
        }
    }
}

/// The lane after a pass at `now`: the due prefix of `s` moved on, the tasks that stay and the
/// rest of `s` sorted again by due date.
pub open spec fn lane_after_pass<T, C: CustomRepetition>(
    h: C,
    s: Seq<ScheduledTask<T>>,
    now: Timestamp,
    consume: bool,
) -> Seq<ScheduledTask<T>> {
    let p = due_prefix_len(s, now.millis) as int;
    sort_by_due(kept_of(h, s.subrange(0, p), now, consume) + s.subrange(p, s.len() as int))
}

/// The tasks that leave the lane in a pass at `now`, in their order.
pub open spec fn left_in_pass<T, C: CustomRepetition>(
    h: C,
    s: Seq<ScheduledTask<T>>,
    now: Timestamp,
    consume: bool,
) -> Seq<ScheduledTask<T>> {
    left_of(h, s.subrange(0, due_prefix_len(s, now.millis) as int), now, consume)
}

proof fn lemma_outcome_valid<T, C: CustomRepetition>(
    h: C,
    t: ScheduledTask<T>,
    now: Timestamp,
    consume: bool,
)
    requires
        valid_task(h, t),
    ensures
        task_outcome(h, t, now, consume) matches Ok(u) ==> valid_task(h, u),
{
}

proof fn lemma_kept_valid<T, C: CustomRepetition>(
    h: C,
    s: Seq<ScheduledTask<T>>,
    now: Timestamp,
    consume: bool,
)
    requires
        all_valid(h, s),
    ensures
        all_valid(h, kept_of(h, s, now, consume)),
    decreases s.len(),
{
    if s.len() > 0 {
        assert(valid_task(h, s[s.len() - 1]));
        lemma_kept_valid(h, s.drop_last(), now, consume);
        lemma_outcome_valid(h, s.last(), now, consume);
        let k = kept_of(h, s, now, consume);
        assert forall|i: int| 0 <= i < k.len() implies valid_task(h, #[trigger] k[i]) by {
            let init = kept_of(h, s.drop_last(), now, consume);
            if i < init.len() {
                assert(k[i] == init[i]);
            }
        }
    }
}

proof fn lemma_sort_valid<T, C: CustomRepetition>(h: C, s: Seq<ScheduledTask<T>>)
    requires
        all_valid(h, s),
    ensures
        all_valid(h, sort_by_due(s)),
    decreases s.len(),
{
    if s.len() > 0 {
        let init = s.drop_last();
        assert(valid_task(h, s[s.len() - 1]));
        lemma_sort_valid(h, init);
        let si = sort_by_due(init);
        lemma_due_prefix_len(si, s.last().date.millis);
        let p = due_prefix_len(si, s.last().date.millis) as int;
        let r = sort_by_due(s);
        assert forall|i: int| 0 <= i < r.len() implies valid_task(h, #[trigger] r[i]) by {
            if i < p {
                assert(r[i] == si[i]);
            } else if i > p {
                assert(r[i] == si[i - 1]);
            }
        }
    }
}

/// The budget of a recurring rule.
fn count_in(r: RepetitionType) -> (c: RepetitionCount)
    ensures
        c == count_of(r),
{
    match r {
        RepetitionType::Weekly(c) => c,
        RepetitionType::Monthly(c) => c,
        RepetitionType::Yearly(c) => c,
        RepetitionType::ConstGap { gap, count } => count,
        _ => RepetitionCount::Infinite,
    }
}

/// The rule `r` with its budget replaced by `c`.
fn rule_with_count(r: RepetitionType, c: RepetitionCount) -> (n: RepetitionType)
    ensures
        n == with_count(r, c),
{
    match r {
        RepetitionType::Weekly(_) => RepetitionType::Weekly(c),
        RepetitionType::Monthly(_) => RepetitionType::Monthly(c),
        RepetitionType::Yearly(_) => RepetitionType::Yearly(c),
        RepetitionType::ConstGap { gap, count } => RepetitionType::ConstGap { gap, count: c },
        _ => r,
    }
}

/// Decides what becomes of one due task (see `task_outcome`).
fn step_task<T, C: CustomRepetition>(
    handler: &C,
    task: ScheduledTask<T>,
    now: &Timestamp,
    consume: bool,
) -> (r: Result<ScheduledTask<T>, ScheduledTask<T>>)
    requires
        valid_task(*handler, task),
    ensures
        r == task_outcome(*handler, task, *now, consume),
{
    let mut task = task;
    match task.repetition {
        RepetitionType::Once => Err(task),
        RepetitionType::Custom => match handler.update_date(now, &task.date) {
            Some(d) => {
                task.date = d;
                Ok(task)
            },
            None => Err(task),
        },
        _ => {
            let rule = task.repetition;
            if consume {
                let mut c = count_in(rule);
                let finished = c.is_finished_on_update();
                task.repetition = rule_with_count(rule, c);
                if finished {
                    return Err(task);
                }
            }
            let ok = match rule {
                RepetitionType::Weekly(_) => RepetitionHelpers::update_weekly(now, &mut task.date),
                RepetitionType::Monthly(_) => RepetitionHelpers::update_monthly(now, &mut task.date),
                RepetitionType::Yearly(_) => RepetitionHelpers::update_yearly(now, &mut task.date),
                RepetitionType::ConstGap { gap, count } => {
                    RepetitionHelpers::update_const_gap(now, &mut task.date, gap)
                },
                _ => false,
            };
            if ok {
                Ok(task)
            } else {
                Err(task)
            }
        },
    }
}

/// What the runner of a lane does next.
#[derive(PartialEq, Eq, Clone, Copy, Debug, Structural)]
pub enum NextStep {
    /// The lane is empty: the run is over.
    Finished,
    /// Wait `millis` milliseconds in the given way, then fire the earliest task.
    Sleep { millis: u64, sleep_type: SleepType },
    /// The earliest task's due date lies before the present instant, so no wait reaches it.
    OutOfRange(Timestamp),
}

/// The tasks of one lane during a run: those still in it, kept sorted by due date, and those
/// that left it, in the order in which they left.
#[derive(Debug)]
pub struct SchedulerReadingHandler<TaskType> {
    current_tasks: Vec<ScheduledTask<TaskType>>,
    removed_tasks: Vec<ScheduledTask<TaskType>>,
}

impl<TaskType> SchedulerReadingHandler<TaskType> {
    /// The tasks still in the lane.
    pub closed spec fn current(&self) -> Seq<ScheduledTask<TaskType>> {
        self.current_tasks@
    }

    /// The tasks that left the lane.
    pub closed spec fn removed(&self) -> Seq<ScheduledTask<TaskType>> {
        self.removed_tasks@
    }

    /// Takes the tasks of a lane, sorted by due date; none has left yet.
    pub fn new(current_tasks: Vec<ScheduledTask<TaskType>>) -> (r: Self)
        ensures
            r.current() == sort_by_due(current_tasks@),
            is_sorted(r.current()),
            r.removed() == Seq::<ScheduledTask<TaskType>>::empty(),
    {
        proof {
            lemma_sort_by_due(current_tasks@);
        }
        SchedulerReadingHandler { current_tasks: sort_tasks(current_tasks), removed_tasks: Vec::new() }
    }

    /// The tasks still in the lane.
    pub fn current_tasks(&self) -> (r: &Vec<ScheduledTask<TaskType>>)
        ensures
            r@ == self.current(),
    {
        &self.current_tasks
    }

    /// The tasks that left the lane.
    pub fn removed_tasks(&self) -> (r: &Vec<ScheduledTask<TaskType>>)
        ensures
            r@ == self.removed(),
    {
        &self.removed_tasks
    }

    /// Moves the task at `index` out of the lane.
    pub fn remove_task(&mut self, index: usize)
        requires
            index < old(self).current().len(),
        ensures
            final(self).current() == old(self).current().remove(index as int),
            final(self).removed() == old(self).removed().push(old(self).current()[index as int]),
    {
        let t = self.current_tasks.remove(index);
        self.removed_tasks.push(t);
    }

    /// The earliest task of the lane.
    pub fn get_current_task(&self) -> (r: Option<&ScheduledTask<TaskType>>)
        ensures
            r is None <==> self.current().len() == 0,
            r matches Some(t) ==> *t == self.current()[0],
    {
        if self.current_tasks.len() > 0 {
            Some(&self.current_tasks[0])
        } else {
            None
        }
    }

    /// What to do next at `now`: finish on an empty lane, else wait until the earliest task is
    /// due, unless it is due before `now`.
    pub fn next_step(&self, now: &Timestamp) -> (r: NextStep)
        ensures
            self.current().len() == 0 ==> r == NextStep::Finished,
            self.current().len() > 0 ==> {
                let t = self.current()[0];
                if t.date.millis >= now.millis {
                    r == (NextStep::Sleep {
                        millis: (t.date.millis - now.millis) as u64,
                        sleep_type: t.sleep_type,
                    })
                } else {
                    r == NextStep::OutOfRange(t.date)
                }
            },
    {
        if self.current_tasks.len() == 0 {
            return NextStep::Finished;
        }
        let t = &self.current_tasks[0];
        if t.date.millis >= now.millis {
            let wait: u64 = (t.date.millis as i128 - now.millis as i128) as u64;
            NextStep::Sleep { millis: wait, sleep_type: t.sleep_type }
        } else {
            NextStep::OutOfRange(t.date)
        }
    }

    /// One pass over the tasks due at `now` (see `lane_after_pass` and `left_in_pass`).
    fn advance_due<C: CustomRepetition>(&mut self, handler: &C, now: &Timestamp, consume: bool)
        requires
            all_valid(*handler, old(self).current()),
        ensures
            final(self).current() == lane_after_pass(*handler, old(self).current(), *now, consume),
            final(self).removed() == old(self).removed() + left_in_pass(
                *handler,
                old(self).current(),
                *now,
                consume,
            ),
            all_valid(*handler, final(self).current()),
            is_sorted(final(self).current()),
    {
        let ghost s = self.current_tasks@;
        let ghost removed0 = self.removed_tasks@;
        let p = due_prefix_length(&self.current_tasks, now.millis);
        let mut kept: Vec<ScheduledTask<TaskType>> = Vec::new();
        let mut i: usize = 0;
        while i < p
            invariant
                p <= s.len(),
                i <= p,
                all_valid(*handler, s),
                self.current_tasks@ == s.subrange(i as int, s.len() as int),
                kept@ == kept_of(*handler, s.subrange(0, i as int), *now, consume),
                self.removed_tasks@ == removed0 + left_of(
                    *handler,
                    s.subrange(0, i as int),
                    *now,
                    consume,
                ),
            decreases p - i,
        {
            assert(self.current_tasks@.len() == s.len() - i);
            let t = self.current_tasks.remove(0);
            assert(t == s[i as int]);
            assert(valid_task(*handler, s[i as int]));
            let ghost next = s.subrange(0, i + 1);
            assert(next.drop_last() =~= s.subrange(0, i as int));
            assert(next.last() == s[i as int]);
            match step_task(handler, t, now, consume) {
                Ok(u) => kept.push(u),
                Err(u) => self.removed_tasks.push(u),
            }
            i = i + 1;
            assert(self.current_tasks@ =~= s.subrange(i as int, s.len() as int));
            assert(self.removed_tasks@ =~= removed0 + left_of(*handler, next, *now, consume));
        }
        kept.append(&mut self.current_tasks);
        proof {
            lemma_kept_valid(*handler, s.subrange(0, p as int), *now, consume);
            let all = kept@;
            assert forall|j: int| 0 <= j < all.len() implies valid_task(*handler, #[trigger] all[j]) by {
                let k = kept_of(*handler, s.subrange(0, p as int), *now, consume);
                if j >= k.len() {
                    assert(all[j] == s[p + (j - k.len())]);
                } else {
                    assert(all[j] == k[j]);
                }
            }
            lemma_sort_valid(*handler, all);
        }
        proof {
            lemma_sort_by_due(kept@);
        }
        self.current_tasks = sort_tasks(kept);
    }

    /// The catch-up pass, run once before a lane starts: every task due at `now` moves on
    /// without firing and without using up its budget; `Once` tasks leave, and `Custom` tasks
    /// whose handler says so.
    pub fn update_outdated_tasks<C: CustomRepetition>(&mut self, handler: &C, now: &Timestamp)
        requires
            all_valid(*handler, old(self).current()),
        ensures
            final(self).current() == lane_after_pass(*handler, old(self).current(), *now, false),
            final(self).removed() == old(self).removed() + left_in_pass(
                *handler,
                old(self).current(),
                *now,
                false,
            ),
            all_valid(*handler, final(self).current()),
            is_sorted(final(self).current()),
    {
        self.advance_due(handler, now, false)
    }

    /// The fire pass, run after each firing: every task due at `now` uses up one occurrence of
    /// its budget and leaves if it is exhausted, else moves on.
    pub fn update_outdated_tasks_and_repetition_count<C: CustomRepetition>(
        &mut self,
        handler: &C,
        now: &Timestamp,
    )
        requires
            all_valid(*handler, old(self).current()),
        ensures
            final(self).current() == lane_after_pass(*handler, old(self).current(), *now, true),
            final(self).removed() == old(self).removed() + left_in_pass(
                *handler,
                old(self).current(),
                *now,
                true,
            ),
            all_valid(*handler, final(self).current()),
            is_sorted(final(self).current()),
    {
        self.advance_due(handler, now, true)
    }
}

/// Whether every task of `s` follows the `Once` rule.
pub open spec fn all_once<T>(s: Seq<ScheduledTask<T>>) -> bool {
    forall|i: int| 0 <= i < s.len() ==> (#[trigger] s[i]).repetition is Once
}

/// The lane after a series of passes, each at its instant, with or without using up budgets.
pub open spec fn lane_after_passes<T, C: CustomRepetition>(
    h: C,
    s: Seq<ScheduledTask<T>>,
    passes: Seq<(Timestamp, bool)>,
) -> Seq<ScheduledTask<T>>
    decreases passes.len(),
{
    if passes.len() == 0 {
        s
    } else {
        let before = lane_after_passes(h, s, passes.drop_last());
        lane_after_pass(h, before, passes.last().0, passes.last().1)
    }
}

/// The tasks that leave the lane over a series of passes, in the order in which they leave.
pub open spec fn left_in_passes<T, C: CustomRepetition>(
    h: C,
    s: Seq<ScheduledTask<T>>,
    passes: Seq<(Timestamp, bool)>,
) -> Seq<ScheduledTask<T>>
    decreases passes.len(),
{
    if passes.len() == 0 {
        Seq::empty()
    } else {
        let before = lane_after_passes(h, s, passes.drop_last());
        left_in_passes(h, s, passes.drop_last()) + left_in_pass(
            h,
            before,
            passes.last().0,
            passes.last().1,
        )
    }
}

proof fn lemma_once_outcomes<T, C: CustomRepetition>(
    h: C,
    s: Seq<ScheduledTask<T>>,
    now: Timestamp,
    consume: bool,
)
    requires
        all_once(s),
    ensures
        kept_of(h, s, now, consume) == Seq::<ScheduledTask<T>>::empty(),
        left_of(h, s, now, consume) == s,
    decreases s.len(),
{
    if s.len() > 0 {
        assert(s[s.len() - 1].repetition is Once);
        lemma_once_outcomes(h, s.drop_last(), now, consume);
        assert(s.drop_last().push(s.last()) =~= s);
    }
}

proof fn lemma_sort_keeps_once<T>(s: Seq<ScheduledTask<T>>)
    requires
        all_once(s),
    ensures
        all_once(sort_by_due(s)),
    decreases s.len(),
{
    if s.len() > 0 {
        let init = s.drop_last();
        assert(s[s.len() - 1].repetition is Once);
        lemma_sort_keeps_once(init);
        let si = sort_by_due(init);
        lemma_due_prefix_len(si, s.last().date.millis);
        let p = due_prefix_len(si, s.last().date.millis) as int;
        let r = sort_by_due(s);
        assert forall|i: int| 0 <= i < r.len() implies (#[trigger] r[i]).repetition is Once by {
            if i < p {
                assert(r[i] == si[i]);
            } else if i > p {
                assert(r[i] == si[i - 1]);
            }
        }
    }
}

/// In a sorted lane of `Once` tasks, a pass at any instant takes out exactly the tasks due by
/// then, in their order, and leaves the others as they were, still sorted.
pub proof fn lemma_once_lane_pass<T, C: CustomRepetition>(
    h: C,
    s: Seq<ScheduledTask<T>>,
    now: Timestamp,
    consume: bool,
)
    requires
        is_sorted(s),
        all_once(s),
    ensures
        left_in_pass(h, s, now, consume) == s.subrange(0, due_prefix_len(s, now.millis) as int),
        left_in_pass(h, s, now, consume) + lane_after_pass(h, s, now, consume) == s,
        is_sorted(lane_after_pass(h, s, now, consume)),
        all_once(lane_after_pass(h, s, now, consume)),
{
    lemma_due_prefix_len(s, now.millis);
    let p = due_prefix_len(s, now.millis) as int;
    let pre = s.subrange(0, p);
    let suf = s.subrange(p, s.len() as int);
    assert(all_once(pre)) by {
        assert forall|i: int| 0 <= i < pre.len() implies (#[trigger] pre[i]).repetition is Once by {
            assert(pre[i] == s[i]);
        }
    }
    lemma_once_outcomes(h, pre, now, consume);
    assert(is_sorted(suf)) by {
        assert forall|i: int, j: int| 0 <= i <= j < suf.len() implies suf[i].date.millis
            <= suf[j].date.millis by {
            assert(suf[i] == s[p + i] && suf[j] == s[p + j]);
        }
    }
    assert(Seq::<ScheduledTask<T>>::empty() + suf =~= suf);
    lemma_sort_by_due(suf);
    assert(pre + suf =~= s);
    assert(all_once(suf)) by {
        assert forall|i: int| 0 <= i < suf.len() implies (#[trigger] suf[i]).repetition is Once by {
            assert(suf[i] == s[p + i]);
        }
    }
}

/// A lane of `Once` tasks, run through any series of passes, loses its tasks in due-date
/// order: what has left, followed by what remains, is always the lane sorted by due date, so a
/// run that empties the lane has moved every task out in due-date order.
pub proof fn lemma_once_lane_run<T, C: CustomRepetition>(
    h: C,
    s: Seq<ScheduledTask<T>>,
    passes: Seq<(Timestamp, bool)>,
)
    requires
        all_once(s),
    ensures
        left_in_passes(h, sort_by_due(s), passes) + lane_after_passes(h, sort_by_due(s), passes)
            == sort_by_due(s),
        lane_after_passes(h, sort_by_due(s), passes).len() == 0 ==> left_in_passes(
            h,
            sort_by_due(s),
            passes,
        ) == sort_by_due(s),
        is_sorted(lane_after_passes(h, sort_by_due(s), passes)),
        all_once(lane_after_passes(h, sort_by_due(s), passes)),
    decreases passes.len(),
{
    let q = sort_by_due(s);
    lemma_sort_by_due(s);
    lemma_sort_keeps_once(s);
    if passes.len() == 0 {
        assert(Seq::<ScheduledTask<T>>::empty() + q =~= q);
    } else {
        let init = passes.drop_last();
        lemma_once_lane_run(h, s, init);
        let before = lane_after_passes(h, q, init);
        let (now, consume) = passes.last();
        lemma_once_lane_pass(h, before, now, consume);
        let l0 = left_in_passes(h, q, init);
        let l1 = left_in_pass(h, before, now, consume);
        let after = lane_after_pass(h, before, now, consume);
        assert(l0 + l1 + after =~= l0 + (l1 + after));
    }
    if lane_after_passes(h, q, passes).len() == 0 {
        assert(left_in_passes(h, q, passes) + lane_after_passes(h, q, passes) =~= left_in_passes(h, q, passes));
    }
}

/// A named lane and its tasks.
#[derive(Clone, Debug)]
pub struct Lane<TaskType> {
    pub name: String,
    pub tasks: Vec<ScheduledTask<TaskType>>,
}

/// Why a scheduler could not be built or a lane could not run to its end.
#[derive(Clone, Debug, PartialEq, Eq)]
pub enum SchedulerError {
    /// No lane has this name.
    UnknownLane(String),
    /// The earliest task of the lane was due before the present instant when the runner came to
    /// wait for it.
    DateOutOfRange(Timestamp),
    /// The lane holds a `Custom` task but the scheduler has no handler for it.
    MisconfiguredCustomRepetition,
    /// The lane holds a `ConstGap` task whose gap is not positive.
    InvalidGap,
    /// Two lanes given to the constructor share this name.
    DuplicateLane(String),
}

/// Whether lane `i` of `ls` is named `name`.
pub open spec fn lane_at<T>(ls: Seq<Lane<T>>, name: Seq<char>, i: int) -> bool {
    0 <= i < ls.len() && ls[i].name@ == name
}

pub open spec fn has_lane<T>(ls: Seq<Lane<T>>, name: Seq<char>) -> bool {
    exists|i: int| lane_at(ls, name, i)
}

pub open spec fn unique_names<T>(ls: Seq<Lane<T>>) -> bool {
    forall|i: int, j: int| 0 <= i < j < ls.len() ==> ls[i].name@ != ls[j].name@
}

/// Whether every lane of `lanes` has an entry in `history`.
pub open spec fn covers<T>(history: Seq<Lane<T>>, lanes: Seq<Lane<T>>) -> bool {
    forall|i: int| 0 <= i < lanes.len() ==> has_lane(history, #[trigger] lanes[i].name@)
}

/// Whether some task of `s` follows the `Custom` rule.
pub open spec fn has_custom<T>(s: Seq<ScheduledTask<T>>) -> bool {
    exists|i: int| 0 <= i < s.len() && s[i].repetition is Custom
}

/// Whether a rule has a constant gap that is not positive.
pub open spec fn bad_gap(r: RepetitionType) -> bool {
    r matches RepetitionType::ConstGap { gap, count } && gap <= 0
}

/// Whether some task of `s` has a constant gap that is not positive.
pub open spec fn has_bad_gap<T>(s: Seq<ScheduledTask<T>>) -> bool {
    exists|i: int| 0 <= i < s.len() && bad_gap(#[trigger] s[i].repetition)
}

/// The first position in `ls` before `end` of a lane named `name`.
fn find_lane_before<T>(ls: &Vec<Lane<T>>, name: &String, end: usize) -> (r: Option<usize>)
    requires
        end <= ls.len(),
    ensures
        r matches Some(i) ==> i < end && lane_at(ls@, name@, i as int),
        r is None ==> forall|i: int| 0 <= i < end ==> !lane_at(ls@, name@, i),
{
    let mut i: usize = 0;
    while i < end
        invariant
            end <= ls.len(),
            forall|j: int| 0 <= j < i ==> !lane_at(ls@, name@, j),
        decreases end - i,
    {
        if ls[i].name == *name {
            return Some(i);
        }
        i = i + 1;
    }
    None
}

/// The position of the lane named `name`.
fn find_lane<T>(ls: &Vec<Lane<T>>, name: &String) -> (r: Option<usize>)
    ensures
        r matches Some(i) ==> lane_at(ls@, name@, i as int),
        r is None ==> !has_lane(ls@, name@),
{
    find_lane_before(ls, name, ls.len())
}

/// A lane of `ls` whose name an earlier lane has, if any.
fn find_duplicate<T>(ls: &Vec<Lane<T>>) -> (r: Option<usize>)
    ensures
        r matches Some(j) ==> j < ls.len() && exists|i: int| 0 <= i < j && ls@[i].name@ == ls@[j as int].name@,
        r is None <==> unique_names(ls@),
{
    let mut j: usize = 0;
    while j < ls.len()
        invariant
            j <= ls.len(),
            unique_names(ls@.subrange(0, j as int)),
        decreases ls.len() - j,
    {
        match find_lane_before(ls, &ls[j].name, j) {
            Some(i) => {
                assert(ls@[i as int].name@ == ls@[j as int].name@);
                assert(!unique_names(ls@));
                return Some(j);
            },
            None => {},
        }
        let ghost pre = ls@.subrange(0, j + 1);
        assert forall|a: int, b: int| #![trigger pre[a], pre[b]] 0 <= a < b < j + 1 implies pre[a].name@
            != pre[b].name@ by {
            if b < j {
                assert(ls@.subrange(0, j as int)[a] == ls@[a]);
                assert(ls@.subrange(0, j as int)[b] == ls@[b]);
            } else {
                assert(!lane_at(ls@, ls@[j as int].name@, a));
            }
        }
        j = j + 1;
    }
    assert(ls@.subrange(0, j as int) =~= ls@);
    None
}

/// Gives every lane of `scheduled_tasks` an entry in `removed_tasks`, adding an empty one where
/// it has none; the entries there are kept.
fn format_removed_tasks<T>(scheduled_tasks: &Vec<Lane<T>>, removed_tasks: &mut Vec<Lane<T>>)
    ensures
        covers(final(removed_tasks)@, scheduled_tasks@),
        old(removed_tasks)@.len() <= final(removed_tasks)@.len(),
        final(removed_tasks)@.subrange(0, old(removed_tasks)@.len() as int) == old(removed_tasks)@,
        forall|j: int|
            old(removed_tasks)@.len() <= j < final(removed_tasks)@.len() ==> {
                &&& (#[trigger] final(removed_tasks)@[j]).tasks@.len() == 0
                &&& has_lane(scheduled_tasks@, final(removed_tasks)@[j].name@)
                &&& !has_lane(old(removed_tasks)@, final(removed_tasks)@[j].name@)
            },
        unique_names(old(removed_tasks)@) ==> unique_names(final(removed_tasks)@),
{
    let ghost r0 = removed_tasks@;
    let mut i: usize = 0;
    while i < scheduled_tasks.len()
        invariant
            i <= scheduled_tasks.len(),
            forall|k: int| 0 <= k < i ==> has_lane(removed_tasks@, #[trigger] scheduled_tasks@[k].name@),
            r0.len() <= removed_tasks@.len(),
            removed_tasks@.subrange(0, r0.len() as int) == r0,
            forall|j: int|
                r0.len() <= j < removed_tasks@.len() ==> {
                    &&& (#[trigger] removed_tasks@[j]).tasks@.len() == 0
                    &&& has_lane(scheduled_tasks@, removed_tasks@[j].name@)
                    &&& !has_lane(r0, removed_tasks@[j].name@)
                },
            unique_names(r0) ==> unique_names(removed_tasks@),
        decreases scheduled_tasks.len() - i,
    {
        let ghost before = removed_tasks@;
        match find_lane(removed_tasks, &scheduled_tasks[i].name) {
            Some(_) => {},
            None => {
                let name = scheduled_tasks[i].name.clone();
                removed_tasks.push(Lane { name, tasks: Vec::new() });
                proof {
                    let n = removed_tasks@.len() - 1;
                    assert(lane_at(removed_tasks@, scheduled_tasks@[i as int].name@, n));
                    assert(lane_at(scheduled_tasks@, removed_tasks@[n].name@, i as int));
                    assert forall|k: int| 0 <= k < i implies has_lane(removed_tasks@, #[trigger] scheduled_tasks@[k].name@) by {
                        assert(has_lane(before, scheduled_tasks@[k].name@));
                        let w = choose|w: int| lane_at(before, scheduled_tasks@[k].name@, w);
                        assert(lane_at(removed_tasks@, scheduled_tasks@[k].name@, w));
                    }
                    assert(removed_tasks@.subrange(0, r0.len() as int) =~= before.subrange(0, r0.len() as int));
                    if unique_names(r0) {
                        let now_l = removed_tasks@;
                        assert forall|a: int, b: int| #![trigger now_l[a], now_l[b]] 0 <= a < b < now_l.len()
                            implies now_l[a].name@ != now_l[b].name@ by {
                            if b < n {
                                assert(now_l[a] == before[a] && now_l[b] == before[b]);
                            } else {
                                assert(now_l[a] == before[a]);
                                assert(!lane_at(before, scheduled_tasks@[i as int].name@, a));
                            }
                        }
                    }
                    assert forall|a: int| 0 <= a < r0.len() implies !lane_at(r0, removed_tasks@[n].name@, a) by {
                        assert(r0[a] == before[a]);
                        assert(!lane_at(before, removed_tasks@[n].name@, a));
                    }
                }
            },
        }
        proof {
            assert(has_lane(removed_tasks@, scheduled_tasks@[i as int].name@));
        }
        i = i + 1;
    }
}

/// The scheduler: the tasks of each lane, and for each lane the tasks that have left it.
///
/// Well-formed (`wf`): lane names are unique in both, and every lane has an entry in the
/// history.
#[derive(Clone, Debug)]
pub struct BlockingScheduler<TaskType, CustomRepetitionType> {
    scheduled_tasks: Vec<Lane<TaskType>>,
    removed_tasks: Vec<Lane<TaskType>>,
    custom_repetition: CustomRepetitionType,
}

impl<TaskType, CustomRepetitionType: CustomRepetition> BlockingScheduler<TaskType, CustomRepetitionType> {
    /// The lanes and the tasks in them.
    pub closed spec fn lanes(&self) -> Seq<Lane<TaskType>> {
        self.scheduled_tasks@
    }

    /// For each lane name, the tasks that left that lane.
    pub closed spec fn history(&self) -> Seq<Lane<TaskType>> {
        self.removed_tasks@
    }

    /// The handler of `Custom` tasks.
    pub closed spec fn handler(&self) -> CustomRepetitionType {
        self.custom_repetition
    }

    pub open spec fn wf(&self) -> bool {
        &&& unique_names(self.lanes())
        &&& unique_names(self.history())
        &&& covers(self.history(), self.lanes())
    }

    /// Builds a scheduler from its lanes, its earlier history and a handler of `Custom` tasks.
    /// The lanes are kept as given; the history keeps its entries and gains an empty one for
    /// each lane that it lacks. A history that has an entry for every lane is kept exactly, so
    /// a scheduler rebuilt from its own lanes and history (as when it is read back from a
    /// serialized copy) has the same lanes and history. Fails when a name occurs twice among
    /// the lanes or in the history.
    pub fn new_with_custom_repetition(
        scheduled_tasks: Vec<Lane<TaskType>>,
        removed_tasks: Vec<Lane<TaskType>>,
        custom_repetition: CustomRepetitionType,
    ) -> (r: Result<Self, SchedulerError>)
        ensures
            r is Ok <==> unique_names(scheduled_tasks@) && unique_names(removed_tasks@),
            r matches Err(e) ==> (e matches SchedulerError::DuplicateLane(n) && (has_lane(
                scheduled_tasks@,
                n@,
            ) || has_lane(removed_tasks@, n@))),
            r matches Ok(s) ==> {
                &&& s.wf()
                &&& s.lanes() == scheduled_tasks@
                &&& s.handler() == custom_repetition
                &&& removed_tasks@.len() <= s.history().len()
                &&& s.history().subrange(0, removed_tasks@.len() as int) == removed_tasks@
                &&& covers(removed_tasks@, scheduled_tasks@) ==> s.history() == removed_tasks@
                &&& forall|j: int|
                    removed_tasks@.len() <= j < s.history().len() ==> {
                        &&& (#[trigger] s.history()[j]).tasks@.len() == 0
                        &&& has_lane(scheduled_tasks@, s.history()[j].name@)
                        &&& !has_lane(removed_tasks@, s.history()[j].name@)
                    }
            },
    {
        match find_duplicate(&scheduled_tasks) {
            Some(j) => {
                let name = scheduled_tasks[j].name.clone();
                assert(lane_at(scheduled_tasks@, name@, j as int));
                return Err(SchedulerError::DuplicateLane(name));
            },
            None => {},
        }
        match find_duplicate(&removed_tasks) {
            Some(j) => {
                let name = removed_tasks[j].name.clone();
                assert(lane_at(removed_tasks@, name@, j as int));
                return Err(SchedulerError::DuplicateLane(name));
            },
            None => {},
        }
        let ghost given = removed_tasks@;
        let mut removed_tasks = removed_tasks;
        format_removed_tasks(&scheduled_tasks, &mut removed_tasks);
        proof {
            if covers(given, scheduled_tasks@) && removed_tasks@.len() > given.len() {
                let extra = removed_tasks@[given.len() as int];
                let k = choose|k: int| lane_at(scheduled_tasks@, extra.name@, k);
                assert(has_lane(given, scheduled_tasks@[k].name@));
            }
            if covers(given, scheduled_tasks@) {
                assert(removed_tasks@ =~= removed_tasks@.subrange(0, given.len() as int));
            }
        }
        Ok(BlockingScheduler { scheduled_tasks, removed_tasks, custom_repetition })
    }

    /// The lanes and the tasks in them.
    pub fn scheduled_tasks(&self) -> (r: &Vec<Lane<TaskType>>)
        ensures
            r@ == self.lanes(),
    {
        &self.scheduled_tasks
    }

    /// The tasks that left each lane.
    pub fn removed_tasks(&self) -> (r: &Vec<Lane<TaskType>>)
        ensures
            r@ == self.history(),
    {
        &self.removed_tasks
    }

    /// The handler of `Custom` tasks.
    pub fn custom_repetition(&self) -> (r: &CustomRepetitionType)
        ensures
            *r == self.handler(),
    {
        &self.custom_repetition
    }

    /// Whether a lane is named `mode`.
    pub fn has_mode(&self, mode: &str) -> (r: bool)
        ensures
            r == has_lane(self.lanes(), mode@),
    {
        find_lane(&self.scheduled_tasks, &mode.to_owned()).is_some()
    }

    /// The tasks that left the lane named `mode`, if the history has an entry for it.
    pub fn removed_from(&self, mode: &str) -> (r: Option<&Vec<ScheduledTask<TaskType>>>)
        requires
            self.wf(),
        ensures
            r is None <==> !has_lane(self.history(), mode@),
            r matches Some(v) ==> forall|j: int| lane_at(self.history(), mode@, j) ==> v@ == self.history()[j].tasks@,
    {
        match find_lane(&self.removed_tasks, &mode.to_owned()) {
            Some(j) => Some(&self.removed_tasks[j].tasks),
            None => None,
        }
    }
}

/// Checks that every task of a lane can be handled: a `Custom` task needs a handler, and a gap
/// must be positive.
fn check_tasks<T, C: CustomRepetition>(tasks: &Vec<ScheduledTask<T>>, handler: &C) -> (r: Result<(), SchedulerError>)
    ensures
        r is Ok <==> all_valid(*handler, tasks@),
        r is Ok <==> !(has_custom(tasks@) && !handler.handles_custom()) && !has_bad_gap(tasks@),
        r matches Err(e) ==> (if has_custom(tasks@) && !handler.handles_custom() {
            e == SchedulerError::MisconfiguredCustomRepetition
        } else {
            e == SchedulerError::InvalidGap
        }),
{
    let available = handler.is_available();
    let mut custom = false;
    let mut bad = false;
    let mut i: usize = 0;
    while i < tasks.len()
        invariant
            i <= tasks.len(),
            custom <==> exists|j: int| 0 <= j < i && tasks@[j].repetition is Custom,
            bad <==> exists|j: int| 0 <= j < i && bad_gap(#[trigger] tasks@[j].repetition),
        decreases tasks.len() - i,
    {
        match tasks[i].repetition {
            RepetitionType::Custom => {
                custom = true;
            },
            RepetitionType::ConstGap { gap, count } => {
                if gap <= 0 {
                    bad = true;
                }
            },
            _ => {},
        }
        proof {
            if tasks@[i as int].repetition is Custom {
                assert(exists|j: int| 0 <= j < i + 1 && tasks@[j].repetition is Custom);
            }
            if bad_gap(tasks@[i as int].repetition) {
                assert(exists|j: int| 0 <= j < i + 1 && bad_gap(#[trigger] tasks@[j].repetition));
            }
        }
        i = i + 1;
    }
    proof {
        if !(custom && !available) && !bad {
            assert forall|j: int| 0 <= j < tasks@.len() implies valid_task(*handler, #[trigger] tasks@[j]) by {
                if tasks@[j].repetition is Custom {
                    assert(custom);
                }
                if bad_gap(tasks@[j].repetition) {
                    assert(bad);
                }
            }
        } else if custom && !available {
            let j = choose|j: int| 0 <= j < tasks@.len() && tasks@[j].repetition is Custom;
            assert(!valid_task(*handler, tasks@[j]));
        } else {
            let j = choose|j: int| 0 <= j < tasks@.len() && bad_gap(#[trigger] tasks@[j].repetition);
            assert(!valid_task(*handler, tasks@[j]));
        }
    }
    if custom && !available {
        Err(SchedulerError::MisconfiguredCustomRepetition)
    } else if bad {
        Err(SchedulerError::InvalidGap)
    } else {
        Ok(())
    }
}

impl<TaskType, CustomRepetitionType: CustomRepetition> BlockingScheduler<TaskType, CustomRepetitionType> {
    /// Starts a run of the lane named `mode` at `now`: takes its tasks out of the lane, sorted
    /// by due date, and runs the catch-up pass over them. Fails, changing nothing, when no lane
    /// has that name, when the lane holds a `Custom` task and no handler is configured, or when
    /// it holds a gap that is not positive.
    pub fn start_lane(&mut self, mode: &str, now: &Timestamp) -> (r: Result<SchedulerReadingHandler<TaskType>, SchedulerError>)
        requires
            old(self).wf(),
        ensures
            final(self).wf(),
            final(self).history() == old(self).history(),
            final(self).handler() == old(self).handler(),
            !has_lane(old(self).lanes(), mode@) ==> (r matches Err(SchedulerError::UnknownLane(n))
                && n@ == mode@) && final(self).lanes() == old(self).lanes(),
            forall|i: int|
                lane_at(old(self).lanes(), mode@, i) ==> {
                    let s = old(self).lanes()[i].tasks@;
                    let h = old(self).handler();
                    if has_custom(s) && !h.handles_custom() {
                        r == Err::<SchedulerReadingHandler<TaskType>, SchedulerError>(SchedulerError::MisconfiguredCustomRepetition)
                            && final(self).lanes() == old(self).lanes()
                    } else if has_bad_gap(s) {
                        r == Err::<SchedulerReadingHandler<TaskType>, SchedulerError>(SchedulerError::InvalidGap)
                            && final(self).lanes() == old(self).lanes()
                    } else {
                        &&& r matches Ok(run) && {
                            &&& run.current() == lane_after_pass(h, sort_by_due(s), *now, false)
                            &&& run.removed() == left_in_pass(h, sort_by_due(s), *now, false)
                            &&& all_valid(h, run.current())
                            &&& is_sorted(run.current())
                        }
                        &&& final(self).lanes().len() == old(self).lanes().len()
                        &&& final(self).lanes()[i].name == old(self).lanes()[i].name
                        &&& final(self).lanes()[i].tasks@.len() == 0
                        &&& forall|j: int|
                            0 <= j < old(self).lanes().len() && j != i ==> final(self).lanes()[j]
                                == old(self).lanes()[j]
                    }
                },
    {
        let name = mode.to_owned();
        let i = match find_lane(&self.scheduled_tasks, &name) {
            Some(i) => i,
            None => {
                return Err(SchedulerError::UnknownLane(name));
            },
        };
        match check_tasks(&self.scheduled_tasks[i].tasks, &self.custom_repetition) {
            Ok(()) => {},
            Err(e) => {
                return Err(e);
            },
        }
        let ghost old_lanes = self.scheduled_tasks@;
        let mut lane = self.scheduled_tasks.remove(i);
        let mut tasks: Vec<ScheduledTask<TaskType>> = Vec::new();
        core::mem::swap(&mut lane.tasks, &mut tasks);
        self.scheduled_tasks.insert(i, lane);
        let mut run = SchedulerReadingHandler::new(tasks);
        proof {
            lemma_sort_valid(self.custom_repetition, tasks@);
            let nl = self.scheduled_tasks@;
            assert forall|j: int| 0 <= j < nl.len() && j != i implies nl[j] == old_lanes[j] by {
                assert(nl[j] == old_lanes[j]);
            }
            assert forall|j: int| 0 <= j < nl.len() implies nl[j].name@ == old_lanes[j].name@ by {
                if j != i {
                    assert(nl[j] == old_lanes[j]);
                }
            }
            assert forall|a: int, b: int| #![trigger nl[a], nl[b]] 0 <= a < b < nl.len() implies nl[a].name@
                != nl[b].name@ by {
                assert(old_lanes[a].name@ != old_lanes[b].name@);
            }
            assert forall|j: int| 0 <= j < nl.len() implies has_lane(self.removed_tasks@, #[trigger] nl[j].name@) by {
                assert(has_lane(self.removed_tasks@, old_lanes[j].name@));
            }
            assert forall|k: int| lane_at(old_lanes, mode@, k) implies k == i by {
                if k != i {
                    assert(old_lanes[k].name@ != old_lanes[i as int].name@);
                }
            }
        }
        run.update_outdated_tasks(&self.custom_repetition, now);
        Ok(run)
    }

    /// The fire pass at `now`, run after the earliest task of the lane fired.
    pub fn update_after_firing(&self, run: &mut SchedulerReadingHandler<TaskType>, now: &Timestamp)
        requires
            all_valid(self.handler(), old(run).current()),
        ensures
            final(run).current() == lane_after_pass(self.handler(), old(run).current(), *now, true),
            final(run).removed() == old(run).removed() + left_in_pass(
                self.handler(),
                old(run).current(),
                *now,
                true,
            ),
            all_valid(self.handler(), final(run).current()),
            is_sorted(final(run).current()),
    {
        run.update_outdated_tasks_and_repetition_count(&self.custom_repetition, now)
    }

    /// Ends a run of the lane named `mode`, after it finished or failed: the tasks still in the
    /// run go back to the lane, and those that left it are appended to the lane's history.
    pub fn finish_lane(&mut self, mode: &str, run: SchedulerReadingHandler<TaskType>)
        requires
            old(self).wf(),
            has_lane(old(self).lanes(), mode@),
        ensures
            final(self).wf(),
            final(self).handler() == old(self).handler(),
            final(self).lanes().len() == old(self).lanes().len(),
            final(self).history().len() == old(self).history().len(),
            forall|i: int|
                0 <= i < old(self).lanes().len() ==> {
                    &&& final(self).lanes()[i].name == old(self).lanes()[i].name
                    &&& lane_at(old(self).lanes(), mode@, i) ==> final(self).lanes()[i].tasks@
                        == run.current()
                    &&& !lane_at(old(self).lanes(), mode@, i) ==> final(self).lanes()[i]
                        == old(self).lanes()[i]
                },
            forall|j: int|
                0 <= j < old(self).history().len() ==> {
                    &&& final(self).history()[j].name == old(self).history()[j].name
                    &&& lane_at(old(self).history(), mode@, j) ==> final(self).history()[j].tasks@
                        == old(self).history()[j].tasks@ + run.removed()
                    &&& !lane_at(old(self).history(), mode@, j) ==> final(self).history()[j]
                        == old(self).history()[j]
                },
    {
        let name = mode.to_owned();
        let ghost old_lanes = self.scheduled_tasks@;
        let ghost old_hist = self.removed_tasks@;
        let SchedulerReadingHandler { current_tasks, removed_tasks } = run;
        let mut removed_tasks = removed_tasks;
        let i = match find_lane(&self.scheduled_tasks, &name) {
            Some(i) => i,
            None => {
                return;
            },
        };
        proof {
            let w = choose|w: int| lane_at(old_lanes, mode@, w);
            assert(has_lane(old_hist, old_lanes[w].name@));
        }
        let j = match find_lane(&self.removed_tasks, &name) {
            Some(j) => j,
            None => {
                return;
            },
        };
        let mut lane = self.scheduled_tasks.remove(i);
        lane.tasks = current_tasks;
        self.scheduled_tasks.insert(i, lane);
        let mut past = self.removed_tasks.remove(j);
        past.tasks.append(&mut removed_tasks);
        self.removed_tasks.insert(j, past);
        proof {
            let nl = self.scheduled_tasks@;
            let nh = self.removed_tasks@;
            assert forall|k: int| 0 <= k < nl.len() && k != i implies nl[k] == old_lanes[k] by {
                assert(nl[k] == old_lanes[k]);
            }
            assert forall|k: int| 0 <= k < nh.len() && k != j implies nh[k] == old_hist[k] by {
                assert(nh[k] == old_hist[k]);
            }
            assert forall|k: int| lane_at(old_lanes, mode@, k) implies k == i by {
                if k != i {
                    assert(old_lanes[k].name@ != old_lanes[i as int].name@);
                }
            }
            assert forall|k: int| lane_at(old_hist, mode@, k) implies k == j by {
                if k != j {
                    assert(old_hist[k].name@ != old_hist[j as int].name@);
                }
            }
            assert forall|a: int, b: int| #![trigger nl[a], nl[b]] 0 <= a < b < nl.len() implies nl[a].name@
                != nl[b].name@ by {
                assert(old_lanes[a].name@ != old_lanes[b].name@);
            }
            assert forall|a: int, b: int| #![trigger nh[a], nh[b]] 0 <= a < b < nh.len() implies nh[a].name@
                != nh[b].name@ by {
                assert(old_hist[a].name@ != old_hist[b].name@);
            }
            assert forall|k: int| 0 <= k < nl.len() implies has_lane(nh, #[trigger] nl[k].name@) by {
                assert(has_lane(old_hist, old_lanes[k].name@));
                let w = choose|w: int| lane_at(old_hist, old_lanes[k].name@, w);
                assert(lane_at(nh, nl[k].name@, w));
            }
        }
    }
}

impl<TaskType> BlockingScheduler<TaskType, NoCustomRepetition> {
    /// Builds a scheduler without a handler of `Custom` tasks (see
    /// `new_with_custom_repetition`).
    pub fn new(
        scheduled_tasks: Vec<Lane<TaskType>>,
        removed_tasks: Vec<Lane<TaskType>>,
    ) -> (r: Result<Self, SchedulerError>)
        ensures
            r is Ok <==> unique_names(scheduled_tasks@) && unique_names(removed_tasks@),
            r matches Err(e) ==> (e matches SchedulerError::DuplicateLane(n) && (has_lane(
                scheduled_tasks@,
                n@,
            ) || has_lane(removed_tasks@, n@))),
            r matches Ok(s) ==> {
                &&& s.wf()
                &&& s.lanes() == scheduled_tasks@
                &&& removed_tasks@.len() <= s.history().len()
                &&& s.history().subrange(0, removed_tasks@.len() as int) == removed_tasks@
                &&& covers(removed_tasks@, scheduled_tasks@) ==> s.history() == removed_tasks@
                &&& forall|j: int|
                    removed_tasks@.len() <= j < s.history().len() ==> {
                        &&& (#[trigger] s.history()[j]).tasks@.len() == 0
                        &&& has_lane(scheduled_tasks@, s.history()[j].name@)
                        &&& !has_lane(removed_tasks@, s.history()[j].name@)
                    }
            },
    {
        Self::new_with_custom_repetition(scheduled_tasks, removed_tasks, NoCustomRepetition)
    }
}

} // verus!
