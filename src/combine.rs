use vstd::prelude::*;

use crate::error::AnalysisError;
use crate::task::{tasks_view, Task, TaskModel};

verus! {

/// Every combination of `tail` extended by one element of `xs`: for each
/// element of `xs` in order, each combination of `tail` in order with that
/// element appended.
pub open spec fn cross<T>(xs: Seq<T>, tail: Seq<Seq<T>>) -> Seq<Seq<T>>
    decreases xs.len(),
{
    if xs.len() == 0 {
        Seq::empty()
    } else {
        cross(xs.drop_last(), tail) + tail.map_values(|c: Seq<T>| c.push(xs.last()))
    }
}

/// The Cartesian product of the alternatives, one element chosen per position.
/// The element chosen from `alts[i]` stands at position `alts.len() - 1 - i`
/// of a combination.
pub open spec fn all_sets<T>(alts: Seq<Seq<T>>) -> Seq<Seq<T>>
    decreases alts.len(),
{
    if alts.len() == 0 {
        seq![Seq::empty()]
    } else {
        cross(alts[0], all_sets(alts.drop_first()))
    }
}

/// The product of the numbers of alternatives.
pub open spec fn product_of_counts<T>(alts: Seq<Seq<T>>) -> nat
    decreases alts.len(),
{
    if alts.len() == 0 {
        1
    } else {
        alts[0].len() * product_of_counts(alts.drop_first())
    }
}

/// The mathematical form of per-task alternatives, or of combinations.
pub open spec fn sets_view(v: Seq<Vec<Task>>) -> Seq<Seq<TaskModel>> {
    v.map_values(|c: Vec<Task>| tasks_view(c@))
}

/// Some task has no alternative.
pub open spec fn has_empty<T>(alts: Seq<Seq<T>>) -> bool {
    exists|i: int| 0 <= i < alts.len() && (#[trigger] alts[i]).len() == 0
}

/// `c` is some combination of `tail` extended by some element of `xs`.
pub open spec fn extends_one<T>(xs: Seq<T>, tail: Seq<Seq<T>>, c: Seq<T>) -> bool {
    exists|a: int, b: int| 0 <= a < xs.len() && 0 <= b < tail.len() && c == #[trigger] tail[b].push(xs[a])
}

proof fn lemma_cross_shape<T>(xs: Seq<T>, tail: Seq<Seq<T>>)
    ensures
        cross(xs, tail).len() == xs.len() * tail.len(),
        forall|k: int| 0 <= k < cross(xs, tail).len() ==> extends_one(xs, tail, #[trigger] cross(xs, tail)[k]),
    decreases xs.len(),
{
    if xs.len() > 0 {
        let p = xs.drop_last();
        lemma_cross_shape(p, tail);
        let m = tail.map_values(|c: Seq<T>| c.push(xs.last()));
        let c = cross(xs, tail);
        assert(c == cross(p, tail) + m);
        assert(xs.len() * tail.len() == p.len() * tail.len() + tail.len()) by (nonlinear_arith)
            requires
                xs.len() == p.len() + 1,
        ;
        assert forall|k: int| 0 <= k < c.len() implies extends_one(xs, tail, #[trigger] c[k]) by {
            if k < cross(p, tail).len() {
                assert(c[k] == cross(p, tail)[k]);
                assert(extends_one(p, tail, cross(p, tail)[k]));
                let (a, b) = choose|a: int, b: int|
                    0 <= a < p.len() && 0 <= b < tail.len() && cross(p, tail)[k] == #[trigger] tail[b].push(
                        p[a],
                    );
                assert(p[a] == xs[a]);
                assert(c[k] == tail[b].push(xs[a]));
            } else {
                let b = k - cross(p, tail).len();
                let a = xs.len() - 1;
                assert(c[k] == m[b]);
                assert(m[b] == tail[b].push(xs[a]));
            }
        }
    }
}

proof fn lemma_all_sets_shape<T>(alts: Seq<Seq<T>>)
    ensures
        all_sets(alts).len() == product_of_counts(alts),
        forall|k: int|
            0 <= k < all_sets(alts).len() ==> {
                &&& (#[trigger] all_sets(alts)[k]).len() == alts.len()
                &&& forall|i: int|
                    0 <= i < alts.len() ==> alts[i].contains(all_sets(alts)[k][alts.len() - 1 - i])
            },
    decreases alts.len(),
{
    if alts.len() > 0 {
        let rest = alts.drop_first();
        let tail = all_sets(rest);
        lemma_all_sets_shape(rest);
        lemma_cross_shape(alts[0], tail);
        assert forall|k: int| 0 <= k < all_sets(alts).len() implies {
            &&& (#[trigger] all_sets(alts)[k]).len() == alts.len()
            &&& forall|i: int|
                0 <= i < alts.len() ==> alts[i].contains(all_sets(alts)[k][alts.len() - 1 - i])
        } by {
            assert(extends_one(alts[0], tail, cross(alts[0], tail)[k]));
            let (a, b) = choose|a: int, b: int|
                0 <= a < alts[0].len() && 0 <= b < tail.len() && cross(alts[0], tail)[k]
                    == #[trigger] tail[b].push(alts[0][a]);
            let c = all_sets(alts)[k];
            assert(c == tail[b].push(alts[0][a]));
            assert forall|i: int| 0 <= i < alts.len() implies alts[i].contains(
                c[alts.len() - 1 - i],
            ) by {
                if i == 0 {
                    assert(c[alts.len() - 1] == alts[0][a]);
                } else {
                    assert(rest[i - 1] == alts[i]);
                    assert(tail[b][rest.len() - 1 - (i - 1)] == c[alts.len() - 1 - i]);
                }
            }
        }
    }
}

/// Over tasks with `k_1 .. k_n` alternatives there are `k_1 * .. * k_n`
/// combinations, each of length `n`, and the element at position
/// `n - 1 - i` of each is one of the alternatives of task `i`.
pub proof fn lemma_product_size<T>(alts: Seq<Seq<T>>)
    ensures
        all_sets(alts).len() == product_of_counts(alts),
        forall|k: int|
            0 <= k < all_sets(alts).len() ==> (#[trigger] all_sets(alts)[k]).len() == alts.len(),
        forall|k: int, i: int|
            0 <= k < all_sets(alts).len() && 0 <= i < alts.len() ==> alts[i].contains(
                #[trigger] all_sets(alts)[k][alts.len() - 1 - i],
            ),
{
    lemma_all_sets_shape(alts);
}

/// When every alternative of task `i` carries the identifier `ids[i]` and the
/// identifiers are distinct, each combination holds exactly one record with
/// each identifier.
pub proof fn lemma_one_record_per_task(alts: Seq<Seq<TaskModel>>, ids: Seq<Seq<char>>)
    requires
        ids.len() == alts.len(),
        forall|i: int, j: int| 0 <= i < j < ids.len() ==> ids[i] != ids[j],
        forall|i: int, a: int|
            0 <= i < alts.len() && 0 <= a < alts[i].len() ==> (#[trigger] alts[i][a]).id == ids[i],
    ensures
        forall|k: int, i: int, p: int|
            0 <= k < all_sets(alts).len() && 0 <= i < ids.len() && 0 <= p < alts.len() ==> (
            #[trigger] all_sets(alts)[k][p].id == #[trigger] ids[i] <==> p == alts.len() - 1 - i),
{
    lemma_all_sets_shape(alts);
    assert forall|k: int, i: int, p: int|
        0 <= k < all_sets(alts).len() && 0 <= i < ids.len() && 0 <= p < alts.len() implies (
        #[trigger] all_sets(alts)[k][p].id == #[trigger] ids[i] <==> p == alts.len() - 1 - i) by {
        let n = alts.len() as int;
        let j = n - 1 - p;
        assert(alts[j].contains(all_sets(alts)[k][n - 1 - j]));
        let a = choose|a: int| 0 <= a < alts[j].len() && alts[j][a] == all_sets(alts)[k][p];
        assert(alts[j][a].id == ids[j]);
    }
}

/// With a single task, each alternative forms a combination of its own.
pub proof fn lemma_single_task<T>(xs: Seq<T>)
    ensures
        all_sets(seq![xs]) == xs.map_values(|t: T| seq![t]),
    decreases xs.len(),
{
    let alts = seq![xs];
    assert(alts.drop_first() =~= Seq::<Seq<T>>::empty());
    assert(all_sets(alts.drop_first()) == seq![Seq::<T>::empty()]);
    assert(all_sets(alts) == cross(xs, seq![Seq::<T>::empty()]));
    lemma_single_cross(xs);
}

proof fn lemma_single_cross<T>(xs: Seq<T>)
    ensures
        cross(xs, seq![Seq::<T>::empty()]) == xs.map_values(|t: T| seq![t]),
    decreases xs.len(),
{
    let unit = seq![Seq::<T>::empty()];
    if xs.len() == 0 {
        assert(xs.map_values(|t: T| seq![t]) =~= Seq::<Seq<T>>::empty());
    } else {
        lemma_single_cross(xs.drop_last());
        assert(unit.map_values(|c: Seq<T>| c.push(xs.last())) =~= seq![seq![xs.last()]]);
        assert(cross(xs, unit) =~= xs.map_values(|t: T| seq![t]));
    }
}

/// A copy of one combination.
fn copy_tasks(v: &Vec<Task>) -> (r: Vec<Task>)
    ensures
        tasks_view(r@) == tasks_view(v@),
{
    let mut r: Vec<Task> = Vec::new();
    let mut i: usize = 0;
    while i < v.len()
        invariant
            i <= v@.len(),
            tasks_view(r@) == tasks_view(v@).take(i as int),
        decreases v@.len() - i,
    {
        let t = v[i].clone();
        let ghost before = r@;
        r.push(t);
        proof {
            assert(tasks_view(r@) =~= tasks_view(before).push(t@));
            assert(tasks_view(v@).take(i + 1) =~= tasks_view(v@).take(i as int).push(v@[i as int]@));
        }
        i += 1;
    }
    proof {
        assert(tasks_view(v@).take(v@.len() as int) =~= tasks_view(v@));
    }
    r
}

/// Every way of choosing one record per task: the Cartesian product of the
/// alternatives, in the order of `all_sets`.
///
/// Fails with `EmptyCombinationSpace` exactly when there is no task or some
/// task has no alternative.
pub fn get_all_sets(tasks: &[Vec<Task>]) -> (r: Result<Vec<Vec<Task>>, AnalysisError>)
    ensures
        match r {
            Ok(sets) => {
                &&& tasks@.len() > 0
                &&& !has_empty(sets_view(tasks@))
                &&& sets_view(sets@) == all_sets(sets_view(tasks@))
            },
            Err(e) => {
                &&& tasks@.len() == 0 || has_empty(sets_view(tasks@))
                &&& e == AnalysisError::EmptyCombinationSpace
            },
        },
{
    let ghost alts = sets_view(tasks@);
    if tasks.len() == 0 {
        return Err(AnalysisError::EmptyCombinationSpace);
    }
    let mut i: usize = 0;
    while i < tasks.len()
        invariant
            i <= tasks@.len(),
            alts == sets_view(tasks@),
            forall|k: int| 0 <= k < i ==> (#[trigger] alts[k]).len() > 0,
        decreases tasks@.len() - i,
    {
        if tasks[i].len() == 0 {
            proof {
                assert(alts[i as int].len() == 0);
            }
            return Err(AnalysisError::EmptyCombinationSpace);
        }
        i += 1;
    }
    let mut acc: Vec<Vec<Task>> = Vec::new();
    acc.push(Vec::new());
    proof {
        assert(alts.subrange(tasks@.len() as int, tasks@.len() as int) =~= Seq::<Seq<TaskModel>>::empty());
        assert(tasks_view(acc@[0]@) =~= Seq::<TaskModel>::empty());
        assert(sets_view(acc@) =~= seq![Seq::<TaskModel>::empty()]);
    }
    let mut i: usize = tasks.len();
    while i > 0
        invariant
            i <= tasks@.len(),
            alts == sets_view(tasks@),
            sets_view(acc@) == all_sets(alts.subrange(i as int, tasks@.len() as int)),
        decreases i,
    {
        i -= 1;
        let ghost rest = alts.subrange(i + 1, tasks@.len() as int);
        let ghost here = alts.subrange(i as int, tasks@.len() as int);
        let ghost xs = alts[i as int];
        let ghost tail = sets_view(acc@);
        proof {
            assert(here[0] == xs);
            assert(here.drop_first() =~= rest);
        }
        let alternatives = &tasks[i];
        let mut next: Vec<Vec<Task>> = Vec::new();
        let mut a: usize = 0;
        while a < alternatives.len()
            invariant
                a <= alternatives@.len(),
                xs == tasks_view(alternatives@),
                tail == sets_view(acc@),
                sets_view(next@) == cross(xs.take(a as int), tail),
            decreases alternatives@.len() - a,
        {
            let ghost head = sets_view(next@);
            let mut b: usize = 0;
            while b < acc.len()
                invariant
                    a < alternatives@.len(),
                    b <= acc@.len(),
                    xs == tasks_view(alternatives@),
                    tail == sets_view(acc@),
                    sets_view(next@) == head + tail.take(b as int).map_values(
                        |c: Seq<TaskModel>| c.push(xs[a as int]),
                    ),
                decreases acc@.len() - b,
            {
                let mut c = copy_tasks(&acc[b]);
                let t = alternatives[a].clone();
                let ghost cv = tasks_view(c@);
                c.push(t);
                proof {
                    assert(tasks_view(c@) =~= cv.push(t@));
                }
                let ghost before = next@;
                next.push(c);
                proof {
                    assert(sets_view(next@) =~= sets_view(before).push(tasks_view(c@)));
                    assert(tail.take(b + 1).map_values(|c: Seq<TaskModel>| c.push(xs[a as int]))
                        =~= tail.take(b as int).map_values(|c: Seq<TaskModel>| c.push(xs[a as int])).push(
                        tail[b as int].push(xs[a as int]),
                    ));
                }
                b += 1;
            }
            proof {
                let ys = xs.take(a + 1);
                assert(ys.drop_last() =~= xs.take(a as int));
                assert(ys.last() == xs[a as int]);
                assert(tail.take(tail.len() as int) =~= tail);
                assert(cross(ys, tail) == cross(xs.take(a as int), tail) + tail.map_values(
                    |c: Seq<TaskModel>| c.push(ys.last()),
                ));
                assert(tail.map_values(|c: Seq<TaskModel>| c.push(ys.last())) =~= tail.map_values(
                    |c: Seq<TaskModel>| c.push(xs[a as int]),
                ));
            }
            a += 1;
        }
        proof {
            assert(xs.take(xs.len() as int) =~= xs);
        }
        acc = next;
    }
    proof {
        assert(alts.subrange(0, tasks@.len() as int) =~= alts);
    }
    Ok(acc)
}

} // verus!
