//! Ordering the renames of a plan so that none overwrites a file that another
//! rename of the same plan still has to move: a file whose new name is the
//! current name of a file in the plan is first parked under a side name, the
//! renames onto free names go next, and the parked files go to their names last.
use vstd::prelude::*;
use vstd::string::*;
use crate::ops::pair_views;
use crate::select::views;

verus! {

/// Some rename of `plan` starts from `x`.
pub open spec fn is_source(plan: Seq<(Seq<char>, Seq<char>)>, x: Seq<char>) -> bool {
    exists|j: int| 0 <= j < plan.len() && #[trigger] plan[j].0 == x
}

/// The side name under which a file waits for its own new name.
pub open spec fn parked(p: Seq<char>) -> Seq<char> {
    p + seq!['.', '~']
}

/// First steps: each rename in `part` onto a name that a rename of `all` starts
/// from moves its file to the side name.
pub open spec fn park_steps(part: Seq<(Seq<char>, Seq<char>)>, all: Seq<(Seq<char>, Seq<char>)>) -> Seq<(Seq<char>, Seq<char>)>
    decreases part.len(),
{
    if part.len() == 0 {
        seq![]
    } else {
        let prev = park_steps(part.drop_last(), all);
        let (s, d) = part.last();
        if is_source(all, d) {
            prev.push((s, parked(s)))
        } else {
            prev
        }
    }
}

/// Middle steps: the renames in `part` onto names that no rename of `all` starts from.
pub open spec fn direct_steps(part: Seq<(Seq<char>, Seq<char>)>, all: Seq<(Seq<char>, Seq<char>)>) -> Seq<(Seq<char>, Seq<char>)>
    decreases part.len(),
{
    if part.len() == 0 {
        seq![]
    } else {
        let prev = direct_steps(part.drop_last(), all);
        let (s, d) = part.last();
        if is_source(all, d) {
            prev
        } else {
            prev.push((s, d))
        }
    }
}

/// Last steps: the parked files of `part` go to their new names.
pub open spec fn unpark_steps(part: Seq<(Seq<char>, Seq<char>)>, all: Seq<(Seq<char>, Seq<char>)>) -> Seq<(Seq<char>, Seq<char>)>
    decreases part.len(),
{
    if part.len() == 0 {
        seq![]
    } else {
        let prev = unpark_steps(part.drop_last(), all);
        let (s, d) = part.last();
        if is_source(all, d) {
            prev.push((parked(s), d))
        } else {
            prev
        }
    }
}

/// The side names that the staged order of `all` uses for the renames in `part`.
pub open spec fn side_names_of(part: Seq<(Seq<char>, Seq<char>)>, all: Seq<(Seq<char>, Seq<char>)>) -> Seq<Seq<char>>
    decreases part.len(),
{
    if part.len() == 0 {
        seq![]
    } else {
        let prev = side_names_of(part.drop_last(), all);
        let (s, d) = part.last();
        if is_source(all, d) {
            prev.push(parked(s))
        } else {
            prev
        }
    }
}

/// The renames of `plan` in a safe order.
pub open spec fn staged_of(plan: Seq<(Seq<char>, Seq<char>)>) -> Seq<(Seq<char>, Seq<char>)> {
    park_steps(plan, plan) + direct_steps(plan, plan) + unpark_steps(plan, plan)
}

/// Two renames of a plan would meet on one name.
#[derive(Clone, Copy, Debug, PartialEq, Eq, Structural)]
pub enum PlanError {
    NameCollision,
}

/// Rows before `j` meet no other row on a source or a destination.
spec fn distinct_upto(pv: Seq<(Seq<char>, Seq<char>)>, j: int, n: int) -> bool {
    forall|a: int, b: int|
        0 <= a < j && 0 <= b < n && a != b ==> #[trigger] pv[a].0 != #[trigger] pv[b].0 && pv[a].1
            != pv[b].1
}

/// Rows before `j` that get parked have a side name that no row uses.
spec fn sides_free_upto(pv: Seq<(Seq<char>, Seq<char>)>, j: int, n: int) -> bool {
    forall|a: int, b: int|
        0 <= a < j && 0 <= b < n && is_source(pv, pv[a].1) ==> parked(#[trigger] pv[a].0)
            != #[trigger] pv[b].0 && parked(pv[a].0) != pv[b].1
}

/// Row `j` meets none of the first `k` other rows on a source or a destination.
spec fn row_distinct(pv: Seq<(Seq<char>, Seq<char>)>, j: int, k: int) -> bool {
    forall|b: int| 0 <= b < k && b != j ==> pv[j].0 != #[trigger] pv[b].0 && pv[j].1 != pv[b].1
}

/// Where row `j` gets parked, its side name is none of the first `k` rows' names.
spec fn row_sides_free(pv: Seq<(Seq<char>, Seq<char>)>, j: int, k: int, needed: bool) -> bool {
    forall|b: int|
        0 <= b < k && needed ==> parked(pv[j].0) != #[trigger] pv[b].0 && parked(pv[j].0) != pv[b].1
}

/// Accepts a plan whose names fit, so that its staged order is safe; fails on
/// two renames onto one name, a repeated source, or a side name that the staged
/// order would use and that the plan also uses.
pub fn check_plan(plan: &Vec<(String, String)>) -> (r: Result<(), PlanError>)
    ensures
        r is Ok <==> names_fit(pair_views(plan@)),
{
    let ghost pv = pair_views(plan@);
    let n = plan.len();
    let mut j: usize = 0;
    while j < n
        invariant
            n == plan@.len() == pv.len(),
            pv == pair_views(plan@),
            j <= n,
            distinct_upto(pv, j as int, n as int),
            sides_free_upto(pv, j as int, n as int),
        decreases n - j,
    {
        let side = with_parked_suffix(&plan[j].0);
        let needed = source_in(plan, &plan[j].1);
        let mut k: usize = 0;
        while k < n
            invariant
                n == plan@.len() == pv.len(),
                pv == pair_views(plan@),
                j < n,
                k <= n,
                side@ == parked(pv[j as int].0),
                needed == is_source(pv, pv[j as int].1),
                distinct_upto(pv, j as int, n as int),
                sides_free_upto(pv, j as int, n as int),
                row_distinct(pv, j as int, k as int),
                row_sides_free(pv, j as int, k as int, needed),
            decreases n - k,
        {
            assert(pv[j as int] == (plan@[j as int].0@, plan@[j as int].1@));
            assert(pv[k as int] == (plan@[k as int].0@, plan@[k as int].1@));
            if k != j && (plan[j].0 == plan[k].0 || plan[j].1 == plan[k].1) {
                assert(!names_fit(pv)) by {
                    if names_fit(pv) {
                        assert(pv[j as int].0 != pv[k as int].0);
                    }
                }
                return Err(PlanError::NameCollision);
            }
            if needed && (side == plan[k].0 || side == plan[k].1) {
                assert(!names_fit(pv)) by {
                    if names_fit(pv) {
                        assert(parked(pv[j as int].0) != pv[k as int].0);
                    }
                }
                return Err(PlanError::NameCollision);
            }
            assert(k != j ==> pv[j as int].0 != pv[k as int].0 && pv[j as int].1 != pv[k as int].1);
            assert(row_distinct(pv, j as int, k + 1)) by {
                assert forall|b: int|
                    0 <= b < k + 1 && b != j as int implies pv[j as int].0 != #[trigger] pv[b].0
                    && pv[j as int].1 != pv[b].1 by {
                    if b < k as int {
                        assert(row_distinct(pv, j as int, k as int));
                    }
                }
            }
            assert(needed ==> parked(pv[j as int].0) != pv[k as int].0 && parked(pv[j as int].0)
                != pv[k as int].1);
            assert(row_sides_free(pv, j as int, k + 1, needed)) by {
                assert forall|b: int| 0 <= b < k + 1 && needed implies parked(pv[j as int].0)
                    != #[trigger] pv[b].0 && parked(pv[j as int].0) != pv[b].1 by {
                    if b < k as int {
                        assert(row_sides_free(pv, j as int, k as int, needed));
                    }
                }
            }
            k = k + 1;
        }
        assert(distinct_upto(pv, j + 1, n as int)) by {
            assert forall|a: int, b: int|
                0 <= a < j + 1 && 0 <= b < n && a != b implies #[trigger] pv[a].0
                != #[trigger] pv[b].0 && pv[a].1 != pv[b].1 by {
                if a == j as int {
                    assert(pv[j as int].0 != pv[b].0);
                }
            }
        }
        assert(row_sides_free(pv, j as int, n as int, needed));
        assert(row_distinct(pv, j as int, n as int));
        assert(sides_free_upto(pv, j + 1, n as int)) by {
            assert forall|a: int, b: int|
                0 <= a < j + 1 && 0 <= b < n && is_source(pv, pv[a].1) implies parked(
                #[trigger] pv[a].0,
            ) != #[trigger] pv[b].0 && parked(pv[a].0) != pv[b].1 by {
                if a == j as int {
                    assert(parked(pv[j as int].0) != pv[b].0);
                }
            }
        }
        j = j + 1;
    }
    assert(names_fit(pv)) by {
        assert forall|a: int, b: int|
            0 <= a < pv.len() && 0 <= b < pv.len() && a != b implies #[trigger] pv[a].0
            != #[trigger] pv[b].0 && pv[a].1 != pv[b].1 by {
            assert(distinct_upto(pv, n as int, n as int));
        }
        assert forall|a: int, b: int|
            0 <= a < pv.len() && 0 <= b < pv.len() && is_source(pv, pv[a].1) implies parked(
            #[trigger] pv[a].0,
        ) != #[trigger] pv[b].0 && parked(pv[a].0) != pv[b].1 by {
            assert(sides_free_upto(pv, n as int, n as int));
        }
    }
    Ok(())
}

fn source_in(plan: &Vec<(String, String)>, x: &String) -> (r: bool)
    ensures
        r == is_source(pair_views(plan@), x@),
{
    let ghost pv = pair_views(plan@);
    let mut j: usize = 0;
    while j < plan.len()
        invariant
            j <= plan@.len(),
            pv == pair_views(plan@),
            forall|m: int| 0 <= m < j ==> pv[m].0 != x@,
        decreases plan.len() - j,
    {
        if plan[j].0 == *x {
            assert(pv[j as int].0 == x@);
            return true;
        }
        j = j + 1;
    }
    false
}

fn with_parked_suffix(p: &String) -> (r: String)
    ensures
        r@ == parked(p@),
{
    let mut r = p.clone();
    r.append(".~");
    proof {
        reveal_strlit(".~");
    }
    assert(r@ =~= parked(p@));
    r
}

/// The side names that the staged order of `plan` uses, in order.
pub fn side_names(plan: &Vec<(String, String)>) -> (r: Vec<String>)
    ensures
        views(r@) == side_names_of(pair_views(plan@), pair_views(plan@)),
{
    let ghost all = pair_views(plan@);
    let mut out: Vec<String> = Vec::new();
    let mut i: usize = 0;
    while i < plan.len()
        invariant
            i <= plan@.len(),
            all == pair_views(plan@),
            views(out@) == side_names_of(all.subrange(0, i as int), all),
        decreases plan.len() - i,
    {
        let ghost part = all.subrange(0, i + 1);
        assert(part.drop_last() =~= all.subrange(0, i as int));
        assert(part.last() == all[i as int]);
        let ghost before = views(out@);
        if source_in(plan, &plan[i].1) {
            out.push(with_parked_suffix(&plan[i].0));
            assert(views(out@) =~= before.push(parked(plan@[i as int].0@)));
        }
        i = i + 1;
    }
    assert(all.subrange(0, plan@.len() as int) =~= all);
    out
}

/// The renames of `plan`, ordered so that a file is never renamed onto the
/// current name of another file of the plan: those that would be are parked
/// under a side name first and finished last.
pub fn staged(plan: &Vec<(String, String)>) -> (r: Vec<(String, String)>)
    ensures
        pair_views(r@) == staged_of(pair_views(plan@)),
{
    let ghost all = pair_views(plan@);
    let mut park: Vec<(String, String)> = Vec::new();
    let mut direct: Vec<(String, String)> = Vec::new();
    let mut unpark: Vec<(String, String)> = Vec::new();
    let mut i: usize = 0;
    while i < plan.len()
        invariant
            i <= plan@.len(),
            all == pair_views(plan@),
            pair_views(park@) == park_steps(all.subrange(0, i as int), all),
            pair_views(direct@) == direct_steps(all.subrange(0, i as int), all),
            pair_views(unpark@) == unpark_steps(all.subrange(0, i as int), all),
        decreases plan.len() - i,
    {
        let ghost part = all.subrange(0, i + 1);
        assert(part.drop_last() =~= all.subrange(0, i as int));
        assert(part.last() == all[i as int]);
        let ghost (p0, d0, u0) = (pair_views(park@), pair_views(direct@), pair_views(unpark@));
        let s = &plan[i].0;
        let d = &plan[i].1;
        if source_in(plan, d) {
            park.push((s.clone(), with_parked_suffix(s)));
            unpark.push((with_parked_suffix(s), d.clone()));
            assert(pair_views(park@) =~= p0.push((s@, parked(s@))));
            assert(pair_views(unpark@) =~= u0.push((parked(s@), d@)));
        } else {
            direct.push((s.clone(), d.clone()));
            assert(pair_views(direct@) =~= d0.push((s@, d@)));
        }
        i = i + 1;
    }
    assert(all.subrange(0, plan@.len() as int) =~= all);
    let ghost (p0, d0, u0) = (pair_views(park@), pair_views(direct@), pair_views(unpark@));
    park.append(&mut direct);
    park.append(&mut unpark);
    assert(pair_views(park@) =~= p0 + d0 + u0);
    park
}

/// A filesystem as a map from names to contents, after renaming `step.0` to `step.1`.
pub open spec fn moved<C>(fs: Map<Seq<char>, C>, step: (Seq<char>, Seq<char>)) -> Map<Seq<char>, C> {
    if fs.contains_key(step.0) {
        fs.remove(step.0).insert(step.1, fs[step.0])
    } else {
        fs
    }
}

/// The filesystem after the steps, in order.
pub open spec fn run<C>(fs: Map<Seq<char>, C>, steps: Seq<(Seq<char>, Seq<char>)>) -> Map<Seq<char>, C>
    decreases steps.len(),
{
    if steps.len() == 0 {
        fs
    } else {
        moved(run(fs, steps.drop_last()), steps.last())
    }
}

/// A name that the plan reads or writes: a source, a destination or a side
/// name that the staged order uses.
pub open spec fn plan_name(plan: Seq<(Seq<char>, Seq<char>)>, x: Seq<char>) -> bool {
    exists|j: int|
        0 <= j < plan.len() && (x == #[trigger] plan[j].0 || x == plan[j].1 || (x == parked(
            plan[j].0,
        ) && is_source(plan, plan[j].1)))
}

/// The plan can be carried out on `fs`: its sources exist and its names fit.
pub open spec fn plan_fits<C>(fs: Map<Seq<char>, C>, plan: Seq<(Seq<char>, Seq<char>)>) -> bool {
    &&& forall|j: int| 0 <= j < plan.len() ==> fs.contains_key(#[trigger] plan[j].0)
    &&& names_fit(plan)
}

/// The sources of the plan are distinct, so are its destinations, and no side
/// name that the staged order uses is a source or a destination.
pub open spec fn names_fit(plan: Seq<(Seq<char>, Seq<char>)>) -> bool {
    &&& forall|j: int, k: int|
        0 <= j < plan.len() && 0 <= k < plan.len() && j != k ==> #[trigger] plan[j].0 != #[trigger] plan[k].0
            && plan[j].1 != plan[k].1
    &&& forall|j: int, k: int|
        0 <= j < plan.len() && 0 <= k < plan.len() && is_source(plan, plan[j].1) ==> parked(
            #[trigger] plan[j].0,
        ) != #[trigger] plan[k].0 && parked(plan[j].0) != plan[k].1
}

/// Each file of the plan sits, with its first content, at the name `at` gives
/// it; every other name holds what it held in `fs`.
pub open spec fn located<C>(
    fs: Map<Seq<char>, C>,
    now: Map<Seq<char>, C>,
    plan: Seq<(Seq<char>, Seq<char>)>,
    at: spec_fn(int) -> Seq<char>,
) -> bool {
    &&& forall|j: int|
        0 <= j < plan.len() ==> now.contains_key(#[trigger] at(j)) && now[at(j)] == fs[plan[j].0]
    &&& forall|x: Seq<char>|
        !plan_name(plan, x) ==> (#[trigger] now.contains_key(x) <==> fs.contains_key(x)) && (
        fs.contains_key(x) ==> now[x] == fs[x])
}

proof fn lemma_parked_injective(p: Seq<char>, q: Seq<char>)
    requires
        parked(p) == parked(q),
    ensures
        p == q,
{
    assert(parked(p).len() == p.len() + 2);
    assert(parked(q).len() == q.len() + 2);
    assert(p =~= parked(p).subrange(0, p.len() as int));
    assert(q =~= parked(q).subrange(0, q.len() as int));
}

proof fn lemma_move<C>(
    fs: Map<Seq<char>, C>,
    now: Map<Seq<char>, C>,
    plan: Seq<(Seq<char>, Seq<char>)>,
    at: spec_fn(int) -> Seq<char>,
    next: spec_fn(int) -> Seq<char>,
    m: int,
)
    requires
        located(fs, now, plan, at),
        0 <= m < plan.len(),
        plan_name(plan, at(m)),
        plan_name(plan, next(m)),
        forall|j: int| 0 <= j < plan.len() && j != m ==> #[trigger] next(j) == at(j) && at(j) != at(m) && at(j) != next(m),
    ensures
        located(fs, moved(now, (at(m), next(m))), plan, next),
{
    let after = moved(now, (at(m), next(m)));
    assert(now.contains_key(at(m)));
    assert forall|j: int| 0 <= j < plan.len() implies after.contains_key(#[trigger] next(j)) && after[next(j)] == fs[plan[j].0] by {
        if j != m {
            assert(next(j) == at(j));
            assert(now.contains_key(at(j)));
        }
    }
}

proof fn lemma_run_concat<C>(fs: Map<Seq<char>, C>, a: Seq<(Seq<char>, Seq<char>)>, b: Seq<(Seq<char>, Seq<char>)>)
    ensures
        run(fs, a + b) == run(run(fs, a), b),
    decreases b.len(),
{
    if b.len() == 0 {
        assert(a + b =~= a);
    } else {
        assert((a + b).drop_last() =~= a + b.drop_last());
        lemma_run_concat(fs, a, b.drop_last());
    }
}

proof fn lemma_same_places<C>(
    fs: Map<Seq<char>, C>,
    now: Map<Seq<char>, C>,
    plan: Seq<(Seq<char>, Seq<char>)>,
    at: spec_fn(int) -> Seq<char>,
    other: spec_fn(int) -> Seq<char>,
)
    requires
        located(fs, now, plan, at),
        forall|j: int| 0 <= j < plan.len() ==> #[trigger] other(j) == at(j),
    ensures
        located(fs, now, plan, other),
{
    assert forall|j: int| 0 <= j < plan.len() implies now.contains_key(#[trigger] other(j))
        && now[other(j)] == fs[plan[j].0] by {
        assert(other(j) == at(j));
    }
}

spec fn while_parking(plan: Seq<(Seq<char>, Seq<char>)>, i: int) -> spec_fn(int) -> Seq<char> {
    |j: int|
        if j < i && is_source(plan, plan[j].1) {
            parked(plan[j].0)
        } else {
            plan[j].0
        }
}

spec fn while_direct(plan: Seq<(Seq<char>, Seq<char>)>, i: int) -> spec_fn(int) -> Seq<char> {
    |j: int|
        if is_source(plan, plan[j].1) {
            parked(plan[j].0)
        } else if j < i {
            plan[j].1
        } else {
            plan[j].0
        }
}

spec fn while_unparking(plan: Seq<(Seq<char>, Seq<char>)>, i: int) -> spec_fn(int) -> Seq<char> {
    |j: int|
        if is_source(plan, plan[j].1) && i <= j {
            parked(plan[j].0)
        } else {
            plan[j].1
        }
}

proof fn lemma_fits_facts<C>(fs: Map<Seq<char>, C>, plan: Seq<(Seq<char>, Seq<char>)>)
    requires
        plan_fits(fs, plan),
    ensures
        forall|j: int, k: int|
            0 <= j < plan.len() && 0 <= k < plan.len() && j != k ==> parked(#[trigger] plan[j].0)
                != parked(#[trigger] plan[k].0),
{
    assert forall|j: int, k: int|
        0 <= j < plan.len() && 0 <= k < plan.len() && j != k implies parked(#[trigger] plan[j].0)
        != parked(#[trigger] plan[k].0) by {
        if parked(plan[j].0) == parked(plan[k].0) {
            lemma_parked_injective(plan[j].0, plan[k].0);
        }
    }
}

proof fn lemma_park_phase<C>(fs: Map<Seq<char>, C>, plan: Seq<(Seq<char>, Seq<char>)>, i: int)
    requires
        plan_fits(fs, plan),
        0 <= i <= plan.len(),
    ensures
        located(fs, run(fs, park_steps(plan.subrange(0, i), plan)), plan, while_parking(plan, i)),
    decreases i,
{
    lemma_fits_facts(fs, plan);
    let at = while_parking(plan, i);
    if i == 0 {
        let steps = park_steps(plan.subrange(0, 0), plan);
        assert(steps.len() == 0);
        assert forall|j: int| 0 <= j < plan.len() implies fs.contains_key(#[trigger] at(j))
            && fs[at(j)] == fs[plan[j].0] by {
            assert(at(j) == plan[j].0);
        }
    } else {
        let m = i - 1;
        lemma_park_phase(fs, plan, m);
        let part = plan.subrange(0, i);
        let prev = park_steps(plan.subrange(0, m), plan);
        assert(part.drop_last() =~= plan.subrange(0, m));
        assert(part.last() == plan[m]);
        let before = while_parking(plan, m);
        if is_source(plan, plan[m].1) {
            let steps = park_steps(part, plan);
            assert(steps == prev.push((plan[m].0, parked(plan[m].0))));
            assert(steps.drop_last() =~= prev);
            assert(plan_name(plan, plan[m].0));
            assert(plan_name(plan, parked(plan[m].0)));
            assert(before(m) == plan[m].0);
            assert(at(m) == parked(plan[m].0));
            assert forall|j: int| 0 <= j < plan.len() && j != m implies #[trigger] at(j) == before(j)
                && before(j) != before(m) && before(j) != at(m) by {
                assert(plan[j].0 != plan[m].0);
                if is_source(plan, plan[j].1) {
                    assert(parked(plan[j].0) != plan[m].0);
                }
                assert(parked(plan[m].0) != plan[j].0);
            }
            lemma_move(fs, run(fs, prev), plan, before, at, m);
        } else {
            assert(park_steps(part, plan) == prev);
            lemma_same_places(fs, run(fs, prev), plan, before, at);
        }
    }
}

proof fn lemma_direct_phase<C>(fs: Map<Seq<char>, C>, plan: Seq<(Seq<char>, Seq<char>)>, i: int)
    requires
        plan_fits(fs, plan),
        0 <= i <= plan.len(),
    ensures
        located(
            fs,
            run(run(fs, park_steps(plan, plan)), direct_steps(plan.subrange(0, i), plan)),
            plan,
            while_direct(plan, i),
        ),
    decreases i,
{
    lemma_fits_facts(fs, plan);
    let start = run(fs, park_steps(plan, plan));
    let at = while_direct(plan, i);
    if i == 0 {
        lemma_park_phase(fs, plan, plan.len() as int);
        assert(plan.subrange(0, plan.len() as int) =~= plan);
        assert(direct_steps(plan.subrange(0, 0), plan).len() == 0);
        lemma_same_places(fs, start, plan, while_parking(plan, plan.len() as int), at);
    } else {
        let m = i - 1;
        lemma_direct_phase(fs, plan, m);
        let part = plan.subrange(0, i);
        let prev = direct_steps(plan.subrange(0, m), plan);
        assert(part.drop_last() =~= plan.subrange(0, m));
        assert(part.last() == plan[m]);
        let before = while_direct(plan, m);
        if is_source(plan, plan[m].1) {
            assert(direct_steps(part, plan) == prev);
            lemma_same_places(fs, run(start, prev), plan, before, at);
        } else {
            let steps = direct_steps(part, plan);
            assert(steps == prev.push((plan[m].0, plan[m].1)));
            assert(steps.drop_last() =~= prev);
            assert(plan_name(plan, plan[m].0));
            assert(plan_name(plan, plan[m].1));
            assert(before(m) == plan[m].0);
            assert(at(m) == plan[m].1);
            assert forall|j: int| 0 <= j < plan.len() && j != m implies #[trigger] at(j) == before(j)
                && before(j) != before(m) && before(j) != at(m) by {
                assert(plan[j].0 != plan[m].0);
                assert(plan[j].1 != plan[m].1);
                if is_source(plan, plan[j].1) {
                    assert(parked(plan[j].0) != plan[m].0);
                    assert(parked(plan[j].0) != plan[m].1);
                }
                if !is_source(plan, plan[j].1) {
                    assert(plan[m].0 != plan[j].1);
                }
                assert(plan[j].0 != plan[m].1);
            }
            lemma_move(fs, run(start, prev), plan, before, at, m);
        }
    }
}

proof fn lemma_unpark_phase<C>(fs: Map<Seq<char>, C>, plan: Seq<(Seq<char>, Seq<char>)>, i: int)
    requires
        plan_fits(fs, plan),
        0 <= i <= plan.len(),
    ensures
        located(
            fs,
            run(
                run(run(fs, park_steps(plan, plan)), direct_steps(plan, plan)),
                unpark_steps(plan.subrange(0, i), plan),
            ),
            plan,
            while_unparking(plan, i),
        ),
    decreases i,
{
    lemma_fits_facts(fs, plan);
    let start = run(run(fs, park_steps(plan, plan)), direct_steps(plan, plan));
    let at = while_unparking(plan, i);
    if i == 0 {
        lemma_direct_phase(fs, plan, plan.len() as int);
        assert(plan.subrange(0, plan.len() as int) =~= plan);
        assert(unpark_steps(plan.subrange(0, 0), plan).len() == 0);
        lemma_same_places(fs, start, plan, while_direct(plan, plan.len() as int), at);
    } else {
        let m = i - 1;
        lemma_unpark_phase(fs, plan, m);
        let part = plan.subrange(0, i);
        let prev = unpark_steps(plan.subrange(0, m), plan);
        assert(part.drop_last() =~= plan.subrange(0, m));
        assert(part.last() == plan[m]);
        let before = while_unparking(plan, m);
        if is_source(plan, plan[m].1) {
            let steps = unpark_steps(part, plan);
            assert(steps == prev.push((parked(plan[m].0), plan[m].1)));
            assert(steps.drop_last() =~= prev);
            assert(plan_name(plan, parked(plan[m].0)));
            assert(plan_name(plan, plan[m].1));
            assert(before(m) == parked(plan[m].0));
            assert(at(m) == plan[m].1);
            assert forall|j: int| 0 <= j < plan.len() && j != m implies #[trigger] at(j) == before(j)
                && before(j) != before(m) && before(j) != at(m) by {
                assert(plan[j].0 != plan[m].0);
                assert(plan[j].1 != plan[m].1);
                assert(parked(plan[j].0) != parked(plan[m].0));
                assert(parked(plan[m].0) != plan[j].1);
                if is_source(plan, plan[j].1) {
                    assert(parked(plan[j].0) != plan[m].1);
                }
            }
            lemma_move(fs, run(start, prev), plan, before, at, m);
        } else {
            assert(unpark_steps(part, plan) == prev);
            lemma_same_places(fs, run(start, prev), plan, before, at);
        }
    }
}

/// Carried out in the staged order on a filesystem that the plan fits, the
/// renames put each file's content under its new name and leave every name that
/// the plan does not touch as it was.
pub proof fn lemma_staged_moves_files<C>(fs: Map<Seq<char>, C>, plan: Seq<(Seq<char>, Seq<char>)>)
    requires
        plan_fits(fs, plan),
    ensures
        forall|j: int|
            0 <= j < plan.len() ==> run(fs, staged_of(plan)).contains_key(#[trigger] plan[j].1)
                && run(fs, staged_of(plan))[plan[j].1] == fs[plan[j].0],
        forall|x: Seq<char>|
            !plan_name(plan, x) ==> (#[trigger] run(fs, staged_of(plan)).contains_key(x)
                <==> fs.contains_key(x)) && (fs.contains_key(x) ==> run(fs, staged_of(plan))[x]
                == fs[x]),
{
    let a = park_steps(plan, plan);
    let b = direct_steps(plan, plan);
    let c = unpark_steps(plan, plan);
    lemma_run_concat(fs, a + b, c);
    lemma_run_concat(fs, a, b);
    lemma_unpark_phase(fs, plan, plan.len() as int);
    assert(plan.subrange(0, plan.len() as int) =~= plan);
    let at = while_unparking(plan, plan.len() as int);
    let r = run(fs, staged_of(plan));
    assert forall|j: int| 0 <= j < plan.len() implies r.contains_key(#[trigger] plan[j].1)
        && r[plan[j].1] == fs[plan[j].0] by {
        assert(at(j) == plan[j].1);
        assert(r.contains_key(at(j)));
    }
}

} // verus!
