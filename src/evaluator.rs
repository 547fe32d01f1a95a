use vstd::prelude::*;

use crate::engine::Instruction;

verus! {

/// Errors of evaluation.
#[derive(Debug, Clone, Copy, PartialEq, Eq, Structural)]
pub enum EvalError {
    PCOverFlow,
    SPOverFlow,
    InvalidPC,
}

/// Whether instruction `i` of `p` only leads to addresses inside `p`.
pub open spec fn inst_in_range(p: Seq<Instruction>, i: int) -> bool {
    match p[i] {
        Instruction::Char(_) => i + 1 < p.len(),
        Instruction::Match => true,
        Instruction::Jump(a) => a < p.len(),
        Instruction::Split(a, b) => a < p.len() && b < p.len(),
    }
}

/// A program that is not empty and whose every transfer of control stays inside it.
pub open spec fn well_formed(p: Seq<Instruction>) -> bool {
    &&& p.len() > 0
    &&& forall|i: int| 0 <= i < p.len() ==> #[trigger] inst_in_range(p, i)
}

/// Whether the machine started at address `pc` and position `sp` reaches,
/// within `fuel` steps, `Match` at the end of the line (`invalid` false) or an
/// address outside the program (`invalid` true).
pub open spec fn reaches_within(
    p: Seq<Instruction>,
    line: Seq<char>,
    pc: int,
    sp: int,
    fuel: nat,
    invalid: bool,
) -> bool
    decreases fuel,
{
    if fuel == 0 {
        false
    } else if !(0 <= pc < p.len()) {
        invalid
    } else {
        match p[pc] {
            Instruction::Char(c) => 0 <= sp < line.len() && line[sp] == c && reaches_within(
                p,
                line,
                pc + 1,
                sp + 1,
                (fuel - 1) as nat,
                invalid,
            ),
            Instruction::Match => !invalid && sp == line.len(),
            Instruction::Jump(a) => reaches_within(p, line, a as int, sp, (fuel - 1) as nat, invalid),
            Instruction::Split(a, b) => reaches_within(
                p,
                line,
                a as int,
                sp,
                (fuel - 1) as nat,
                invalid,
            ) || reaches_within(p, line, b as int, sp, (fuel - 1) as nat, invalid),
        }
    }
}

pub open spec fn reaches_from(
    p: Seq<Instruction>,
    line: Seq<char>,
    pc: int,
    sp: int,
    invalid: bool,
) -> bool {
    exists|f: nat| #[trigger] reaches_within(p, line, pc, sp, f, invalid)
}

/// Whether some path from state (`pc`, `sp`) reaches `Match` with the whole
/// line read.
pub open spec fn accepts_from(p: Seq<Instruction>, line: Seq<char>, pc: int, sp: int) -> bool {
    reaches_from(p, line, pc, sp, false)
}

/// Whether some path from state (`pc`, `sp`) reaches an address outside the program.
pub open spec fn strays_from(p: Seq<Instruction>, line: Seq<char>, pc: int, sp: int) -> bool {
    reaches_from(p, line, pc, sp, true)
}

/// Whether the program matches the whole line: a path from address 0 at
/// position 0 reaches `Match` after the last character.
pub open spec fn accepts(p: Seq<Instruction>, line: Seq<char>) -> bool {
    accepts_from(p, line, 0, 0)
}

/// The verdict of the parallel-state search from state (`pc`, `sp`): a match
/// if one exists;
/// otherwise `InvalidPC` if the search reaches an address outside the
/// program; otherwise no match.
pub open spec fn outcome_from(p: Seq<Instruction>, line: Seq<char>, pc: int, sp: int) -> Result<
    bool,
    EvalError,
> {
    if accepts_from(p, line, pc, sp) {
        Ok(true)
    } else if strays_from(p, line, pc, sp) {
        Err(EvalError::InvalidPC)
    } else {
        Ok(false)
    }
}

/// The depth-first search, step by step. `stack` holds the states still to
/// try, the next on top; a `Split` pushes its second address below its first,
/// so the first is tried first. A state met again is skipped. The search stops
/// with `true` at a `Match` after the whole line, with `InvalidPC` at the first
/// address outside the program, and with `false` when nothing is left to try.
/// `None` means `fuel` ran out.
pub open spec fn dfs(
    p: Seq<Instruction>,
    line: Seq<char>,
    stack: Seq<(usize, usize)>,
    visited: Set<(usize, usize)>,
    fuel: nat,
) -> Option<Result<bool, EvalError>>
    decreases fuel,
{
    if fuel == 0 {
        None
    } else if stack.len() == 0 {
        Some(Ok(false))
    } else {
        let (q, t) = stack.last();
        let rest = stack.drop_last();
        if q >= p.len() {
            Some(Err(EvalError::InvalidPC))
        } else if visited.contains((q, t)) {
            dfs(p, line, rest, visited, (fuel - 1) as nat)
        } else {
            let seen = visited.insert((q, t));
            match p[q as int] {
                Instruction::Match => if t == line.len() {
                    Some(Ok(true))
                } else {
                    dfs(p, line, rest, seen, (fuel - 1) as nat)
                },
                Instruction::Char(c) => if t < line.len() && line[t as int] == c {
                    dfs(p, line, rest.push(((q + 1) as usize, (t + 1) as usize)), seen, (fuel - 1) as nat)
                } else {
                    dfs(p, line, rest, seen, (fuel - 1) as nat)
                },
                Instruction::Jump(a) => dfs(p, line, rest.push((a, t)), seen, (fuel - 1) as nat),
                Instruction::Split(a, b) => dfs(
                    p,
                    line,
                    rest.push((b, t)).push((a, t)),
                    seen,
                    (fuel - 1) as nat,
                ),
            }
        }
    }
}

/// The verdict of the depth-first search from state (`pc`, `sp`). Each step
/// visits a new state or drops one from the stack, so the fuel given always
/// suffices.
pub open spec fn backtrack_outcome(p: Seq<Instruction>, line: Seq<char>, pc: usize, sp: usize) -> Result<
    bool,
    EvalError,
> {
    match dfs(p, line, seq![(pc, sp)], Set::empty(), 3 * (p.len() * (line.len() + 1)) + 2) {
        Some(r) => r,
        None => Ok(false),
    }
}

/// The outcome of backtracking evaluation: that of the depth-first search,
/// unless its table of visited states does not fit.
pub open spec fn depth_outcome(p: Seq<Instruction>, line: Seq<char>) -> Result<bool, EvalError> {
    if p.len() * (line.len() + 1) > usize::MAX {
        Err(EvalError::SPOverFlow)
    } else {
        backtrack_outcome(p, line, 0, 0)
    }
}

/// The outcome of parallel-state evaluation.
pub open spec fn width_outcome(p: Seq<Instruction>, line: Seq<char>) -> Result<bool, EvalError> {
    outcome_from(p, line, 0, 0)
}

/// In a well-formed program no path leaves the program.
pub proof fn lemma_well_formed_stays_inside(
    p: Seq<Instruction>,
    line: Seq<char>,
    pc: int,
    sp: int,
    f: nat,
)
    requires
        well_formed(p),
        0 <= pc < p.len(),
    ensures
        !reaches_within(p, line, pc, sp, f, true),
    decreases f,
{
    if f > 0 {
        assert(inst_in_range(p, pc));
        match p[pc] {
            Instruction::Char(_) => lemma_well_formed_stays_inside(p, line, pc + 1, sp + 1, (f - 1) as nat),
            Instruction::Match => {},
            Instruction::Jump(a) => lemma_well_formed_stays_inside(p, line, a as int, sp, (f - 1) as nat),
            Instruction::Split(a, b) => {
                lemma_well_formed_stays_inside(p, line, a as int, sp, (f - 1) as nat);
                lemma_well_formed_stays_inside(p, line, b as int, sp, (f - 1) as nat);
            },
        }
    }
}

/// One step of the machine leads from state (`q`, `t`) to state (`a`, `b`).
pub open spec fn is_step(p: Seq<Instruction>, line: Seq<char>, q: int, t: int, a: int, b: int) -> bool {
    &&& 0 <= q < p.len()
    &&& match p[q] {
        Instruction::Char(c) => 0 <= t < line.len() && line[t] == c && a == q + 1 && b == t + 1,
        Instruction::Match => false,
        Instruction::Jump(x) => a == x && b == t,
        Instruction::Split(x, y) => (a == x || a == y) && b == t,
    }
}

/// What a state's successor reaches, the state reaches too.
proof fn lemma_step_back(
    p: Seq<Instruction>,
    line: Seq<char>,
    q: int,
    t: int,
    a: int,
    b: int,
    w: bool,
)
    requires
        is_step(p, line, q, t, a, b),
        reaches_from(p, line, a, b, w),
    ensures
        reaches_from(p, line, q, t, w),
{
    let f = choose|f: nat| #[trigger] reaches_within(p, line, a, b, f, w);
    assert(reaches_within(p, line, q, t, f + 1, w));
}

/// Both kinds of reach carry back over one step.
proof fn lemma_step_back_both(p: Seq<Instruction>, line: Seq<char>, q: int, t: int, a: int, b: int)
    requires
        is_step(p, line, q, t, a, b),
    ensures
        accepts_from(p, line, a, b) ==> accepts_from(p, line, q, t),
        strays_from(p, line, a, b) ==> strays_from(p, line, q, t),
{
    if accepts_from(p, line, a, b) {
        lemma_step_back(p, line, q, t, a, b, false);
    }
    if strays_from(p, line, a, b) {
        lemma_step_back(p, line, q, t, a, b, true);
    }
}

/// An address outside the program is reached at once.
proof fn lemma_outside(p: Seq<Instruction>, line: Seq<char>, a: int, b: int)
    requires
        !(0 <= a < p.len()),
    ensures
        strays_from(p, line, a, b),
        !accepts_from(p, line, a, b),
{
    assert(reaches_within(p, line, a, b, 1, true));
    assert forall|f: nat| !#[trigger] reaches_within(p, line, a, b, f, false) by {}
}

// ---- state sets over (address, position) --------------------------------

pub open spec fn is_visited(v: Seq<bool>, n: int, q: int, t: int) -> bool {
    v[t * n + q]
}

spec fn pending(st: Seq<(usize, usize)>, q: int, t: int) -> bool {
    exists|j: int| 0 <= j < st.len() && (#[trigger] st[j]).0 as int == q && st[j].1 as int == t
}

/// A state is dealt with: visited, still pending, or outside the program
/// with the stray already recorded in `inv`.
spec fn known(v: Seq<bool>, st: Seq<(usize, usize)>, n: int, inv: bool, q: int, t: int) -> bool {
    (0 <= q < n && is_visited(v, n, q, t)) || pending(st, q, t) || (q >= n && inv)
}

/// A visited state is not an accepting `Match`, and each of its successors
/// is dealt with.
spec fn closed_at(
    p: Seq<Instruction>,
    line: Seq<char>,
    v: Seq<bool>,
    st: Seq<(usize, usize)>,
    inv: bool,
    q: int,
    t: int,
) -> bool {
    let n = p.len() as int;
    match p[q] {
        Instruction::Char(c) => (t < line.len() && line[t] == c) ==> known(v, st, n, inv, q + 1, t + 1),
        Instruction::Match => t != line.len(),
        Instruction::Jump(a) => known(v, st, n, inv, a as int, t),
        Instruction::Split(a, b) => known(v, st, n, inv, a as int, t) && known(v, st, n, inv, b as int, t),
    }
}

/// Visited flags and the stray record that only grew, over a work stack whose
/// top state (`q`, `t`) is now dealt with, keep every visited state closed.
proof fn lemma_closed_kept(
    p: Seq<Instruction>,
    line: Seq<char>,
    v: Seq<bool>,
    v2: Seq<bool>,
    st: Seq<(usize, usize)>,
    st2: Seq<(usize, usize)>,
    inv: bool,
    inv2: bool,
    q: int,
    t: int,
)
    requires
        v.len() == p.len() * (line.len() + 1),
        v2.len() == v.len(),
        0 <= q,
        0 <= t <= line.len(),
        st.len() > 0,
        st[st.len() - 1].0 as int == q,
        st[st.len() - 1].1 as int == t,
        st2.len() >= st.len() - 1,
        forall|j: int| 0 <= j < st.len() - 1 ==> st2[j] == st[j],
        (q < p.len() && is_visited(v2, p.len() as int, q, t)) || (q >= p.len() && inv2),
        inv ==> inv2,
        forall|a: int, b: int|
            0 <= a < p.len() && 0 <= b <= line.len() && is_visited(v, p.len() as int, a, b)
                ==> #[trigger] is_visited(v2, p.len() as int, a, b),
        forall|a: int, b: int|
            0 <= a < p.len() && 0 <= b <= line.len() && #[trigger] is_visited(
                v,
                p.len() as int,
                a,
                b,
            ) ==> closed_at(p, line, v, st, inv, a, b),
    ensures
        forall|a: int, b: int|
            0 <= a && 0 <= b <= line.len() && #[trigger] known(v, st, p.len() as int, inv, a, b)
                ==> known(v2, st2, p.len() as int, inv2, a, b),
        forall|a: int, b: int|
            0 <= a < p.len() && 0 <= b <= line.len() && #[trigger] is_visited(
                v,
                p.len() as int,
                a,
                b,
            ) ==> closed_at(p, line, v2, st2, inv2, a, b),
{
    let n = p.len() as int;
    assert forall|a: int, b: int|
        0 <= a && 0 <= b <= line.len() && #[trigger] known(v, st, n, inv, a, b) implies known(
            v2,
            st2,
            n,
            inv2,
            a,
            b,
        ) by {
        if pending(st, a, b) && !(0 <= a < n && is_visited(v, n, a, b)) {
            let j = choose|j: int|
                0 <= j < st.len() && (#[trigger] st[j]).0 as int == a && st[j].1 as int == b;
            if j < st.len() - 1 {
                assert(st2[j] == st[j]);
            }
        }
    }
    assert forall|a: int, b: int|
        0 <= a < p.len() && 0 <= b <= line.len() && #[trigger] is_visited(v, n, a, b) implies closed_at(
            p,
            line,
            v2,
            st2,
            inv2,
            a,
            b,
        ) by {
        assert(closed_at(p, line, v, st, inv, a, b));
    }
}

proof fn lemma_index(n: int, m: int, q: int, t: int)
    requires
        0 <= q < n,
        0 <= t <= m,
    ensures
        0 <= t * n + q < n * (m + 1),
{
    assert(t * n <= m * n) by (nonlinear_arith)
        requires
            0 <= t <= m,
            0 <= n,
    ;
    assert(n * (m + 1) == m * n + n) by (nonlinear_arith);
    assert(0 <= t * n) by (nonlinear_arith)
        requires
            0 <= t,
            0 <= n,
    ;
}

proof fn lemma_index_unique(n: int, q: int, t: int, a: int, b: int)
    requires
        0 <= q < n,
        0 <= a < n,
        0 <= t,
        0 <= b,
        t * n + q == b * n + a,
    ensures
        q == a && t == b,
{
    if t < b {
        assert(t * n + n <= b * n) by (nonlinear_arith)
            requires
                t < b,
                0 <= n,
        ;
    } else if b < t {
        assert(b * n + n <= t * n) by (nonlinear_arith)
            requires
                b < t,
                0 <= n,
        ;
    }
}

/// From a visited state, in a set of visited states closed under the
/// machine's steps, neither an accepting `Match` nor (with no stray recorded)
/// an address outside the program can be reached.
proof fn lemma_closed_rejects(
    p: Seq<Instruction>,
    line: Seq<char>,
    v: Seq<bool>,
    inv: bool,
    q: int,
    t: int,
    f: nat,
    w: bool,
)
    requires
        v.len() == p.len() * (line.len() + 1),
        0 <= q < p.len(),
        0 <= t <= line.len(),
        is_visited(v, p.len() as int, q, t),
        w ==> !inv,
        forall|q2: int, t2: int|
            0 <= q2 < p.len() && 0 <= t2 <= line.len() && #[trigger] is_visited(
                v,
                p.len() as int,
                q2,
                t2,
            ) ==> closed_at(p, line, v, Seq::<(usize, usize)>::empty(), inv, q2, t2),
    ensures
        !reaches_within(p, line, q, t, f, w),
    decreases f, 0nat,
{
    if f > 0 {
        assert(closed_at(p, line, v, Seq::<(usize, usize)>::empty(), inv, q, t));
        match p[q] {
            Instruction::Char(c) => {
                if t < line.len() && line[t] == c {
                    lemma_succ_rejects(p, line, v, inv, q + 1, t + 1, (f - 1) as nat, w);
                }
            },
            Instruction::Match => {},
            Instruction::Jump(a) => {
                lemma_succ_rejects(p, line, v, inv, a as int, t, (f - 1) as nat, w);
            },
            Instruction::Split(a, b) => {
                lemma_succ_rejects(p, line, v, inv, a as int, t, (f - 1) as nat, w);
                lemma_succ_rejects(p, line, v, inv, b as int, t, (f - 1) as nat, w);
            },
        }
    }
}

proof fn lemma_succ_rejects(
    p: Seq<Instruction>,
    line: Seq<char>,
    v: Seq<bool>,
    inv: bool,
    a: int,
    t: int,
    f: nat,
    w: bool,
)
    requires
        v.len() == p.len() * (line.len() + 1),
        0 <= a,
        0 <= t <= line.len(),
        known(v, Seq::<(usize, usize)>::empty(), p.len() as int, inv, a, t),
        w ==> !inv,
        forall|q2: int, t2: int|
            0 <= q2 < p.len() && 0 <= t2 <= line.len() && #[trigger] is_visited(
                v,
                p.len() as int,
                q2,
                t2,
            ) ==> closed_at(p, line, v, Seq::<(usize, usize)>::empty(), inv, q2, t2),
    ensures
        !reaches_within(p, line, a, t, f, w),
    decreases f, 1nat,
{
    if a < p.len() && is_visited(v, p.len() as int, a, t) {
        lemma_closed_rejects(p, line, v, inv, a, t, f, w);
    }
}

spec fn count_false(v: Seq<bool>) -> nat
    decreases v.len(),
{
    if v.len() == 0 {
        0
    } else {
        count_false(v.drop_last()) + if v.last() {
            0nat
        } else {
            1nat
        }
    }
}

proof fn lemma_count_false_update(v: Seq<bool>, i: int)
    requires
        0 <= i < v.len(),
        !v[i],
    ensures
        count_false(v.update(i, true)) + 1 == count_false(v),
    decreases v.len(),
{
    let w = v.update(i, true);
    if i < v.len() - 1 {
        assert(w.drop_last() =~= v.drop_last().update(i, true));
        lemma_count_false_update(v.drop_last(), i);
    } else {
        assert(w.drop_last() =~= v.drop_last());
    }
}

proof fn lemma_count_false_all(v: Seq<bool>)
    requires
        forall|j: int| 0 <= j < v.len() ==> !v[j],
    ensures
        count_false(v) == v.len(),
    decreases v.len(),
{
    if v.len() > 0 {
        lemma_count_false_all(v.drop_last());
    }
}

/// Backtracking evaluation from state (`pc`, `sp`): depth first, trying the
/// first address of a `Split` before the second. A state met a second time is
/// not explored again, so loops that consume nothing end. The first address
/// outside the program that the search meets ends it with `InvalidPC`.
fn eval_depth(inst: &[Instruction], line: &[char], pc: usize, sp: usize) -> (r: Result<
    bool,
    EvalError,
>)
    requires
        sp <= line@.len(),
    ensures
        inst@.len() * (line@.len() + 1) <= usize::MAX ==> r == backtrack_outcome(
            inst@,
            line@,
            pc,
            sp,
        ),
        r == Ok::<bool, EvalError>(true) ==> accepts_from(inst@, line@, pc as int, sp as int),
        r == Ok::<bool, EvalError>(false) ==> !accepts_from(inst@, line@, pc as int, sp as int)
            && !strays_from(inst@, line@, pc as int, sp as int),
        r == Err::<bool, EvalError>(EvalError::InvalidPC) ==> strays_from(
            inst@,
            line@,
            pc as int,
            sp as int,
        ),
        inst@.len() * (line@.len() + 1) <= usize::MAX ==> r is Ok || r == Err::<bool, EvalError>(
            EvalError::InvalidPC,
        ),
        inst@.len() * (line@.len() + 1) > usize::MAX ==> r == Err::<bool, EvalError>(
            EvalError::SPOverFlow,
        ),
{
    let ghost p = inst@;
    let ghost l = line@;
    let n = inst.len();
    let m = line.len();
    if n == 0 {
        proof {
            lemma_outside(p, l, pc as int, sp as int);
            assert(seq![(pc, sp)].last() == (pc, sp));
            assert(n * (m + 1) == 0) by (nonlinear_arith)
                requires
                    n == 0,
            ;
        }
        return Err(EvalError::InvalidPC);
    }
    let rows = match m.checked_add(1) {
        Some(x) => x,
        None => {
            assert(n * (m + 1) >= m + 1) by (nonlinear_arith)
                requires
                    n >= 1,
            ;
            return Err(EvalError::SPOverFlow);
        },
    };
    let size = match n.checked_mul(rows) {
        Some(x) => x,
        None => return Err(EvalError::SPOverFlow),
    };
    let mut visited: Vec<bool> = Vec::new();
    let mut k: usize = 0;
    while k < size
        invariant
            k <= size,
            visited@.len() == k,
            forall|j: int| 0 <= j < k ==> !visited@[j],
        decreases size - k,
    {
        visited.push(false);
        k = k + 1;
    }
    let mut stack: Vec<(usize, usize)> = Vec::new();
    stack.push((pc, sp));
    let ghost inv = false;
    let ghost mut seen: Set<(usize, usize)> = Set::empty();
    let ghost fuel_all: nat = 3 * (n * (m + 1)) as nat + 2;
    let ghost mut fuel: nat = fuel_all;
    assert forall|a: int, b: int|
        0 <= a < n && 0 <= b <= m implies !#[trigger] is_visited(visited@, n as int, a, b) by {
        lemma_index(n as int, m as int, a, b);
    }
    proof {
        assert(stack@[0] == (pc, sp));
        assert(pending(stack@, pc as int, sp as int));
        assert(stack@ =~= seq![(pc, sp)]);
        lemma_count_false_all(visited@);
    }
    loop
        invariant
            p == inst@,
            l == line@,
            sp <= m,
            n == p.len(),
            m == l.len(),
            size == n * (m + 1),
            visited@.len() == size,
            forall|j: int| 0 <= j < stack@.len() ==> (#[trigger] stack@[j]).1 <= m,
            forall|j: int|
                0 <= j < stack@.len() ==> accepts_from(
                    p,
                    l,
                    (#[trigger] stack@[j]).0 as int,
                    stack@[j].1 as int,
                ) ==> accepts_from(p, l, pc as int, sp as int),
            forall|j: int|
                0 <= j < stack@.len() ==> strays_from(
                    p,
                    l,
                    (#[trigger] stack@[j]).0 as int,
                    stack@[j].1 as int,
                ) ==> strays_from(p, l, pc as int, sp as int),
            !inv,
            forall|q: int, t: int|
                0 <= q < n && 0 <= t <= m && #[trigger] is_visited(visited@, n as int, q, t)
                    ==> closed_at(p, l, visited@, stack@, inv, q, t),
            known(visited@, stack@, n as int, inv, pc as int, sp as int),
            forall|q: usize, t: usize|
                q < n && t <= m ==> (#[trigger] seen.contains((q, t)) <==> is_visited(
                    visited@,
                    n as int,
                    q as int,
                    t as int,
                )),
            fuel >= 3 * count_false(visited@) + stack@.len() + 1,
            fuel_all == 3 * (p.len() * (l.len() + 1)) + 2,
            dfs(p, l, stack@, seen, fuel) == dfs(p, l, seq![(pc, sp)], Set::empty(), fuel_all),
        decreases 3 * count_false(visited@) + stack@.len(),
    {
        let ghost old_stack = stack@;
        let ghost old_visited = visited@;
        let ghost old_seen = seen;
        let ghost old_fuel = fuel;
        let top = stack.pop();
        let (q, t) = match top {
            None => {
                proof {
                    assert(stack@ =~= Seq::<(usize, usize)>::empty());
                    if pc < n {
                        assert forall|f: nat| !#[trigger] reaches_within(p, l, pc as int, sp as int, f, false) by {
                            lemma_closed_rejects(p, l, visited@, inv, pc as int, sp as int, f, false);
                        }
                    } else {
                        lemma_outside(p, l, pc as int, sp as int);
                    }
                }
                proof {
                    assert(old_stack.len() == 0);
                    assert(dfs(p, l, old_stack, old_seen, old_fuel) == Some(Ok::<bool, EvalError>(false)));
                    assert forall|f: nat| !#[trigger] reaches_within(p, l, pc as int, sp as int, f, true) by {
                        lemma_closed_rejects(p, l, visited@, inv, pc as int, sp as int, f, true);
                    }
                }
                return Ok(false);
            },
            Some(x) => x,
        };
        proof {
            assert(old_stack[old_stack.len() - 1] == (q, t));
            assert(stack@ =~= old_stack.drop_last());
        }
        proof {
            fuel = (fuel - 1) as nat;
        }
        if q >= n {
            proof {
                lemma_outside(p, l, q as int, t as int);
                assert(dfs(p, l, old_stack, old_seen, old_fuel) == Some(
                    Err::<bool, EvalError>(EvalError::InvalidPC),
                ));
            }
            return Err(EvalError::InvalidPC);
        } else {
            proof {
                lemma_index(n as int, m as int, q as int, t as int);
            }
            let idx = t * n + q;
            if visited[idx] {
                proof {
                    assert(seen.contains((q, t)));
                    assert(dfs(p, l, old_stack, old_seen, old_fuel) == dfs(p, l, stack@, seen, fuel));
                    lemma_closed_kept(p, l, old_visited, visited@, old_stack, stack@, inv, inv, q as int, t as int);
                }
            } else {
                visited.set(idx, true);
                proof {
                    assert(!seen.contains((q, t)));
                    seen = seen.insert((q, t));
                    lemma_count_false_update(old_visited, idx as int);
                    let ni = n as int;
                    assert forall|a: int, b: int|
                        0 <= a < n && 0 <= b <= m && #[trigger] is_visited(old_visited, ni, a, b)
                            implies is_visited(visited@, ni, a, b) by {
                        lemma_index(ni, m as int, a, b);
                    }
                    assert forall|a: int, b: int|
                        0 <= a < n && 0 <= b <= m && #[trigger] is_visited(visited@, ni, a, b)
                            implies is_visited(old_visited, ni, a, b) || (a == q && b == t) by {
                        lemma_index(ni, m as int, a, b);
                        if b * ni + a == idx as int {
                            lemma_index_unique(ni, q as int, t as int, a, b);
                        }
                    }
                    assert forall|a: usize, b: usize|
                        a < n && b <= m implies (#[trigger] seen.contains((a, b)) <==> is_visited(
                            visited@,
                            ni,
                            a as int,
                            b as int,
                        )) by {
                        assert(is_visited(old_visited, ni, a as int, b as int) ==> is_visited(visited@, ni, a as int, b as int));
                    }
                }
                match inst[q] {
                    Instruction::Match => {
                        if t == m {
                            proof {
                                assert(reaches_within(p, l, q as int, t as int, 1, false));
                                assert(dfs(p, l, old_stack, old_seen, old_fuel) == Some(
                                    Ok::<bool, EvalError>(true),
                                ));
                            }
                            return Ok(true);
                        }
                    },
                    Instruction::Char(c) => {
                        if t < m && line[t] == c {
                            stack.push((q + 1, t + 1));
                            proof {
                                let j = stack@.len() - 1;
                                assert(stack@[j] == ((q + 1) as usize, (t + 1) as usize));
                                assert(pending(stack@, q + 1, t + 1));
                                lemma_step_back_both(p, l, q as int, t as int, q + 1, t + 1);
                            }
                        }
                    },
                    Instruction::Jump(a) => {
                        stack.push((a, t));
                        proof {
                            let j = stack@.len() - 1;
                            assert(stack@[j] == (a, t));
                            assert(pending(stack@, a as int, t as int));
                            lemma_step_back_both(p, l, q as int, t as int, a as int, t as int);
                        }
                    },
                    Instruction::Split(a, b) => {
                        stack.push((b, t));
                        stack.push((a, t));
                        proof {
                            let j = stack@.len() - 1;
                            assert(stack@[j] == (a, t));
                            assert(stack@[j - 1] == (b, t));
                            assert(pending(stack@, a as int, t as int));
                            assert(pending(stack@, b as int, t as int));
                            lemma_step_back_both(p, l, q as int, t as int, a as int, t as int);
                            lemma_step_back_both(p, l, q as int, t as int, b as int, t as int);
                        }
                    },
                }
                proof {
                    lemma_closed_kept(p, l, old_visited, visited@, old_stack, stack@, inv, inv, q as int, t as int);
                    assert(closed_at(p, l, visited@, stack@, inv, q as int, t as int));
                    assert(dfs(p, l, old_stack, old_seen, old_fuel) == dfs(p, l, stack@, seen, fuel));
                }
            }
        }
    }
}

// ---- parallel-state simulation ----------------------------------------

spec fn in_list(w: Seq<usize>, q: int) -> bool {
    exists|j: int| 0 <= j < w.len() && (#[trigger] w[j]) as int == q
}

/// An address is dealt with: flagged, still on the work list, or outside the
/// program with the stray already recorded in `inv`.
spec fn covered(flags: Seq<bool>, w: Seq<usize>, inv: bool, q: int) -> bool {
    (0 <= q < flags.len() && flags[q]) || in_list(w, q) || (q >= flags.len() && inv)
}

/// A flagged address is not a `Match` that accepts here, and what it reaches
/// without consuming input is dealt with.
spec fn eps_closed_at(
    p: Seq<Instruction>,
    flags: Seq<bool>,
    w: Seq<usize>,
    inv: bool,
    at_end: bool,
    q: int,
) -> bool {
    match p[q] {
        Instruction::Char(_) => true,
        Instruction::Match => !at_end,
        Instruction::Jump(a) => covered(flags, w, inv, a as int),
        Instruction::Split(a, b) => covered(flags, w, inv, a as int) && covered(flags, w, inv, b as int),
    }
}

/// From a flagged address that reaches its goal at position `pos`, in a flag
/// set closed under steps that consume nothing, some flagged `Char` consumes
/// the element at `pos` on the way.
proof fn lemma_advance(
    p: Seq<Instruction>,
    line: Seq<char>,
    flags: Seq<bool>,
    inv: bool,
    pos: int,
    s: int,
    f: nat,
    w: bool,
)
    requires
        flags.len() == p.len(),
        0 <= pos <= line.len(),
        0 <= s < p.len(),
        flags[s],
        w ==> !inv,
        forall|q: int|
            0 <= q < p.len() && #[trigger] flags[q] ==> eps_closed_at(
                p,
                flags,
                seq![],
                inv,
                pos == line.len(),
                q,
            ),
        reaches_within(p, line, s, pos, f, w),
    ensures
        exists|q: int|
            0 <= q < p.len() && #[trigger] flags[q] && pos < line.len() && p[q]
                == Instruction::Char(line[pos]) && reaches_from(p, line, q + 1, pos + 1, w),
    decreases f,
{
    assert(eps_closed_at(p, flags, seq![], inv, pos == line.len(), s));
    match p[s] {
        Instruction::Char(c) => {
            assert(reaches_within(p, line, s + 1, pos + 1, (f - 1) as nat, w));
            assert(flags[s] && reaches_from(p, line, s + 1, pos + 1, w));
        },
        Instruction::Match => {},
        Instruction::Jump(a) => {
            assert(!in_list(seq![], a as int));
            if a < p.len() {
                lemma_advance(p, line, flags, inv, pos, a as int, (f - 1) as nat, w);
            } else {
                assert(inv);
                assert(!reaches_within(p, line, a as int, pos, (f - 1) as nat, w));
            }
        },
        Instruction::Split(a, b) => {
            assert(!in_list(seq![], a as int));
            assert(!in_list(seq![], b as int));
            if reaches_within(p, line, a as int, pos, (f - 1) as nat, w) {
                if a < p.len() {
                    lemma_advance(p, line, flags, inv, pos, a as int, (f - 1) as nat, w);
                } else {
                    assert(inv);
                    assert(!reaches_within(p, line, a as int, pos, (f - 1) as nat, w));
                }
            } else if b < p.len() {
                lemma_advance(p, line, flags, inv, pos, b as int, (f - 1) as nat, w);
            } else {
                assert(inv);
                assert(!reaches_within(p, line, b as int, pos, (f - 1) as nat, w));
            }
        },
    }
}

/// Flags every address reachable from `seeds` at position `pos` without
/// consuming input, and records whether one of them lies outside the
/// program. Returns a hit as soon as `Match` is reached at the end of the line.
fn epsilon_closure(
    inst: &[Instruction],
    seeds: &Vec<usize>,
    at_end: bool,
    Ghost(line): Ghost<Seq<char>>,
    Ghost(pos): Ghost<int>,
    Ghost(pc0): Ghost<int>,
    Ghost(sp0): Ghost<int>,
) -> (r: (Vec<bool>, bool, bool))
    requires
        at_end == (pos == line.len()),
        forall|i: int|
            0 <= i < seeds@.len() ==> accepts_from(inst@, line, (#[trigger] seeds@[i]) as int, pos)
                ==> accepts_from(inst@, line, pc0, sp0),
        forall|i: int|
            0 <= i < seeds@.len() ==> strays_from(inst@, line, (#[trigger] seeds@[i]) as int, pos)
                ==> strays_from(inst@, line, pc0, sp0),
    ensures
        r.0@.len() == inst@.len(),
        r.1 ==> accepts_from(inst@, line, pc0, sp0),
        r.2 ==> strays_from(inst@, line, pc0, sp0),
        !r.1 ==> forall|i: int|
            0 <= i < seeds@.len() ==> covered(r.0@, seq![], r.2, (#[trigger] seeds@[i]) as int),
        !r.1 ==> forall|q: int|
            0 <= q < inst@.len() && #[trigger] r.0@[q] ==> eps_closed_at(
                inst@,
                r.0@,
                seq![],
                r.2,
                at_end,
                q,
            ),
        forall|q: int|
            0 <= q < inst@.len() && #[trigger] r.0@[q] ==> (accepts_from(inst@, line, q, pos)
                ==> accepts_from(inst@, line, pc0, sp0)) && (strays_from(inst@, line, q, pos)
                ==> strays_from(inst@, line, pc0, sp0)),
{
    let ghost p = inst@;
    let n = inst.len();
    let mut flags: Vec<bool> = Vec::new();
    let mut k: usize = 0;
    while k < n
        invariant
            k <= n,
            n == p.len(),
            flags@.len() == k,
            forall|j: int| 0 <= j < k ==> !flags@[j],
        decreases n - k,
    {
        flags.push(false);
        k = k + 1;
    }
    let mut work: Vec<usize> = Vec::new();
    let mut i: usize = 0;
    while i < seeds.len()
        invariant
            i <= seeds@.len(),
            work@ == seeds@.subrange(0, i as int),
        decreases seeds@.len() - i,
    {
        work.push(seeds[i]);
        i = i + 1;
        assert(work@ =~= seeds@.subrange(0, i as int));
    }
    assert(work@ =~= seeds@);
    assert forall|i: int| 0 <= i < seeds@.len() implies in_list(work@, (#[trigger] seeds@[i]) as int) by {
        assert(work@[i] == seeds@[i]);
    }
    let mut inv = false;
    loop
        invariant
            p == inst@,
            n == p.len(),
            at_end == (pos == line.len()),
            flags@.len() == n,
            forall|j: int|
                0 <= j < work@.len() ==> accepts_from(p, line, (#[trigger] work@[j]) as int, pos)
                    ==> accepts_from(p, line, pc0, sp0),
            forall|j: int|
                0 <= j < work@.len() ==> strays_from(p, line, (#[trigger] work@[j]) as int, pos)
                    ==> strays_from(p, line, pc0, sp0),
            inv ==> strays_from(p, line, pc0, sp0),
            forall|q: int|
                0 <= q < n && #[trigger] flags@[q] ==> (accepts_from(p, line, q, pos)
                    ==> accepts_from(p, line, pc0, sp0)) && (strays_from(p, line, q, pos)
                    ==> strays_from(p, line, pc0, sp0)),
            forall|q: int|
                0 <= q < n && #[trigger] flags@[q] ==> eps_closed_at(p, flags@, work@, inv, at_end, q),
            forall|i: int|
                0 <= i < seeds@.len() ==> covered(flags@, work@, inv, (#[trigger] seeds@[i]) as int),
        decreases 3 * count_false(flags@) + work@.len(),
    {
        let ghost old_work = work@;
        let ghost old_flags = flags@;
        let ghost old_inv = inv;
        let top = work.pop();
        let q = match top {
            None => {
                proof {
                    assert(work@ =~= seq![]);
                }
                return (flags, false, inv);
            },
            Some(x) => x,
        };
        proof {
            assert(old_work[old_work.len() - 1] == q);
            assert(work@ =~= old_work.drop_last());
        }
        if q >= n {
            inv = true;
            proof {
                lemma_outside(p, line, q as int, pos);
            }
        } else if !flags[q] {
            flags.set(q, true);
            proof {
                lemma_count_false_update(old_flags, q as int);
            }
            match inst[q] {
                Instruction::Match => {
                    if at_end {
                        proof {
                            assert(reaches_within(p, line, q as int, pos, 1, false));
                        }
                        return (flags, true, inv);
                    }
                },
                Instruction::Char(_) => {},
                Instruction::Jump(a) => {
                    work.push(a);
                    proof {
                        assert(work@[work@.len() - 1] == a);
                        assert(in_list(work@, a as int));
                        lemma_step_back_both(p, line, q as int, pos, a as int, pos);
                    }
                },
                Instruction::Split(a, b) => {
                    work.push(b);
                    work.push(a);
                    proof {
                        assert(work@[work@.len() - 1] == a);
                        assert(work@[work@.len() - 2] == b);
                        assert(in_list(work@, a as int));
                        assert(in_list(work@, b as int));
                        lemma_step_back_both(p, line, q as int, pos, a as int, pos);
                        lemma_step_back_both(p, line, q as int, pos, b as int, pos);
                    }
                },
            }
        }
        proof {
            assert forall|x: int| #[trigger] covered(old_flags, old_work, old_inv, x) implies covered(
                flags@,
                work@,
                inv,
                x,
            ) by {
                if in_list(old_work, x) && !(0 <= x < n && old_flags[x]) && x != q {
                    let j = choose|j: int|
                        0 <= j < old_work.len() && (#[trigger] old_work[j]) as int == x;
                    assert(work@[j] == old_work[j]);
                }
            }
            assert forall|q2: int| 0 <= q2 < n && #[trigger] flags@[q2] implies eps_closed_at(
                p,
                flags@,
                work@,
                inv,
                at_end,
                q2,
            ) by {
                if q2 != q || old_flags[q2] {
                    assert(old_flags[q2]);
                    assert(eps_closed_at(p, old_flags, old_work, old_inv, at_end, q2));
                }
            }
            assert forall|i: int| 0 <= i < seeds@.len() implies covered(
                flags@,
                work@,
                inv,
                (#[trigger] seeds@[i]) as int,
            ) by {
                assert(covered(old_flags, old_work, old_inv, seeds@[i] as int));
            }
        }
    }
}

/// Parallel-state evaluation from state (`pc`, `sp`): the set of addresses
/// live at each position is closed under steps that consume nothing, then
/// advanced over the next element; `Match` counts only after the last one.
/// Time is proportional to the program's length times the line's.
fn eval_width(inst: &[Instruction], line: &[char], pc: usize, sp: usize) -> (r: Result<
    bool,
    EvalError,
>)
    requires
        sp <= line@.len(),
    ensures
        r == outcome_from(inst@, line@, pc as int, sp as int),
{
    let ghost p = inst@;
    let ghost l = line@;
    let ghost start_accepts = accepts_from(p, l, pc as int, sp as int);
    let ghost start_strays = strays_from(p, l, pc as int, sp as int);
    let n = inst.len();
    let m = line.len();
    let mut current: Vec<usize> = Vec::new();
    current.push(pc);
    let mut pos: usize = sp;
    let mut strayed = false;
    proof {
        assert(current@[0] == pc);
    }
    loop
        invariant
            p == inst@,
            l == line@,
            n == p.len(),
            m == l.len(),
            sp <= pos <= m,
            start_accepts == accepts_from(p, l, pc as int, sp as int),
            start_strays == strays_from(p, l, pc as int, sp as int),
            forall|j: int|
                0 <= j < current@.len() ==> accepts_from(p, l, (#[trigger] current@[j]) as int, pos as int)
                    ==> start_accepts,
            forall|j: int|
                0 <= j < current@.len() ==> strays_from(p, l, (#[trigger] current@[j]) as int, pos as int)
                    ==> start_strays,
            strayed ==> start_strays,
            start_accepts ==> exists|j: int|
                0 <= j < current@.len() && accepts_from(p, l, (#[trigger] current@[j]) as int, pos as int),
            start_strays ==> strayed || exists|j: int|
                0 <= j < current@.len() && strays_from(p, l, (#[trigger] current@[j]) as int, pos as int),
        decreases m - pos,
    {
        let (flags, hit, inv) = epsilon_closure(
            inst,
            &current,
            pos == m,
            Ghost(l),
            Ghost(pos as int),
            Ghost(pc as int),
            Ghost(sp as int),
        );
        if hit {
            return Ok(true);
        }
        let ghost was_strayed = strayed;
        strayed = strayed || inv;
        proof {
            if start_accepts {
                let j = choose|j: int|
                    0 <= j < current@.len() && accepts_from(p, l, (#[trigger] current@[j]) as int, pos as int);
                let s = current@[j] as int;
                if s >= n {
                    lemma_outside(p, l, s, pos as int);
                }
                assert(!in_list(seq![], s));
                let f = choose|f: nat| #[trigger] reaches_within(p, l, s, pos as int, f, false);
                lemma_advance(p, l, flags@, inv, pos as int, s, f, false);
            }
            if start_strays && !strayed {
                let j = choose|j: int|
                    0 <= j < current@.len() && strays_from(p, l, (#[trigger] current@[j]) as int, pos as int);
                let s = current@[j] as int;
                assert(!in_list(seq![], s));
                assert(covered(flags@, seq![], inv, s));
                let f = choose|f: nat| #[trigger] reaches_within(p, l, s, pos as int, f, true);
                lemma_advance(p, l, flags@, inv, pos as int, s, f, true);
            }
        }
        if pos == m {
            if strayed {
                return Err(EvalError::InvalidPC);
            }
            return Ok(false);
        }
        let c = line[pos];
        let mut next: Vec<usize> = Vec::new();
        let mut q: usize = 0;
        while q < n
            invariant
                p == inst@,
                l == line@,
                n == p.len(),
                m == l.len(),
                pos < m,
                c == l[pos as int],
                q <= n,
                flags@.len() == n,
                forall|q2: int|
                    0 <= q2 < n && #[trigger] flags@[q2] ==> (accepts_from(p, l, q2, pos as int)
                        ==> start_accepts) && (strays_from(p, l, q2, pos as int) ==> start_strays),
                forall|j: int|
                    0 <= j < next@.len() ==> accepts_from(p, l, (#[trigger] next@[j]) as int, pos + 1)
                        ==> start_accepts,
                forall|j: int|
                    0 <= j < next@.len() ==> strays_from(p, l, (#[trigger] next@[j]) as int, pos + 1)
                        ==> start_strays,
                forall|q2: int|
                    0 <= q2 < q && #[trigger] flags@[q2] && p[q2] == Instruction::Char(c) ==> in_list(
                        next@,
                        q2 + 1,
                    ),
            decreases n - q,
        {
            if flags[q] {
                match inst[q] {
                    Instruction::Char(d) => {
                        if d == c {
                            let ghost old_next = next@;
                            next.push(q + 1);
                            proof {
                                assert(next@[next@.len() - 1] == q + 1);
                                assert(in_list(next@, q + 1));
                                assert forall|q2: int|
                                    0 <= q2 < q && #[trigger] flags@[q2] && p[q2] == Instruction::Char(c)
                                        implies in_list(next@, q2 + 1) by {
                                    assert(in_list(old_next, q2 + 1));
                                    let j = choose|j: int|
                                        0 <= j < old_next.len() && (#[trigger] old_next[j]) as int == q2 + 1;
                                    assert(next@[j] == old_next[j]);
                                }
                                lemma_step_back_both(p, l, q as int, pos as int, q + 1, pos + 1);
                            }
                        }
                    },
                    _ => {},
                }
            }
            q = q + 1;
        }
        proof {
            if start_accepts {
                let q2 = choose|q2: int|
                    0 <= q2 < n && #[trigger] flags@[q2] && pos < m && p[q2] == Instruction::Char(l[pos as int])
                        && reaches_from(p, l, q2 + 1, pos + 1, false);
                assert(in_list(next@, q2 + 1));
                let j = choose|j: int| 0 <= j < next@.len() && (#[trigger] next@[j]) as int == q2 + 1;
                assert(accepts_from(p, l, next@[j] as int, pos + 1));
            }
            if start_strays && !strayed {
                let q2 = choose|q2: int|
                    0 <= q2 < n && #[trigger] flags@[q2] && pos < m && p[q2] == Instruction::Char(l[pos as int])
                        && reaches_from(p, l, q2 + 1, pos + 1, true);
                assert(in_list(next@, q2 + 1));
                let j = choose|j: int| 0 <= j < next@.len() && (#[trigger] next@[j]) as int == q2 + 1;
                assert(strays_from(p, l, next@[j] as int, pos + 1));
            }
        }
        current = next;
        pos = pos + 1;
    }
}

/// Runs a program against a line; the whole line must be read for a match.
/// With `is_depth` the search is backtracking and stops with `InvalidPC` at the
/// first address outside the program that it meets. Otherwise it is
/// parallel-state, which reports `InvalidPC` only if no path matches and one
/// left the program. On a program no path of which leaves it, both give
/// whether the line matches.
pub fn eval(inst: &[Instruction], line: &[char], is_depth: bool) -> (r: Result<bool, EvalError>)
    ensures
        is_depth ==> r == depth_outcome(inst@, line@),
        !is_depth ==> r == width_outcome(inst@, line@),
        !strays_from(inst@, line@, 0, 0) && (is_depth ==> inst@.len() * (line@.len() + 1)
            <= usize::MAX) ==> r == Ok::<bool, EvalError>(accepts(inst@, line@)),
{
    if is_depth {
        let r = eval_depth(inst, line, 0, 0);
        proof {
            if !strays_from(inst@, line@, 0, 0) && inst@.len() * (line@.len() + 1) <= usize::MAX {
                assert(r != Err::<bool, EvalError>(EvalError::InvalidPC));
                assert(r is Ok);
                if r->Ok_0 {
                    assert(accepts(inst@, line@));
                } else {
                    assert(!accepts(inst@, line@));
                }
            }
        }
        r
    } else {
        let r = eval_width(inst, line, 0, 0);
        proof {
            if !strays_from(inst@, line@, 0, 0) {
                assert(r == outcome_from(inst@, line@, 0, 0));
            }
        }
        r
    }
}

} // verus!
