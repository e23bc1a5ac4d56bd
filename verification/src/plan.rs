use vstd::prelude::*;
use vstd::pervasive::unreached;
use vstd::set_lib::lemma_int_range;
use vstd::set_lib::lemma_len_subset;
use vstd::set_lib::set_int_range;

use crate::diag::Diagnostic;
use crate::listing::EntryModel;
use crate::listing::FileList;
use crate::listing::bytes_eq;
use crate::listing::copy_bytes;
use crate::listing::text_of;

verus! {

/// The mathematical value of one rename pair: line `line` of the target
/// listing asks for `origin` to become `target`.
pub struct PairModel {
    pub origin: Seq<u8>,
    pub target: Seq<u8>,
    pub line: int,
}

/// One surviving rename pair, with the 1-based target-listing line it came
/// from.
pub struct RenamePair {
    pub origin: Vec<u8>,
    pub target: Vec<u8>,
    pub line: usize,
}

impl View for RenamePair {
    type V = PairModel;

    open spec fn view(&self) -> PairModel {
        PairModel { origin: self.origin@, target: self.target@, line: self.line as int }
    }
}

/// The mathematical value of one execution step.
pub enum StepModel {
    Direct { origin: Seq<u8>, target: Seq<u8> },
    Staged { origin: Seq<u8>, temp: Seq<u8>, target: Seq<u8> },
}

/// One unit of the computed plan: either a plain rename, or a rename staged
/// through a temporary name to break a cycle. Executing the plan means, for
/// the steps in order: a direct step renames `origin` to `target` at its
/// position; a staged step renames `origin` to `temp` at its position, and
/// `temp` to `target` after all other steps have run.
pub enum RenameStep {
    Direct { origin: Vec<u8>, target: Vec<u8> },
    Staged { origin: Vec<u8>, temp: Vec<u8>, target: Vec<u8> },
}

impl View for RenameStep {
    type V = StepModel;

    open spec fn view(&self) -> StepModel {
        match self {
            RenameStep::Direct { origin, target } => StepModel::Direct {
                origin: origin@,
                target: target@,
            },
            RenameStep::Staged { origin, temp, target } => StepModel::Staged {
                origin: origin@,
                temp: temp@,
                target: target@,
            },
        }
    }
}

/// The path a step reads at its position.
pub open spec fn step_origin(s: StepModel) -> Seq<u8> {
    match s {
        StepModel::Direct { origin, .. } => origin,
        StepModel::Staged { origin, .. } => origin,
    }
}

/// The final destination a step writes.
pub open spec fn step_target(s: StepModel) -> Seq<u8> {
    match s {
        StepModel::Direct { target, .. } => target,
        StepModel::Staged { target, .. } => target,
    }
}

/// The temporary name of a staged step (empty for a direct one).
pub open spec fn step_temp(s: StepModel) -> Seq<u8> {
    match s {
        StepModel::Direct { .. } => Seq::empty(),
        StepModel::Staged { temp, .. } => temp,
    }
}

/// A step carries out a pair when it reads the pair's origin and writes the
/// pair's target.
pub open spec fn realizes(s: StepModel, p: PairModel) -> bool {
    step_origin(s) == p.origin && step_target(s) == p.target
}

/// The pair views of a pair vector.
pub open spec fn pair_views(v: Seq<RenamePair>) -> Seq<PairModel> {
    v.map_values(|p: RenamePair| p@)
}

/// The step views of a step vector.
pub open spec fn step_views(v: Seq<RenameStep>) -> Seq<StepModel> {
    v.map_values(|s: RenameStep| s@)
}

/// The pairs made by zipping an origin listing with a target listing at the
/// same index, dropping the no-ops whose origin equals their target. A pair
/// keeps the target entry's line for diagnostics.
pub open spec fn pairs_of(os: Seq<EntryModel>, ts: Seq<EntryModel>) -> Seq<PairModel>
    decreases os.len(),
{
    if os.len() == 0 || ts.len() == 0 {
        Seq::empty()
    } else {
        let rest = pairs_of(os.drop_first(), ts.drop_first());
        if os[0].path == ts[0].path {
            rest
        } else {
            seq![PairModel { origin: os[0].path, target: ts[0].path, line: ts[0].line }] + rest
        }
    }
}

/// Two distinct indices of the target listing name the same path.
pub open spec fn dup_at(ts: Seq<EntryModel>, i: int, j: int) -> bool {
    0 <= i < j < ts.len() && ts[i].path == ts[j].path
}

/// Validated pairs: targets pairwise distinct, and no pair a no-op.
pub open spec fn plan_wf(ps: Seq<PairModel>) -> bool {
    &&& forall|i: int, j: int| 0 <= i < j < ps.len() ==> ps[i].target != ps[j].target
    &&& forall|k: int| 0 <= k < ps.len() ==> (#[trigger] ps[k]).origin != ps[k].target
}

/// A temporary name that collides with no origin and no target of the plan.
pub open spec fn fresh_temp(t: Seq<u8>, ps: Seq<PairModel>) -> bool {
    forall|k: int| 0 <= k < ps.len() ==> t != (#[trigger] ps[k]).origin && t != ps[k].target
}

/// Pair `k` has no dependency inside the index set `s`: no other member's
/// origin is `k`'s target, so running `k` first overwrites nothing a member
/// still reads.
pub open spec fn free_in(ps: Seq<PairModel>, s: Set<int>, k: int) -> bool {
    s.contains(k) && forall|m: int|
        #[trigger] s.contains(m) && m != k ==> ps[k].target != ps[m].origin
}

/// The dependency graph over the pairs has no cycle, stated as
/// well-foundedness: every nonempty set of pair indices has a member that
/// depends on no other member.
pub open spec fn no_cycles(ps: Seq<PairModel>) -> bool {
    forall|s: Set<int>|
        #![trigger s.len()]
        s.finite() && s.len() > 0 && (forall|k: int| #[trigger] s.contains(k) ==> 0 <= k
            < ps.len()) ==> exists|k: int| free_in(ps, s, k)
}

/// What `sort` guarantees of the computed steps over the plan's pairs:
/// steps and pairs correspond (every step carries out a pair, every pair is
/// carried out, in equal number); no direct step writes a path that a later
/// step still has to read; every staged temporary collides with no path of
/// the plan and with no other temporary.
pub open spec fn sorted_steps(sv: Seq<StepModel>, ps: Seq<PairModel>) -> bool {
    &&& sv.len() == ps.len()
    &&& forall|t: int| 0 <= t < sv.len() ==> exists|k: int|
        0 <= k < ps.len() && realizes(#[trigger] sv[t], ps[k])
    &&& forall|k: int| 0 <= k < ps.len() ==> exists|t: int|
        0 <= t < sv.len() && realizes(sv[t], #[trigger] ps[k])
    &&& forall|t1: int, t2: int|
        0 <= t1 < t2 < sv.len() && #[trigger] sv[t1] is Direct ==> step_origin(#[trigger] sv[t2])
            != step_target(sv[t1])
    &&& forall|t: int| 0 <= t < sv.len() && #[trigger] sv[t] is Staged ==> fresh_temp(
        step_temp(sv[t]),
        ps,
    )
    &&& forall|t1: int, t2: int|
        0 <= t1 < t2 < sv.len() && #[trigger] sv[t1] is Staged && #[trigger] sv[t2] is Staged
            ==> step_temp(sv[t1]) != step_temp(sv[t2])
}

/// How many entries of `s` are true.
spec fn count_true(s: Seq<bool>) -> nat
    decreases s.len(),
{
    if s.len() == 0 {
        0
    } else {
        count_true(s.drop_last()) + if s.last() {
            1nat
        } else {
            0nat
        }
    }
}

proof fn lemma_count_true_le(s: Seq<bool>)
    ensures
        count_true(s) <= s.len(),
    decreases s.len(),
{
    if s.len() > 0 {
        lemma_count_true_le(s.drop_last());
    }
}

proof fn lemma_count_true_update(s: Seq<bool>, i: int)
    requires
        0 <= i < s.len(),
        !s[i],
    ensures
        count_true(s.update(i, true)) == count_true(s) + 1,
    decreases s.len(),
{
    if i == s.len() - 1 {
        assert(s.update(i, true).drop_last() =~= s.drop_last());
    } else {
        assert(s.update(i, true).drop_last() =~= s.drop_last().update(i, true));
        lemma_count_true_update(s.drop_last(), i);
    }
}

proof fn lemma_count_true_push_false(s: Seq<bool>)
    ensures
        count_true(s.push(false)) == count_true(s),
{
    assert(s.push(false).drop_last() =~= s);
}

proof fn lemma_count_true_all(s: Seq<bool>)
    requires
        forall|i: int| 0 <= i < s.len() ==> s[i],
    ensures
        count_true(s) == s.len(),
    decreases s.len(),
{
    if s.len() > 0 {
        lemma_count_true_all(s.drop_last());
    }
}

proof fn lemma_count_true_full(s: Seq<bool>)
    requires
        count_true(s) == s.len(),
    ensures
        forall|i: int| 0 <= i < s.len() ==> s[i],
    decreases s.len(),
{
    if s.len() > 0 {
        lemma_count_true_le(s.drop_last());
        lemma_count_true_full(s.drop_last());
        assert forall|i: int| 0 <= i < s.len() implies s[i] by {
            if i < s.len() - 1 {
                assert(s.drop_last()[i]);
            }
        }
    }
}

/// The step views of a pushed step vector: the pushed view at the end.
proof fn lemma_step_views_push(s: Seq<RenameStep>, e: RenameStep)
    ensures
        step_views(s.push(e)) == step_views(s).push(e@),
{
    assert(step_views(s.push(e)) =~= step_views(s).push(e@));
}

/// The pair views of a pushed pair vector: the pushed view at the end.
proof fn lemma_pair_views_push(s: Seq<RenamePair>, e: RenamePair)
    ensures
        pair_views(s.push(e)) == pair_views(s).push(e@),
{
    assert(pair_views(s.push(e)) =~= pair_views(s).push(e@));
}

/// A plan whose every origin equals its corresponding target reduces to no
/// pairs at all — and so, by `sort`'s contract, to an empty step sequence:
/// all-no-op listings produce nothing to execute.
pub proof fn lemma_all_noops_no_pairs(os: Seq<EntryModel>, ts: Seq<EntryModel>)
    requires
        os.len() == ts.len(),
        forall|i: int| 0 <= i < os.len() ==> (#[trigger] os[i]).path == ts[i].path,
    ensures
        pairs_of(os, ts) == Seq::<PairModel>::empty(),
    decreases os.len(),
{
    if os.len() > 0 {
        lemma_all_noops_no_pairs(os.drop_first(), ts.drop_first());
    }
}

/// The full ordered set of rename pairs plus the computed execution order.
pub struct RenameRequest {
    pub pairs: Vec<RenamePair>,
    pub steps: Vec<RenameStep>,
}

impl RenameRequest {
    /// The plan's pairs as mathematical values.
    pub open spec fn pairs_view(self) -> Seq<PairModel> {
        pair_views(self.pairs@)
    }

    /// The plan's computed steps as mathematical values.
    pub open spec fn steps_view(self) -> Seq<StepModel> {
        step_views(self.steps@)
    }

    /// Pair the origin listing with the target listing by position.
    ///
    /// Fails with `CountMismatch` exactly when the listings differ in length;
    /// otherwise with `DuplicateTarget` exactly when two lines name the same
    /// target path, reporting the earliest such collision (smallest second
    /// line, then smallest first line); otherwise succeeds with the zipped
    /// pairs, no-ops dropped and no step computed yet. An error also carries
    /// the target listing's text, for a source-anchored report.
    pub fn new(origins: FileList, targets: FileList) -> (r: Result<
        RenameRequest,
        (Vec<u8>, Diagnostic),
    >)
        ensures
            origins@.len() != targets@.len() ==> (r matches Err(e) && e.0@ == text_of(targets@)
                && (e.1 matches Diagnostic::CountMismatch { origins: no, targets: nt } && no
                == origins@.len() && nt == targets@.len())),
            origins@.len() == targets@.len() && (exists|i: int, j: int| dup_at(targets@, i, j))
                ==> (r matches Err(e) && e.0@ == text_of(targets@) && (exists|i: int, j: int|
                dup_at(targets@, i, j) && (forall|i2: int, j2: int|
                    dup_at(targets@, i2, j2) ==> j <= j2) && (forall|i2: int|
                    dup_at(targets@, i2, j) ==> i <= i2) && (e.1
                    matches Diagnostic::DuplicateTarget { path, first_line, second_line }
                    && path@ == targets@[j].path && first_line as int == targets@[i].line
                    && second_line as int == targets@[j].line))),
            origins@.len() == targets@.len() && !(exists|i: int, j: int| dup_at(targets@, i, j))
                ==> (r matches Ok(plan) && plan.pairs_view() == pairs_of(origins@, targets@)
                && plan.steps_view() == Seq::<StepModel>::empty() && plan_wf(plan.pairs_view())),
    {
        let n = origins.entries.len();
        proof {
            assert(origins@.len() == origins.entries@.len());
            assert(targets@.len() == targets.entries@.len());
        }
        if targets.entries.len() != n {
            let text = targets.as_text();
            return Err((
                text,
                Diagnostic::CountMismatch { origins: n, targets: targets.entries.len() },
            ));
        }
        // Look for the earliest duplicated target path.
        let mut j: usize = 0;
        while j < n
            invariant
                j <= n,
                n == targets@.len(),
                n == targets.entries@.len(),
                origins@.len() == n,
                forall|i2: int, j2: int| j2 < j ==> !dup_at(targets@, i2, j2),
            decreases n - j,
        {
            let mut i: usize = 0;
            while i < j
                invariant
                    i <= j < n,
                    n == targets@.len(),
                    n == targets.entries@.len(),
                    origins@.len() == n,
                    forall|i2: int, j2: int| j2 < j ==> !dup_at(targets@, i2, j2),
                    forall|i2: int| 0 <= i2 < i ==> !dup_at(targets@, i2, j as int),
                decreases j - i,
            {
                if bytes_eq(&targets.entries[i].path, &targets.entries[j].path) {
                    proof {
                        assert(dup_at(targets@, i as int, j as int));
                    }
                    let path = copy_bytes(&targets.entries[j].path);
                    let first_line = targets.entries[i].line;
                    let second_line = targets.entries[j].line;
                    let text = targets.as_text();
                    return Err((
                        text,
                        Diagnostic::DuplicateTarget { path, first_line, second_line },
                    ));
                }
                i = i + 1;
            }
            j = j + 1;
        }
        proof {
            assert(forall|i2: int, j2: int| !dup_at(targets@, i2, j2));
        }
        // Zip the listings, dropping no-ops.
        let ghost osv = origins@;
        let ghost tsv = targets@;
        let mut pairs: Vec<RenamePair> = Vec::new();
        let mut c: usize = 0;
        proof {
            assert(osv.subrange(0, n as int) =~= osv);
            assert(tsv.subrange(0, n as int) =~= tsv);
            assert(pair_views(pairs@) =~= Seq::<PairModel>::empty());
            assert(Seq::<PairModel>::empty() + pairs_of(osv, tsv) =~= pairs_of(osv, tsv));
        }
        while c < n
            invariant
                c <= n,
                n == osv.len() == tsv.len(),
                n == origins.entries@.len(),
                n == targets.entries@.len(),
                osv == origins@,
                tsv == targets@,
                forall|i2: int, j2: int| !dup_at(tsv, i2, j2),
                pair_views(pairs@) + pairs_of(
                    osv.subrange(c as int, n as int),
                    tsv.subrange(c as int, n as int),
                ) == pairs_of(osv, tsv),
                forall|a: int| 0 <= a < pairs@.len() ==> exists|i2: int|
                    0 <= i2 < c && (#[trigger] pair_views(pairs@)[a]).target == tsv[i2].path,
                plan_wf(pair_views(pairs@)),
            decreases n - c,
        {
            let ghost orest = osv.subrange(c as int, n as int);
            let ghost trest = tsv.subrange(c as int, n as int);
            let ghost m0 = pair_views(pairs@);
            proof {
                assert(orest.drop_first() =~= osv.subrange(c + 1, n as int));
                assert(trest.drop_first() =~= tsv.subrange(c + 1, n as int));
                assert(orest[0] == osv[c as int] && trest[0] == tsv[c as int]);
            }
            let ghost tail = pairs_of(osv.subrange(c + 1, n as int), tsv.subrange(c + 1, n as int));
            if !bytes_eq(&origins.entries[c].path, &targets.entries[c].path) {
                let origin = copy_bytes(&origins.entries[c].path);
                let target = copy_bytes(&targets.entries[c].path);
                let line = targets.entries[c].line;
                let ghost pm = PairModel {
                    origin: osv[c as int].path,
                    target: tsv[c as int].path,
                    line: tsv[c as int].line,
                };
                proof {
                    lemma_pair_views_push(pairs@, RenamePair { origin, target, line });
                }
                pairs.push(RenamePair { origin, target, line });
                proof {
                    assert(pair_views(pairs@) == m0.push(pm));
                    assert(pairs_of(orest, trest) == seq![pm] + tail);
                    assert(m0.push(pm) + tail =~= m0 + (seq![pm] + tail));
                    assert forall|a: int, b: int| 0 <= a < b < pair_views(pairs@).len()
                        implies pair_views(pairs@)[a].target != pair_views(
                        pairs@,
                    )[b].target by {
                        if b == pair_views(pairs@).len() - 1 {
                            let i2 = choose|i2: int|
                                0 <= i2 < c && m0[a].target == tsv[i2].path;
                            assert(!dup_at(tsv, i2, c as int));
                        }
                    }
                }
            } else {
                proof {
                    assert(pairs_of(orest, trest) == tail);
                }
            }
            c = c + 1;
        }
        proof {
            assert(osv.subrange(c as int, n as int) =~= Seq::<EntryModel>::empty());
            assert(pairs_of(
                osv.subrange(c as int, n as int),
                tsv.subrange(c as int, n as int),
            ) == Seq::<PairModel>::empty());
            assert(pair_views(pairs@) + Seq::<PairModel>::empty() =~= pair_views(pairs@));
        }
        let steps: Vec<RenameStep> = Vec::new();
        proof {
            assert(step_views(steps@) =~= Seq::<StepModel>::empty());
        }
        Ok(RenameRequest { pairs, steps })
    }

    /// Compute the execution order.
    ///
    /// Repeatedly emits, in listing order, a pair on whose target no pending
    /// pair's origin still depends; when none exists (a rename cycle), the
    /// first pending pair is staged through a fresh temporary name, which
    /// vacates its origin at once and defers its own write to the end. The
    /// result satisfies `sorted_steps`; on a cycle-free plan every step is
    /// direct. The staging scheme provably finds an unused temporary name,
    /// so the call succeeds on every plan and `UnresolvableConflict` never
    /// arises from it.
    #[verifier::rlimit(100)]
    pub fn sort(&mut self) -> (r: Result<(), Diagnostic>)
        ensures
            final(self).pairs_view() == old(self).pairs_view(),
            r is Ok,
            sorted_steps(final(self).steps_view(), final(self).pairs_view()),
            no_cycles(old(self).pairs_view()) ==> forall|t: int|
                0 <= t < final(self).steps_view().len() ==> final(self).steps_view()[t]
                    is Direct,
    {
        let n = self.pairs.len();
        let ghost ps = self.pairs_view();
        let mut done: Vec<bool> = Vec::new();
        let mut f: usize = 0;
        while f < n
            invariant
                f <= n,
                done@.len() == f,
                count_true(done@) == 0,
                forall|k: int| 0 <= k < done@.len() ==> !done@[k],
            decreases n - f,
        {
            proof {
                lemma_count_true_push_false(done@);
            }
            done.push(false);
            f = f + 1;
        }
        let mut steps: Vec<RenameStep> = Vec::new();
        let ghost mut order: Seq<int> = Seq::empty();
        proof {
            assert(step_views(steps@) =~= Seq::<StepModel>::empty());
        }
        while steps.len() < n
            invariant
                n == self.pairs@.len(),
                self.pairs@ == old(self).pairs@,
                self.steps@ == old(self).steps@,
                ps == pair_views(self.pairs@),
                done@.len() == n,
                count_true(done@) == step_views(steps@).len(),
                order.len() == step_views(steps@).len(),
                forall|t: int| 0 <= t < order.len() ==> 0 <= #[trigger] order[t] < n
                    && done@[order[t]] && realizes(step_views(steps@)[t], ps[order[t]]),
                forall|t1: int, t2: int| 0 <= t1 < t2 < order.len() ==> order[t1] != order[t2],
                forall|k: int| 0 <= k < n && #[trigger] done@[k] ==> exists|t: int|
                    0 <= t < order.len() && #[trigger] order[t] == k,
                forall|t1: int, t2: int|
                    0 <= t1 < t2 < step_views(steps@).len() && #[trigger] step_views(
                        steps@,
                    )[t1] is Direct ==> step_origin(#[trigger] step_views(steps@)[t2])
                        != step_target(step_views(steps@)[t1]),
                forall|t: int, k: int|
                    0 <= t < step_views(steps@).len() && 0 <= k < n && !done@[k]
                        && #[trigger] step_views(steps@)[t] is Direct ==> (#[trigger] ps[k]).origin
                        != step_target(step_views(steps@)[t]),
                forall|t: int| 0 <= t < step_views(steps@).len() && #[trigger] step_views(
                    steps@,
                )[t] is Staged ==> fresh_temp(step_temp(step_views(steps@)[t]), ps),
                forall|t1: int, t2: int|
                    0 <= t1 < t2 < step_views(steps@).len() && #[trigger] step_views(
                        steps@,
                    )[t1] is Staged && #[trigger] step_views(steps@)[t2] is Staged ==> step_temp(
                        step_views(steps@)[t1],
                    ) != step_temp(step_views(steps@)[t2]),
                no_cycles(ps) ==> forall|t: int| 0 <= t < step_views(steps@).len()
                    ==> step_views(steps@)[t] is Direct,
            decreases n - steps.len(),
        {
            let ghost sv0 = step_views(steps@);
            // Scan, in listing order, for the first pending pair that no
            // pending pair depends on, remembering the first pending index.
            let mut found = false;
            let mut pick: usize = 0;
            let mut first_pending: usize = n;
            let mut k: usize = 0;
            while k < n
                invariant
                    k <= n,
                    n == self.pairs@.len(),
                    ps == pair_views(self.pairs@),
                    done@.len() == n,
                    found ==> pick < n && !done@[pick as int] && forall|m: int|
                        0 <= m < n && m != pick && !done@[m] ==> (#[trigger] ps[m]).origin
                            != ps[pick as int].target,
                    !found ==> forall|k2: int|
                        0 <= k2 < k && !done@[k2] ==> exists|m: int|
                            0 <= m < n && m != k2 && !(#[trigger] done@[m]) && ps[m].origin
                                == ps[k2].target,
                    first_pending <= n,
                    first_pending == n ==> forall|q: int| 0 <= q < k ==> done@[q],
                    first_pending < n ==> !done@[first_pending as int],
                decreases n - k,
            {
                if !done[k] {
                    if first_pending == n {
                        first_pending = k;
                    }
                    if !found {
                        let mut blocked = false;
                        let mut m: usize = 0;
                        while m < n
                            invariant
                                m <= n,
                                k < n,
                                n == self.pairs@.len(),
                                ps == pair_views(self.pairs@),
                                done@.len() == n,
                                blocked ==> exists|mm: int|
                                    0 <= mm < n && mm != k && !(#[trigger] done@[mm])
                                        && ps[mm].origin == ps[k as int].target,
                                !blocked ==> forall|mm: int|
                                    0 <= mm < m && mm != k && !done@[mm] ==> (
                                    #[trigger] ps[mm]).origin != ps[k as int].target,
                            decreases n - m,
                        {
                            if !blocked && m != k && !done[m] && bytes_eq(
                                &self.pairs[m].origin,
                                &self.pairs[k].target,
                            ) {
                                blocked = true;
                            }
                            m = m + 1;
                        }
                        if !blocked {
                            found = true;
                            pick = k;
                        }
                    }
                }
                k = k + 1;
            }
            if found {
                // Emit the free pair as a direct step.
                let origin = copy_bytes(&self.pairs[pick].origin);
                let target = copy_bytes(&self.pairs[pick].target);
                let step = RenameStep::Direct { origin, target };
                let ghost d0 = done@;
                let ghost o0 = order;
                proof {
                    lemma_count_true_update(d0, pick as int);
                    lemma_step_views_push(steps@, step);
                }
                done.set(pick, true);
                steps.push(step);
                proof {
                    order = o0.push(pick as int);
                    let sv = step_views(steps@);
                    assert(sv == sv0.push(step@));
                    assert(realizes(step@, ps[pick as int]));
                    assert(done@ == d0.update(pick as int, true));
                    assert forall|t: int| 0 <= t < order.len() implies 0 <= #[trigger] order[t]
                        < n && done@[order[t]] && realizes(sv[t], ps[order[t]]) by {
                        if t < order.len() - 1 {
                            assert(order[t] == o0[t] && sv[t] == sv0[t]);
                        } else {
                            assert(order[t] == pick as int);
                        }
                    }
                    assert forall|t1: int, t2: int| 0 <= t1 < t2 < order.len() implies order[t1]
                        != order[t2] by {
                        if t2 == order.len() - 1 && o0[t1] == pick as int {
                            assert(d0[pick as int]);
                        }
                    }
                    assert forall|kk: int| 0 <= kk < n && #[trigger] done@[kk] implies exists|
                        t: int,
                    | 0 <= t < order.len() && #[trigger] order[t] == kk by {
                        if kk == pick as int {
                            assert(order[order.len() - 1] == kk);
                        } else {
                            assert(d0[kk]);
                            let t0 = choose|t: int| 0 <= t < o0.len() && #[trigger] o0[t] == kk;
                            assert(order[t0] == kk);
                        }
                    }
                    assert forall|t1: int, t2: int|
                        0 <= t1 < t2 < sv.len() && #[trigger] sv[t1] is Direct implies
                        step_origin(#[trigger] sv[t2]) != step_target(sv[t1]) by {
                        if t2 == sv.len() - 1 {
                            assert(sv[t1] == sv0[t1]);
                            assert(!d0[pick as int]);
                            assert(ps[pick as int].origin != step_target(sv0[t1]));
                        } else {
                            assert(sv[t1] == sv0[t1] && sv[t2] == sv0[t2]);
                        }
                    }
                    assert forall|t: int, kk: int|
                        0 <= t < sv.len() && 0 <= kk < n && !done@[kk] && #[trigger] sv[t]
                            is Direct implies (#[trigger] ps[kk]).origin != step_target(
                        sv[t],
                    ) by {
                        assert(!d0[kk] && kk != pick as int);
                        if t < sv.len() - 1 {
                            assert(sv[t] == sv0[t]);
                        }
                    }
                    assert forall|t: int|
                        0 <= t < sv.len() && #[trigger] sv[t] is Staged implies fresh_temp(
                        step_temp(sv[t]),
                        ps,
                    ) by {
                        assert(sv[t] == sv0[t]);
                    }
                    assert forall|t1: int, t2: int|
                        0 <= t1 < t2 < sv.len() && #[trigger] sv[t1] is Staged
                            && #[trigger] sv[t2] is Staged implies step_temp(sv[t1]) != step_temp(
                        sv[t2],
                    ) by {
                        assert(sv[t1] == sv0[t1] && sv[t2] == sv0[t2]);
                    }
                    if no_cycles(ps) {
                        assert forall|t: int| 0 <= t < sv.len() implies sv[t] is Direct by {
                            if t < sv.len() - 1 {
                                assert(sv[t] == sv0[t]);
                            }
                        }
                    }
                }
            } else {
                if first_pending == n {
                    // Every pair is done, yet fewer steps than pairs exist:
                    // impossible by the counting invariant.
                    proof {
                        lemma_count_true_all(done@);
                    }
                    return unreached();
                }
                let k0 = first_pending;
                // Every pending pair depends on a pending pair: the plan has
                // a cycle among the pending pairs.
                proof {
                    let pend = Set::new(|q: int| 0 <= q < n && !done@[q]);
                    assert(pend.subset_of(set_int_range(0, n as int)));
                    lemma_int_range(0, n as int);
                    lemma_len_subset(pend, set_int_range(0, n as int));
                    assert(pend.contains(k0 as int));
                    if pend.len() == 0 {
                        pend.lemma_len0_is_empty();
                    }
                    assert(pend.len() > 0);
                    if no_cycles(ps) {
                        assert(exists|q: int| free_in(ps, pend, q));
                        let kf = choose|q: int| free_in(ps, pend, q);
                        assert(pend.contains(kf));
                        assert(0 <= kf < n && !done@[kf]);
                        assert(exists|m: int|
                            0 <= m < n && m != kf && !(#[trigger] done@[m]) && ps[m].origin
                                == ps[kf].target);
                        let mb = choose|m: int|
                            0 <= m < n && m != kf && !(#[trigger] done@[m]) && ps[m].origin
                                == ps[kf].target;
                        assert(pend.contains(mb));
                        assert(false);
                    }
                }
                let temp = gen_temp(&self.pairs, &steps, &self.pairs[k0].origin);
                let origin = copy_bytes(&self.pairs[k0].origin);
                let target = copy_bytes(&self.pairs[k0].target);
                let ghost tempv = temp@;
                let step = RenameStep::Staged { origin, temp, target };
                let ghost d0 = done@;
                let ghost o0 = order;
                proof {
                    lemma_count_true_update(d0, k0 as int);
                    lemma_step_views_push(steps@, step);
                }
                done.set(k0, true);
                steps.push(step);
                proof {
                    order = o0.push(k0 as int);
                    let sv = step_views(steps@);
                    assert(sv == sv0.push(step@));
                    assert(realizes(step@, ps[k0 as int]));
                    assert(step_temp(step@) == tempv);
                    assert(done@ == d0.update(k0 as int, true));
                    assert forall|t: int| 0 <= t < order.len() implies 0
                        <= #[trigger] order[t] < n && done@[order[t]] && realizes(
                        sv[t],
                        ps[order[t]],
                    ) by {
                        if t < order.len() - 1 {
                            assert(order[t] == o0[t] && sv[t] == sv0[t]);
                        } else {
                            assert(order[t] == k0 as int);
                        }
                    }
                    assert forall|t1: int, t2: int|
                        0 <= t1 < t2 < order.len() implies order[t1] != order[t2] by {
                        if t2 == order.len() - 1 && o0[t1] == k0 as int {
                            assert(d0[k0 as int]);
                        }
                    }
                    assert forall|kk: int|
                        0 <= kk < n && #[trigger] done@[kk] implies exists|t: int|
                        0 <= t < order.len() && #[trigger] order[t] == kk by {
                        if kk == k0 as int {
                            assert(order[order.len() - 1] == kk);
                        } else {
                            assert(d0[kk]);
                            let t0 = choose|t: int|
                                0 <= t < o0.len() && #[trigger] o0[t] == kk;
                            assert(order[t0] == kk);
                        }
                    }
                    assert forall|t1: int, t2: int|
                        0 <= t1 < t2 < sv.len() && #[trigger] sv[t1] is Direct implies
                        step_origin(#[trigger] sv[t2]) != step_target(sv[t1]) by {
                        if t2 == sv.len() - 1 {
                            assert(sv[t1] == sv0[t1]);
                            assert(!d0[k0 as int]);
                            assert(ps[k0 as int].origin != step_target(sv0[t1]));
                        } else {
                            assert(sv[t1] == sv0[t1] && sv[t2] == sv0[t2]);
                        }
                    }
                    assert forall|t: int, kk: int|
                        0 <= t < sv.len() && 0 <= kk < n && !done@[kk]
                            && #[trigger] sv[t] is Direct implies (
                    #[trigger] ps[kk]).origin != step_target(sv[t]) by {
                        assert(!d0[kk]);
                        assert(sv[t] == sv0[t]);
                    }
                    assert forall|t: int|
                        0 <= t < sv.len() && #[trigger] sv[t] is Staged implies
                        fresh_temp(step_temp(sv[t]), ps) by {
                        if t < sv.len() - 1 {
                            assert(sv[t] == sv0[t]);
                        }
                    }
                    assert forall|t1: int, t2: int|
                        0 <= t1 < t2 < sv.len() && #[trigger] sv[t1] is Staged
                            && #[trigger] sv[t2] is Staged implies step_temp(sv[t1])
                        != step_temp(sv[t2]) by {
                        assert(sv[t1] == sv0[t1]);
                        if t2 < sv.len() - 1 {
                            assert(sv[t2] == sv0[t2]);
                        } else {
                            assert(step_temp(sv[t2]) == tempv);
                        }
                    }
                }
            }
        }
        proof {
            lemma_count_true_le(done@);
            lemma_count_true_full(done@);
            assert forall|t: int| 0 <= t < step_views(steps@).len() implies exists|k: int|
                0 <= k < ps.len() && realizes(#[trigger] step_views(steps@)[t], ps[k]) by {
                assert(realizes(step_views(steps@)[t], ps[order[t]]));
            }
            assert forall|k: int| 0 <= k < ps.len() implies exists|t: int|
                0 <= t < step_views(steps@).len() && realizes(
                    step_views(steps@)[t],
                    #[trigger] ps[k],
                ) by {
                assert(done@[k]);
                let t = choose|t: int| 0 <= t < order.len() && #[trigger] order[t] == k;
                assert(realizes(step_views(steps@)[t], ps[k]));
            }
        }
        self.steps = steps;
        Ok(())
    }
}

/// A staging name for `origin`: the origin bytes followed by tilde bytes,
/// one more for each retry, until the candidate is longer than every origin,
/// target and already-chosen temporary of the plan. A longer name equals
/// none of them, so the retries always end with a fresh name and staging
/// cannot fail.
fn gen_temp(pairs: &Vec<RenamePair>, steps: &Vec<RenameStep>, origin: &Vec<u8>) -> (r: Vec<u8>)
    ensures
        fresh_temp(r@, pair_views(pairs@)),
        forall|t2: int|
            0 <= t2 < step_views(steps@).len() && #[trigger] step_views(steps@)[t2] is Staged
                ==> r@ != step_temp(step_views(steps@)[t2]),
{
    let mut cap: usize = 0;
    let mut k: usize = 0;
    while k < pairs.len()
        invariant
            k <= pairs@.len(),
            forall|q: int|
                0 <= q < k ==> (#[trigger] pair_views(pairs@)[q]).origin.len() <= cap
                    && pair_views(pairs@)[q].target.len() <= cap,
        decreases pairs@.len() - k,
    {
        if pairs[k].origin.len() > cap {
            cap = pairs[k].origin.len();
        }
        if pairs[k].target.len() > cap {
            cap = pairs[k].target.len();
        }
        k = k + 1;
    }
    let mut t: usize = 0;
    while t < steps.len()
        invariant
            t <= steps@.len(),
            forall|q: int|
                0 <= q < pairs@.len() ==> (#[trigger] pair_views(pairs@)[q]).origin.len() <= cap
                    && pair_views(pairs@)[q].target.len() <= cap,
            forall|t2: int|
                0 <= t2 < t && #[trigger] step_views(steps@)[t2] is Staged ==> step_temp(
                    step_views(steps@)[t2],
                ).len() <= cap,
        decreases steps@.len() - t,
    {
        let st = &steps[t];
        match st {
            RenameStep::Staged { temp, .. } => {
                if temp.len() > cap {
                    cap = temp.len();
                }
            },
            RenameStep::Direct { .. } => {},
        }
        t = t + 1;
    }
    let mut cand = copy_bytes(origin);
    while cand.len() <= cap
        invariant
            forall|q: int|
                0 <= q < pairs@.len() ==> (#[trigger] pair_views(pairs@)[q]).origin.len() <= cap
                    && pair_views(pairs@)[q].target.len() <= cap,
            forall|t2: int|
                0 <= t2 < step_views(steps@).len() && #[trigger] step_views(steps@)[t2]
                    is Staged ==> step_temp(step_views(steps@)[t2]).len() <= cap,
        decreases cap + 1 - cand@.len(),
    {
        cand.push(126);
    }
    cand
}

} // verus!
