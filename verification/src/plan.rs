use vstd::prelude::*;

use crate::chart::{
    Chart, Charts, ChartView, charts_match, chart_at, has_key, key_set, lemma_chart_at,
    repeated_key, same_content, unique_keys, views,
};
use crate::error::HelmError;

verus! {

/// How the engine treats a release that is present in both sets.
///
/// Under `Strict` an entry whose content already matches the deployed one is
/// silently skipped, which makes re-running a converged plan a no-op.  Under
/// `ForceReconcile` every release present in both sets is re-issued as an
/// upgrade, for state readers that cannot represent every diff-relevant
/// field faithfully.
#[derive(Clone, Copy, Debug)]
pub enum DiffMode {
    Strict,
    ForceReconcile,
}

/// The outcome of reconciling a deployed against a desired chart set: three
/// key-disjoint chart sequences, each in a deterministic order.
pub struct Plan {
    pub to_install: Charts,
    pub to_upgrade: Charts,
    pub to_delete: Charts,
}

/// The mathematical value of a [`Plan`].
#[verifier::ext_equal]
pub struct PlanView {
    pub to_install: Seq<ChartView>,
    pub to_upgrade: Seq<ChartView>,
    pub to_delete: Seq<ChartView>,
}

impl View for Plan {
    type V = PlanView;

    open spec fn view(&self) -> PlanView {
        PlanView {
            to_install: views(self.to_install@),
            to_upgrade: views(self.to_upgrade@),
            to_delete: views(self.to_delete@),
        }
    }
}

/// The charts of the desired set `s` whose release is absent from the
/// deployed set `d`, in `s`'s order.
pub open spec fn plan_install(d: Seq<ChartView>, s: Seq<ChartView>) -> Seq<ChartView> {
    s.filter(|c: ChartView| !has_key(d, c.release))
}

/// Whether a desired chart `c` is re-issued as an upgrade against the
/// deployed set `d` under `mode`.
pub open spec fn needs_upgrade(d: Seq<ChartView>, mode: DiffMode, c: ChartView) -> bool {
    has_key(d, c.release) && (mode is ForceReconcile || !same_content(chart_at(d, c.release), c))
}

/// The charts of the desired set `s` re-issued as upgrades, in `s`'s order.
pub open spec fn plan_upgrade(d: Seq<ChartView>, s: Seq<ChartView>, mode: DiffMode) -> Seq<
    ChartView,
> {
    s.filter(|c: ChartView| needs_upgrade(d, mode, c))
}

/// The charts of the deployed set `d` whose release is absent from the
/// desired set `s`, in `d`'s order.
pub open spec fn plan_delete(d: Seq<ChartView>, s: Seq<ChartView>) -> Seq<ChartView> {
    d.filter(|c: ChartView| !has_key(s, c.release))
}

/// Finds the first chart of `v` whose release name is `k`.
fn find_by_key(v: &Charts, k: &String) -> (r: Option<usize>)
    ensures
        match r {
            Some(j) => j < v@.len() && v@[j as int]@.release == k@ && forall|i: int|
                0 <= i < j ==> (#[trigger] v@[i])@.release != k@,
            None => !has_key(views(v@), k@),
        },
{
    let mut j: usize = 0;
    while j < v.len()
        invariant
            j <= v@.len(),
            forall|i: int| 0 <= i < j ==> (#[trigger] v@[i])@.release != k@,
        decreases v@.len() - j,
    {
        if v[j].release.eq(k) {
            return Some(j);
        }
        j += 1;
    }
    proof {
        assert forall|i: int| 0 <= i < views(v@).len() implies (#[trigger] views(v@)[i]).release
            != k@ by {
            assert(views(v@)[i] == v@[i]@);
        }
    }
    None
}

/// `chart_at` picks the first chart keyed by `k`.
proof fn lemma_chart_at_first(s: Seq<ChartView>, k: Seq<char>, j: int)
    requires
        0 <= j < s.len(),
        s[j].release == k,
        forall|i: int| 0 <= i < j ==> (#[trigger] s[i]).release != k,
    ensures
        chart_at(s, k) == s[j],
    decreases s.len(),
{
    if j > 0 {
        assert forall|i: int| 0 <= i < j - 1 implies (#[trigger] s.drop_first()[i]).release
            != k by {
            assert(s.drop_first()[i] == s[i + 1]);
        }
        assert(s.drop_first()[j - 1] == s[j]);
        lemma_chart_at_first(s.drop_first(), k, j - 1);
    }
}

/// Splitting a `filter` at a prefix boundary: filtering one more element
/// appends it exactly when it satisfies the predicate.
proof fn lemma_filter_take_step<A>(s: Seq<A>, pred: spec_fn(A) -> bool, i: int)
    requires
        0 <= i < s.len(),
    ensures
        s.take(i + 1).filter(pred) == if pred(s[i]) {
            s.take(i).filter(pred).push(s[i])
        } else {
            s.take(i).filter(pred)
        },
{
    reveal(Seq::filter);
    assert(s.take(i + 1).drop_last() =~= s.take(i));
    assert(s.take(i + 1).last() == s[i]);
}

/// What `filter` keeps: exactly the elements of `s` that satisfy `pred`.
pub proof fn lemma_filter_elems<A>(s: Seq<A>, pred: spec_fn(A) -> bool)
    ensures
        forall|x: A| #[trigger] s.filter(pred).contains(x) <==> s.contains(x) && pred(x),
    decreases s.len(),
{
    reveal(Seq::filter);
    broadcast use vstd::seq_lib::lemma_seq_contains;

    if s.len() > 0 {
        lemma_filter_elems(s.drop_last(), pred);
        let f = s.filter(pred);
        let df = s.drop_last().filter(pred);
        assert forall|x: A| #[trigger] f.contains(x) implies s.contains(x) && pred(x) by {
            let j = choose|j: int| 0 <= j < f.len() && f[j] == x;
            if pred(s.last()) && j == f.len() - 1 {
                assert(s[s.len() - 1] == x);
            } else {
                assert(df[j] == x);
                assert(df.contains(x));
                let i = choose|i: int| 0 <= i < s.drop_last().len() && s.drop_last()[i] == x;
                assert(s[i] == x);
            }
        }
        assert forall|x: A| s.contains(x) && pred(x) implies #[trigger] f.contains(x) by {
            let i = choose|i: int| 0 <= i < s.len() && s[i] == x;
            if i < s.len() - 1 {
                assert(s.drop_last()[i] == x);
                assert(s.drop_last().contains(x));
                assert(df.contains(x));
                let j = choose|j: int| 0 <= j < df.len() && df[j] == x;
                assert(f[j] == x);
            } else {
                assert(f.last() == x);
            }
        }
    }
}

/// A filter that rejects every element yields the empty sequence.
pub proof fn lemma_filter_none<A>(s: Seq<A>, pred: spec_fn(A) -> bool)
    requires
        forall|i: int| 0 <= i < s.len() ==> !pred(#[trigger] s[i]),
    ensures
        s.filter(pred) == Seq::<A>::empty(),
{
    lemma_filter_elems(s, pred);
    if s.filter(pred).len() > 0 {
        assert(s.filter(pred).contains(s.filter(pred)[0]));
        let x = s.filter(pred)[0];
        let i = choose|i: int| 0 <= i < s.len() && s[i] == x;
        assert(!pred(s[i]));
    }
    assert(s.filter(pred) =~= Seq::<A>::empty());
}

/// Computes the reconciliation plan: the three-way difference between the
/// deployed and the desired chart set.  Installs and upgrades come in the
/// desired set's order, deletions in the deployed set's order, so the plan
/// is a pure, deterministic function of its inputs.
///
/// Release names are expected to be unique within each input; a set that
/// names a release twice is a configuration error upstream of the engine
/// (see [`normalize`]), and the plan then treats every occurrence alike.
pub fn compute_plan(deployed: &Charts, desired: &Charts, mode: DiffMode) -> (r: Plan)
    ensures
        r@.to_install == plan_install(views(deployed@), views(desired@)),
        r@.to_upgrade == plan_upgrade(views(deployed@), views(desired@), mode),
        r@.to_delete == plan_delete(views(deployed@), views(desired@)),
{
    let ghost dv = views(deployed@);
    let ghost sv = views(desired@);
    let mut to_install: Charts = Vec::new();
    let mut to_upgrade: Charts = Vec::new();
    let mut to_delete: Charts = Vec::new();

    let mut i: usize = 0;
    while i < desired.len()
        invariant
            i <= desired@.len(),
            dv == views(deployed@),
            sv == views(desired@),
            views(to_install@) == sv.take(i as int).filter(
                |c: ChartView| !has_key(dv, c.release),
            ),
            views(to_upgrade@) == sv.take(i as int).filter(
                |c: ChartView| needs_upgrade(dv, mode, c),
            ),
        decreases desired@.len() - i,
    {
        let c = &desired[i];
        proof {
            assert(sv[i as int] == c@);
            lemma_filter_take_step(sv, |x: ChartView| !has_key(dv, x.release), i as int);
            lemma_filter_take_step(sv, |x: ChartView| needs_upgrade(dv, mode, x), i as int);
        }
        match find_by_key(deployed, &c.release) {
            None => {
                proof {
                    assert forall|t: int| 0 <= t < dv.len() implies (#[trigger] dv[t]).release
                        != c@.release by {
                        assert(dv[t] == deployed@[t]@);
                    }
                }
                let cc = c.clone();
                to_install.push(cc);
                proof {
                    assert(views(to_install@) =~= sv.take(i + 1).filter(
                        |x: ChartView| !has_key(dv, x.release),
                    ));
                }
            },
            Some(j) => {
                proof {
                    assert(dv[j as int] == deployed@[j as int]@);
                    assert forall|t: int| 0 <= t < j implies (#[trigger] dv[t]).release
                        != c@.release by {
                        assert(dv[t] == deployed@[t]@);
                    }
                    lemma_chart_at_first(dv, c@.release, j as int);
                }
                let reissue = match mode {
                    DiffMode::ForceReconcile => true,
                    DiffMode::Strict => !charts_match(&deployed[j], c),
                };
                if reissue {
                    let cc = c.clone();
                    to_upgrade.push(cc);
                    proof {
                        assert(views(to_upgrade@) =~= sv.take(i + 1).filter(
                            |x: ChartView| needs_upgrade(dv, mode, x),
                        ));
                    }
                }
            },
        }
        i += 1;
    }

    let mut k: usize = 0;
    while k < deployed.len()
        invariant
            k <= deployed@.len(),
            dv == views(deployed@),
            sv == views(desired@),
            views(to_delete@) == dv.take(k as int).filter(|c: ChartView| !has_key(sv, c.release)),
        decreases deployed@.len() - k,
    {
        let c = &deployed[k];
        proof {
            assert(dv[k as int] == c@);
            lemma_filter_take_step(dv, |x: ChartView| !has_key(sv, x.release), k as int);
        }
        match find_by_key(desired, &c.release) {
            None => {
                let cc = c.clone();
                to_delete.push(cc);
                proof {
                    assert(views(to_delete@) =~= dv.take(k + 1).filter(
                        |x: ChartView| !has_key(sv, x.release),
                    ));
                }
            },
            Some(j) => {
                proof {
                    assert(sv[j as int] == desired@[j as int]@);
                    assert(has_key(sv, c@.release));
                }
            },
        }
        k += 1;
    }

    proof {
        assert(sv.take(sv.len() as int) =~= sv);
        assert(dv.take(dv.len() as int) =~= dv);
    }
    Plan { to_install, to_upgrade, to_delete }
}

/// The three-way difference in its strict form: a converged entry is
/// skipped, a changed one upgraded, a new one installed, a vanished one
/// deleted.
pub fn diff(initial: &Charts, next: &Charts) -> (r: Plan)
    ensures
        r@.to_install == plan_install(views(initial@), views(next@)),
        r@.to_upgrade == plan_upgrade(views(initial@), views(next@), DiffMode::Strict),
        r@.to_delete == plan_delete(views(initial@), views(next@)),
{
    compute_plan(initial, next, DiffMode::Strict)
}

/// The plan partitions the release names: installs are exactly the desired
/// names not deployed, deletions exactly the deployed names not desired, and
/// upgrades only names present on both sides — so the three parts are
/// pairwise key-disjoint.
pub proof fn lemma_plan_key_partition(d: Seq<ChartView>, s: Seq<ChartView>, mode: DiffMode)
    ensures
        key_set(plan_install(d, s)) =~= key_set(s).difference(key_set(d)),
        key_set(plan_delete(d, s)) =~= key_set(d).difference(key_set(s)),
        key_set(plan_upgrade(d, s, mode)).subset_of(key_set(s).intersect(key_set(d))),
        key_set(plan_install(d, s)).disjoint(key_set(plan_upgrade(d, s, mode))),
        key_set(plan_install(d, s)).disjoint(key_set(plan_delete(d, s))),
        key_set(plan_upgrade(d, s, mode)).disjoint(key_set(plan_delete(d, s))),
{
    broadcast use vstd::seq_lib::lemma_seq_contains;

    lemma_filter_elems(s, |c: ChartView| !has_key(d, c.release));
    lemma_filter_elems(s, |c: ChartView| needs_upgrade(d, mode, c));
    lemma_filter_elems(d, |c: ChartView| !has_key(s, c.release));

    assert forall|k: Seq<char>| #[trigger] key_set(plan_install(d, s)).contains(k) <==> key_set(
        s,
    ).difference(key_set(d)).contains(k) by {
        if has_key(plan_install(d, s), k) {
            let c = chart_at(plan_install(d, s), k);
            lemma_chart_at(plan_install(d, s), k);
        }
        if has_key(s, k) && !has_key(d, k) {
            let c = chart_at(s, k);
            lemma_chart_at(s, k);
            assert(plan_install(d, s).contains(c));
        }
    }
    assert forall|k: Seq<char>| #[trigger] key_set(plan_delete(d, s)).contains(k) <==> key_set(
        d,
    ).difference(key_set(s)).contains(k) by {
        if has_key(plan_delete(d, s), k) {
            let c = chart_at(plan_delete(d, s), k);
            lemma_chart_at(plan_delete(d, s), k);
        }
        if has_key(d, k) && !has_key(s, k) {
            let c = chart_at(d, k);
            lemma_chart_at(d, k);
            assert(plan_delete(d, s).contains(c));
        }
    }
    assert forall|k: Seq<char>| #[trigger] key_set(plan_upgrade(d, s, mode)).contains(
        k,
    ) implies key_set(s).intersect(key_set(d)).contains(k) by {
        let c = chart_at(plan_upgrade(d, s, mode), k);
        lemma_chart_at(plan_upgrade(d, s, mode), k);
    }
}

/// Under force-reconcile every desired release is acted on: the installs
/// and upgrades together carry exactly the desired set's release names.
pub proof fn lemma_plan_covers_desired(d: Seq<ChartView>, s: Seq<ChartView>)
    ensures
        key_set(plan_install(d, s)).union(
            key_set(plan_upgrade(d, s, DiffMode::ForceReconcile)),
        ) =~= key_set(s),
{
    broadcast use vstd::seq_lib::lemma_seq_contains;

    lemma_filter_elems(s, |c: ChartView| !has_key(d, c.release));
    lemma_filter_elems(s, |c: ChartView| needs_upgrade(d, DiffMode::ForceReconcile, c));
    assert forall|k: Seq<char>|
        #[trigger] key_set(plan_install(d, s)).union(
            key_set(plan_upgrade(d, s, DiffMode::ForceReconcile)),
        ).contains(k) <==> key_set(s).contains(k) by {
        if has_key(plan_install(d, s), k) {
            lemma_chart_at(plan_install(d, s), k);
        }
        if has_key(plan_upgrade(d, s, DiffMode::ForceReconcile), k) {
            lemma_chart_at(plan_upgrade(d, s, DiffMode::ForceReconcile), k);
        }
        if has_key(s, k) {
            let c = chart_at(s, k);
            lemma_chart_at(s, k);
            if has_key(d, k) {
                assert(needs_upgrade(d, DiffMode::ForceReconcile, c));
                assert(plan_upgrade(d, s, DiffMode::ForceReconcile).contains(c));
            } else {
                assert(plan_install(d, s).contains(c));
            }
        }
    }
}

/// Idempotence: reconciling a set against itself plans no install and no
/// deletion, and in strict mode no upgrade either — a converged cluster
/// yields an empty plan.
pub proof fn lemma_plan_idempotent(x: Seq<ChartView>, mode: DiffMode)
    requires
        unique_keys(x),
    ensures
        plan_install(x, x) == Seq::<ChartView>::empty(),
        plan_delete(x, x) == Seq::<ChartView>::empty(),
        mode is Strict ==> plan_upgrade(x, x, mode) == Seq::<ChartView>::empty(),
{
    assert(forall|i: int| 0 <= i < x.len() ==> has_key(x, (#[trigger] x[i]).release));
    lemma_filter_none(x, |c: ChartView| !has_key(x, c.release));
    if mode is Strict {
        assert forall|i: int| 0 <= i < x.len() implies !needs_upgrade(
            x,
            mode,
            #[trigger] x[i],
        ) by {
            lemma_chart_at(x, x[i].release);
            assert(chart_at(x, x[i].release) == x[i]);
        }
        lemma_filter_none(x, |c: ChartView| needs_upgrade(x, mode, c));
    }
}

/// A single convergence operation, in the form the executor applies it.
#[derive(Debug, PartialEq, Eq)]
pub enum Op {
    Install(Chart),
    Upgrade(Chart),
    Delete(String),
}

/// The mathematical value of an [`Op`].
#[verifier::ext_equal]
pub enum OpView {
    Install(ChartView),
    Upgrade(ChartView),
    Delete(Seq<char>),
}

/// The values of a sequence of operations.
pub open spec fn op_views(s: Seq<Op>) -> Seq<OpView> {
    s.map_values(|o: Op| o@)
}

impl View for Op {
    type V = OpView;

    open spec fn view(&self) -> OpView {
        match self {
            Op::Install(c) => OpView::Install(c@),
            Op::Upgrade(c) => OpView::Upgrade(c@),
            Op::Delete(r) => OpView::Delete(r@),
        }
    }
}

/// The order in which a plan is applied: upgrades first, then installs, then
/// deletions, each category in the plan's own order.  Issuing deletions last
/// avoids the window where a release disappears before its replacement is
/// ready.
pub open spec fn op_order(p: PlanView) -> Seq<OpView> {
    p.to_upgrade.map_values(|c: ChartView| OpView::Upgrade(c)) + p.to_install.map_values(
        |c: ChartView| OpView::Install(c),
    ) + p.to_delete.map_values(|c: ChartView| OpView::Delete(c.release))
}

/// Flattens a plan into the ordered operation sequence the executor runs.
pub fn sequence_plan(plan: &Plan) -> (r: Vec<Op>)
    ensures
        op_views(r@) == op_order(plan@),
{
    let mut ops: Vec<Op> = Vec::new();
    let ghost upg = plan@.to_upgrade.map_values(|c: ChartView| OpView::Upgrade(c));
    let ghost ins = plan@.to_install.map_values(|c: ChartView| OpView::Install(c));
    let ghost del = plan@.to_delete.map_values(|c: ChartView| OpView::Delete(c.release));

    let mut i: usize = 0;
    while i < plan.to_upgrade.len()
        invariant
            i <= plan.to_upgrade@.len(),
            upg == plan@.to_upgrade.map_values(|c: ChartView| OpView::Upgrade(c)),
            op_views(ops@) == upg.take(i as int),
        decreases plan.to_upgrade@.len() - i,
    {
        let cc = plan.to_upgrade[i].clone();
        proof {
            assert(cc@ == plan.to_upgrade@[i as int]@);
            assert(upg[i as int] == OpView::Upgrade(cc@));
        }
        let ghost prev = ops@;
        ops.push(Op::Upgrade(cc));
        proof {
            assert(op_views(prev).len() == prev.len());
            assert(prev.len() == i as int);
            assert(ops@.len() == i + 1);
            assert forall|t: int| 0 <= t < ops@.len() implies #[trigger] op_views(ops@)[t]
                == upg.take(i + 1)[t] by {
                if t < i as int {
                    assert(ops@[t] == prev[t]);
                    assert(op_views(prev)[t] == upg[t]);
                } else {
                    assert(ops@[t]@ == upg[i as int]);
                }
            }
            assert(op_views(ops@) =~= upg.take(i + 1));
        }
        i += 1;
    }
    proof {
        assert(upg.take(upg.len() as int) =~= upg);
    }

    let mut j: usize = 0;
    while j < plan.to_install.len()
        invariant
            j <= plan.to_install@.len(),
            upg == plan@.to_upgrade.map_values(|c: ChartView| OpView::Upgrade(c)),
            ins == plan@.to_install.map_values(|c: ChartView| OpView::Install(c)),
            op_views(ops@) == upg + ins.take(j as int),
        decreases plan.to_install@.len() - j,
    {
        let cc = plan.to_install[j].clone();
        proof {
            assert(cc@ == plan.to_install@[j as int]@);
            assert(ins[j as int] == OpView::Install(cc@));
        }
        let ghost prev = ops@;
        ops.push(Op::Install(cc));
        proof {
            assert(op_views(prev).len() == prev.len());
            assert(prev.len() == upg.len() + j);
            assert forall|t: int| 0 <= t < ops@.len() implies #[trigger] op_views(ops@)[t] == (upg
                + ins.take(j + 1))[t] by {
                if t < prev.len() {
                    assert(ops@[t] == prev[t]);
                    assert(op_views(prev)[t] == (upg + ins.take(j as int))[t]);
                } else {
                    assert(ops@[t]@ == ins[j as int]);
                }
            }
            assert(op_views(ops@) =~= upg + ins.take(j + 1));
        }
        j += 1;
    }
    proof {
        assert(ins.take(ins.len() as int) =~= ins);
    }

    let mut k: usize = 0;
    while k < plan.to_delete.len()
        invariant
            k <= plan.to_delete@.len(),
            upg == plan@.to_upgrade.map_values(|c: ChartView| OpView::Upgrade(c)),
            ins == plan@.to_install.map_values(|c: ChartView| OpView::Install(c)),
            del == plan@.to_delete.map_values(|c: ChartView| OpView::Delete(c.release)),
            op_views(ops@) == upg + ins + del.take(k as int),
        decreases plan.to_delete@.len() - k,
    {
        let rel = plan.to_delete[k].release.clone();
        proof {
            assert(rel@ == plan.to_delete@[k as int]@.release);
            assert(del[k as int] == OpView::Delete(rel@));
        }
        let ghost prev = ops@;
        ops.push(Op::Delete(rel));
        proof {
            assert(op_views(prev).len() == prev.len());
            assert(prev.len() == upg.len() + ins.len() + k);
            assert forall|t: int| 0 <= t < ops@.len() implies #[trigger] op_views(ops@)[t] == (upg
                + ins + del.take(k + 1))[t] by {
                if t < prev.len() {
                    assert(ops@[t] == prev[t]);
                    assert(op_views(prev)[t] == (upg + ins + del.take(k as int))[t]);
                } else {
                    assert(ops@[t]@ == del[k as int]);
                }
            }
            assert(op_views(ops@) =~= upg + ins + del.take(k + 1));
        }
        k += 1;
    }
    proof {
        assert(del.take(del.len() as int) =~= del);
        assert(op_views(ops@) =~= op_order(plan@));
    }
    ops
}

/// Normalizes a desired chart set: accepts it unchanged when every release
/// name is unique, and rejects it as a configuration error otherwise,
/// naming a repeated release.
pub fn normalize(desired: Charts) -> (r: Result<Charts, HelmError>)
    ensures
        unique_keys(views(desired@)) ==> (r matches Ok(v) && v == desired),
        !unique_keys(views(desired@)) ==> (r matches Err(HelmError::DuplicateRelease(k))
            && repeated_key(views(desired@), k@)),
{
    let ghost sv = views(desired@);
    let mut j: usize = 1;
    while j < desired.len()
        invariant
            sv == views(desired@),
            forall|j2: int, i2: int|
                0 <= i2 < j2 < j && j2 < sv.len() ==> (#[trigger] sv[i2]).release
                    != (#[trigger] sv[j2]).release,
        decreases desired@.len() - j,
    {
        let mut i: usize = 0;
        while i < j
            invariant
                i <= j < desired@.len(),
                sv == views(desired@),
                forall|i2: int| 0 <= i2 < i ==> (#[trigger] sv[i2]).release != sv[j as int].release,
            decreases j - i,
        {
            if desired[i].release.eq(&desired[j].release) {
                proof {
                    assert(sv[i as int] == desired@[i as int]@);
                    assert(sv[j as int] == desired@[j as int]@);
                    assert(!unique_keys(sv));
                    assert(repeated_key(sv, sv[j as int].release));
                }
                return Err(HelmError::DuplicateRelease(desired[j].release.clone()));
            }
            proof {
                assert(sv[i as int] == desired@[i as int]@);
                assert(sv[j as int] == desired@[j as int]@);
            }
            i += 1;
        }
        j += 1;
    }
    proof {
        if !unique_keys(sv) {
            let (a, b) = choose|a: int, b: int|
                0 <= a < b < sv.len() && (#[trigger] sv[a]).release == (#[trigger] sv[b]).release;
            assert(false);
        }
    }
    Ok(desired)
}

} // verus!
