use vstd::prelude::*;

use crate::chart::{Charts, ChartView, views};
use crate::encoding::{encode_charts, lemma_encode_injective, render_charts};
use crate::order::{chart_le, chart_le_exec, chart_le_fn, lemma_chart_le_total_ordering};
use vstd::relations::{sorted_by, total_ordering};
use vstd::seq_lib::lemma_sorted_unique;

verus! {

/// The name of what the hash function returns on a given text.  The value
/// depends on the text alone; nothing further is assumed of it.
pub uninterp spec fn md5_of(text: Seq<char>) -> Seq<char>;

/// A lowercase hexadecimal digit.
pub open spec fn is_lower_hex_digit(c: char) -> bool {
    ('0' <= c && c <= '9') || ('a' <= c && c <= 'f')
}

/// Relies on md5::compute for hashing the rendered text, and on the md5
/// crate's LowerHex rendering of a digest: two lowercase hex digits for
/// each of the sixteen digest bytes.  The result depends on the input text
/// alone.
#[verifier::external_body]
fn md5_hex(text: &Vec<char>) -> (r: String)
    ensures
        r@ == md5_of(text@),
        r@.len() == 32,
        forall|i: int| 0 <= i < r@.len() ==> is_lower_hex_digit(#[trigger] r@[i]),
{
    let s: String = text.iter().collect();
    format!("{:x}", md5::compute(s.as_bytes()))
}

/// The digest of a chart set: the hash of the canonical rendering of the
/// set in canonical order.  Sorting first makes the digest a function of
/// the multiset of charts, not of the order a listing happened to use.
pub open spec fn digest_spec(s: Seq<ChartView>) -> Seq<char> {
    md5_of(encode_charts(s.sort_by(chart_le_fn())))
}

/// Inserting an element anywhere adds exactly it to the multiset.
proof fn lemma_insert_multiset<A>(s: Seq<A>, p: int, x: A)
    requires
        0 <= p <= s.len(),
    ensures
        s.insert(p, x).to_multiset() == s.to_multiset().insert(x),
{
    broadcast use vstd::seq_lib::lemma_multiset_commutative;
    broadcast use vstd::seq_lib::group_to_multiset_ensures;
    broadcast use vstd::multiset::group_multiset_axioms;

    let pre = s.subrange(0, p);
    let post = s.subrange(p, s.len() as int);
    assert(s.insert(p, x) == pre.push(x) + post);
    assert(s =~= pre + post);
    assert(pre.push(x).to_multiset() =~= pre.to_multiset().insert(x));
    assert((pre.push(x) + post).to_multiset() =~= pre.push(x).to_multiset().add(
        post.to_multiset(),
    ));
    assert((pre + post).to_multiset() =~= pre.to_multiset().add(post.to_multiset()));
    assert(pre.to_multiset().insert(x).add(post.to_multiset()) =~= pre.to_multiset().add(
        post.to_multiset(),
    ).insert(x));
}

/// Arranges a chart set into its canonical order.
pub fn sort_charts(charts: &Charts) -> (r: Charts)
    ensures
        views(r@) == views(charts@).sort_by(chart_le_fn()),
{
    broadcast use vstd::seq_lib::group_to_multiset_ensures;

    let ghost cv = views(charts@);
    let ghost leq = chart_le_fn();
    proof {
        lemma_chart_le_total_ordering();
    }
    let mut out: Charts = Vec::new();
    proof {
        assert(cv.take(0) =~= Seq::<ChartView>::empty());
        assert(views(out@) =~= Seq::<ChartView>::empty());
        assert(views(out@).to_multiset() =~= cv.take(0).to_multiset());
    }
    let mut i: usize = 0;
    while i < charts.len()
        invariant
            i <= charts@.len(),
            cv == views(charts@),
            leq == chart_le_fn(),
            total_ordering(leq),
            sorted_by(views(out@), leq),
            views(out@).to_multiset() == cv.take(i as int).to_multiset(),
        decreases charts@.len() - i,
    {
        let cc = charts[i].clone();
        proof {
            assert(cc@ == charts@[i as int]@);
            assert(cv[i as int] == cc@);
        }
        let mut p: usize = 0;
        let ghost ov = views(out@);
        while p < out.len()
            invariant
                p <= out@.len(),
                ov == views(out@),
                leq == chart_le_fn(),
                total_ordering(leq),
                cc@ == cv[i as int],
                forall|t: int| 0 <= t < p ==> leq(#[trigger] ov[t], cc@),
            ensures
                p <= out@.len(),
                ov == views(out@),
                leq == chart_le_fn(),
                cc@ == cv[i as int],
                forall|t: int| 0 <= t < p ==> leq(#[trigger] ov[t], cc@),
                (p as int) < out@.len() ==> !chart_le(ov[p as int], cc@),
            decreases out@.len() - p,
        {
            proof {
                assert(ov[p as int] == out@[p as int]@);
            }
            if !chart_le_exec(&out[p], &cc) {
                break;
            }
            p += 1;
        }
        proof {
            lemma_chart_le_total_ordering();
            if (p as int) < ov.len() {
                assert(ov.len() == out@.len());
                assert(!chart_le(ov[p as int], cc@));
                assert(vstd::relations::strongly_connected(leq));
                assert(leq(ov[p as int], cc@) || leq(cc@, ov[p as int]));
                assert(leq(cc@, ov[p as int]));
            }
        }
        let ghost prev = out@;
        out.insert(p, cc);
        proof {
            let nv = views(out@);
            let pv = views(prev);
            assert(out@ == prev.insert(p as int, out@[p as int]));
            prev.insert_ensures(p as int, out@[p as int]);
            assert(nv =~= pv.insert(p as int, cv[i as int])) by {
                pv.insert_ensures(p as int, cv[i as int]);
                assert forall|t: int| 0 <= t < nv.len() implies #[trigger] nv[t] == pv.insert(
                    p as int,
                    cv[i as int],
                )[t] by {
                    assert(nv[t] == out@[t]@);
                    if t < p as int {
                        assert(out@[t] == prev[t]);
                        assert(pv[t] == prev[t]@);
                    } else if t == p as int {
                        assert(out@[t]@ == cv[i as int]);
                    } else {
                        assert(out@[t] == prev[t - 1]);
                        assert(pv[t - 1] == prev[t - 1]@);
                    }
                }
            }
            lemma_insert_multiset(pv, p as int, cv[i as int]);
            assert(cv.take(i + 1) =~= cv.take(i as int).push(cv[i as int]));
            vstd::seq_lib::to_multiset_build(cv.take(i as int), cv[i as int]);
            assert(views(out@).to_multiset() == cv.take(i + 1).to_multiset());
            assert(sorted_by(views(out@), leq)) by {
                let snew = pv.insert(p as int, cv[i as int]);
                assert forall|a: int, b: int| 0 <= a < b < snew.len() implies leq(
                    #[trigger] snew[a],
                    #[trigger] snew[b],
                ) by {
                    if a < p as int && b < p as int {
                        assert(snew[a] == pv[a] && snew[b] == pv[b]);
                    } else if a < p as int && b == p as int {
                        assert(snew[a] == pv[a]);
                        assert(leq(pv[a], cv[i as int]));
                    } else if a < p as int {
                        assert(snew[a] == pv[a] && snew[b] == pv[b - 1]);
                    } else if a == p as int {
                        assert(snew[b] == pv[b - 1]);
                        assert(leq(cv[i as int], pv[p as int]));
                        assert(leq(pv[p as int], pv[b - 1]));
                    } else {
                        assert(snew[a] == pv[a - 1] && snew[b] == pv[b - 1]);
                    }
                }
            }
        }
        i += 1;
    }
    proof {
        assert(cv.take(cv.len() as int) =~= cv);
        cv.lemma_sort_by_ensures(leq);
        lemma_sorted_unique(views(out@), cv.sort_by(leq), leq);
        assert(views(out@) == cv.sort_by(leq));
    }
    out
}

/// Computes the digest of a chart set: the fingerprint by which the
/// orchestrator detects change.  Two listings of the same charts yield the
/// same digest whatever order the listing used.
///
/// The digest covers release, name and version; configuration overrides are
/// not part of the deployed state this library models, a known limitation
/// of reading state back from the cluster.
pub fn compute_digest(charts: &Charts) -> (r: String)
    ensures
        r@ == digest_spec(views(charts@)),
        r@.len() == 32,
        forall|i: int| 0 <= i < r@.len() ==> is_lower_hex_digit(#[trigger] r@[i]),
{
    let sorted = sort_charts(charts);
    let text = render_charts(&sorted);
    md5_hex(&text)
}

/// The digest is invariant under permutation: any two arrangements of the
/// same multiset of charts have the same digest.
pub proof fn lemma_digest_permutation_invariant(s1: Seq<ChartView>, s2: Seq<ChartView>)
    requires
        s1.to_multiset() == s2.to_multiset(),
    ensures
        digest_spec(s1) == digest_spec(s2),
{
    let leq = chart_le_fn();
    lemma_chart_le_total_ordering();
    s1.lemma_sort_by_ensures(leq);
    s2.lemma_sort_by_ensures(leq);
    lemma_sorted_unique(s1.sort_by(leq), s2.sort_by(leq), leq);
}

/// Changing any one chart's version changes the digest's hash input: a
/// well-formed set and the same set with one version altered render to
/// different canonical text, so their digests agree only where the hash
/// itself collides.
pub proof fn lemma_version_change_changes_digest_input(
    s1: Seq<ChartView>,
    s2: Seq<ChartView>,
    i: int,
)
    requires
        crate::chart::unique_keys(s1),
        s1.len() == s2.len(),
        0 <= i < s1.len(),
        forall|t: int| 0 <= t < s1.len() && t != i ==> s1[t] == s2[t],
        s2[i].release == s1[i].release,
        s2[i].name == s1[i].name,
        s2[i].version != s1[i].version,
    ensures
        encode_charts(s1.sort_by(chart_le_fn())) != encode_charts(s2.sort_by(chart_le_fn())),
{
    broadcast use vstd::seq_lib::group_to_multiset_ensures;
    broadcast use vstd::seq_lib::lemma_seq_contains;

    let c = s1[i];
    assert(s1.contains(c));
    assert(s1.to_multiset().count(c) > 0);
    assert(!s2.contains(c)) by {
        assert forall|t: int| 0 <= t < s2.len() implies s2[t] != c by {
            if t == i {
                assert(s2[t].version != c.version);
            } else {
                assert(s2[t] == s1[t]);
                assert(s1[t].release != c.release);
            }
        }
    }
    assert(s2.to_multiset().count(c) == 0);
    assert(s1.to_multiset() != s2.to_multiset());
    lemma_digest_input_injective(s1, s2);
}

/// Differing content reaches the hash as differing text: two chart sets
/// that are not the same multiset — a changed version, an added or removed
/// chart — feed the hash function different input, so their digests agree
/// only where the hash itself collides.
pub proof fn lemma_digest_input_injective(s1: Seq<ChartView>, s2: Seq<ChartView>)
    requires
        s1.to_multiset() != s2.to_multiset(),
    ensures
        encode_charts(s1.sort_by(chart_le_fn())) != encode_charts(s2.sort_by(chart_le_fn())),
{
    let leq = chart_le_fn();
    lemma_chart_le_total_ordering();
    s1.lemma_sort_by_ensures(leq);
    s2.lemma_sort_by_ensures(leq);
    if encode_charts(s1.sort_by(leq)) == encode_charts(s2.sort_by(leq)) {
        lemma_encode_injective(s1.sort_by(leq), s2.sort_by(leq));
        assert(s1.to_multiset() == s2.to_multiset());
    }
}

} // verus!
