use vstd::prelude::*;

verus! {

/// A deployable package: a named, versioned chart deployed under a release
/// name.  The release name is the key by which sets of charts are compared;
/// an absent version means "use the default version available".
#[derive(Debug, PartialEq, Eq)]
pub struct Chart {
    pub release: String,
    pub name: String,
    pub version: Option<String>,
}

pub type Charts = Vec<Chart>;

/// The mathematical value of a [`Chart`]: its three fields as sequences of
/// characters.
#[verifier::ext_equal]
pub struct ChartView {
    pub release: Seq<char>,
    pub name: Seq<char>,
    pub version: Option<Seq<char>>,
}

impl View for Chart {
    type V = ChartView;

    open spec fn view(&self) -> ChartView {
        ChartView {
            release: self.release@,
            name: self.name@,
            version: match self.version {
                Some(v) => Some(v@),
                None => None,
            },
        }
    }
}

impl Clone for Chart {
    fn clone(&self) -> (r: Self)
        ensures
            r@ == self@,
    {
        let r = Chart {
            release: self.release.clone(),
            name: self.name.clone(),
            version: match &self.version {
                Some(v) => Some(v.clone()),
                None => None,
            },
        };
        proof {
            assert(r@ =~= self@);
        }
        r
    }
}

/// The values of a sequence of charts.
pub open spec fn views(s: Seq<Chart>) -> Seq<ChartView> {
    s.map_values(|c: Chart| c@)
}

/// Two charts are interchangeable for diff purposes when every field except
/// the release name agrees; the release name is the key, not an attribute.
pub open spec fn same_content(a: ChartView, b: ChartView) -> bool {
    a.name == b.name && a.version == b.version
}

/// Whether some chart in `s` is keyed by the release name `k`.
pub open spec fn has_key(s: Seq<ChartView>, k: Seq<char>) -> bool {
    exists|i: int| 0 <= i < s.len() && s[i].release == k
}

/// The first chart in `s` keyed by `k`.
pub open spec fn chart_at(s: Seq<ChartView>, k: Seq<char>) -> ChartView
    decreases s.len(),
{
    if s.len() == 0 {
        ChartView { release: k, name: Seq::empty(), version: None }
    } else if s[0].release == k {
        s[0]
    } else {
        chart_at(s.drop_first(), k)
    }
}

/// The set of release names of `s`.
pub open spec fn key_set(s: Seq<ChartView>) -> Set<Seq<char>> {
    Set::new(|k: Seq<char>| has_key(s, k))
}

/// A chart set is well formed when no release name occurs twice.
pub open spec fn unique_keys(s: Seq<ChartView>) -> bool {
    forall|i: int, j: int|
        0 <= i < j < s.len() ==> (#[trigger] s[i]).release != (#[trigger] s[j]).release
}

/// Whether the release name `k` keys two distinct charts of `s`.
pub open spec fn repeated_key(s: Seq<ChartView>, k: Seq<char>) -> bool {
    exists|i: int, j: int|
        0 <= i < j < s.len() && (#[trigger] s[i]).release == k && (#[trigger] s[j]).release == k
}

/// When `k` keys a chart of `s`, `chart_at` returns a chart of `s` with that
/// key; with unique keys it is the only one.
pub proof fn lemma_chart_at(s: Seq<ChartView>, k: Seq<char>)
    requires
        has_key(s, k),
    ensures
        s.contains(chart_at(s, k)),
        chart_at(s, k).release == k,
        unique_keys(s) ==> forall|i: int|
            0 <= i < s.len() && (#[trigger] s[i]).release == k ==> s[i] == chart_at(s, k),
    decreases s.len(),
{
    if s.len() > 0 && s[0].release != k {
        let v = choose|i: int| 0 <= i < s.len() && s[i].release == k;
        assert(s.drop_first()[v - 1] == s[v]);
        assert(has_key(s.drop_first(), k));
        lemma_chart_at(s.drop_first(), k);
        assert(s.drop_first().contains(chart_at(s.drop_first(), k)));
        let w = choose|i: int|
            0 <= i < s.drop_first().len() && s.drop_first()[i] == chart_at(s.drop_first(), k);
        assert(s[w + 1] == chart_at(s, k));
        if unique_keys(s) {
            assert(unique_keys(s.drop_first())) by {
                assert forall|i: int, j: int| 0 <= i < j < s.drop_first().len() implies
                    (#[trigger] s.drop_first()[i]).release
                        != (#[trigger] s.drop_first()[j]).release by {
                    assert(s.drop_first()[i] == s[i + 1]);
                    assert(s.drop_first()[j] == s[j + 1]);
                }
            }
            assert forall|i: int| 0 <= i < s.len() && (#[trigger] s[i]).release == k implies s[i]
                == chart_at(s, k) by {
                assert(i != 0);
                assert(s.drop_first()[i - 1] == s[i]);
            }
        }
    }
}

/// Compares two optional strings for equality.
fn opt_string_eq(a: &Option<String>, b: &Option<String>) -> (r: bool)
    ensures
        r == match (a, b) {
            (Some(x), Some(y)) => x@ == y@,
            (None, None) => true,
            _ => false,
        },
{
    match (a, b) {
        (Some(x), Some(y)) => x.eq(y),
        (None, None) => true,
        _ => false,
    }
}

/// Decides whether two charts are interchangeable for diff purposes:
/// equal in every field but the release name.
pub fn charts_match(a: &Chart, b: &Chart) -> (r: bool)
    ensures
        r == same_content(a@, b@),
{
    a.name == b.name && opt_string_eq(&a.version, &b.version)
}

} // verus!
