use vstd::prelude::*;

use crate::chart::{Chart, ChartView};
use vstd::relations::total_ordering;

verus! {

/// Lexicographic order on character sequences, by code point.
pub open spec fn lex_le(a: Seq<char>, b: Seq<char>) -> bool
    decreases a.len(),
{
    if a.len() == 0 {
        true
    } else if b.len() == 0 {
        false
    } else if a[0] == b[0] {
        lex_le(a.drop_first(), b.drop_first())
    } else {
        a[0] < b[0]
    }
}

/// Order on optional character sequences: an absent value sorts first.
pub open spec fn opt_lex_le(a: Option<Seq<char>>, b: Option<Seq<char>>) -> bool {
    match (a, b) {
        (Option::None, _) => true,
        (Option::Some(_), Option::None) => false,
        (Option::Some(x), Option::Some(y)) => lex_le(x, y),
    }
}

/// The canonical order on charts: by release name, then chart name, then
/// version.  A total order, so sorting by it yields one canonical listing
/// for every arrangement of the same charts.
pub open spec fn chart_le(a: ChartView, b: ChartView) -> bool {
    if a.release == b.release {
        if a.name == b.name {
            opt_lex_le(a.version, b.version)
        } else {
            lex_le(a.name, b.name)
        }
    } else {
        lex_le(a.release, b.release)
    }
}

/// The canonical chart order as a first-class relation, for `sort_by`.
pub open spec fn chart_le_fn() -> spec_fn(ChartView, ChartView) -> bool {
    |a: ChartView, b: ChartView| chart_le(a, b)
}

pub proof fn lemma_lex_refl(a: Seq<char>)
    ensures
        lex_le(a, a),
    decreases a.len(),
{
    if a.len() > 0 {
        lemma_lex_refl(a.drop_first());
    }
}

pub proof fn lemma_lex_antisym(a: Seq<char>, b: Seq<char>)
    requires
        lex_le(a, b),
        lex_le(b, a),
    ensures
        a == b,
    decreases a.len(),
{
    if a.len() == 0 {
        assert(b.len() == 0);
        assert(a =~= b);
    } else {
        assert(a[0] == b[0]);
        lemma_lex_antisym(a.drop_first(), b.drop_first());
        assert forall|i: int| 0 <= i < a.len() implies a[i] == b[i] by {
            if i > 0 {
                assert(a.drop_first()[i - 1] == b.drop_first()[i - 1]);
            }
        }
        assert(a =~= b);
    }
}

pub proof fn lemma_lex_trans(a: Seq<char>, b: Seq<char>, c: Seq<char>)
    requires
        lex_le(a, b),
        lex_le(b, c),
    ensures
        lex_le(a, c),
    decreases a.len(),
{
    if a.len() > 0 && c.len() > 0 {
        assert(b.len() > 0);
        if a[0] == b[0] && b[0] == c[0] {
            lemma_lex_trans(a.drop_first(), b.drop_first(), c.drop_first());
        }
    }
}

pub proof fn lemma_lex_total(a: Seq<char>, b: Seq<char>)
    ensures
        lex_le(a, b) || lex_le(b, a),
    decreases a.len(),
{
    if a.len() == 0 {
        assert(lex_le(a, b));
    } else if b.len() == 0 {
        assert(lex_le(b, a));
    } else if a[0] == b[0] {
        lemma_lex_total(a.drop_first(), b.drop_first());
    } else {
        assert(lex_le(a, b) == (a[0] < b[0]));
        assert(lex_le(b, a) == (b[0] < a[0]));
    }
}

/// The canonical chart order is a total order, so a sequence of charts has
/// exactly one sorted arrangement.
pub proof fn lemma_chart_le_total_ordering()
    ensures
        total_ordering(chart_le_fn()),
{
    let leq = chart_le_fn();
    assert forall|x: ChartView| #[trigger] leq(x, x) by {
        lemma_lex_refl(x.release);
        lemma_lex_refl(x.name);
        if let Some(v) = x.version {
            lemma_lex_refl(v);
        }
    }
    assert forall|x: ChartView, y: ChartView| #[trigger] leq(x, y) && #[trigger] leq(y, x)
        implies x == y by {
        if x.release != y.release {
            lemma_lex_antisym(x.release, y.release);
        } else if x.name != y.name {
            lemma_lex_antisym(x.name, y.name);
        } else {
            match (x.version, y.version) {
                (Option::Some(v), Option::Some(w)) => {
                    lemma_lex_antisym(v, w);
                    assert(x =~= y);
                },
                _ => {
                    assert(x =~= y);
                },
            }
        }
    }
    assert forall|x: ChartView, y: ChartView, z: ChartView|
        #[trigger] leq(x, y) && #[trigger] leq(y, z) implies leq(x, z) by {
        lemma_chart_le_trans(x, y, z);
    }
    assert forall|x: ChartView, y: ChartView| !(#[trigger] leq(x, y)) implies leq(y, x) by {
        lemma_lex_total(x.release, y.release);
        lemma_lex_total(x.name, y.name);
        match (x.version, y.version) {
            (Option::Some(v), Option::Some(w)) => {
                lemma_lex_total(v, w);
            },
            _ => {},
        }
    }
}

proof fn lemma_chart_le_trans(x: ChartView, y: ChartView, z: ChartView)
    requires
        chart_le(x, y),
        chart_le(y, z),
    ensures
        chart_le(x, z),
{
    if x.release == y.release && y.release == z.release {
        if x.name == y.name && y.name == z.name {
            match (x.version, y.version, z.version) {
                (Option::Some(v), Option::Some(w), Option::Some(u)) => {
                    lemma_lex_trans(v, w, u);
                },
                _ => {},
            }
        } else if x.name == y.name {
            // x.name == y.name, y.name != z.name: compare names of x and z
        } else if y.name == z.name {
        } else {
            lemma_lex_trans(x.name, y.name, z.name);
            if x.name == z.name {
                lemma_lex_total(x.name, y.name);
                lemma_lex_antisym(x.name, y.name);
            }
        }
    } else if x.release == y.release {
        // releases of x and z differ or agree through y
        if x.release != z.release {
        } else {
            lemma_lex_antisym(y.release, z.release);
        }
    } else if y.release == z.release {
        if x.release == z.release {
            lemma_lex_antisym(x.release, y.release);
        }
    } else {
        lemma_lex_trans(x.release, y.release, z.release);
        if x.release == z.release {
            lemma_lex_trans(y.release, z.release, x.release);
            lemma_lex_antisym(x.release, y.release);
        }
    }
}

/// A shared prefix does not decide the lexicographic order: it is decided
/// by the remainders.
proof fn lemma_lex_skip(a: Seq<char>, b: Seq<char>, i: int)
    requires
        0 <= i <= a.len(),
        i <= b.len(),
        forall|t: int| 0 <= t < i ==> a[t] == b[t],
    ensures
        lex_le(a, b) == lex_le(a.skip(i), b.skip(i)),
    decreases i,
{
    if i == 0 {
        assert(a.skip(0) =~= a);
        assert(b.skip(0) =~= b);
    } else {
        assert(a.len() > 0 && b.len() > 0 && a[0] == b[0]);
        assert(a.drop_first().skip(i - 1) =~= a.skip(i));
        assert(b.drop_first().skip(i - 1) =~= b.skip(i));
        assert forall|t: int| 0 <= t < i - 1 implies a.drop_first()[t] == b.drop_first()[t] by {
            assert(a.drop_first()[t] == a[t + 1]);
            assert(b.drop_first()[t] == b[t + 1]);
        }
        lemma_lex_skip(a.drop_first(), b.drop_first(), i - 1);
    }
}

/// Decides the lexicographic order of two strings.
pub fn str_le(a: &str, b: &str) -> (r: bool)
    ensures
        r == lex_le(a@, b@),
{
    let na = a.unicode_len();
    let nb = b.unicode_len();
    let mut i: usize = 0;
    loop
        invariant
            i <= na <= a@.len(),
            i <= nb <= b@.len(),
            na == a@.len(),
            nb == b@.len(),
            forall|t: int| 0 <= t < i ==> a@[t] == b@[t],
        decreases na - i,
    {
        proof {
            lemma_lex_skip(a@, b@, i as int);
        }
        if i == na {
            proof {
                assert(a@.skip(i as int).len() == 0);
            }
            return true;
        }
        if i == nb {
            proof {
                assert(b@.skip(i as int).len() == 0);
                assert(a@.skip(i as int).len() > 0);
            }
            return false;
        }
        let ca = a.get_char(i);
        let cb = b.get_char(i);
        proof {
            assert(a@.skip(i as int)[0] == a@[i as int]);
            assert(b@.skip(i as int)[0] == b@[i as int]);
        }
        if ca != cb {
            proof {
                assert(lex_le(a@.skip(i as int), b@.skip(i as int)) == (ca < cb));
            }
            return ca < cb;
        }
        i += 1;
    }
}

/// Decides the canonical order of two charts.
pub fn chart_le_exec(a: &Chart, b: &Chart) -> (r: bool)
    ensures
        r == chart_le(a@, b@),
{
    if a.release.eq(&b.release) {
        if a.name.eq(&b.name) {
            match (&a.version, &b.version) {
                (Option::None, _) => true,
                (Option::Some(_), Option::None) => false,
                (Option::Some(x), Option::Some(y)) => str_le(x.as_str(), y.as_str()),
            }
        } else {
            str_le(a.name.as_str(), b.name.as_str())
        }
    } else {
        str_le(a.release.as_str(), b.release.as_str())
    }
}

} // verus!
