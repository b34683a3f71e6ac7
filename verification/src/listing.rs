use vstd::prelude::*;

use crate::chart::{Chart, Charts, ChartView, views};
use crate::error::HelmError;

verus! {

// The package manager reports deployed charts as text: a header line, then
// one line per release whose first column is the release name and whose
// last column is `<chart name>-<version>`.  This module gives that format a
// specification and a verified parser.

/// Horizontal whitespace: the column separators of the listing.
pub open spec fn is_ws(c: char) -> bool {
    c == ' ' || c == '\t' || c == '\r'
}

/// The index of the first line break in `s`, or its length if there is
/// none.
pub open spec fn line_break(s: Seq<char>) -> nat
    decreases s.len(),
{
    if s.len() == 0 {
        0
    } else if s[0] == '\n' {
        0
    } else {
        1 + line_break(s.drop_first())
    }
}

pub proof fn lemma_line_break_bounds(s: Seq<char>)
    ensures
        line_break(s) <= s.len(),
        forall|t: int| 0 <= t < line_break(s) ==> s[t] != '\n',
        line_break(s) < s.len() ==> s[line_break(s) as int] == '\n',
    decreases s.len(),
{
    if s.len() > 0 && s[0] != '\n' {
        lemma_line_break_bounds(s.drop_first());
        assert forall|t: int| 0 <= t < line_break(s) implies s[t] != '\n' by {
            if t > 0 {
                assert(s.drop_first()[t - 1] == s[t]);
            }
        }
        if line_break(s) < s.len() {
            assert(s.drop_first()[line_break(s.drop_first()) as int] == s[line_break(s) as int]);
        }
    }
}

/// The position of the first line break is determined by what the scan
/// sees: no break before it, a break (or the end) at it.
proof fn lemma_line_break_at(s: Seq<char>, k: int)
    requires
        0 <= k <= s.len(),
        forall|t: int| 0 <= t < k ==> s[t] != '\n',
        k < s.len() ==> s[k] == '\n',
    ensures
        line_break(s) == k,
    decreases k,
{
    if k == 0 {
    } else {
        assert(s[0] != '\n');
        assert forall|t: int| 0 <= t < k - 1 implies s.drop_first()[t] != '\n' by {
            assert(s.drop_first()[t] == s[t + 1]);
        }
        if k - 1 < s.drop_first().len() {
            assert(s.drop_first()[k - 1] == s[k]);
        }
        lemma_line_break_at(s.drop_first(), k - 1);
    }
}

/// The listing text as a sequence of lines, line breaks removed; a final
/// line break ends the last line rather than opening an empty one.
pub open spec fn split_lines(s: Seq<char>) -> Seq<Seq<char>>
    decreases s.len(),
    via split_lines_dec
{
    if s.len() == 0 {
        Seq::empty()
    } else {
        let k = line_break(s) as int;
        if k == s.len() {
            seq![s]
        } else {
            seq![s.take(k)] + split_lines(s.skip(k + 1))
        }
    }
}

#[via_fn]
proof fn split_lines_dec(s: Seq<char>) {
    lemma_line_break_bounds(s);
}

/// The length of the leading run of non-whitespace characters.
pub open spec fn token_end(s: Seq<char>) -> nat
    decreases s.len(),
{
    if s.len() == 0 || is_ws(s[0]) {
        0
    } else {
        1 + token_end(s.drop_first())
    }
}

pub proof fn lemma_token_end_bounds(s: Seq<char>)
    ensures
        token_end(s) <= s.len(),
        forall|t: int| 0 <= t < token_end(s) ==> !is_ws(s[t]),
        token_end(s) < s.len() ==> is_ws(s[token_end(s) as int]),
    decreases s.len(),
{
    if s.len() > 0 && !is_ws(s[0]) {
        lemma_token_end_bounds(s.drop_first());
        assert forall|t: int| 0 <= t < token_end(s) implies !is_ws(s[t]) by {
            if t > 0 {
                assert(s.drop_first()[t - 1] == s[t]);
            }
        }
        if token_end(s) < s.len() {
            assert(s.drop_first()[token_end(s.drop_first()) as int] == s[token_end(s) as int]);
        }
    }
}

proof fn lemma_token_end_at(s: Seq<char>, k: int)
    requires
        0 <= k <= s.len(),
        forall|t: int| 0 <= t < k ==> !is_ws(s[t]),
        k < s.len() ==> is_ws(s[k]),
    ensures
        token_end(s) == k,
    decreases k,
{
    if k == 0 {
    } else {
        assert(!is_ws(s[0]));
        assert forall|t: int| 0 <= t < k - 1 implies !is_ws(s.drop_first()[t]) by {
            assert(s.drop_first()[t] == s[t + 1]);
        }
        if k - 1 < s.drop_first().len() {
            assert(s.drop_first()[k - 1] == s[k]);
        }
        lemma_token_end_at(s.drop_first(), k - 1);
    }
}

/// The whitespace-separated columns of a line.
pub open spec fn tokens(s: Seq<char>) -> Seq<Seq<char>>
    decreases s.len(),
    via tokens_dec
{
    if s.len() == 0 {
        Seq::empty()
    } else if is_ws(s[0]) {
        tokens(s.drop_first())
    } else {
        let k = token_end(s) as int;
        seq![s.take(k)] + tokens(s.skip(k))
    }
}

#[via_fn]
proof fn tokens_dec(s: Seq<char>) {
    lemma_token_end_bounds(s);
}

/// The index of the last dash in `s`, or -1 if there is none.
pub open spec fn last_dash(s: Seq<char>) -> int
    decreases s.len(),
{
    if s.len() == 0 {
        -1
    } else if s[s.len() - 1] == '-' {
        s.len() - 1
    } else {
        last_dash(s.drop_last())
    }
}

proof fn lemma_last_dash_at(s: Seq<char>, k: int)
    requires
        -1 <= k < s.len(),
        k >= 0 ==> s[k] == '-',
        forall|t: int| k < t < s.len() ==> s[t] != '-',
    ensures
        last_dash(s) == k,
    decreases s.len(),
{
    if s.len() > 0 {
        if k == s.len() - 1 {
        } else {
            assert(s[s.len() - 1] != '-');
            assert forall|t: int| k < t < s.drop_last().len() implies s.drop_last()[t]
                != '-' by {
                assert(s.drop_last()[t] == s[t]);
            }
            if k >= 0 {
                assert(s.drop_last()[k] == s[k]);
            }
            lemma_last_dash_at(s.drop_last(), k);
        }
    }
}

/// One listing line as a chart: the first column is the release, the last
/// column splits at its final dash into chart name and version.  A line
/// without columns, or whose last column has no dash, is malformed.
pub open spec fn parse_line(line: Seq<char>) -> Option<ChartView> {
    let toks = tokens(line);
    if toks.len() == 0 {
        Option::None
    } else {
        let last = toks.last();
        let k = last_dash(last);
        if k < 0 {
            Option::None
        } else {
            Option::Some(
                ChartView {
                    release: toks[0],
                    name: last.take(k),
                    version: Option::Some(last.skip(k + 1)),
                },
            )
        }
    }
}

/// A sequence of listing lines as charts: every line must parse.
pub open spec fn parse_lines(ls: Seq<Seq<char>>) -> Option<Seq<ChartView>> {
    if forall|i: int| 0 <= i < ls.len() ==> parse_line(#[trigger] ls[i]) is Some {
        Option::Some(Seq::new(ls.len(), |i: int| parse_line(ls[i]).unwrap()))
    } else {
        Option::None
    }
}

/// The whole listing as charts: the first line is the header and carries no
/// chart; every further line must parse.
pub open spec fn parse_listing(s: Seq<char>) -> Option<Seq<ChartView>> {
    let ls = split_lines(s);
    if ls.len() == 0 {
        Option::Some(Seq::empty())
    } else {
        parse_lines(ls.drop_first())
    }
}

/// The values of a sequence of strings.
pub open spec fn str_views(s: Seq<String>) -> Seq<Seq<char>> {
    s.map_values(|x: String| x@)
}

/// Splits the listing text into lines.
fn split_lines_exec(s: &str) -> (r: Vec<String>)
    ensures
        str_views(r@) == split_lines(s@),
    decreases s@.len(),
{
    let n = s.unicode_len();
    if n == 0 {
        let r: Vec<String> = Vec::new();
        proof {
            assert(str_views(r@) =~= split_lines(s@));
        }
        return r;
    }
    let mut k: usize = 0;
    while k < n
        invariant
            k <= n,
            n == s@.len(),
            forall|t: int| 0 <= t < k ==> s@[t] != '\n',
        ensures
            k <= n,
            n == s@.len(),
            forall|t: int| 0 <= t < k ==> s@[t] != '\n',
            k < n ==> s@[k as int] == '\n',
        decreases n - k,
    {
        if s.get_char(k) == '\n' {
            break;
        }
        k += 1;
    }
    proof {
        lemma_line_break_at(s@, k as int);
    }
    if k == n {
        let mut r: Vec<String> = Vec::new();
        r.push(s.to_owned());
        proof {
            assert(str_views(r@) =~= split_lines(s@));
        }
        r
    } else {
        let head = s.substring_char(0, k);
        let tail = s.substring_char(k + 1, n);
        proof {
            assert(tail@ == s@.skip(k + 1));
        }
        let mut rest = split_lines_exec(tail);
        let mut r: Vec<String> = Vec::new();
        r.push(head.to_owned());
        let ghost head_v = r@;
        let ghost rest_v = rest@;
        r.append(&mut rest);
        proof {
            assert(r@ == head_v + rest_v);
            assert forall|t: int| 0 <= t < r@.len() implies #[trigger] str_views(r@)[t]
                == split_lines(s@)[t] by {
                assert(str_views(r@)[t] == r@[t]@);
                if t == 0 {
                    assert(r@[0] == head_v[0]);
                } else {
                    assert(r@[t] == rest_v[t - 1]);
                    assert(str_views(rest_v)[t - 1] == rest_v[t - 1]@);
                    assert(split_lines(s@)[t] == split_lines(tail@)[t - 1]);
                }
            }
            assert(str_views(r@) =~= split_lines(s@));
        }
        r
    }
}

/// Splits one line into its columns.
fn tokens_exec(line: &str) -> (r: Vec<String>)
    ensures
        str_views(r@) == tokens(line@),
    decreases line@.len(),
{
    let n = line.unicode_len();
    if n == 0 {
        let r: Vec<String> = Vec::new();
        proof {
            assert(str_views(r@) =~= tokens(line@));
        }
        return r;
    }
    let c0 = line.get_char(0);
    if c0 == ' ' || c0 == '\t' || c0 == '\r' {
        let rest = line.substring_char(1, n);
        proof {
            assert(rest@ == line@.skip(1));
            assert(line@.skip(1) =~= line@.drop_first());
        }
        let r = tokens_exec(rest);
        proof {
            assert(tokens(line@) == tokens(line@.drop_first()));
        }
        return r;
    }
    let mut k: usize = 1;
    while k < n
        invariant
            1 <= k <= n,
            n == line@.len(),
            forall|t: int| 0 <= t < k ==> !is_ws(line@[t]),
        ensures
            k <= n,
            n == line@.len(),
            forall|t: int| 0 <= t < k ==> !is_ws(line@[t]),
            k < n ==> is_ws(line@[k as int]),
        decreases n - k,
    {
        let c = line.get_char(k);
        if c == ' ' || c == '\t' || c == '\r' {
            break;
        }
        k += 1;
    }
    proof {
        lemma_token_end_at(line@, k as int);
    }
    let head = line.substring_char(0, k);
    let tail = line.substring_char(k, n);
    let mut rest = tokens_exec(tail);
    let mut r: Vec<String> = Vec::new();
    r.push(head.to_owned());
    let ghost head_v = r@;
    let ghost rest_v = rest@;
    r.append(&mut rest);
    proof {
        assert(r@ == head_v + rest_v);
        assert(tail@ == line@.skip(k as int));
        assert forall|t: int| 0 <= t < r@.len() implies #[trigger] str_views(r@)[t] == tokens(
            line@,
        )[t] by {
            assert(str_views(r@)[t] == r@[t]@);
            if t == 0 {
                assert(r@[0] == head_v[0]);
            } else {
                assert(r@[t] == rest_v[t - 1]);
                assert(str_views(rest_v)[t - 1] == rest_v[t - 1]@);
                assert(tokens(line@)[t] == tokens(tail@)[t - 1]);
            }
        }
        assert(str_views(r@) =~= tokens(line@));
    }
    r
}

/// Parses one listing line into a chart.
fn parse_line_exec(line: &str) -> (r: Option<Chart>)
    ensures
        match r {
            Option::Some(c) => parse_line(line@) == Option::Some(c@),
            Option::None => parse_line(line@) is None,
        },
{
    let toks = tokens_exec(line);
    if toks.len() == 0 {
        proof {
            assert(tokens(line@).len() == 0);
        }
        return Option::None;
    }
    let last = &toks[toks.len() - 1];
    proof {
        assert(last@ == str_views(toks@)[toks@.len() - 1]);
        assert(last@ == tokens(line@).last());
    }
    let m = last.as_str().unicode_len();
    let mut j: usize = m;
    while j > 0
        invariant
            j <= m,
            m == last@.len(),
            forall|t: int| j <= t < m ==> last@[t] != '-',
        ensures
            j <= m,
            m == last@.len(),
            forall|t: int| j <= t < m ==> last@[t] != '-',
            j > 0 ==> last@[j - 1] == '-',
        decreases j,
    {
        if last.as_str().get_char(j - 1) == '-' {
            break;
        }
        j -= 1;
    }
    if j == 0 {
        proof {
            lemma_last_dash_at(last@, -1);
        }
        return Option::None;
    }
    let k = j - 1;
    proof {
        lemma_last_dash_at(last@, k as int);
    }
    let name = last.as_str().substring_char(0, k);
    let version = last.as_str().substring_char(k + 1, m);
    let release = toks[0].clone();
    proof {
        assert(release@ == str_views(toks@)[0]);
        assert(release@ == tokens(line@)[0]);
    }
    let c = Chart {
        release,
        name: name.to_owned(),
        version: Option::Some(version.to_owned()),
    };
    proof {
        assert(parse_line(line@) == Option::Some(c@)) by {
            assert(parse_line(line@).unwrap() =~= c@);
        }
    }
    Option::Some(c)
}

/// Parses the package manager's listing into the deployed chart set.
///
/// The first line is the header.  Each further line yields one chart; a
/// malformed line — one with no columns, or whose last column names no
/// version after a dash — rejects the whole listing, since a diff against
/// partially understood state would be unsafe.
pub fn parse_listing_text(listing: &str) -> (r: Result<Charts, HelmError>)
    ensures
        match r {
            Ok(v) => parse_listing(listing@) == Option::Some(views(v@)),
            Err(e) => parse_listing(listing@) is None && (e matches
                HelmError::WrongKubeApiFormat(t) && t@ == listing@),
        },
{
    let lines = split_lines_exec(listing);
    let ghost ls = split_lines(listing@);
    let mut out: Charts = Vec::new();
    if lines.len() == 0 {
        proof {
            assert(str_views(lines@).len() == lines@.len());
            assert(ls.len() == 0);
            assert(views(out@) =~= Seq::<ChartView>::empty());
            assert(parse_listing(listing@) == Option::Some(views(out@)));
        }
        return Ok(out);
    }
    proof {
        assert(str_views(lines@).len() == lines@.len());
    }
    let ghost body = ls.drop_first();
    let mut i: usize = 1;
    while i < lines.len()
        invariant
            1 <= i <= lines@.len(),
            ls == split_lines(listing@),
            str_views(lines@) == ls,
            ls.len() == lines@.len(),
            body == ls.drop_first(),
            forall|t: int| 0 <= t < i - 1 ==> parse_line(#[trigger] body[t]) is Some,
            views(out@) =~= Seq::new((i - 1) as nat, |t: int| parse_line(body[t]).unwrap()),
        decreases lines@.len() - i,
    {
        let line = &lines[i];
        proof {
            assert(line@ == str_views(lines@)[i as int]);
            assert(line@ == body[i - 1]);
        }
        match parse_line_exec(line.as_str()) {
            Option::Some(c) => {
                let ghost cv = c@;
                let ghost prev = out@;
                out.push(c);
                proof {
                    assert(parse_line(body[i - 1]).unwrap() == cv);
                    assert(views(prev).len() == prev.len());
                    assert(prev.len() == i - 1);
                    assert(out@.len() == i as int);
                    assert forall|t: int| 0 <= t < i as int implies #[trigger] views(out@)[t]
                        == parse_line(body[t]).unwrap() by {
                        assert(views(out@)[t] == out@[t]@);
                        if t < i - 1 {
                            assert(out@[t] == prev[t]);
                            assert(views(prev)[t] == prev[t]@);
                            assert(views(prev)[t] == parse_line(body[t]).unwrap());
                        } else {
                            assert(out@[t]@ == cv);
                        }
                    }
                    assert(views(out@) =~= Seq::new(
                        i as nat,
                        |t: int| parse_line(body[t]).unwrap(),
                    ));
                }
            },
            Option::None => {
                proof {
                    assert(parse_line(body[i - 1]) is None);
                    assert(parse_lines(body) is None);
                    assert(split_lines(listing@) == ls);
                    assert(split_lines(listing@).len() != 0);
                    assert(split_lines(listing@).drop_first() == body);
                    assert(parse_listing(listing@) == parse_lines(body));
                    assert(parse_listing(listing@) is None);
                }
                return Err(HelmError::WrongKubeApiFormat(listing.to_owned()));
            },
        }
        i += 1;
    }
    proof {
        assert(body.len() == ls.len() - 1);
        assert(parse_lines(body) == Option::Some(views(out@))) by {
            assert(forall|t: int| 0 <= t < body.len() ==> parse_line(#[trigger] body[t]) is Some);
            assert(views(out@) =~= Seq::new(body.len(), |t: int| parse_line(body[t]).unwrap()));
        }
        assert(ls.len() > 0);
        assert(parse_listing(listing@) == parse_lines(body));
        assert(parse_listing(listing@) == Option::Some(views(out@)));
    }
    Ok(out)
}

} // verus!
