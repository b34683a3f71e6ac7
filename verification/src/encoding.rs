use vstd::prelude::*;

use crate::chart::{Charts, ChartView, views};

verus! {

// The digest of a chart set is a hash over a canonical text rendering of the
// set.  The rendering must be injective — two different chart sets must
// render differently — so every field is escaped and terminated rather than
// merely concatenated.  Injectivity is proved by exhibiting a decoder that
// recovers the charts from the rendering.

/// A field character, escaped: the terminator and the escape character
/// itself are preceded by the escape character.
pub open spec fn esc_char(c: char) -> Seq<char> {
    if c == '\\' || c == ';' {
        seq!['\\', c]
    } else {
        seq![c]
    }
}

/// A field's characters, escaped.
pub open spec fn esc(f: Seq<char>) -> Seq<char>
    decreases f.len(),
{
    if f.len() == 0 {
        Seq::empty()
    } else {
        esc_char(f[0]) + esc(f.drop_first())
    }
}

/// A field rendered: escaped and terminated.
pub open spec fn enc_field(f: Seq<char>) -> Seq<char> {
    esc(f) + seq![';']
}

/// An optional version rendered: a tag for absence or presence, then the
/// field itself.
pub open spec fn enc_version(v: Option<Seq<char>>) -> Seq<char> {
    match v {
        Option::None => seq!['n'],
        Option::Some(x) => seq!['s'] + enc_field(x),
    }
}

/// One chart rendered: release, name, version, each self-delimiting.
pub open spec fn enc_chart(c: ChartView) -> Seq<char> {
    enc_field(c.release) + enc_field(c.name) + enc_version(c.version)
}

/// A chart sequence rendered, record by record.
pub open spec fn encode_charts(s: Seq<ChartView>) -> Seq<char>
    decreases s.len(),
{
    if s.len() == 0 {
        Seq::empty()
    } else {
        enc_chart(s[0]) + encode_charts(s.drop_first())
    }
}

// ---------------------------------------------------------------------------
// The decoder, specification-only: it exists to prove the rendering
// injective.

/// Reads one rendered field off the front of `e`; yields the field and the
/// remainder.
pub open spec fn dec_field(e: Seq<char>) -> Option<(Seq<char>, Seq<char>)>
    decreases e.len(),
{
    if e.len() == 0 {
        Option::None
    } else if e[0] == ';' {
        Option::Some((Seq::empty(), e.drop_first()))
    } else if e[0] == '\\' {
        if e.len() >= 2 {
            match dec_field(e.skip(2)) {
                Option::Some((f, r)) => Option::Some((seq![e[1]] + f, r)),
                Option::None => Option::None,
            }
        } else {
            Option::None
        }
    } else {
        match dec_field(e.drop_first()) {
            Option::Some((f, r)) => Option::Some((seq![e[0]] + f, r)),
            Option::None => Option::None,
        }
    }
}

/// Reads one rendered optional version off the front of `e`.
pub open spec fn dec_version(e: Seq<char>) -> Option<(Option<Seq<char>>, Seq<char>)> {
    if e.len() == 0 {
        Option::None
    } else if e[0] == 'n' {
        Option::Some((Option::None, e.drop_first()))
    } else if e[0] == 's' {
        match dec_field(e.drop_first()) {
            Option::Some((f, r)) => Option::Some((Option::Some(f), r)),
            Option::None => Option::None,
        }
    } else {
        Option::None
    }
}

/// Reads one rendered chart off the front of `e`.
pub open spec fn dec_chart(e: Seq<char>) -> Option<(ChartView, Seq<char>)> {
    match dec_field(e) {
        Option::Some((release, e1)) => match dec_field(e1) {
            Option::Some((name, e2)) => match dec_version(e2) {
                Option::Some((version, e3)) => Option::Some(
                    (ChartView { release, name, version }, e3),
                ),
                Option::None => Option::None,
            },
            Option::None => Option::None,
        },
        Option::None => Option::None,
    }
}

/// Reads a whole rendered chart sequence.
pub open spec fn dec_charts(e: Seq<char>) -> Option<Seq<ChartView>>
    decreases e.len(),
{
    if e.len() == 0 {
        Option::Some(Seq::empty())
    } else {
        match dec_chart(e) {
            Option::Some((c, r)) => if r.len() < e.len() {
                match dec_charts(r) {
                    Option::Some(cs) => Option::Some(seq![c] + cs),
                    Option::None => Option::None,
                }
            } else {
                Option::None
            },
            Option::None => Option::None,
        }
    }
}

// ---------------------------------------------------------------------------
// Round trip: decoding a rendering yields the rendered charts.

/// Decoding a rendered field recovers the field and leaves the rest.
proof fn lemma_dec_field_enc(f: Seq<char>, rest: Seq<char>)
    ensures
        dec_field(enc_field(f) + rest) == Option::Some((f, rest)),
    decreases f.len(),
{
    let e = enc_field(f) + rest;
    if f.len() == 0 {
        assert(e =~= seq![';'] + rest);
        assert(e[0] == ';');
        assert(e.drop_first() =~= rest);
        assert(f =~= Seq::<char>::empty());
    } else {
        let c = f[0];
        let f2 = f.drop_first();
        lemma_dec_field_enc(f2, rest);
        if c == '\\' || c == ';' {
            assert(e =~= seq!['\\', c] + (enc_field(f2) + rest));
            assert(e[0] == '\\');
            assert(e[1] == c);
            assert(e.skip(2) =~= enc_field(f2) + rest);
            assert(seq![c] + f2 =~= f);
        } else {
            assert(e =~= seq![c] + (enc_field(f2) + rest));
            assert(e[0] == c);
            assert(e.drop_first() =~= enc_field(f2) + rest);
            assert(seq![c] + f2 =~= f);
        }
    }
}

/// Decoding a rendered version recovers it and leaves the rest.
proof fn lemma_dec_version_enc(v: Option<Seq<char>>, rest: Seq<char>)
    ensures
        dec_version(enc_version(v) + rest) == Option::Some((v, rest)),
{
    let e = enc_version(v) + rest;
    match v {
        Option::None => {
            assert(e[0] == 'n');
            assert(e.drop_first() =~= rest);
        },
        Option::Some(x) => {
            assert(e =~= seq!['s'] + (enc_field(x) + rest));
            assert(e[0] == 's');
            assert(e.drop_first() =~= enc_field(x) + rest);
            lemma_dec_field_enc(x, rest);
        },
    }
}

/// Decoding a rendered chart recovers it and leaves the rest.
proof fn lemma_dec_chart_enc(c: ChartView, rest: Seq<char>)
    ensures
        dec_chart(enc_chart(c) + rest) == Option::Some((c, rest)),
{
    let e = enc_chart(c) + rest;
    assert(e =~= enc_field(c.release) + (enc_field(c.name) + (enc_version(c.version) + rest)));
    lemma_dec_field_enc(c.release, enc_field(c.name) + (enc_version(c.version) + rest));
    lemma_dec_field_enc(c.name, enc_version(c.version) + rest);
    lemma_dec_version_enc(c.version, rest);
    let decoded = dec_chart(e).unwrap().0;
    assert(decoded =~= c);
}

/// A rendered chart is never empty.
proof fn lemma_enc_chart_len(c: ChartView)
    ensures
        enc_chart(c).len() >= 1,
{
}

/// Decoding a rendered chart sequence recovers it whole.
pub proof fn lemma_dec_enc(s: Seq<ChartView>)
    ensures
        dec_charts(encode_charts(s)) == Option::Some(s),
    decreases s.len(),
{
    let e = encode_charts(s);
    if s.len() == 0 {
        assert(Option::Some(Seq::<ChartView>::empty()) == Option::Some(s)) by {
            assert(Seq::<ChartView>::empty() =~= s);
        }
    } else {
        let c = s[0];
        let s2 = s.drop_first();
        assert(e == enc_chart(c) + encode_charts(s2));
        lemma_enc_chart_len(c);
        assert(e.len() > 0);
        lemma_dec_chart_enc(c, encode_charts(s2));
        assert(encode_charts(s2).len() < e.len());
        lemma_dec_enc(s2);
        assert(seq![c] + s2 =~= s);
    }
}

/// The rendering is injective: different chart sequences render to
/// different text, so a hash over the rendering can only collide where the
/// hash itself does.
pub proof fn lemma_encode_injective(s1: Seq<ChartView>, s2: Seq<ChartView>)
    requires
        encode_charts(s1) == encode_charts(s2),
    ensures
        s1 == s2,
{
    lemma_dec_enc(s1);
    lemma_dec_enc(s2);
}

// ---------------------------------------------------------------------------
// The executable renderer.

/// Escaping distributes over concatenation.
proof fn lemma_esc_add(a: Seq<char>, b: Seq<char>)
    ensures
        esc(a + b) == esc(a) + esc(b),
    decreases a.len(),
{
    if a.len() == 0 {
        assert(a + b =~= b);
        assert(esc(a) + esc(b) =~= esc(b));
    } else {
        assert((a + b).drop_first() =~= a.drop_first() + b);
        assert((a + b)[0] == a[0]);
        lemma_esc_add(a.drop_first(), b);
        assert(esc_char(a[0]) + (esc(a.drop_first()) + esc(b)) =~= (esc_char(a[0]) + esc(
        a.drop_first())) + esc(b));
        assert(esc(a + b) =~= esc(a) + esc(b));
    }
}

/// Escaping one further character appends its escape.
proof fn lemma_esc_take_step(f: Seq<char>, i: int)
    requires
        0 <= i < f.len(),
    ensures
        esc(f.take(i + 1)) == esc(f.take(i)) + esc_char(f[i]),
{
    assert(f.take(i + 1) =~= f.take(i) + seq![f[i]]);
    lemma_esc_add(f.take(i), seq![f[i]]);
    assert(seq![f[i]].drop_first() =~= Seq::<char>::empty());
    assert(seq![f[i]][0] == f[i]);
    assert(esc(seq![f[i]]) == esc_char(f[i]) + esc(Seq::<char>::empty()));
    assert(esc_char(f[i]) + Seq::<char>::empty() =~= esc_char(f[i]));
}

/// Appends the rendering of one field to `out`.
fn push_field(out: &mut Vec<char>, f: &str)
    ensures
        final(out)@ == old(out)@ + enc_field(f@),
{
    let n = f.unicode_len();
    let mut i: usize = 0;
    proof {
        assert(f@.take(0) =~= Seq::<char>::empty());
        assert(out@ =~= out@ + esc(f@.take(0)));
    }
    while i < n
        invariant
            i <= n,
            n == f@.len(),
            out@ == old(out)@ + esc(f@.take(i as int)),
        decreases n - i,
    {
        let c = f.get_char(i);
        proof {
            lemma_esc_take_step(f@, i as int);
        }
        if c == '\\' || c == ';' {
            out.push('\\');
            out.push(c);
        } else {
            out.push(c);
        }
        proof {
            assert(out@ =~= old(out)@ + esc(f@.take(i + 1)));
        }
        i += 1;
    }
    out.push(';');
    proof {
        assert(f@.take(n as int) =~= f@);
        assert(out@ =~= old(out)@ + enc_field(f@));
    }
}

/// Rendering one further chart appends its record.
proof fn lemma_encode_take_step(s: Seq<ChartView>, i: int)
    requires
        0 <= i < s.len(),
    ensures
        encode_charts(s.take(i + 1)) == encode_charts(s.take(i)) + enc_chart(s[i]),
{
    lemma_encode_add(s.take(i), seq![s[i]]);
    assert(s.take(i + 1) =~= s.take(i) + seq![s[i]]);
    assert(seq![s[i]].drop_first() =~= Seq::<ChartView>::empty());
    assert(seq![s[i]][0] == s[i]);
    assert(encode_charts(seq![s[i]]) == enc_chart(s[i]) + encode_charts(
        Seq::<ChartView>::empty(),
    ));
    assert(enc_chart(s[i]) + Seq::<char>::empty() =~= enc_chart(s[i]));
}

/// Rendering distributes over concatenation.
proof fn lemma_encode_add(a: Seq<ChartView>, b: Seq<ChartView>)
    ensures
        encode_charts(a + b) == encode_charts(a) + encode_charts(b),
    decreases a.len(),
{
    if a.len() == 0 {
        assert(a + b =~= b);
        assert(encode_charts(a) + encode_charts(b) =~= encode_charts(b));
    } else {
        assert((a + b).drop_first() =~= a.drop_first() + b);
        assert((a + b)[0] == a[0]);
        lemma_encode_add(a.drop_first(), b);
        assert(enc_chart(a[0]) + (encode_charts(a.drop_first()) + encode_charts(b)) =~= (enc_chart(
        a[0]) + encode_charts(a.drop_first())) + encode_charts(b));
        assert(encode_charts(a + b) =~= encode_charts(a) + encode_charts(b));
    }
}

/// Renders a chart sequence into its canonical text.
pub fn render_charts(charts: &Charts) -> (r: Vec<char>)
    ensures
        r@ == encode_charts(views(charts@)),
{
    let ghost cs = views(charts@);
    let mut out: Vec<char> = Vec::new();
    proof {
        assert(cs.take(0) =~= Seq::<ChartView>::empty());
        assert(out@ =~= encode_charts(cs.take(0)));
    }
    let mut i: usize = 0;
    while i < charts.len()
        invariant
            i <= charts@.len(),
            cs == views(charts@),
            out@ == encode_charts(cs.take(i as int)),
        decreases charts@.len() - i,
    {
        let c = &charts[i];
        proof {
            assert(cs[i as int] == c@);
            lemma_encode_take_step(cs, i as int);
        }
        let ghost before = out@;
        push_field(&mut out, c.release.as_str());
        push_field(&mut out, c.name.as_str());
        match &c.version {
            Option::None => {
                out.push('n');
            },
            Option::Some(v) => {
                out.push('s');
                push_field(&mut out, v.as_str());
            },
        }
        proof {
            assert(out@ =~= before + enc_chart(c@));
            assert(out@ =~= encode_charts(cs.take(i + 1)));
        }
        i += 1;
    }
    proof {
        assert(cs.take(cs.len() as int) =~= cs);
    }
    out
}

} // verus!
