//! Laws of the grammar: input of separators alone, and the round trip
//! through the canonical field-value form.

use vstd::prelude::*;
use crate::authentication::{ParamsModel, SchemeModel};
use crate::grammar::{
    in_class, param, param_list, param_value, params, quoted_body, run_end, scheme, scheme_list,
    token68, ByteClass, COMMA, DQUOTE, EQUALS, SPACE,
};
use crate::serialize::{
    escape_byte, escaped, quoted, render, render_pair, render_pairs, render_pairs_tail, render_params,
    render_scheme, render_schemes_tail, separator,
};

verus! {

/// A non-empty run of token bytes: what a scheme name or a key is.
pub open spec fn is_token_seq(v: Seq<u8>) -> bool {
    v.len() > 0 && forall|i: int| 0 <= i < v.len() ==> in_class(ByteClass::Token, #[trigger] v[i])
}

/// Token68 bytes, at least one, then only `=`.
pub open spec fn is_token68_seq(v: Seq<u8>) -> bool {
    let f = run_end(v, 0, ByteClass::Token68);
    f > 0 && forall|i: int| f <= i < v.len() ==> #[trigger] v[i] == EQUALS
}

pub open spec fn wf_params(p: Option<ParamsModel>) -> bool {
    match p {
        None => true,
        Some(ParamsModel::Token68(v)) => is_token68_seq(v),
        Some(ParamsModel::List(ps)) => ps.len() > 0 && forall|i: int|
            0 <= i < ps.len() ==> is_token_seq(#[trigger] ps[i].0),
    }
}

/// What the grammar can produce as one scheme.
pub open spec fn wf_scheme(sc: SchemeModel) -> bool {
    is_token_seq(sc.name) && wf_params(sc.params)
}

pub open spec fn wf_schemes(ss: Seq<SchemeModel>) -> bool {
    forall|i: int| 0 <= i < ss.len() ==> wf_scheme(#[trigger] ss[i])
}

/// `x` stands in `s` from position `p`.
pub open spec fn at(s: Seq<u8>, p: int, x: Seq<u8>) -> bool {
    0 <= p && p + x.len() <= s.len() && s.subrange(p, p + x.len()) == x
}

proof fn lemma_at_split(s: Seq<u8>, p: int, x: Seq<u8>, y: Seq<u8>)
    requires
        at(s, p, x + y),
    ensures
        at(s, p, x),
        at(s, p + x.len(), y),
{
    assert(s.subrange(p, p + x.len()) =~= (x + y).subrange(0, x.len() as int));
    assert(s.subrange(p + x.len(), p + x.len() + y.len()) =~= (x + y).subrange(
        x.len() as int,
        (x + y).len() as int,
    ));
    assert((x + y).subrange(0, x.len() as int) =~= x);
    assert((x + y).subrange(x.len() as int, (x + y).len() as int) =~= y);
}

proof fn lemma_at_index(s: Seq<u8>, p: int, x: Seq<u8>, k: int)
    requires
        at(s, p, x),
        0 <= k < x.len(),
    ensures
        s[p + k] == x[k],
{
    assert(s.subrange(p, p + x.len())[k] == s[p + k]);
}

/// What `run_end` gives: a run of the class, ended by the input's end or by a
/// byte outside it.
proof fn lemma_run_end(s: Seq<u8>, i: int, c: ByteClass)
    requires
        0 <= i <= s.len(),
    ensures
        i <= run_end(s, i, c) <= s.len(),
        forall|k: int| i <= k < run_end(s, i, c) ==> in_class(c, #[trigger] s[k]),
        run_end(s, i, c) == s.len() || !in_class(c, s[run_end(s, i, c)]),
    decreases s.len() - i,
{
    if i < s.len() && in_class(c, s[i]) {
        lemma_run_end(s, i + 1, c);
    }
}

proof fn lemma_run_over(s: Seq<u8>, i: int, j: int, c: ByteClass)
    requires
        0 <= i <= j <= s.len(),
        forall|k: int| i <= k < j ==> in_class(c, #[trigger] s[k]),
        j == s.len() || !in_class(c, s[j]),
    ensures
        run_end(s, i, c) == j,
    decreases j - i,
{
    if i < j {
        lemma_run_over(s, i + 1, j, c);
    }
}

/// A run of class `c` over `x`, where `x` stands at `p`.
proof fn lemma_run_over_seq(s: Seq<u8>, p: int, x: Seq<u8>, c: ByteClass)
    requires
        at(s, p, x),
        forall|k: int| 0 <= k < x.len() ==> in_class(c, #[trigger] x[k]),
        p + x.len() == s.len() || !in_class(c, s[p + x.len()]),
    ensures
        run_end(s, p, c) == p + x.len(),
{
    assert forall|k: int| p <= k < p + x.len() implies in_class(c, #[trigger] s[k]) by {
        lemma_at_index(s, p, x, k - p);
    }
    lemma_run_over(s, p, p + x.len(), c);
}

/// Input made of separators alone holds no scheme, and all of it is taken.
pub proof fn lemma_separators_only(s: Seq<u8>)
    requires
        forall|i: int| 0 <= i < s.len() ==> in_class(ByteClass::Skippable, #[trigger] s[i]),
    ensures
        scheme_list(s, 0) == (Seq::<SchemeModel>::empty(), s.len() as int),
{
    lemma_run_over(s, 0, s.len() as int, ByteClass::Skippable);
    assert(run_end(s, s.len() as int, ByteClass::Skippable) == s.len());
    assert(run_end(s, s.len() as int, ByteClass::Token) == s.len());
}

/// Keys that the grammar yields are token runs.
proof fn lemma_param_list_keys(s: Seq<u8>, i: int)
    requires
        0 <= i <= s.len(),
    ensures
        forall|k: int|
            0 <= k < param_list(s, i).0.len() ==> is_token_seq(#[trigger] param_list(s, i).0[k].0),
    decreases s.len() - i,
{
    match param(s, i) {
        Ok((pr, e)) => {
            let a = run_end(s, i, ByteClass::Skippable);
            lemma_run_end(s, i, ByteClass::Skippable);
            lemma_run_end(s, a, ByteClass::Token);
            let kk = run_end(s, a, ByteClass::Token);
            assert(pr.0 == s.subrange(a, kk));
            assert forall|j: int| 0 <= j < pr.0.len() implies in_class(
                ByteClass::Token,
                #[trigger] pr.0[j],
            ) by {
                assert(pr.0[j] == s[a + j]);
            }
            if i < e <= s.len() {
                lemma_param_list_keys(s, e);
                let rest = param_list(s, e).0;
                assert forall|k: int| 0 <= k < param_list(s, i).0.len() implies is_token_seq(
                    #[trigger] param_list(s, i).0[k].0,
                ) by {
                    if k > 0 {
                        assert(param_list(s, i).0[k] == rest[k - 1]);
                    }
                }
            }
        },
        Err(_) => {},
    }
}

proof fn lemma_token68_shape(s: Seq<u8>, i: int)
    requires
        0 <= i <= s.len(),
        token68(s, i) is Ok,
    ensures
        is_token68_seq(s.subrange(i, token68(s, i)->Ok_0)),
{
    let f = run_end(s, i, ByteClass::Token68);
    let e = run_end(s, f, ByteClass::Equals);
    lemma_run_end(s, i, ByteClass::Token68);
    lemma_run_end(s, f, ByteClass::Equals);
    let v = s.subrange(i, e);
    assert forall|k: int| 0 <= k < f - i implies in_class(ByteClass::Token68, #[trigger] v[k]) by {
        assert(v[k] == s[i + k]);
    }
    if f < e {
        assert(v[f - i] == s[f]);
    }
    lemma_run_over(v, 0, f - i, ByteClass::Token68);
    assert forall|k: int| f - i <= k < v.len() implies #[trigger] v[k] == EQUALS by {
        assert(v[k] == s[i + k]);
    }
}

/// Every scheme that the grammar yields is well formed: its name is a
/// non-empty token, a token68 value is token68 bytes then `=`s, and a
/// parameter list is non-empty with non-empty token keys.
pub proof fn lemma_scheme_list_wf(s: Seq<u8>, i: int)
    requires
        0 <= i <= s.len(),
    ensures
        wf_schemes(scheme_list(s, i).0),
    decreases s.len() - i,
{
    let a = run_end(s, i, ByteClass::Skippable);
    lemma_run_end(s, i, ByteClass::Skippable);
    match scheme(s, a) {
        Some((sc, e)) => {
            let n = run_end(s, a, ByteClass::Token);
            lemma_run_end(s, a, ByteClass::Token);
            assert forall|j: int| 0 <= j < sc.name.len() implies in_class(
                ByteClass::Token,
                #[trigger] sc.name[j],
            ) by {
                assert(sc.name[j] == s[a + j]);
            }
            let sp = run_end(s, n, ByteClass::Whitespace);
            lemma_run_end(s, n, ByteClass::Whitespace);
            lemma_param_list_keys(s, sp);
            if sp != n && param_list(s, sp).0.len() == 0 && token68(s, sp) is Ok {
                lemma_token68_shape(s, sp);
            }
            assert(wf_scheme(sc));
            if i < e <= s.len() {
                lemma_scheme_list_wf(s, e);
                let rest = scheme_list(s, e).0;
                assert forall|k: int| 0 <= k < scheme_list(s, i).0.len() implies wf_scheme(
                    #[trigger] scheme_list(s, i).0[k],
                ) by {
                    if k > 0 {
                        assert(scheme_list(s, i).0[k] == rest[k - 1]);
                    }
                }
            }
        },
        None => {},
    }
}

/// The quoted form of `v` gives `v` back.
proof fn lemma_quoted(s: Seq<u8>, p: int, v: Seq<u8>)
    requires
        at(s, p, escaped(v) + seq![DQUOTE]),
    ensures
        quoted_body(s, p) == Ok::<(Seq<u8>, int), crate::grammar::ParseError>(
            (v, p + escaped(v).len() + 1),
        ),
    decreases v.len(),
{
    if v.len() == 0 {
        assert(escaped(v) + seq![DQUOTE] =~= seq![DQUOTE]);
        lemma_at_index(s, p, seq![DQUOTE], 0);
        assert(v =~= Seq::<u8>::empty());
    } else {
        let b = v[0];
        let r = v.drop_first();
        let eb = escape_byte(b);
        assert(escaped(v) + seq![DQUOTE] =~= eb + (escaped(r) + seq![DQUOTE]));
        lemma_at_split(s, p, eb, escaped(r) + seq![DQUOTE]);
        lemma_quoted(s, p + eb.len(), r);
        lemma_at_index(s, p, eb, 0);
        if eb.len() == 2 {
            lemma_at_index(s, p, eb, 1);
        }
        assert(seq![b] + r =~= v);
    }
}

/// One rendered pair, after separators that end at `a`.
proof fn lemma_param_from(s: Seq<u8>, p: int, a: int, pr: (Seq<u8>, Seq<u8>))
    requires
        is_token_seq(pr.0),
        run_end(s, p, ByteClass::Skippable) == a,
        at(s, a, render_pair(pr)),
    ensures
        param(s, p) == Ok::<((Seq<u8>, Seq<u8>), int), crate::grammar::ParseError>(
            (pr, a + render_pair(pr).len()),
        ),
{
    let k = pr.0;
    let ev = escaped(pr.1);
    assert(render_pair(pr) =~= k + (seq![EQUALS] + (seq![DQUOTE] + (ev + seq![DQUOTE]))));
    lemma_at_split(s, a, k, seq![EQUALS] + (seq![DQUOTE] + (ev + seq![DQUOTE])));
    let b = a + k.len();
    lemma_at_split(s, b, seq![EQUALS], seq![DQUOTE] + (ev + seq![DQUOTE]));
    lemma_at_split(s, b + 1, seq![DQUOTE], ev + seq![DQUOTE]);
    lemma_at_index(s, b, seq![EQUALS], 0);
    lemma_at_index(s, b + 1, seq![DQUOTE], 0);
    lemma_run_over_seq(s, a, k, ByteClass::Token);
    assert(run_end(s, b, ByteClass::Whitespace) == b);
    assert(run_end(s, b + 1, ByteClass::Whitespace) == b + 1);
    assert(run_end(s, b + 1, ByteClass::Token) == b + 1);
    lemma_quoted(s, b + 2, pr.1);
    assert(param_value(s, b + 1) == quoted_body(s, b + 2));
}

spec fn name_follow(s: Seq<u8>, k: int) -> bool {
    k == s.len() || (0 <= k < s.len() && s[k] == COMMA) || (0 <= k && k + 1 < s.len() && s[k]
        == SPACE && !in_class(ByteClass::Whitespace, s[k + 1]) && s[k + 1] != EQUALS)
}

spec fn scheme_start(s: Seq<u8>, p: int) -> bool {
    0 <= p < s.len() && in_class(ByteClass::Token, s[p]) && name_follow(
        s,
        run_end(s, p, ByteClass::Token),
    )
}

/// What may follow a rendered scheme: the end, or a separator and a scheme.
spec fn after_scheme(s: Seq<u8>, q: int) -> bool {
    q == s.len() || (0 <= q && q + 1 < s.len() && s[q] == COMMA && s[q + 1] == SPACE
        && scheme_start(s, q + 2))
}

proof fn lemma_param_fails(s: Seq<u8>, q: int)
    requires
        after_scheme(s, q),
    ensures
        param(s, q) is Err,
{
    if q < s.len() {
        lemma_run_over(s, q, q + 2, ByteClass::Skippable);
        let kk = run_end(s, q + 2, ByteClass::Token);
        lemma_run_end(s, q + 2, ByteClass::Token);
        if kk < s.len() && s[kk] == SPACE {
            lemma_run_over(s, kk, kk + 1, ByteClass::Whitespace);
        }
    }
}

/// Rendered pairs, each after a separator, up to a position where no pair
/// parses.
proof fn lemma_pairs_tail(s: Seq<u8>, p: int, ps: Seq<(Seq<u8>, Seq<u8>)>)
    requires
        forall|i: int| 0 <= i < ps.len() ==> is_token_seq(#[trigger] ps[i].0),
        at(s, p, render_pairs_tail(ps)),
        param(s, p + render_pairs_tail(ps).len()) is Err,
    ensures
        param_list(s, p) == (ps, p + render_pairs_tail(ps).len()),
    decreases ps.len(),
{
    if ps.len() == 0 {
        assert(ps =~= Seq::<(Seq<u8>, Seq<u8>)>::empty());
    } else {
        let rest = ps.drop_first();
        let rp = render_pair(ps[0]);
        lemma_at_split(s, p, separator() + rp, render_pairs_tail(rest));
        lemma_at_split(s, p, separator(), rp);
        lemma_at_index(s, p, separator(), 0);
        lemma_at_index(s, p, separator(), 1);
        assert(rp =~= ps[0].0 + (seq![EQUALS] + quoted(ps[0].1)));
        lemma_at_split(s, p + 2, ps[0].0, seq![EQUALS] + quoted(ps[0].1));
        lemma_at_index(s, p + 2, ps[0].0, 0);
        lemma_run_over(s, p, p + 2, ByteClass::Skippable);
        lemma_param_from(s, p, p + 2, ps[0]);
        assert forall|i: int| 0 <= i < rest.len() implies is_token_seq(#[trigger] rest[i].0) by {
            assert(rest[i] == ps[i + 1]);
        }
        lemma_pairs_tail(s, p + 2 + rp.len(), rest);
        assert(seq![ps[0]] + rest =~= ps);
    }
}

/// A rendered scheme gives the scheme back.
proof fn lemma_scheme_at(s: Seq<u8>, p: int, sc: SchemeModel)
    requires
        wf_scheme(sc),
        at(s, p, render_scheme(sc)),
        after_scheme(s, p + render_scheme(sc).len()),
    ensures
        scheme(s, p) == Some((sc, p + render_scheme(sc).len())),
        scheme_start(s, p),
{
    let name = sc.name;
    let q = p + render_scheme(sc).len();
    lemma_at_split(s, p, name, render_params(sc.params));
    lemma_at_index(s, p, name, 0);
    let n = p + name.len();
    assert(run_end(s, p, ByteClass::Skippable) == p);
    match sc.params {
        None => {
            assert(render_params(sc.params) =~= Seq::<u8>::empty());
            lemma_run_over_seq(s, p, name, ByteClass::Token);
            assert(run_end(s, n, ByteClass::Whitespace) == n);
        },
        Some(ParamsModel::Token68(v)) => {
            lemma_at_split(s, n, seq![SPACE], v);
            lemma_at_index(s, n, seq![SPACE], 0);
            lemma_run_over_seq(s, p, name, ByteClass::Token);
            let f = run_end(v, 0, ByteClass::Token68);
            lemma_run_end(v, 0, ByteClass::Token68);
            let v1 = v.subrange(0, f);
            let v2 = v.subrange(f, v.len() as int);
            assert(v =~= v1 + v2);
            lemma_at_split(s, n + 1, v1, v2);
            lemma_at_index(s, n + 1, v, 0);
            lemma_run_over(s, n, n + 1, ByteClass::Whitespace);
            let g = n + 1 + f;
            if f < v.len() {
                lemma_at_index(s, n + 1, v, f);
            }
            if f + 1 < v.len() {
                lemma_at_index(s, n + 1, v, f + 1);
            }
            lemma_run_over_seq(s, n + 1, v1, ByteClass::Token68);
            lemma_run_over_seq(s, n + 1, v1, ByteClass::Token);
            assert(run_end(s, n + 1, ByteClass::Skippable) == n + 1);
            assert(run_end(s, g, ByteClass::Whitespace) == g);
            if g < s.len() && s[g] == EQUALS {
                assert(q == n + 1 + v.len());
                assert(run_end(s, g + 1, ByteClass::Whitespace) == g + 1);
                assert(run_end(s, g + 1, ByteClass::Token) == g + 1);
            }
            assert(param(s, n + 1) is Err);
            assert forall|k: int| 0 <= k < v2.len() implies in_class(
                ByteClass::Equals,
                #[trigger] v2[k],
            ) by {
                assert(v2[k] == v[f + k]);
            }
            lemma_run_over_seq(s, g, v2, ByteClass::Equals);
        },
        Some(ParamsModel::List(ps)) => {
            let rest = ps.drop_first();
            let rp = render_pair(ps[0]);
            lemma_at_split(s, n, seq![SPACE], render_pairs(ps));
            lemma_at_index(s, n, seq![SPACE], 0);
            lemma_run_over_seq(s, p, name, ByteClass::Token);
            lemma_at_split(s, n + 1, rp, render_pairs_tail(rest));
            assert(rp =~= ps[0].0 + (seq![EQUALS] + quoted(ps[0].1)));
            lemma_at_split(s, n + 1, ps[0].0, seq![EQUALS] + quoted(ps[0].1));
            lemma_at_index(s, n + 1, ps[0].0, 0);
            lemma_run_over(s, n, n + 1, ByteClass::Whitespace);
            assert(run_end(s, n + 1, ByteClass::Skippable) == n + 1);
            lemma_param_from(s, n + 1, n + 1, ps[0]);
            lemma_param_fails(s, q);
            assert forall|i: int| 0 <= i < rest.len() implies is_token_seq(#[trigger] rest[i].0) by {
                assert(rest[i] == ps[i + 1]);
            }
            lemma_pairs_tail(s, n + 1 + rp.len(), rest);
            assert(seq![ps[0]] + rest =~= ps);
        },
    }
    assert(s.subrange(p, n) == name);
}

/// Rendered schemes, each after a separator, up to the end of the input.
proof fn lemma_schemes_tail(s: Seq<u8>, p: int, ss: Seq<SchemeModel>)
    requires
        wf_schemes(ss),
        at(s, p, render_schemes_tail(ss)),
        p + render_schemes_tail(ss).len() == s.len(),
    ensures
        scheme_list(s, p) == (ss, s.len() as int),
        after_scheme(s, p),
    decreases ss.len(),
{
    if ss.len() == 0 {
        assert(ss =~= Seq::<SchemeModel>::empty());
    } else {
        let rest = ss.drop_first();
        let rs = render_scheme(ss[0]);
        lemma_at_split(s, p, separator() + rs, render_schemes_tail(rest));
        lemma_at_split(s, p, separator(), rs);
        lemma_at_index(s, p, separator(), 0);
        lemma_at_index(s, p, separator(), 1);
        assert(wf_scheme(ss[0]));
        assert forall|i: int| 0 <= i < rest.len() implies wf_scheme(#[trigger] rest[i]) by {
            assert(rest[i] == ss[i + 1]);
        }
        lemma_schemes_tail(s, p + 2 + rs.len(), rest);
        lemma_scheme_at(s, p + 2, ss[0]);
        lemma_run_over(s, p, p + 2, ByteClass::Skippable);
        assert(seq![ss[0]] + rest =~= ss);
    }
}

proof fn lemma_first_scheme(s: Seq<u8>, ss: Seq<SchemeModel>)
    requires
        wf_schemes(ss),
        ss.len() > 0,
        at(s, 0, render_scheme(ss[0]) + render_schemes_tail(ss.drop_first())),
        s.len() == render_scheme(ss[0]).len() + render_schemes_tail(ss.drop_first()).len(),
    ensures
        scheme_list(s, 0) == (ss, s.len() as int),
{
    let rest = ss.drop_first();
    let rs = render_scheme(ss[0]);
    lemma_at_split(s, 0, rs, render_schemes_tail(rest));
    assert(wf_scheme(ss[0]));
    assert forall|i: int| 0 <= i < rest.len() implies wf_scheme(#[trigger] rest[i]) by {
        assert(rest[i] == ss[i + 1]);
    }
    lemma_schemes_tail(s, rs.len() as int, rest);
    lemma_scheme_at(s, 0, ss[0]);
    assert(run_end(s, 0, ByteClass::Skippable) == 0);
    assert(scheme(s, 0) == Some((ss[0], rs.len() as int)));
    assert(scheme_list(s, rs.len() as int) == (rest, s.len() as int));
    assert(seq![ss[0]] + rest =~= ss);
}

proof fn lemma_render_parses(ss: Seq<SchemeModel>)
    requires
        wf_schemes(ss),
    ensures
        scheme_list(render(ss), 0) == (ss, render(ss).len() as int),
{
    if ss.len() == 0 {
        assert(ss =~= Seq::<SchemeModel>::empty());
    } else {
        let s = render(ss);
        assert(s.subrange(0, s.len() as int) =~= s);
        lemma_first_scheme(s, ss);
    }
}

/// Rendering a parsed challenge list in its canonical form and parsing that
/// again gives the same schemes, and the whole canonical text is taken.
pub proof fn lemma_round_trip(s: Seq<u8>)
    ensures
        scheme_list(render(scheme_list(s, 0).0), 0) == (
            scheme_list(s, 0).0,
            render(scheme_list(s, 0).0).len() as int,
        ),
{
    lemma_scheme_list_wf(s, 0);
    lemma_render_parses(scheme_list(s, 0).0);
}

} // verus!
