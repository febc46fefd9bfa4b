//! The canonical field-value form of a challenge list: schemes separated by
//! `", "`, a space before the parameters, auth-param values always quoted.

use vstd::prelude::*;
use crate::authentication::{Authentication, Params, ParamsModel, Scheme, SchemeModel};
use crate::grammar::{BACKSLASH, COMMA, DQUOTE, EQUALS, SPACE};

verus! {

/// One byte inside a quoted string: `"` and `\` take a backslash before them.
pub open spec fn escape_byte(b: u8) -> Seq<u8> {
    if b == DQUOTE || b == BACKSLASH {
        seq![BACKSLASH, b]
    } else {
        seq![b]
    }
}

pub open spec fn escaped(v: Seq<u8>) -> Seq<u8>
    decreases v.len(),
{
    if v.len() == 0 {
        Seq::empty()
    } else {
        escape_byte(v[0]) + escaped(v.drop_first())
    }
}

pub open spec fn quoted(v: Seq<u8>) -> Seq<u8> {
    seq![DQUOTE] + escaped(v) + seq![DQUOTE]
}

pub open spec fn separator() -> Seq<u8> {
    seq![COMMA, SPACE]
}

pub open spec fn render_pair(p: (Seq<u8>, Seq<u8>)) -> Seq<u8> {
    p.0 + seq![EQUALS] + quoted(p.1)
}

/// Each pair with a separator before it.
pub open spec fn render_pairs_tail(ps: Seq<(Seq<u8>, Seq<u8>)>) -> Seq<u8>
    decreases ps.len(),
{
    if ps.len() == 0 {
        Seq::empty()
    } else {
        separator() + render_pair(ps[0]) + render_pairs_tail(ps.drop_first())
    }
}

pub open spec fn render_pairs(ps: Seq<(Seq<u8>, Seq<u8>)>) -> Seq<u8> {
    if ps.len() == 0 {
        Seq::empty()
    } else {
        render_pair(ps[0]) + render_pairs_tail(ps.drop_first())
    }
}

pub open spec fn render_params(p: Option<ParamsModel>) -> Seq<u8> {
    match p {
        None => Seq::empty(),
        Some(ParamsModel::Token68(v)) => seq![SPACE] + v,
        Some(ParamsModel::List(ps)) => seq![SPACE] + render_pairs(ps),
    }
}

pub open spec fn render_scheme(sc: SchemeModel) -> Seq<u8> {
    sc.name + render_params(sc.params)
}

/// Each scheme with a separator before it.
pub open spec fn render_schemes_tail(ss: Seq<SchemeModel>) -> Seq<u8>
    decreases ss.len(),
{
    if ss.len() == 0 {
        Seq::empty()
    } else {
        separator() + render_scheme(ss[0]) + render_schemes_tail(ss.drop_first())
    }
}

/// The canonical field value of a list of schemes.
pub open spec fn render(ss: Seq<SchemeModel>) -> Seq<u8> {
    if ss.len() == 0 {
        Seq::empty()
    } else {
        render_scheme(ss[0]) + render_schemes_tail(ss.drop_first())
    }
}

fn push_bytes(out: &mut Vec<u8>, b: &[u8])
    ensures
        final(out)@ == old(out)@ + b@,
{
    let mut j: usize = 0;
    while j < b.len()
        invariant
            j <= b@.len(),
            out@ == old(out)@ + b@.subrange(0, j as int),
        decreases b@.len() - j,
    {
        out.push(b[j]);
        j = j + 1;
        assert(out@ =~= old(out)@ + b@.subrange(0, j as int));
    }
    assert(b@.subrange(0, b@.len() as int) =~= b@);
}

fn push_quoted(out: &mut Vec<u8>, v: &[u8])
    ensures
        final(out)@ == old(out)@ + quoted(v@),
{
    out.push(DQUOTE);
    let ghost start = out@;
    let mut j: usize = 0;
    assert(v@.subrange(0, v@.len() as int) =~= v@);
    while j < v.len()
        invariant
            j <= v@.len(),
            out@ + escaped(v@.subrange(j as int, v@.len() as int)) == start + escaped(v@),
        decreases v@.len() - j,
    {
        let ghost rest = v@.subrange(j as int + 1, v@.len() as int);
        assert(v@.subrange(j as int, v@.len() as int).drop_first() =~= rest);
        let ghost before = out@;
        let b = v[j];
        if b == DQUOTE || b == BACKSLASH {
            out.push(BACKSLASH);
        }
        out.push(b);
        assert(before + (escape_byte(b) + escaped(rest)) =~= out@ + escaped(rest));
        j = j + 1;
    }
    assert(out@ + escaped(v@.subrange(j as int, v@.len() as int)) =~= out@);
    out.push(DQUOTE);
    assert(out@ =~= old(out)@ + quoted(v@));
}

fn push_pair(out: &mut Vec<u8>, p: &(Vec<u8>, Vec<u8>))
    ensures
        final(out)@ == old(out)@ + render_pair((p.0@, p.1@)),
{
    push_bytes(out, p.0.as_slice());
    out.push(EQUALS);
    push_quoted(out, p.1.as_slice());
    assert(out@ =~= old(out)@ + render_pair((p.0@, p.1@)));
}

fn push_params(out: &mut Vec<u8>, params: &Params)
    ensures
        final(out)@ == old(out)@ + render_params(Some(params@)),
{
    out.push(SPACE);
    match params {
        Params::Base64(v) => {
            push_bytes(out, v.as_slice());
            assert(out@ =~= old(out)@ + render_params(Some(params@)));
        },
        Params::ParamList(ps) => {
            let ghost m = params@;
            let ghost pv = crate::authentication::pairs_view(ps@);
            assert(m == ParamsModel::List(pv));
            if ps.len() > 0 {
                push_pair(out, &ps[0]);
                let ghost start = out@;
                let mut j: usize = 1;
                assert(pv.drop_first() =~= pv.subrange(1, pv.len() as int));
                while j < ps.len()
                    invariant
                        1 <= j <= ps@.len(),
                        pv == crate::authentication::pairs_view(ps@),
                        pv.len() == ps@.len(),
                        out@ + render_pairs_tail(pv.subrange(j as int, pv.len() as int)) == start
                            + render_pairs_tail(pv.drop_first()),
                    decreases ps@.len() - j,
                {
                    let ghost rest = pv.subrange(j as int + 1, pv.len() as int);
                    assert(pv.subrange(j as int, pv.len() as int).drop_first() =~= rest);
                    let ghost before = out@;
                    push_bytes(out, &[COMMA, SPACE]);
                    push_pair(out, &ps[j]);
                    assert(before + (separator() + render_pair(pv[j as int])
                        + render_pairs_tail(rest)) =~= out@ + render_pairs_tail(rest));
                    j = j + 1;
                }
                assert(out@ + render_pairs_tail(pv.subrange(j as int, pv.len() as int)) =~= out@);
            }
            assert(out@ =~= old(out)@ + render_params(Some(params@)));
        },
    }
}

fn push_scheme(out: &mut Vec<u8>, sc: &Scheme)
    ensures
        final(out)@ == old(out)@ + render_scheme(sc@),
{
    push_bytes(out, sc.name());
    match sc.params() {
        Some(p) => push_params(out, p),
        None => {},
    }
    assert(out@ =~= old(out)@ + render_scheme(sc@));
}

/// The canonical field value of a challenge list.
pub fn to_field_value(auth: &Authentication) -> (r: Vec<u8>)
    ensures
        r@ == render(auth@),
{
    let mut out: Vec<u8> = Vec::new();
    let ss = &auth.challenges;
    let ghost sv = auth@;
    if ss.len() > 0 {
        push_scheme(&mut out, &ss[0]);
        let ghost start = out@;
        let mut j: usize = 1;
        assert(sv.drop_first() =~= sv.subrange(1, sv.len() as int));
        while j < ss.len()
            invariant
                1 <= j <= ss@.len(),
                sv == auth@,
                sv.len() == ss@.len(),
                ss == &auth.challenges,
                out@ + render_schemes_tail(sv.subrange(j as int, sv.len() as int)) == start
                    + render_schemes_tail(sv.drop_first()),
            decreases ss@.len() - j,
        {
            let ghost rest = sv.subrange(j as int + 1, sv.len() as int);
            assert(sv.subrange(j as int, sv.len() as int).drop_first() =~= rest);
            let ghost before = out@;
            push_bytes(&mut out, &[COMMA, SPACE]);
            push_scheme(&mut out, &ss[j]);
            assert(before + (separator() + render_scheme(sv[j as int]) + render_schemes_tail(rest))
                =~= out@ + render_schemes_tail(rest));
            j = j + 1;
        }
        assert(out@ + render_schemes_tail(sv.subrange(j as int, sv.len() as int)) =~= out@);
    }
    out
}

} // verus!
