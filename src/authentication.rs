//! The values that parsing produces, and their mathematical models.

use vstd::prelude::*;

verus! {

/// What a scheme's parameters are, as byte sequences.
pub enum ParamsModel {
    Token68(Seq<u8>),
    List(Seq<(Seq<u8>, Seq<u8>)>),
}

/// What a scheme is, as byte sequences.
pub struct SchemeModel {
    pub name: Seq<u8>,
    pub params: Option<ParamsModel>,
}

/// The model of an ordered list of key/value pairs.
pub open spec fn pairs_view(ps: Seq<(Vec<u8>, Vec<u8>)>) -> Seq<(Seq<u8>, Seq<u8>)> {
    ps.map_values(|p: (Vec<u8>, Vec<u8>)| (p.0@, p.1@))
}

/// One authentication scheme: its name and its optional parameters.
#[derive(Debug, PartialEq, Eq)]
pub struct Scheme {
    name: Vec<u8>,
    params: Option<Params>,
}

/// The parameters of a scheme: an opaque token68 blob, or an ordered list of
/// key/value pairs (keys need not be unique).
#[derive(Debug, PartialEq, Eq)]
pub enum Params {
    Base64(Vec<u8>),
    ParamList(Vec<(Vec<u8>, Vec<u8>)>),
}

impl View for Params {
    type V = ParamsModel;

    open spec fn view(&self) -> ParamsModel {
        match self {
            Params::Base64(v) => ParamsModel::Token68(v@),
            Params::ParamList(ps) => ParamsModel::List(pairs_view(ps@)),
        }
    }
}

/// The model of optional parameters.
pub open spec fn opt_params_view(p: Option<Params>) -> Option<ParamsModel> {
    match p {
        Some(q) => Some(q@),
        None => None,
    }
}

impl View for Scheme {
    type V = SchemeModel;

    closed spec fn view(&self) -> SchemeModel {
        SchemeModel { name: self.name@, params: opt_params_view(self.params) }
    }
}

impl Scheme {
    /// The scheme's name, as it stood in the field value.
    pub fn name(&self) -> (r: &[u8])
        ensures
            r@ == self@.name,
    {
        self.name.as_slice()
    }

    /// The scheme's parameters, if it has any.
    pub fn params(&self) -> (r: Option<&Params>)
        ensures
            match r {
                Some(p) => self@.params == Some(p@),
                None => self@.params is None,
            },
    {
        self.params.as_ref()
    }
}

/// The models of a list of schemes.
pub open spec fn schemes_view(v: Seq<Scheme>) -> Seq<SchemeModel> {
    v.map_values(|sc: Scheme| sc@)
}

/// A challenge list: schemes in field order, duplicates kept.
#[derive(Debug, PartialEq, Eq)]
pub struct Authentication {
    pub challenges: Vec<Scheme>,
}

impl View for Authentication {
    type V = Seq<SchemeModel>;

    open spec fn view(&self) -> Seq<SchemeModel> {
        schemes_view(self.challenges@)
    }
}

/// Builds a scheme from its name and parameters.
pub fn new_scheme(name: Vec<u8>, params: Option<Params>) -> (r: Scheme)
    ensures
        r@ == (SchemeModel { name: name@, params: opt_params_view(params) }),
{
    Scheme { name: name, params: params }
}

/// Builds a challenge list from its schemes.
pub fn new_authentication(challenges: Vec<Scheme>) -> (r: Authentication)
    ensures
        r@ == schemes_view(challenges@),
{
    Authentication { challenges: challenges }
}

/// A single credential.
pub struct Authorization {
    pub credentials: Scheme,
}

} // verus!
