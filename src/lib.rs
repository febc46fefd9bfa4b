//! Parsing of HTTP authentication header field values (RFC 7235):
//! challenge lists and single credentials, with their schemes, token68
//! blobs and auth-param lists.

pub mod authentication;
pub mod grammar;
pub mod parser;
pub mod serialize;
pub mod laws;

pub use authentication::{
    new_authentication, new_scheme, Authentication, Authorization, Params, ParamsModel, Scheme,
    SchemeModel,
};
pub use grammar::{ErrorKind, ParseError};
pub use parser::{parse_authentication, parse_authorization};
pub use serialize::to_field_value;
