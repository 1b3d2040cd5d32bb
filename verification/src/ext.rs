//! The conversions as methods of `String`.

use vstd::prelude::*;
use crate::chars::{upper_first, uppercase};
use crate::convert::{
    camel_case, kebab_case, pascal_case, snake_case, to_camel, to_kebab, to_pascal, to_snack,
    to_upper, to_upper_first,
};
use crate::error::CaseError;

verus! {

/// A value that can be written in kebab-case.
pub trait ToKebab {
    fn to_kebab(&self) -> Result<String, CaseError>;
}

impl ToKebab for String {
    fn to_kebab(&self) -> (r: Result<String, CaseError>)
        ensures
            self@.len() == 0 <==> r is Err,
            r matches Err(e) ==> e == CaseError::EmptyInput,
            r matches Ok(out) ==> out@ == kebab_case(self@),
    {
        to_kebab(self.as_str())
    }
}

/// A value that can be written in camelCase.
pub trait ToCamel {
    fn to_camel(&self) -> Result<String, CaseError>;
}

impl ToCamel for String {
    fn to_camel(&self) -> (r: Result<String, CaseError>)
        ensures
            self@.len() == 0 <==> r is Err,
            r matches Err(e) ==> e == CaseError::EmptyInput,
            r matches Ok(out) ==> out@ == camel_case(self@),
    {
        to_camel(self.as_str())
    }
}

/// A value that can be written in PascalCase.
pub trait ToPascal {
    fn to_pascal(&self) -> Result<String, CaseError>;
}

impl ToPascal for String {
    fn to_pascal(&self) -> (r: Result<String, CaseError>)
        ensures
            self@.len() == 0 <==> r is Err,
            r matches Err(e) ==> e == CaseError::EmptyInput,
            r matches Ok(out) ==> out@ == pascal_case(self@),
    {
        to_pascal(self.as_str())
    }
}

/// A value that can be written in snake_case.
pub trait ToSnack {
    fn to_snack(&self) -> Result<String, CaseError>;
}

impl ToSnack for String {
    fn to_snack(&self) -> (r: Result<String, CaseError>)
        ensures
            self@.len() == 0 <==> r is Err,
            r matches Err(e) ==> e == CaseError::EmptyInput,
            r matches Ok(out) ==> out@ == snake_case(self@),
    {
        to_snack(self.as_str())
    }
}

/// A value that can be written in capitals.
pub trait ToUpper {
    fn to_upper(&self) -> String;
}

impl ToUpper for String {
    fn to_upper(&self) -> (out: String)
        ensures
            out@ == uppercase(self@),
    {
        to_upper(self.as_str())
    }
}

/// A value that can be written with a capital first character.
pub trait ToUpperFirst {
    fn to_upper_first(&self) -> Result<String, CaseError>;
}

impl ToUpperFirst for String {
    fn to_upper_first(&self) -> (r: Result<String, CaseError>)
        ensures
            self@.len() == 0 <==> r is Err,
            r matches Err(e) ==> e == CaseError::EmptyInput,
            r matches Ok(out) ==> out@ == upper_first(self@),
    {
        to_upper_first(self.as_str())
    }
}

} // verus!
