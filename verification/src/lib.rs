//! Conversion of identifiers between naming conventions.
//!
//! A string is cut into words, first at every character that is neither an
//! ASCII letter nor an ASCII digit, then at the changes of letter case inside
//! each remaining run. The words, in small letters, are joined again as
//! camelCase, PascalCase, snake_case or kebab-case.

pub mod chars;
pub mod convert;
pub mod error;
pub mod ext;
pub mod initialism;
pub mod laws;
pub mod segment;
pub mod text;

pub use chars::State;
pub use convert::{to_camel, to_kebab, to_pascal, to_snack, to_upper, to_upper_first};
pub use error::CaseError;
pub use ext::{ToCamel, ToKebab, ToPascal, ToSnack, ToUpper, ToUpperFirst};
pub use initialism::is_initialism;
pub use segment::{split_string_in_parts, split_via_special_chars, split_via_upper_chars};
