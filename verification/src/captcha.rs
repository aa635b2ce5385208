//! The `captcha` section.
use vstd::prelude::*;

verus! {

/// Who checks that a visitor is human.
#[derive(Clone, Debug, PartialEq)]
pub enum ValidatorType {
    HCaptcha,
    /// Another validator, by its name.
    Other(String),
}

/// How visitors are checked.
#[derive(Clone, Debug, PartialEq)]
pub struct Config {
    pub enabled: bool,
    pub difficulty: Option<i64>,
    pub validator: ValidatorType,
}

} // verus!
