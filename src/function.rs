//! Exported functions of a component, as they are offered for invocation.

use vstd::prelude::*;
use crate::json::JsonValue;

verus! {

/// One parameter of an exported function.
#[derive(Debug)]
pub struct FunctionParam {
    pub name: String,
    /// The JSON schema of the values the parameter takes.
    pub json_schema: JsonValue,
    pub is_optional: bool,
}

/// An exported function, found either at the top level of a component or
/// inside one of its exported interfaces.
#[derive(Debug)]
pub struct Function {
    pub interface: Option<String>,
    pub name: String,
    pub docs: String,
    pub params: Vec<FunctionParam>,
    /// The JSON schema of the result, if the function returns one.
    pub result: Option<JsonValue>,
}

/// An exposed component, with the functions it offers.
#[derive(Debug)]
pub struct Component {
    pub name: String,
    pub functions: Vec<Function>,
}

impl Function {
    pub fn function_name(&self) -> (r: &String)
        ensures
            r == &self.name,
    {
        &self.name
    }

    pub fn interface(&self) -> (r: &Option<String>)
        ensures
            r == &self.interface,
    {
        &self.interface
    }

    pub fn params(&self) -> (r: &Vec<FunctionParam>)
        ensures
            r == &self.params,
    {
        &self.params
    }

    pub fn result(&self) -> (r: &Option<JsonValue>)
        ensures
            r == &self.result,
    {
        &self.result
    }

    pub fn docs(&self) -> (r: &String)
        ensures
            r == &self.docs,
    {
        &self.docs
    }
}

} // verus!
