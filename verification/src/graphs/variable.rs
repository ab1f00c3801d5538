//! Typed named parameters of a model.

use vstd::prelude::*;

use crate::ast::Value;
use crate::error::GraphError;

verus! {

/// The type tag of a model parameter.  `Required` means declared with no
/// default and not yet bound.
#[derive(Copy, Clone, Debug, PartialEq, Eq, Structural)]
pub enum ValueType {
    Required,
    Bool,
    Int,
    UInt,
    Real,
    Model,
}

/// The type tag a literal carries.
pub open spec fn spec_value_type(value: Option<Value>, is_model: bool) -> ValueType {
    if is_model {
        ValueType::Model
    } else {
        match value {
            Some(Value::Bool(_)) => ValueType::Bool,
            Some(Value::Int(_)) => ValueType::Int,
            Some(Value::UInt(_)) => ValueType::UInt,
            Some(Value::Real(_)) => ValueType::Real,
            Some(Value::Model(_)) => ValueType::Model,
            None => ValueType::Required,
        }
    }
}

impl ValueType {
    /// Infer the type tag of an optional literal.
    pub fn new(value: Option<&Value>, is_model: bool) -> (r: Self)
        ensures
            value matches Some(v) ==> r == spec_value_type(Some(*v), is_model),
            value is None ==> r == spec_value_type(None, is_model),
    {
        if is_model {
            return ValueType::Model;
        }
        match value {
            Some(Value::Bool(_)) => ValueType::Bool,
            Some(Value::Int(_)) => ValueType::Int,
            Some(Value::UInt(_)) => ValueType::UInt,
            Some(Value::Real(_)) => ValueType::Real,
            Some(Value::Model(_)) => ValueType::Model,
            None => ValueType::Required,
        }
    }
}

/// A model parameter: canonical name, type tag, optional bound value.
#[derive(Debug, PartialEq)]
pub struct Variable {
    pub description: String,
    pub ty: ValueType,
    pub value: Option<Value>,
}

impl Clone for Variable {
    fn clone(&self) -> (r: Self)
        ensures
            r == *self,
    {
        let value = match &self.value {
            Some(v) => Some(v.clone()),
            None => None,
        };
        Variable { description: self.description.clone(), ty: self.ty, value }
    }
}

impl Variable {
    /// Bind a value.  Succeeds exactly when the stored type equals the
    /// incoming one or is still `Required`; then the value is replaced and
    /// the type upgraded.  On failure nothing changes.
    pub fn update(&mut self, value: Value, ty: ValueType) -> (r: Result<(), GraphError>)
        ensures
            r is Ok <==> (old(self).ty == ty || old(self).ty == ValueType::Required),
            r is Ok ==> *final(self) == (Variable {
                description: old(self).description,
                ty,
                value: Some(value),
            }),
            r is Err ==> *final(self) == *old(self) && (r matches Err(
                GraphError::DifferentVariableType { variable, expected, given },
            ) && variable@ == old(self).description@ && expected == old(self).ty && given == Some(
                value,
            )),
    {
        if self.ty == ty || self.ty == ValueType::Required {
            self.value = Some(value);
            self.ty = ty;
            Ok(())
        } else {
            Err(
                GraphError::DifferentVariableType {
                    variable: self.description.clone(),
                    expected: self.ty,
                    given: Some(value),
                },
            )
        }
    }

    /// The bound value when it is an unsigned integer.
    pub fn unwrap_uint(&self) -> (r: Option<u64>)
        ensures
            r == (match self.value {
                Some(Value::UInt(v)) => Some(v),
                _ => None::<u64>,
            }),
    {
        match &self.value {
            Some(Value::UInt(value)) => Some(*value),
            _ => None,
        }
    }

    /// Require the stored type, upgrading from `Required`.  On failure
    /// nothing changes.
    pub fn expect_or_default(&mut self, ty: ValueType) -> (r: Result<(), GraphError>)
        ensures
            r is Ok <==> (old(self).ty == ty || old(self).ty == ValueType::Required),
            r is Ok ==> *final(self) == (Variable {
                description: old(self).description,
                ty,
                value: old(self).value,
            }),
            r is Err ==> *final(self) == *old(self) && (r matches Err(
                GraphError::DifferentVariableType { variable, expected, given },
            ) && variable@ == old(self).description@ && expected == ty && given == old(
                self,
            ).value),
    {
        if self.ty == ty {
            Ok(())
        } else if self.ty == ValueType::Required {
            self.ty = ty;
            Ok(())
        } else {
            let given = match &self.value {
                Some(v) => Some(v.clone()),
                None => None,
            };
            Err(
                GraphError::DifferentVariableType {
                    variable: self.description.clone(),
                    expected: ty,
                    given,
                },
            )
        }
    }
}

} // verus!
