//! Gradual type system — type hints attached to parameters, return types and
//! annotated variables. Only the static checker reads them; unannotated code is
//! treated as `Any` and never flagged.

use vstd::prelude::*;
use crate::text::str_eq;

verus! {

/// A declared type. `Any` (कुछ_भी) is the gradual escape hatch — compatible with
/// everything. `Named` is a nominal class type, checked permissively.
#[derive(Debug, Clone)]
pub enum TypeHint {
    Number,
    Str,
    Bool,
    List,
    Dict,
    Nil,
    Any,
    Named(String),
}

/// The mathematical value of a `TypeHint`: the same variants, names as `Seq<char>`.
pub enum TypeModel {
    Number,
    Str,
    Bool,
    List,
    Dict,
    Nil,
    Any,
    Named(Seq<char>),
}

impl View for TypeHint {
    type V = TypeModel;

    open spec fn view(&self) -> TypeModel {
        match self {
            TypeHint::Number => TypeModel::Number,
            TypeHint::Str => TypeModel::Str,
            TypeHint::Bool => TypeModel::Bool,
            TypeHint::List => TypeModel::List,
            TypeHint::Dict => TypeModel::Dict,
            TypeHint::Nil => TypeModel::Nil,
            TypeHint::Any => TypeModel::Any,
            TypeHint::Named(n) => TypeModel::Named(n@),
        }
    }
}

/// Type names and their aliases, as written in source.
pub open spec fn spec_from_name(name: Seq<char>) -> TypeModel {
    if name == "संख्या"@ || name == "अंक"@ {
        TypeModel::Number
    } else if name == "वाक्य"@ || name == "पाठ"@ {
        TypeModel::Str
    } else if name == "तर्क"@ || name == "बूल"@ {
        TypeModel::Bool
    } else if name == "सूची"@ {
        TypeModel::List
    } else if name == "कोश"@ {
        TypeModel::Dict
    } else if name == "शून्य"@ {
        TypeModel::Nil
    } else if name == "कुछ_भी"@ {
        TypeModel::Any
    } else {
        TypeModel::Named(name)
    }
}

/// The canonical Devanagari name of a type, used in diagnostics.
pub open spec fn spec_type_name(t: TypeModel) -> Seq<char> {
    match t {
        TypeModel::Number => "संख्या"@,
        TypeModel::Str => "वाक्य"@,
        TypeModel::Bool => "तर्क"@,
        TypeModel::List => "सूची"@,
        TypeModel::Dict => "कोश"@,
        TypeModel::Nil => "शून्य"@,
        TypeModel::Any => "कुछ_भी"@,
        TypeModel::Named(n) => n,
    }
}

/// Gradual compatibility: `Any` or `Named` on either side is always accepted;
/// otherwise the two concrete primitives must be equal.
pub open spec fn spec_accepts(expected: TypeModel, actual: TypeModel) -> bool {
    match (expected, actual) {
        (TypeModel::Any, _) | (_, TypeModel::Any) => true,
        (TypeModel::Named(_), _) | (_, TypeModel::Named(_)) => true,
        (a, b) => a == b,
    }
}

impl PartialEq for TypeHint {
    fn eq(&self, other: &TypeHint) -> (r: bool) {
        match (self, other) {
            (TypeHint::Number, TypeHint::Number) => true,
            (TypeHint::Str, TypeHint::Str) => true,
            (TypeHint::Bool, TypeHint::Bool) => true,
            (TypeHint::List, TypeHint::List) => true,
            (TypeHint::Dict, TypeHint::Dict) => true,
            (TypeHint::Nil, TypeHint::Nil) => true,
            (TypeHint::Any, TypeHint::Any) => true,
            (TypeHint::Named(a), TypeHint::Named(b)) => a.eq(b),
            _ => false,
        }
    }
}

impl vstd::std_specs::cmp::PartialEqSpecImpl for TypeHint {
    open spec fn obeys_eq_spec() -> bool {
        true
    }

    open spec fn eq_spec(&self, other: &TypeHint) -> bool {
        self@ == other@
    }
}

impl TypeHint {
    /// Map a Devanagari type name (and its accepted aliases) to a `TypeHint`.
    /// Any unrecognised identifier becomes a nominal `Named` class type.
    pub fn from_name(name: &str) -> (t: TypeHint)
        ensures
            t@ == spec_from_name(name@),
    {
        if str_eq(name, "संख्या") || str_eq(name, "अंक") {
            TypeHint::Number
        } else if str_eq(name, "वाक्य") || str_eq(name, "पाठ") {
            TypeHint::Str
        } else if str_eq(name, "तर्क") || str_eq(name, "बूल") {
            TypeHint::Bool
        } else if str_eq(name, "सूची") {
            TypeHint::List
        } else if str_eq(name, "कोश") {
            TypeHint::Dict
        } else if str_eq(name, "शून्य") {
            TypeHint::Nil
        } else if str_eq(name, "कुछ_भी") {
            TypeHint::Any
        } else {
            TypeHint::Named(name.to_owned())
        }
    }

    /// Human-facing Devanagari name (canonical) for diagnostics.
    pub fn name(&self) -> (s: String)
        ensures
            s@ == spec_type_name(self@),
    {
        match self {
            TypeHint::Number => "संख्या".to_owned(),
            TypeHint::Str => "वाक्य".to_owned(),
            TypeHint::Bool => "तर्क".to_owned(),
            TypeHint::List => "सूची".to_owned(),
            TypeHint::Dict => "कोश".to_owned(),
            TypeHint::Nil => "शून्य".to_owned(),
            TypeHint::Any => "कुछ_भी".to_owned(),
            TypeHint::Named(n) => n.clone(),
        }
    }

    /// Gradual compatibility: is a value of type `actual` acceptable where
    /// `self` (the expected type) is declared? A mismatch is reported only when
    /// both sides are known, concrete, disagreeing primitives.
    pub fn accepts(&self, actual: &TypeHint) -> (b: bool)
        ensures
            b == spec_accepts(self@, actual@),
    {
        match (self, actual) {
            (TypeHint::Any, _) | (_, TypeHint::Any) => true,
            (TypeHint::Named(_), _) | (_, TypeHint::Named(_)) => true,
            (a, b) => a == b,
        }
    }

    /// A copy with the same model (derive-free, so the copy's view is known).
    pub fn copy(&self) -> (t: TypeHint)
        ensures
            t@ == self@,
    {
        match self {
            TypeHint::Number => TypeHint::Number,
            TypeHint::Str => TypeHint::Str,
            TypeHint::Bool => TypeHint::Bool,
            TypeHint::List => TypeHint::List,
            TypeHint::Dict => TypeHint::Dict,
            TypeHint::Nil => TypeHint::Nil,
            TypeHint::Any => TypeHint::Any,
            TypeHint::Named(n) => TypeHint::Named(n.clone()),
        }
    }
}

/// Compatibility is symmetric: `a` accepts `b` exactly when `b` accepts `a`.
pub proof fn lemma_accepts_symmetric(a: TypeModel, b: TypeModel)
    ensures
        spec_accepts(a, b) == spec_accepts(b, a),
{
}

/// Every type accepts itself.
pub proof fn lemma_accepts_reflexive(a: TypeModel)
    ensures
        spec_accepts(a, a),
{
}

/// `Any` accepts everything and is accepted by everything.
pub proof fn lemma_any_compatible(t: TypeModel)
    ensures
        spec_accepts(TypeModel::Any, t),
        spec_accepts(t, TypeModel::Any),
{
}

/// Resolving a type's canonical name gives back the type, for every type
/// except nominal ones whose name collides with a primitive's name or alias.
pub proof fn lemma_name_roundtrip(t: TypeModel)
    requires
        t matches TypeModel::Named(n) ==> spec_from_name(n) == TypeModel::Named(n),
    ensures
        spec_from_name(spec_type_name(t)) == t,
{
    reveal_strlit("संख्या");
    reveal_strlit("अंक");
    reveal_strlit("वाक्य");
    reveal_strlit("पाठ");
    reveal_strlit("तर्क");
    reveal_strlit("बूल");
    reveal_strlit("सूची");
    reveal_strlit("कोश");
    reveal_strlit("शून्य");
    reveal_strlit("कुछ_भी");
    assert("संख्या"@.len() == 6);
    assert("अंक"@.len() == 3);
    assert("वाक्य"@.len() == 5);
    assert("पाठ"@.len() == 3);
    assert("तर्क"@.len() == 4);
    assert("बूल"@.len() == 3);
    assert("सूची"@.len() == 4);
    assert("कोश"@.len() == 3);
    assert("शून्य"@.len() == 5);
    assert("कुछ_भी"@.len() == 6);
    assert("अंक"@[0] != "पाठ"@[0]);
    assert("अंक"@[0] != "बूल"@[0]);
    assert("अंक"@[0] != "कोश"@[0]);
    assert("पाठ"@[0] != "बूल"@[0]);
    assert("पाठ"@[0] != "कोश"@[0]);
    assert("बूल"@[0] != "कोश"@[0]);
    assert("तर्क"@[0] != "सूची"@[0]);
    assert("वाक्य"@[0] != "शून्य"@[0]);
    assert("संख्या"@[0] != "कुछ_भी"@[0]);
}

} // verus!
