use vstd::prelude::*;

verus! {

/// A scalar leaf of a configuration tree.
///
/// A floating-point number is held as its IEEE-754 bit pattern.
#[derive(Debug, PartialEq)]
pub enum ScalarValue {
    Null,
    Bool(bool),
    Int(i64),
    Float(u64),
    Str(String),
}

/// Mathematical model of a [`ScalarValue`].
pub ghost enum ValueView {
    Null,
    Bool(bool),
    Int(i64),
    Float(u64),
    Str(Seq<char>),
}

impl View for ScalarValue {
    type V = ValueView;

    open spec fn view(&self) -> ValueView {
        match self {
            ScalarValue::Null => ValueView::Null,
            ScalarValue::Bool(b) => ValueView::Bool(*b),
            ScalarValue::Int(i) => ValueView::Int(*i),
            ScalarValue::Float(f) => ValueView::Float(*f),
            ScalarValue::Str(s) => ValueView::Str(s@),
        }
    }
}

impl ScalarValue {
    /// A copy of this value.
    pub fn duplicate(&self) -> (r: ScalarValue)
        ensures
            r@ == self@,
    {
        match self {
            ScalarValue::Null => ScalarValue::Null,
            ScalarValue::Bool(b) => ScalarValue::Bool(*b),
            ScalarValue::Int(i) => ScalarValue::Int(*i),
            ScalarValue::Float(f) => ScalarValue::Float(*f),
            ScalarValue::Str(s) => ScalarValue::Str(s.clone()),
        }
    }
}

/// Types that a [`ScalarValue`] can be converted into.
pub trait FromValue: Sized {
    /// Whether `v` can be converted into this type.
    spec fn convertible(v: ValueView) -> bool;

    /// Whether `r` is the conversion of `v`.
    spec fn converts_to(v: ValueView, r: Self) -> bool;

    fn from_value(v: &ScalarValue) -> (r: Option<Self>)
        ensures
            r.is_some() == Self::convertible(v@),
            r matches Some(x) ==> Self::converts_to(v@, x),
    ;
}

impl FromValue for i64 {
    open spec fn convertible(v: ValueView) -> bool {
        v is Int
    }

    open spec fn converts_to(v: ValueView, r: i64) -> bool {
        v == ValueView::Int(r)
    }

    fn from_value(v: &ScalarValue) -> (r: Option<i64>) {
        match v {
            ScalarValue::Int(i) => Some(*i),
            _ => None,
        }
    }
}

impl FromValue for bool {
    open spec fn convertible(v: ValueView) -> bool {
        v is Bool
    }

    open spec fn converts_to(v: ValueView, r: bool) -> bool {
        v == ValueView::Bool(r)
    }

    fn from_value(v: &ScalarValue) -> (r: Option<bool>) {
        match v {
            ScalarValue::Bool(b) => Some(*b),
            _ => None,
        }
    }
}

impl FromValue for String {
    open spec fn convertible(v: ValueView) -> bool {
        v is Str
    }

    open spec fn converts_to(v: ValueView, r: String) -> bool {
        v == ValueView::Str(r@)
    }

    fn from_value(v: &ScalarValue) -> (r: Option<String>) {
        match v {
            ScalarValue::Str(s) => Some(s.clone()),
            _ => None,
        }
    }
}

impl FromValue for ScalarValue {
    open spec fn convertible(v: ValueView) -> bool {
        true
    }

    open spec fn converts_to(v: ValueView, r: ScalarValue) -> bool {
        r@ == v
    }

    fn from_value(v: &ScalarValue) -> (r: Option<ScalarValue>) {
        Some(v.duplicate())
    }
}

} // verus!
