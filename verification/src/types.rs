//! The types of the Ọ̀nụ language.

use vstd::prelude::*;
use crate::text::str_eq;

verus! {

/// A type of the Ọ̀nụ language, as the front end and the MIR see it.
#[derive(Debug, PartialEq, Eq, Hash)]
pub enum OnuType {
    I8,
    I16,
    I32,
    I64,
    I128,
    U8,
    U16,
    U32,
    U64,
    U128,
    F32,
    F64,
    Boolean,
    Strings,
    Nothing,
    Ptr,
    Matrix,
    /// An integer of the given number of bits, wider than the native types.
    WideInt(u32),
    Tuple(Vec<OnuType>),
    Shape(String),
    Array(Box<OnuType>),
    HashMap(Box<OnuType>, Box<OnuType>),
    Tree(Box<OnuType>),
}

/// Two types are the same type: equal, except that the element lists of
/// tuples are compared element by element.
pub open spec fn ty_equiv(a: OnuType, b: OnuType) -> bool
    decreases a,
{
    match a {
        OnuType::Tuple(xs) => match b {
            OnuType::Tuple(ys) => xs@.len() == ys@.len() && forall|i: int|
                0 <= i < xs@.len() ==> ty_equiv(#[trigger] xs@[i], ys@[i]),
            _ => false,
        },
        OnuType::Array(x) => match b {
            OnuType::Array(y) => ty_equiv(*x, *y),
            _ => false,
        },
        OnuType::HashMap(k1, v1) => match b {
            OnuType::HashMap(k2, v2) => ty_equiv(*k1, *k2) && ty_equiv(*v1, *v2),
            _ => false,
        },
        OnuType::Tree(x) => match b {
            OnuType::Tree(y) => ty_equiv(*x, *y),
            _ => false,
        },
        _ => a == b,
    }
}

/// Every type is the same type as itself.
pub proof fn lemma_ty_equiv_refl(a: OnuType)
    ensures
        ty_equiv(a, a),
    decreases a,
{
    match a {
        OnuType::Tuple(xs) => {
            assert forall|i: int| 0 <= i < xs@.len() implies ty_equiv(#[trigger] xs@[i], xs@[i]) by {
                broadcast use vstd::std_specs::vec::axiom_vec_decreases_to_view;
                assert(decreases_to!(a => xs));
                assert(decreases_to!(xs => xs@));
                assert(decreases_to!(xs@ => xs@[i]));
                lemma_ty_equiv_refl(xs@[i]);
            }
        },
        OnuType::Array(x) => lemma_ty_equiv_refl(*x),
        OnuType::HashMap(k, v) => {
            lemma_ty_equiv_refl(*k);
            lemma_ty_equiv_refl(*v);
        },
        OnuType::Tree(x) => lemma_ty_equiv_refl(*x),
        _ => {},
    }
}

/// Being the same type is symmetric.
pub proof fn lemma_ty_equiv_symm(a: OnuType, b: OnuType)
    requires
        ty_equiv(a, b),
    ensures
        ty_equiv(b, a),
    decreases a,
{
    if let OnuType::Tuple(xs) = a {
        if let OnuType::Tuple(ys) = b {
            assert(xs@.len() == ys@.len());
            assert forall|i: int| 0 <= i < ys@.len() implies ty_equiv(#[trigger] ys@[i], xs@[i]) by {
                broadcast use vstd::std_specs::vec::axiom_vec_decreases_to_view;
                assert(decreases_to!(a => xs));
                assert(decreases_to!(xs => xs@));
                assert(decreases_to!(xs@ => xs@[i]));
                assert(ty_equiv(xs@[i], ys@[i]));
                lemma_ty_equiv_symm(xs@[i], ys@[i]);
            }
        }
    } else {
        match (a, b) {
            (OnuType::Array(x), OnuType::Array(y)) => lemma_ty_equiv_symm(*x, *y),
            (OnuType::HashMap(k1, v1), OnuType::HashMap(k2, v2)) => {
                lemma_ty_equiv_symm(*k1, *k2);
                lemma_ty_equiv_symm(*v1, *v2);
            },
            (OnuType::Tree(x), OnuType::Tree(y)) => lemma_ty_equiv_symm(*x, *y),
            _ => {},
        }
    }
}

/// Being the same type is transitive.
pub proof fn lemma_ty_equiv_trans(a: OnuType, b: OnuType, c: OnuType)
    requires
        ty_equiv(a, b),
        ty_equiv(b, c),
    ensures
        ty_equiv(a, c),
    decreases a,
{
    reveal_with_fuel(ty_equiv, 2);
    match (a, b, c) {
        (OnuType::Tuple(xs), OnuType::Tuple(ys), OnuType::Tuple(zs)) => {
            assert forall|i: int| 0 <= i < xs@.len() implies ty_equiv(#[trigger] xs@[i], zs@[i]) by {
                broadcast use vstd::std_specs::vec::axiom_vec_decreases_to_view;
                assert(decreases_to!(a => xs));
                assert(decreases_to!(xs => xs@));
                assert(decreases_to!(xs@ => xs@[i]));
                assert(ty_equiv(xs@[i], ys@[i]));
                assert(ty_equiv(ys@[i], zs@[i]));
                lemma_ty_equiv_trans(xs@[i], ys@[i], zs@[i]);
            }
        },
        (OnuType::Array(x), OnuType::Array(y), OnuType::Array(z)) => lemma_ty_equiv_trans(*x, *y, *z),
        (OnuType::HashMap(k1, v1), OnuType::HashMap(k2, v2), OnuType::HashMap(k3, v3)) => {
            lemma_ty_equiv_trans(*k1, *k2, *k3);
            lemma_ty_equiv_trans(*v1, *v2, *v3);
        },
        (OnuType::Tree(x), OnuType::Tree(y), OnuType::Tree(z)) => lemma_ty_equiv_trans(*x, *y, *z),
        _ => {},
    }
}

/// Whether values of a type own heap memory that must be released.
pub open spec fn spec_is_resource(t: OnuType) -> bool {
    match t {
        OnuType::Strings | OnuType::Matrix | OnuType::Array(_) | OnuType::HashMap(_, _)
        | OnuType::Tree(_) => true,
        _ => false,
    }
}

/// The primitive type named by a word of the surface language, if any.
pub open spec fn spec_primitive_named(name: Seq<char>) -> Option<OnuType> {
    if name == "i8"@ { Some(OnuType::I8) }
    else if name == "i16"@ { Some(OnuType::I16) }
    else if name == "i32"@ { Some(OnuType::I32) }
    else if name == "i64"@ || name == "integer"@ { Some(OnuType::I64) }
    else if name == "i128"@ { Some(OnuType::I128) }
    else if name == "u8"@ { Some(OnuType::U8) }
    else if name == "u16"@ { Some(OnuType::U16) }
    else if name == "u32"@ { Some(OnuType::U32) }
    else if name == "u64"@ { Some(OnuType::U64) }
    else if name == "u128"@ { Some(OnuType::U128) }
    else if name == "f32"@ { Some(OnuType::F32) }
    else if name == "f64"@ || name == "float"@ { Some(OnuType::F64) }
    else if name == "boolean"@ { Some(OnuType::Boolean) }
    else if name == "string"@ || name == "strings"@ { Some(OnuType::Strings) }
    else if name == "nothing"@ { Some(OnuType::Nothing) }
    else if name == "matrix"@ { Some(OnuType::Matrix) }
    else { None }
}

impl OnuType {
    /// Whether values of this type own heap memory that must be released.
    pub fn is_resource(&self) -> (r: bool)
        ensures
            r == spec_is_resource(*self),
    {
        match self {
            OnuType::Strings | OnuType::Matrix | OnuType::Array(_) | OnuType::HashMap(_, _)
            | OnuType::Tree(_) => true,
            _ => false,
        }
    }

    /// Whether this is the `Nothing` type.
    pub fn is_nothing(&self) -> (r: bool)
        ensures
            r == (*self is Nothing),
    {
        matches!(self, OnuType::Nothing)
    }

    /// Whether this is the `I64` type.
    pub fn is_i64(&self) -> (r: bool)
        ensures
            r == (*self is I64),
    {
        matches!(self, OnuType::I64)
    }

    /// The primitive type named by a word of the surface language, if any.
    pub fn from_name(name: &str) -> (r: Option<OnuType>)
        ensures
            r == spec_primitive_named(name@),
    {
        proof {
            reveal_strlit("i8"); reveal_strlit("i16"); reveal_strlit("i32");
            reveal_strlit("i64"); reveal_strlit("integer"); reveal_strlit("i128");
            reveal_strlit("u8"); reveal_strlit("u16"); reveal_strlit("u32");
            reveal_strlit("u64"); reveal_strlit("u128"); reveal_strlit("f32");
            reveal_strlit("f64"); reveal_strlit("float"); reveal_strlit("boolean");
            reveal_strlit("string"); reveal_strlit("strings"); reveal_strlit("nothing");
            reveal_strlit("matrix");
        }
        if str_eq(name, "i8") { Some(OnuType::I8) }
        else if str_eq(name, "i16") { Some(OnuType::I16) }
        else if str_eq(name, "i32") { Some(OnuType::I32) }
        else if str_eq(name, "i64") || str_eq(name, "integer") { Some(OnuType::I64) }
        else if str_eq(name, "i128") { Some(OnuType::I128) }
        else if str_eq(name, "u8") { Some(OnuType::U8) }
        else if str_eq(name, "u16") { Some(OnuType::U16) }
        else if str_eq(name, "u32") { Some(OnuType::U32) }
        else if str_eq(name, "u64") { Some(OnuType::U64) }
        else if str_eq(name, "u128") { Some(OnuType::U128) }
        else if str_eq(name, "f32") { Some(OnuType::F32) }
        else if str_eq(name, "f64") || str_eq(name, "float") { Some(OnuType::F64) }
        else if str_eq(name, "boolean") { Some(OnuType::Boolean) }
        else if str_eq(name, "string") || str_eq(name, "strings") { Some(OnuType::Strings) }
        else if str_eq(name, "nothing") { Some(OnuType::Nothing) }
        else if str_eq(name, "matrix") { Some(OnuType::Matrix) }
        else { None }
    }

    /// A copy of this type.
    pub fn dup(&self) -> (r: OnuType)
        ensures
            ty_equiv(r, *self),
            !(*self is Tuple) && !(*self is Array) && !(*self is HashMap) && !(*self is Tree)
                ==> r == *self,
        decreases self,
    {
        let r = match self {
            OnuType::I8 => OnuType::I8,
            OnuType::I16 => OnuType::I16,
            OnuType::I32 => OnuType::I32,
            OnuType::I64 => OnuType::I64,
            OnuType::I128 => OnuType::I128,
            OnuType::U8 => OnuType::U8,
            OnuType::U16 => OnuType::U16,
            OnuType::U32 => OnuType::U32,
            OnuType::U64 => OnuType::U64,
            OnuType::U128 => OnuType::U128,
            OnuType::F32 => OnuType::F32,
            OnuType::F64 => OnuType::F64,
            OnuType::Boolean => OnuType::Boolean,
            OnuType::Strings => OnuType::Strings,
            OnuType::Nothing => OnuType::Nothing,
            OnuType::Ptr => OnuType::Ptr,
            OnuType::Matrix => OnuType::Matrix,
            OnuType::WideInt(b) => OnuType::WideInt(*b),
            OnuType::Tuple(v) => {
                let w = dup_types(v);
                let r = OnuType::Tuple(w);
                r
            },
            OnuType::Shape(s) => OnuType::Shape(s.clone()),
            OnuType::Array(b) => OnuType::Array(Box::new((**b).dup())),
            OnuType::HashMap(k, v) => OnuType::HashMap(Box::new((**k).dup()), Box::new((**v).dup())),
            OnuType::Tree(b) => OnuType::Tree(Box::new((**b).dup())),
        };
        proof {
            reveal_with_fuel(ty_equiv, 2);
        }
        r
    }
}

/// A copy of a list of types.
pub fn dup_types(v: &Vec<OnuType>) -> (r: Vec<OnuType>)
    ensures
        r@.len() == v@.len(),
        forall|i: int| 0 <= i < v@.len() ==> ty_equiv(#[trigger] r@[i], v@[i]),
    decreases v,
{
    let mut out: Vec<OnuType> = Vec::new();
    let mut i: usize = 0;
    while i < v.len()
        invariant
            i <= v.len(),
            out@.len() == i,
            forall|j: int| 0 <= j < i ==> ty_equiv(#[trigger] out@[j], v@[j]),
        decreases v.len() - i,
    {
        assert(decreases_to!(v => v@[i as int]));
        let t = v[i].dup();
        out.push(t);
        i = i + 1;
    }
    out
}

} // verus!
