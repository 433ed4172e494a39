//! Dynamic values and keys.
//!
//! Task outputs, stamps, inconsistencies, task identities and resource identities all travel through the build
//! system as dynamic objects. [`ValueObj`] is the plain representation of such an object, and [`KeyObj`] is a
//! value used as an identity (of a task or a resource). Both are compared by their mathematical view [`Val`].
use vstd::prelude::*;

verus! {

/// Mathematical view of a [`ValueObj`].
pub enum Val {
    Unit,
    Bool(bool),
    Int(i64),
    Str(Seq<char>),
    Bytes(Seq<u8>),
    Opt(Option<Box<Val>>),
    Res(Result<Box<Val>, Box<Val>>),
    Pair(Box<Val>, Box<Val>),
}

/// A dynamic value: a task output, a stamp, or the content of a resource.
#[derive(Debug)]
pub enum ValueObj {
    Unit,
    Bool(bool),
    Int(i64),
    Str(String),
    Bytes(Vec<u8>),
    Opt(Option<Box<ValueObj>>),
    Res(Result<Box<ValueObj>, Box<ValueObj>>),
    Pair(Box<ValueObj>, Box<ValueObj>),
}

/// The view of a dynamic value.
pub open spec fn val_of(v: ValueObj) -> Val
    decreases v,
{
    match v {
        ValueObj::Unit => Val::Unit,
        ValueObj::Bool(b) => Val::Bool(b),
        ValueObj::Int(i) => Val::Int(i),
        ValueObj::Str(s) => Val::Str(s@),
        ValueObj::Bytes(b) => Val::Bytes(b@),
        ValueObj::Opt(o) => match o {
            Some(b) => Val::Opt(Some(Box::new(val_of(*b)))),
            None => Val::Opt(None),
        },
        ValueObj::Res(r) => match r {
            Ok(b) => Val::Res(Ok(Box::new(val_of(*b)))),
            Err(b) => Val::Res(Err(Box::new(val_of(*b)))),
        },
        ValueObj::Pair(a, b) => Val::Pair(Box::new(val_of(*a)), Box::new(val_of(*b))),
    }
}

impl View for ValueObj {
    type V = Val;

    open spec fn view(&self) -> Val {
        val_of(*self)
    }
}

/// Compares two byte vectors element by element.
fn bytes_eq(a: &Vec<u8>, b: &Vec<u8>) -> (r: bool)
    ensures
        r == (a@ == b@),
{
    if a.len() != b.len() {
        return false;
    }
    let mut i: usize = 0;
    while i < a.len()
        invariant
            a.len() == b.len(),
            i <= a.len(),
            forall|j: int| 0 <= j < i ==> a@[j] == b@[j],
        decreases a.len() - i,
    {
        if a[i] != b[i] {
            return false;
        }
        i = i + 1;
    }
    assert(a@ =~= b@);
    true
}

/// Copies a byte vector.
fn bytes_copy(a: &Vec<u8>) -> (r: Vec<u8>)
    ensures
        r@ == a@,
{
    let mut r: Vec<u8> = Vec::new();
    let mut i: usize = 0;
    while i < a.len()
        invariant
            i <= a.len(),
            r@ =~= a@.take(i as int),
        decreases a.len() - i,
    {
        r.push(a[i]);
        i = i + 1;
        assert(r@ =~= a@.take(i as int));
    }
    assert(a@.take(a.len() as int) =~= a@);
    r
}

impl ValueObj {
    /// Returns `true` if this value and `other` are equal.
    pub fn equals(&self, other: &ValueObj) -> (r: bool)
        ensures
            r == (self@ == other@),
        decreases self,
    {
        match (self, other) {
            (ValueObj::Unit, ValueObj::Unit) => true,
            (ValueObj::Bool(a), ValueObj::Bool(b)) => *a == *b,
            (ValueObj::Int(a), ValueObj::Int(b)) => *a == *b,
            (ValueObj::Str(a), ValueObj::Str(b)) => *a == *b,
            (ValueObj::Bytes(a), ValueObj::Bytes(b)) => bytes_eq(a, b),
            (ValueObj::Opt(a), ValueObj::Opt(b)) => match (a, b) {
                (Some(x), Some(y)) => {
                    let e = (**x).equals(&**y);
                    proof {
                        if !e {
                            assert(val_of(**x) != val_of(**y));
                        }
                    }
                    e
                },
                (None, None) => true,
                _ => false,
            },
            (ValueObj::Res(a), ValueObj::Res(b)) => match (a, b) {
                (Ok(x), Ok(y)) => (**x).equals(&**y),
                (Err(x), Err(y)) => (**x).equals(&**y),
                _ => false,
            },
            (ValueObj::Pair(a1, a2), ValueObj::Pair(b1, b2)) => {
                let e1 = (**a1).equals(&**b1);
                if !e1 {
                    return false;
                }
                (**a2).equals(&**b2)
            },
            _ => false,
        }
    }

    /// Returns a copy of this value.
    pub fn copy(&self) -> (r: ValueObj)
        ensures
            r@ == self@,
        decreases self,
    {
        match self {
            ValueObj::Unit => ValueObj::Unit,
            ValueObj::Bool(b) => ValueObj::Bool(*b),
            ValueObj::Int(i) => ValueObj::Int(*i),
            ValueObj::Str(s) => ValueObj::Str(s.clone()),
            ValueObj::Bytes(b) => ValueObj::Bytes(bytes_copy(b)),
            ValueObj::Opt(o) => match o {
                Some(b) => ValueObj::Opt(Some(Box::new((**b).copy()))),
                None => ValueObj::Opt(None),
            },
            ValueObj::Res(r) => match r {
                Ok(b) => ValueObj::Res(Ok(Box::new((**b).copy()))),
                Err(b) => ValueObj::Res(Err(Box::new((**b).copy()))),
            },
            ValueObj::Pair(a, b) => ValueObj::Pair(Box::new((**a).copy()), Box::new((**b).copy())),
        }
    }

    /// Creates a string value.
    pub fn from_str(s: &str) -> (r: ValueObj)
        ensures
            r@ == Val::Str(s@),
    {
        ValueObj::Str(s.to_string())
    }

    /// Creates an optional value.
    pub fn some(v: ValueObj) -> (r: ValueObj)
        ensures
            r@ == Val::Opt(Some(Box::new(v@))),
    {
        ValueObj::Opt(Some(Box::new(v)))
    }
}

impl Clone for ValueObj {
    fn clone(&self) -> (r: Self)
        ensures
            r@ == self@,
    {
        self.copy()
    }
}

/// A dynamic key: the identity of a task or of a resource.
#[derive(Debug)]
pub struct KeyObj {
    pub value: ValueObj,
}

impl View for KeyObj {
    type V = Val;

    open spec fn view(&self) -> Val {
        self.value@
    }
}

impl KeyObj {
    /// Creates a key from a value.
    pub fn new(value: ValueObj) -> (r: KeyObj)
        ensures
            r@ == value@,
    {
        KeyObj { value }
    }

    /// Creates a key from a string.
    pub fn from_str(s: &str) -> (r: KeyObj)
        ensures
            r@ == Val::Str(s@),
    {
        KeyObj { value: ValueObj::from_str(s) }
    }

    /// Returns `true` if this key and `other` are equal.
    pub fn equals(&self, other: &KeyObj) -> (r: bool)
        ensures
            r == (self@ == other@),
    {
        self.value.equals(&other.value)
    }

    /// Returns a copy of this key.
    pub fn copy(&self) -> (r: KeyObj)
        ensures
            r@ == self@,
    {
        KeyObj { value: self.value.copy() }
    }

    /// Returns the value of this key.
    pub fn as_value(&self) -> (r: &ValueObj)
        ensures
            r@ == self@,
    {
        &self.value
    }
}

impl Clone for KeyObj {
    fn clone(&self) -> (r: Self)
        ensures
            r@ == self@,
    {
        self.copy()
    }
}

} // verus!
