use vstd::prelude::*;

verus! {

/// The built-in functions that the global table can hold.
#[derive(Debug, Clone, Copy, PartialEq, Eq, Structural)]
pub enum Native {
    Print,
}

/// A run-time value. A float is held as the text of the literal it came
/// from; two floats are equal when that text is.
#[derive(Debug, Clone)]
pub enum Value {
    Nil,
    Boolean(bool),
    Integer(i64),
    Float(Vec<u8>),
    String(Vec<u8>),
    Function(Native),
}

/// The mathematical content of a `Value`.
pub enum LuaValue {
    Nil,
    Boolean(bool),
    Integer(i64),
    Float(Seq<u8>),
    String(Seq<u8>),
    Function(Native),
}

impl View for Value {
    type V = LuaValue;

    open spec fn view(&self) -> LuaValue {
        match self {
            Value::Nil => LuaValue::Nil,
            Value::Boolean(b) => LuaValue::Boolean(*b),
            Value::Integer(i) => LuaValue::Integer(*i),
            Value::Float(t) => LuaValue::Float(t@),
            Value::String(s) => LuaValue::String(s@),
            Value::Function(f) => LuaValue::Function(*f),
        }
    }
}

/// The content of each value in turn.
pub open spec fn values_view(s: Seq<Value>) -> Seq<LuaValue> {
    s.map_values(|v: Value| v@)
}

/// The decimal digits of `n`.
pub open spec fn nat_text(n: nat) -> Seq<u8>
    decreases n,
{
    if n < 10 {
        seq![(48 + n) as u8]
    } else {
        nat_text(n / 10).push((48 + n % 10) as u8)
    }
}

/// `i` in decimal, with a leading `-` when negative.
pub open spec fn int_text(i: int) -> Seq<u8> {
    if i < 0 {
        seq!['-' as u8] + nat_text((-i) as nat)
    } else {
        nat_text(i as nat)
    }
}

/// The bytes `print` writes for a value; `None` for a float, whose form is
/// that of the number the literal denotes.
pub open spec fn display_of(v: LuaValue) -> Option<Seq<u8>> {
    match v {
        LuaValue::Nil => Some(seq!['n' as u8, 'i' as u8, 'l' as u8]),
        LuaValue::Boolean(true) => Some(seq!['t' as u8, 'r' as u8, 'u' as u8, 'e' as u8]),
        LuaValue::Boolean(false) => Some(seq!['f' as u8, 'a' as u8, 'l' as u8, 's' as u8, 'e' as u8]),
        LuaValue::Integer(i) => Some(int_text(i as int)),
        LuaValue::Float(_) => None,
        LuaValue::String(s) => Some(s),
        LuaValue::Function(_) => Some(seq!['f' as u8, 'u' as u8, 'n' as u8, 'c' as u8, 't' as u8, 'i' as u8, 'o' as u8, 'n' as u8]),
    }
}

fn push_digits(n: u64, out: &mut Vec<u8>)
    ensures
        final(out)@ == old(out)@ + nat_text(n as nat),
    decreases n,
{
    if n >= 10 {
        push_digits(n / 10, out);
    }
    out.push((48 + n % 10) as u8);
    if n >= 10 {
        assert(final(out)@ =~= old(out)@ + nat_text(n as nat));
    } else {
        assert(final(out)@ =~= old(out)@ + nat_text(n as nat));
    }
}

fn bytes_of(a: &[u8]) -> (r: Vec<u8>)
    ensures
        r@ == a@,
{
    let mut r: Vec<u8> = Vec::new();
    let mut i: usize = 0;
    while i < a.len()
        invariant
            i <= a.len(),
            r@ == a@.take(i as int),
        decreases a.len() - i,
    {
        r.push(a[i]);
        i += 1;
        assert(r@ =~= a@.take(i as int));
    }
    assert(a@.take(i as int) =~= a@);
    r
}

pub fn bytes_copy(v: &Vec<u8>) -> (r: Vec<u8>)
    ensures
        r@ == v@,
{
    let r = v.clone();
    assert(r@ =~= v@);
    r
}

pub fn bytes_eq(a: &Vec<u8>, b: &Vec<u8>) -> (r: bool)
    ensures
        r == (a@ == b@),
{
    if a.len() != b.len() {
        return false;
    }
    let mut i: usize = 0;
    while i < a.len()
        invariant
            i <= a.len() == b.len(),
            a@.take(i as int) == b@.take(i as int),
        decreases a.len() - i,
    {
        if a[i] != b[i] {
            return false;
        }
        assert(a@.take(i + 1) =~= a@.take(i as int).push(a[i as int]));
        assert(b@.take(i + 1) =~= b@.take(i as int).push(b[i as int]));
        i += 1;
    }
    assert(a@ =~= a@.take(i as int));
    assert(b@ =~= b@.take(i as int));
    true
}

impl Value {
    /// A copy that holds the same content.
    pub fn copy(&self) -> (r: Value)
        ensures
            r@ == self@,
    {
        match self {
            Value::Nil => Value::Nil,
            Value::Boolean(b) => Value::Boolean(*b),
            Value::Integer(i) => Value::Integer(*i),
            Value::Float(t) => Value::Float(bytes_copy(t)),
            Value::String(s) => Value::String(bytes_copy(s)),
            Value::Function(f) => Value::Function(*f),
        }
    }

    /// The bytes `print` writes for this value; `None` for a float.
    pub fn display(&self) -> (r: Option<Vec<u8>>)
        ensures
            match display_of(self@) {
                Some(d) => r is Some && r->Some_0@ == d,
                None => r is None,
            },
    {
        match self {
            Value::Nil => Some(bytes_of(&['n' as u8, 'i' as u8, 'l' as u8])),
            Value::Boolean(true) => Some(bytes_of(&['t' as u8, 'r' as u8, 'u' as u8, 'e' as u8])),
            Value::Boolean(false) => Some(bytes_of(&['f' as u8, 'a' as u8, 'l' as u8, 's' as u8, 'e' as u8])),
            Value::Integer(i) => {
                let mut out: Vec<u8> = Vec::new();
                let i = *i;
                let m: u64 = if i >= 0 {
                    i as u64
                } else {
                    out.push('-' as u8);
                    ((-(i + 1)) as u64) + 1
                };
                push_digits(m, &mut out);
                Some(out)
            },
            Value::Float(_) => None,
            Value::String(s) => Some(bytes_copy(s)),
            Value::Function(_) => Some(bytes_of(&['f' as u8, 'u' as u8, 'n' as u8, 'c' as u8, 't' as u8, 'i' as u8, 'o' as u8, 'n' as u8])),
        }
    }

    /// Equality: only values of the same kind are equal.
    pub fn same(&self, other: &Value) -> (r: bool)
        ensures
            r == (self@ == other@),
    {
        match (self, other) {
            (Value::Nil, Value::Nil) => true,
            (Value::Boolean(a), Value::Boolean(b)) => *a == *b,
            (Value::Integer(a), Value::Integer(b)) => *a == *b,
            (Value::Float(a), Value::Float(b)) => bytes_eq(a, b),
            (Value::String(a), Value::String(b)) => bytes_eq(a, b),
            (Value::Function(a), Value::Function(b)) => *a == *b,
            _ => false,
        }
    }
}

impl PartialEq for Value {
    fn eq(&self, other: &Value) -> (r: bool) {
        self.same(other)
    }
}

impl vstd::std_specs::cmp::PartialEqSpecImpl for Value {
    open spec fn obeys_eq_spec() -> bool {
        true
    }

    open spec fn eq_spec(&self, other: &Value) -> bool {
        self@ == other@
    }
}

} // verus!
