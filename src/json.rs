use vstd::prelude::*;

verus! {

/// A document tree: null, boolean, number, string, array or object.
/// A number is kept as its JSON text; strings and object keys as their characters.
#[derive(Debug)]
pub enum JsonValue {
    Null,
    Bool(bool),
    Number(String),
    Text(Vec<char>),
    Array(Vec<JsonValue>),
    Object(Vec<(Vec<char>, JsonValue)>),
}

/// A leaf of a document tree.
#[derive(Debug)]
pub enum Scalar {
    Null,
    Bool(bool),
    Number(String),
    Text(Vec<char>),
}

/// The mathematical value of a leaf.
pub ghost enum ScalarV {
    Null,
    Bool(bool),
    Number(String),
    Text(Seq<char>),
}

impl View for Scalar {
    type V = ScalarV;

    open spec fn view(&self) -> ScalarV {
        match self {
            Scalar::Null => ScalarV::Null,
            Scalar::Bool(b) => ScalarV::Bool(*b),
            Scalar::Number(n) => ScalarV::Number(*n),
            Scalar::Text(t) => ScalarV::Text(t@),
        }
    }
}

impl JsonValue {
    /// Whether this value is a leaf rather than an array or an object.
    pub open spec fn is_leaf(&self) -> bool {
        !(self is Array || self is Object)
    }

    /// The leaf value of a non-container node.
    pub open spec fn leaf_view(&self) -> ScalarV {
        match self {
            JsonValue::Bool(b) => ScalarV::Bool(*b),
            JsonValue::Number(n) => ScalarV::Number(*n),
            JsonValue::Text(t) => ScalarV::Text(t@),
            _ => ScalarV::Null,
        }
    }
}

/// A copy of a sequence of characters.
pub fn copy_chars(s: &Vec<char>) -> (r: Vec<char>)
    ensures
        r@ == s@,
{
    let mut r: Vec<char> = Vec::new();
    let mut i: usize = 0;
    while i < s.len()
        invariant
            i <= s.len(),
            r@ == s@.subrange(0, i as int),
        decreases s.len() - i,
    {
        r.push(s[i]);
        i = i + 1;
    }
    assert(r@ =~= s@);
    r
}

/// The characters of a string.
pub fn string_chars(s: &String) -> (r: Vec<char>)
    ensures
        r@ == s@,
{
    let text = s.as_str();
    let n = text.unicode_len();
    let mut r: Vec<char> = Vec::new();
    let mut i: usize = 0;
    while i < n
        invariant
            i <= n,
            n == text@.len(),
            text@ == s@,
            r@ == s@.subrange(0, i as int),
        decreases n - i,
    {
        r.push(text.get_char(i));
        i = i + 1;
    }
    assert(r@ =~= s@);
    r
}

/// Appends the characters of `s` to `out`.
pub fn push_chars(out: &mut Vec<char>, s: &Vec<char>)
    ensures
        final(out)@ == old(out)@ + s@,
{
    let mut i: usize = 0;
    while i < s.len()
        invariant
            i <= s.len(),
            out@ == old(out)@ + s@.subrange(0, i as int),
        decreases s.len() - i,
    {
        out.push(s[i]);
        i = i + 1;
    }
    assert(s@.subrange(0, s@.len() as int) =~= s@);
}

impl Scalar {
    /// The leaf of a non-container node.
    pub fn from_leaf(v: &JsonValue) -> (r: Scalar)
        requires
            v.is_leaf(),
        ensures
            r@ == v.leaf_view(),
    {
        match v {
            JsonValue::Bool(b) => Scalar::Bool(*b),
            JsonValue::Number(n) => Scalar::Number(n.clone()),
            JsonValue::Text(t) => Scalar::Text(copy_chars(t)),
            _ => Scalar::Null,
        }
    }
}

/// The decimal digit of `d`.
pub open spec fn digit_char(d: nat) -> char {
    if d == 0 { '0' } else if d == 1 { '1' } else if d == 2 { '2' } else if d == 3 { '3' }
    else if d == 4 { '4' } else if d == 5 { '5' } else if d == 6 { '6' } else if d == 7 { '7' }
    else if d == 8 { '8' } else { '9' }
}

/// The decimal text of `n`, without leading zeros.
pub open spec fn decimal(n: nat) -> Seq<char>
    decreases n,
{
    if n < 10 {
        seq![digit_char(n)]
    } else {
        decimal(n / 10).push(digit_char(n % 10))
    }
}

fn digit(d: usize) -> (c: char)
    requires
        d < 10,
    ensures
        c == digit_char(d as nat),
{
    if d == 0 { '0' } else if d == 1 { '1' } else if d == 2 { '2' } else if d == 3 { '3' }
    else if d == 4 { '4' } else if d == 5 { '5' } else if d == 6 { '6' } else if d == 7 { '7' }
    else if d == 8 { '8' } else { '9' }
}

/// Appends the decimal text of `n` to `out`.
pub fn push_decimal(out: &mut Vec<char>, n: usize)
    ensures
        final(out)@ == old(out)@ + decimal(n as nat),
    decreases n,
{
    if n < 10 {
        out.push(digit(n));
        assert(old(out)@.push(digit_char(n as nat)) =~= old(out)@ + decimal(n as nat));
    } else {
        push_decimal(out, n / 10);
        out.push(digit(n % 10));
        assert(old(out)@ + decimal((n / 10) as nat) + seq![digit_char((n % 10) as nat)]
            =~= old(out)@ + decimal(n as nat));
    }
}

} // verus!
