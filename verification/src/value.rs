use vstd::prelude::*;

verus! {

/// One wire-level scalar. Exactly one variant is populated; a value is
/// immutable once constructed and cloned on read.
///
/// A 64-bit float travels as its IEEE 754 bit pattern (`Float`): the store
/// and the codec only carry the bits, never compute with them, so a value
/// round-trips the wire without any loss of precision.
#[derive(Debug)]
pub enum Value {
    /// The zero-value sentinel: what a write reports when the key held
    /// nothing before.
    Empty,
    Str(String),
    Int(i64),
    Float(u64),
    Bool(bool),
    Bytes(Vec<u8>),
}

/// The mathematical shape of a [`Value`].
pub enum ValueView {
    Empty,
    Str(Seq<char>),
    Int(i64),
    Float(u64),
    Bool(bool),
    Bytes(Seq<u8>),
}

impl View for Value {
    type V = ValueView;

    open spec fn view(&self) -> ValueView {
        match self {
            Value::Empty => ValueView::Empty,
            Value::Str(s) => ValueView::Str(s@),
            Value::Int(i) => ValueView::Int(*i),
            Value::Float(bits) => ValueView::Float(*bits),
            Value::Bool(b) => ValueView::Bool(*b),
            Value::Bytes(b) => ValueView::Bytes(b@),
        }
    }
}

impl DeepView for Value {
    type V = ValueView;

    open spec fn deep_view(&self) -> ValueView {
        self.view()
    }
}

impl Clone for Value {
    fn clone(&self) -> (r: Self)
        ensures
            r@ == self@,
    {
        match self {
            Value::Empty => Value::Empty,
            Value::Str(s) => Value::Str(s.clone()),
            Value::Int(i) => Value::Int(*i),
            Value::Float(bits) => Value::Float(*bits),
            Value::Bool(b) => Value::Bool(*b),
            Value::Bytes(b) => Value::Bytes(b.clone()),
        }
    }
}

impl PartialEq for Value {
    fn eq(&self, other: &Self) -> (r: bool) {
        match (self, other) {
            (Value::Empty, Value::Empty) => true,
            (Value::Str(a), Value::Str(b)) => *a == *b,
            (Value::Int(a), Value::Int(b)) => *a == *b,
            (Value::Float(a), Value::Float(b)) => *a == *b,
            (Value::Bool(a), Value::Bool(b)) => *a == *b,
            (Value::Bytes(a), Value::Bytes(b)) => bytes_eq(a, b),
            _ => false,
        }
    }
}

impl vstd::std_specs::cmp::PartialEqSpecImpl for Value {
    open spec fn obeys_eq_spec() -> bool {
        true
    }

    open spec fn eq_spec(&self, other: &Self) -> bool {
        self@ == other@
    }
}

impl Default for Value {
    /// The zero-value sentinel.
    fn default() -> (r: Self)
        ensures
            r@ == ValueView::Empty,
    {
        Value::Empty
    }
}

/// Byte-vector equality, compared element by element.
pub fn bytes_eq(a: &Vec<u8>, b: &Vec<u8>) -> (r: bool)
    ensures
        r == (a@ == b@),
{
    if a.len() != b.len() {
        proof {
            assert(a@ != b@);
        }
        return false;
    }
    let mut i: usize = 0;
    while i < a.len()
        invariant
            i <= a@.len(),
            a@.len() == b@.len(),
            forall|j: int| 0 <= j < i ==> a@[j] == b@[j],
        decreases a@.len() - i,
    {
        if a[i] != b[i] {
            return false;
        }
        i += 1;
    }
    proof {
        assert(a@ =~= b@);
    }
    true
}

/// String equality over the character sequences, decided by comparing the
/// UTF-8 bytes: two character sequences are equal exactly when their UTF-8
/// encodings are.
pub fn str_eq(a: &str, b: &str) -> (r: bool)
    ensures
        r == (a@ == b@),
{
    let ab = a.as_bytes();
    let bb = b.as_bytes();
    if ab.len() != bb.len() {
        proof {
            lemma_encode_utf8_injective(a@, b@);
        }
        return false;
    }
    let mut i: usize = 0;
    while i < ab.len()
        invariant
            i <= ab@.len(),
            ab@.len() == bb@.len(),
            ab@ == vstd::utf8::encode_utf8(a@),
            bb@ == vstd::utf8::encode_utf8(b@),
            forall|j: int| 0 <= j < i ==> ab@[j] == bb@[j],
        decreases ab@.len() - i,
    {
        if ab[i] != bb[i] {
            proof {
                lemma_encode_utf8_injective(a@, b@);
            }
            return false;
        }
        i += 1;
    }
    proof {
        assert(ab@ =~= bb@);
        lemma_encode_utf8_injective(a@, b@);
    }
    true
}

/// UTF-8 encoding is injective: equal byte encodings come from equal
/// character sequences.
pub proof fn lemma_encode_utf8_injective(a: Seq<char>, b: Seq<char>)
    ensures
        (vstd::utf8::encode_utf8(a) == vstd::utf8::encode_utf8(b)) == (a == b),
{
    if vstd::utf8::encode_utf8(a) == vstd::utf8::encode_utf8(b) {
        vstd::utf8::encode_utf8_decode_utf8(a);
        vstd::utf8::encode_utf8_decode_utf8(b);
    }
}

/// One key together with its value. Keys are not unique at this level;
/// uniqueness within a table is the storage engine's invariant.
#[derive(Debug)]
pub struct Kvpair {
    pub key: String,
    pub value: Value,
}

/// The mathematical shape of a [`Kvpair`].
pub struct KvpairView {
    pub key: Seq<char>,
    pub value: ValueView,
}

impl View for Kvpair {
    type V = KvpairView;

    open spec fn view(&self) -> KvpairView {
        KvpairView { key: self.key@, value: self.value@ }
    }
}

impl DeepView for Kvpair {
    type V = KvpairView;

    open spec fn deep_view(&self) -> KvpairView {
        self.view()
    }
}

impl Clone for Kvpair {
    fn clone(&self) -> (r: Self)
        ensures
            r@ == self@,
    {
        Kvpair { key: self.key.clone(), value: self.value.clone() }
    }
}

impl PartialEq for Kvpair {
    fn eq(&self, other: &Self) -> (r: bool) {
        self.key == other.key && self.value == other.value
    }
}

impl vstd::std_specs::cmp::PartialEqSpecImpl for Kvpair {
    open spec fn obeys_eq_spec() -> bool {
        true
    }

    open spec fn eq_spec(&self, other: &Self) -> bool {
        self@ == other@
    }
}

impl Kvpair {
    pub fn new(key: &str, value: Value) -> (r: Self)
        ensures
            r@ == (KvpairView { key: key@, value: value@ }),
    {
        Kvpair { key: key.to_owned(), value }
    }
}

impl From<&str> for Value {
    /// Conversion for callers' convenience; contracts speak through
    /// `Value::Str` directly, so no specification is attached.
    fn from(s: &str) -> (r: Self) {
        Value::Str(s.to_owned())
    }
}

impl vstd::std_specs::convert::FromSpecImpl<&str> for Value {
    open spec fn obeys_from_spec() -> bool {
        false
    }

    open spec fn from_spec(s: &str) -> Self {
        Value::Empty
    }
}

} // verus!
