//! The values that the object decoder hands over: byte buffers, and the
//! dynamic value that stands where a field has no fixed shape.

use vstd::prelude::*;
use vstd::slice::slice_to_vec;

verus! {

/// A value whose shape is only known once it has been decoded.
#[derive(Hash, Debug, Eq, PartialEq)]
pub enum PythonValue {
    String(String),
    Bytes(Vec<u8>),
    U8(u8),
    U16(u16),
    U32(u32),
    U64(u64),
    U128(u128),
    I8(i8),
    I16(i16),
    I32(i32),
    I64(i64),
    I128(i128),
    Sequence(Vec<PythonValue>),
}

/// A dynamic value as a mathematical value.
pub enum Value {
    String(Seq<char>),
    Bytes(Seq<u8>),
    U8(u8),
    U16(u16),
    U32(u32),
    U64(u64),
    U128(u128),
    I8(i8),
    I16(i16),
    I32(i32),
    I64(i64),
    I128(i128),
    Sequence(Seq<Value>),
}

impl View for PythonValue {
    type V = Value;

    open spec fn view(&self) -> Value
        decreases self,
    {
        match self {
            PythonValue::String(text) => Value::String(text@),
            PythonValue::Bytes(bytes) => Value::Bytes(bytes@),
            PythonValue::U8(n) => Value::U8(*n),
            PythonValue::U16(n) => Value::U16(*n),
            PythonValue::U32(n) => Value::U32(*n),
            PythonValue::U64(n) => Value::U64(*n),
            PythonValue::U128(n) => Value::U128(*n),
            PythonValue::I8(n) => Value::I8(*n),
            PythonValue::I16(n) => Value::I16(*n),
            PythonValue::I32(n) => Value::I32(*n),
            PythonValue::I64(n) => Value::I64(*n),
            PythonValue::I128(n) => Value::I128(*n),
            PythonValue::Sequence(items) => Value::Sequence(
                Seq::new(
                    items@.len(),
                    |i: int|
                        if 0 <= i < items@.len() {
                            items@[i].view()
                        } else {
                            Value::U8(0)
                        },
                ),
            ),
        }
    }
}

impl Clone for PythonValue {
    fn clone(&self) -> (copy: Self)
        ensures
            copy@ == self@,
        decreases self,
    {
        match self {
            PythonValue::String(text) => PythonValue::String(text.clone()),
            PythonValue::Bytes(bytes) => PythonValue::Bytes(slice_to_vec(bytes.as_slice())),
            PythonValue::U8(n) => PythonValue::U8(*n),
            PythonValue::U16(n) => PythonValue::U16(*n),
            PythonValue::U32(n) => PythonValue::U32(*n),
            PythonValue::U64(n) => PythonValue::U64(*n),
            PythonValue::U128(n) => PythonValue::U128(*n),
            PythonValue::I8(n) => PythonValue::I8(*n),
            PythonValue::I16(n) => PythonValue::I16(*n),
            PythonValue::I32(n) => PythonValue::I32(*n),
            PythonValue::I64(n) => PythonValue::I64(*n),
            PythonValue::I128(n) => PythonValue::I128(*n),
            PythonValue::Sequence(items) => {
                let mut copies: Vec<PythonValue> = Vec::new();
                let mut i: usize = 0;
                while i < items.len()
                    invariant
                        i <= items@.len(),
                        copies@.len() == i,
                        forall|j: int| 0 <= j < i ==> copies@[j]@ == items@[j]@,
                        *self == PythonValue::Sequence(*items),
                    decreases items@.len() - i,
                {
                    proof {
                        vstd::std_specs::vec::axiom_vec_index_decreases(*items, i as int);
                        assert(decreases_to!(*self => self->Sequence_0));
                    }
                    let item = items[i].clone();
                    copies.push(item);
                    i += 1;
                }
                let copy = PythonValue::Sequence(copies);
                assert(copy@ == self@) by {
                    assert(copy@->Sequence_0 =~= self@->Sequence_0);
                }
                copy
            },
        }
    }
}

/// A byte buffer as it was decoded, of any length.
#[derive(Hash, Debug, Eq, PartialEq)]
pub struct Bytes(pub Vec<u8>);

impl Clone for Bytes {
    fn clone(&self) -> (copy: Self)
        ensures
            copy@ == self@,
    {
        Bytes(slice_to_vec(self.0.as_slice()))
    }
}

/// Why a decoded value does not fit the record it stands in.
#[derive(Clone, Copy, Debug, PartialEq, Eq, Structural)]
pub enum DecodeError {
    /// A byte buffer that stands for an identifier is not 32 bytes long.
    IdLength,
}

impl View for Bytes {
    type V = Seq<u8>;

    open spec fn view(&self) -> Seq<u8> {
        self.0@
    }
}

impl Bytes {
    /// The identifier that the buffer holds: its bytes, where there are
    /// exactly 32 of them; `IdLength` for any other length.
    pub fn to_id(&self) -> (r: Result<[u8; 32], DecodeError>)
        ensures
            match r {
                Ok(id) => self@.len() == 32 && id@ == self@,
                Err(e) => self@.len() != 32 && e == DecodeError::IdLength,
            },
    {
        if self.0.len() != 32 {
            return Err(DecodeError::IdLength);
        }
        let mut id: [u8; 32] = [0u8; 32];
        let mut i: usize = 0;
        while i < 32
            invariant
                i <= 32,
                self.0@.len() == 32,
                forall|j: int| 0 <= j < i ==> id@[j] == self.0@[j],
            decreases 32 - i,
        {
            id[i] = self.0[i];
            i += 1;
        }
        assert(id@ =~= self@);
        Ok(id)
    }
}

} // verus!
