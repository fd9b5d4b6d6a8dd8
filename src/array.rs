//! Garbage collected arrays and strings.
use vstd::prelude::*;
use vstd::utf8::valid_utf8;
use vstd::string::StringSliceAdditionalSpecFns;

verus! {

/// The representation of a managed array: the collector it belongs to,
/// the address of its first element, and the elements.
#[derive(Clone, Debug)]
pub struct GcArrayRepr<T> {
    collector: u64,
    address: u64,
    elements: Vec<T>,
}

impl<T> GcArrayRepr<T> {
    pub closed spec fn spec_collector(&self) -> u64 {
        self.collector
    }

    pub closed spec fn spec_address(&self) -> u64 {
        self.address
    }

    pub closed spec fn spec_elements(&self) -> Seq<T> {
        self.elements@
    }
}

/// A managed array. Its length is fixed when it is allocated.
#[derive(Clone, Debug)]
pub struct GcArray<T> {
    repr: GcArrayRepr<T>,
}

impl<T> GcArray<T> {
    pub closed spec fn spec_repr(&self) -> GcArrayRepr<T> {
        self.repr
    }

    pub open spec fn view(&self) -> Seq<T> {
        self.spec_repr().spec_elements()
    }

    /// The array of `elements` at `address` in the collector `collector`.
    pub fn from_raw_ptr(collector: u64, address: u64, elements: Vec<T>) -> (r: GcArray<T>)
        ensures
            r@ == elements@,
            r.spec_repr().spec_collector() == collector,
            r.spec_repr().spec_address() == address,
    {
        GcArray { repr: GcArrayRepr { collector, address, elements } }
    }

    /// The elements as a slice.
    pub fn as_slice(&self) -> (r: &[T])
        ensures
            r@ == self@,
    {
        self.repr.elements.as_slice()
    }

    /// The address of the first element.
    pub fn as_raw_ptr(&self) -> (r: u64)
        ensures
            r == self.spec_repr().spec_address(),
    {
        self.repr.address
    }

    /// The number of elements.
    pub fn len(&self) -> (r: usize)
        ensures
            r == self@.len(),
    {
        self.repr.elements.len()
    }

    /// The array has no elements.
    pub fn is_empty(&self) -> (r: bool)
        ensures
            r == (self@.len() == 0),
    {
        self.len() == 0
    }

    /// The identity of the collector the array belongs to.
    pub fn collector_id(&self) -> (r: u64)
        ensures
            r == self.spec_repr().spec_collector(),
    {
        self.repr.collector
    }

    /// The underlying representation.
    pub fn as_raw_repr(&self) -> (r: &GcArrayRepr<T>)
        ensures
            *r == self.spec_repr(),
    {
        &self.repr
    }
}

/// Relies on `core::str::from_utf8`: it succeeds exactly on valid UTF-8,
/// and the string it returns has the given bytes.
#[verifier::external_body]
fn str_from_utf8(bytes: &[u8]) -> (r: Option<&str>)
    ensures
        r is Some <==> valid_utf8(bytes@),
        r matches Some(s) ==> s.spec_bytes() == bytes@,
{
    core::str::from_utf8(bytes).ok()
}

/// A managed string: a managed array of bytes that are valid UTF-8.
#[derive(Clone, Debug)]
pub struct GcString {
    bytes: GcArray<u8>,
}

impl GcString {
    pub closed spec fn spec_bytes(&self) -> GcArray<u8> {
        self.bytes
    }

    /// The string's invariant: its bytes are valid UTF-8.
    pub open spec fn wf(&self) -> bool {
        valid_utf8(self.spec_bytes()@)
    }

    /// The string made of `bytes`, or `None` when they are not valid UTF-8.
    pub fn from_utf8(bytes: GcArray<u8>) -> (r: Option<GcString>)
        ensures
            r is Some <==> valid_utf8(bytes@),
            r matches Some(s) ==> s.wf() && s.spec_bytes() == bytes,
    {
        if str_from_utf8(bytes.as_slice()).is_some() {
            Some(GcString { bytes })
        } else {
            None
        }
    }

    /// The bytes of the string.
    pub fn as_bytes(&self) -> (r: &GcArray<u8>)
        ensures
            *r == self.spec_bytes(),
    {
        &self.bytes
    }

    /// The string as a `str`.
    pub fn as_str(&self) -> (r: &str)
        requires
            self.wf(),
        ensures
            r.spec_bytes() == self.spec_bytes()@,
    {
        match str_from_utf8(self.bytes.as_slice()) {
            Some(s) => s,
            None => "",
        }
    }

    /// The length of the string in bytes.
    pub fn len(&self) -> (r: usize)
        ensures
            r == self.spec_bytes()@.len(),
    {
        self.bytes.len()
    }
}

} // verus!
