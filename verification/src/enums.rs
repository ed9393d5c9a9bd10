//! The MySQL `ENUM` value: a 1-based index into a list of names, where index
//! zero stands for the empty string.

use crate::buffer_vec::BufferVec;
use std::borrow::Cow;
use std::cmp::Ordering;
use std::sync::Arc;
use vstd::prelude::*;
use vstd::string::StringSliceAdditionalSpecFns;
use vstd::utf8::{decode_utf8, valid_utf8};

verus! {

/// Why reading an enum's name failed.
#[derive(Clone, Copy, Debug, PartialEq, Eq, Structural)]
pub enum Error {
    /// The name is not valid UTF-8.
    Encoding,
}

/// What an enum value is: the names it may take and the 1-based index of the
/// one it holds (zero for the empty string).
pub ghost struct EnumView {
    pub data: Seq<Seq<u8>>,
    pub value: nat,
}

impl EnumView {
    /// The index is zero or points at one of the names.
    pub open spec fn in_range(self) -> bool {
        self.value <= self.data.len()
    }

    /// The bytes of the name held; nothing for index zero.
    pub open spec fn name_bytes(self) -> Seq<u8>
        recommends
            self.in_range(),
    {
        if self.value == 0 {
            Seq::empty()
        } else {
            self.data[self.value - 1]
        }
    }
}

/// An owned enum value, sharing its list of names.
#[derive(Clone, Debug)]
pub struct Enum {
    data: Arc<BufferVec>,
    // MySQL Enum is 1-based index, value == 0 means this enum is ''
    value: usize,
}

/// A borrowed enum value.
#[derive(Clone, Copy, Debug)]
pub struct EnumRef<'a> {
    data: &'a BufferVec,
    value: usize,
}

impl View for Enum {
    type V = EnumView;

    closed spec fn view(&self) -> EnumView {
        EnumView { data: (*self.data)@, value: self.value as nat }
    }
}

impl<'a> View for EnumRef<'a> {
    type V = EnumView;

    closed spec fn view(&self) -> EnumView {
        EnumView { data: (*self.data)@, value: self.value as nat }
    }
}

/// The text that `String::from_utf8_lossy` makes of `bytes`.
pub uninterp spec fn lossy_text(bytes: Seq<u8>) -> Seq<char>;

/// `core::str::Utf8Error`, carried from the decoder to the caller unopened.
#[verifier::external_type_specification]
#[verifier::external_body]
pub struct ExUtf8Error(core::str::Utf8Error);

/// `core::str::from_utf8`: succeeds exactly on valid UTF-8, and the string
/// it returns has the given bytes as its encoding.
#[verifier::external_body]
fn str_from_utf8<'a>(bytes: &'a [u8]) -> (r: Result<&'a str, core::str::Utf8Error>)
    ensures
        r is Ok <==> valid_utf8(bytes@),
        r is Ok ==> r->Ok_0.spec_bytes() == bytes@,
{
    core::str::from_utf8(bytes)
}

/// `String::from_utf8_lossy`: the result depends on the bytes alone, and on
/// valid UTF-8 it is the decoded text.
#[verifier::external_body]
fn string_from_utf8_lossy<'a>(bytes: &'a [u8]) -> (r: Cow<'a, str>)
    ensures
        r@ == lossy_text(bytes@),
        valid_utf8(bytes@) ==> r@ == decode_utf8(bytes@),
{
    String::from_utf8_lossy(bytes)
}

impl Enum {
    /// An enum value over the names `data` holding index `value`.
    pub fn new(data: Arc<BufferVec>, value: usize) -> (r: Self)
        ensures
            r@ == (EnumView { data: (*data)@, value: value as nat }),
    {
        Self { data, value }
    }

    /// The 1-based index held; zero for the empty string.
    pub fn value(&self) -> (r: usize)
        ensures
            r == self@.value,
    {
        self.value
    }

    /// Whether the index is zero or points at one of the names.
    pub fn is_in_range(&self) -> (r: bool)
        ensures
            r == self@.in_range(),
    {
        self.value <= self.data.len()
    }

    /// The same value, borrowed.
    pub fn as_ref(&self) -> (r: EnumRef<'_>)
        ensures
            r@ == self@,
    {
        EnumRef { data: &self.data, value: self.value }
    }

    /// The name as text. A name that is valid UTF-8 prints as itself, which
    /// is what `as_str` gives; in any other name each invalid part is
    /// replaced as lossy decoding does.
    pub fn to_string(&self) -> (r: String)
        requires
            self@.in_range(),
        ensures
            r@ == display_text(self@),
            valid_utf8(self@.name_bytes()) ==> r@ == decode_utf8(self@.name_bytes()),
    {
        self.as_ref().to_string()
    }

    /// MySQL truth of the value: every value but the empty string is true.
    pub fn as_mysql_bool(&self) -> (r: Result<bool, Error>)
        ensures
            r == Ok::<bool, Error>(self@.value != 0),
    {
        Ok(self.value != 0)
    }
}

/// What an enum value prints as.
pub open spec fn display_text(e: EnumView) -> Seq<char>
    recommends
        e.in_range(),
{
    if e.value == 0 {
        Seq::empty()
    } else {
        lossy_text(e.name_bytes())
    }
}

impl<'a> EnumRef<'a> {
    /// An enum value over the names `data` holding index `value`.
    pub fn new(data: &'a BufferVec, value: usize) -> (r: Self)
        ensures
            r@ == (EnumView { data: data@, value: value as nat }),
    {
        Self { data, value }
    }

    /// An owned copy, with its own copy of the names.
    pub fn to_owned(self) -> (r: Enum)
        ensures
            r@ == self@,
    {
        Enum { data: Arc::new(self.data.clone()), value: self.value }
    }

    /// Whether the index is zero or points at one of the names.
    pub fn is_in_range(&self) -> (r: bool)
        ensures
            r == self@.in_range(),
    {
        self.value <= self.data.len()
    }

    /// Whether this is the empty string.
    pub fn is_empty(&self) -> (r: bool)
        ensures
            r == (self@.value == 0),
    {
        self.value == 0
    }

    /// The 1-based index held; zero for the empty string.
    pub fn value(&self) -> (r: usize)
        ensures
            r == self@.value,
    {
        self.value
    }

    /// The name held, or `Error::Encoding` where its bytes are not UTF-8.
    pub fn as_str(&self) -> (r: Result<&'a str, Error>)
        requires
            self@.in_range(),
        ensures
            r is Ok <==> valid_utf8(self@.name_bytes()),
            r is Ok ==> r->Ok_0@ == decode_utf8(self@.name_bytes()),
            r is Err ==> r->Err_0 == Error::Encoding,
    {
        if self.value == 0 {
            proof {
                reveal_strlit("");
                assert(""@ =~= Seq::<char>::empty());
                assert(decode_utf8(Seq::<u8>::empty()) =~= Seq::<char>::empty());
            }
            return Ok("");
        }
        let buf = self.data.get(self.value - 1);

        match str_from_utf8(buf) {
            Ok(s) => {
                proof {
                    vstd::utf8::encode_utf8_decode_utf8(s@);
                }
                Ok(s)
            },
            Err(_) => Err(Error::Encoding),
        }
    }

    /// The name as text. A name that is valid UTF-8 prints as itself, which
    /// is what `as_str` gives; in any other name each invalid part is
    /// replaced as lossy decoding does.
    pub fn to_string(&self) -> (r: String)
        requires
            self@.in_range(),
        ensures
            r@ == display_text(self@),
            valid_utf8(self@.name_bytes()) ==> r@ == decode_utf8(self@.name_bytes()),
    {
        if self.value == 0 {
            assert(decode_utf8(Seq::<u8>::empty()) =~= Seq::<char>::empty());
            return String::new();
        }
        let buf = self.data.get(self.value - 1);
        match string_from_utf8_lossy(buf) {
            Cow::Borrowed(text) => text.to_owned(),
            Cow::Owned(text) => text,
        }
    }
}

/// How two enum indices compare; the names play no part.
pub open spec fn index_order(a: nat, b: nat) -> Ordering {
    if a < b {
        Ordering::Less
    } else if a == b {
        Ordering::Equal
    } else {
        Ordering::Greater
    }
}

impl PartialEq for Enum {
    fn eq(&self, other: &Self) -> (r: bool) {
        self.value == other.value
    }
}

impl vstd::std_specs::cmp::PartialEqSpecImpl for Enum {
    open spec fn obeys_eq_spec() -> bool {
        true
    }

    open spec fn eq_spec(&self, other: &Self) -> bool {
        self@.value == other@.value
    }
}

impl Eq for Enum {

}

impl PartialOrd for Enum {
    fn partial_cmp(&self, right: &Self) -> (r: Option<Ordering>) {
        Some(self.cmp(right))
    }
}

impl vstd::std_specs::cmp::PartialOrdSpecImpl for Enum {
    open spec fn obeys_partial_cmp_spec() -> bool {
        true
    }

    open spec fn partial_cmp_spec(&self, other: &Self) -> Option<Ordering> {
        Some(index_order(self@.value, other@.value))
    }
}

impl Enum {
    /// Orders two values by their indices.
    pub fn cmp(&self, other: &Self) -> (r: Ordering)
        ensures
            r == index_order(self@.value, other@.value),
    {
        if self.value < other.value {
            Ordering::Less
        } else if self.value == other.value {
            Ordering::Equal
        } else {
            Ordering::Greater
        }
    }
}

impl<'a> PartialEq for EnumRef<'a> {
    fn eq(&self, other: &Self) -> (r: bool) {
        self.value == other.value
    }
}

impl<'a> vstd::std_specs::cmp::PartialEqSpecImpl for EnumRef<'a> {
    open spec fn obeys_eq_spec() -> bool {
        true
    }

    open spec fn eq_spec(&self, other: &Self) -> bool {
        self@.value == other@.value
    }
}

impl<'a> Eq for EnumRef<'a> {

}

impl<'a> PartialOrd for EnumRef<'a> {
    fn partial_cmp(&self, right: &Self) -> (r: Option<Ordering>) {
        Some(self.cmp(right))
    }
}

impl<'a> vstd::std_specs::cmp::PartialOrdSpecImpl for EnumRef<'a> {
    open spec fn obeys_partial_cmp_spec() -> bool {
        true
    }

    open spec fn partial_cmp_spec(&self, other: &Self) -> Option<Ordering> {
        Some(index_order(self@.value, other@.value))
    }
}

impl<'a> EnumRef<'a> {
    /// Orders two values by their indices.
    pub fn cmp(&self, other: &Self) -> (r: Ordering)
        ensures
            r == index_order(self@.value, other@.value),
    {
        if self.value < other.value {
            Ordering::Less
        } else if self.value == other.value {
            Ordering::Equal
        } else {
            Ordering::Greater
        }
    }
}

} // verus!
