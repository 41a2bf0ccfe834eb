//! A carrier for the columns' values of the plain types.

use crate::soa::SoaCarrier;
use vstd::prelude::*;

verus! {

/// The values of a column of one of the plain types.
#[derive(Debug)]
pub enum SoaValues {
    Texts(Vec<String>),
    Blobs(Vec<Vec<u8>>),
    Flags(Vec<bool>),
    U32s(Vec<u32>),
    U64s(Vec<u64>),
    I32s(Vec<i32>),
    I64s(Vec<i64>),
}

impl SoaCarrier<String> for SoaValues {
    open spec fn holds(&self, values: Seq<String>) -> bool {
        *self matches SoaValues::Texts(v) && v@ == values
    }

    open spec fn lacks(&self) -> bool {
        !(*self is Texts)
    }

    open spec fn is_called(name: Seq<char>) -> bool {
        name == "alloc::string::String"@
    }

    fn value_type() -> (name: &'static str) {
        "alloc::string::String"
    }

    fn carry(values: Vec<String>) -> (carrier: Self) {
        SoaValues::Texts(values)
    }

    fn carried(&self) -> (values: Option<&Vec<String>>) {
        match self {
            SoaValues::Texts(values) => Some(values),
            _ => None,
        }
    }
}

impl SoaCarrier<Vec<u8>> for SoaValues {
    open spec fn holds(&self, values: Seq<Vec<u8>>) -> bool {
        *self matches SoaValues::Blobs(v) && v@ == values
    }

    open spec fn lacks(&self) -> bool {
        !(*self is Blobs)
    }

    open spec fn is_called(name: Seq<char>) -> bool {
        name == "alloc::vec::Vec<u8>"@
    }

    fn value_type() -> (name: &'static str) {
        "alloc::vec::Vec<u8>"
    }

    fn carry(values: Vec<Vec<u8>>) -> (carrier: Self) {
        SoaValues::Blobs(values)
    }

    fn carried(&self) -> (values: Option<&Vec<Vec<u8>>>) {
        match self {
            SoaValues::Blobs(values) => Some(values),
            _ => None,
        }
    }
}

impl SoaCarrier<bool> for SoaValues {
    open spec fn holds(&self, values: Seq<bool>) -> bool {
        *self matches SoaValues::Flags(v) && v@ == values
    }

    open spec fn lacks(&self) -> bool {
        !(*self is Flags)
    }

    open spec fn is_called(name: Seq<char>) -> bool {
        name == "bool"@
    }

    fn value_type() -> (name: &'static str) {
        "bool"
    }

    fn carry(values: Vec<bool>) -> (carrier: Self) {
        SoaValues::Flags(values)
    }

    fn carried(&self) -> (values: Option<&Vec<bool>>) {
        match self {
            SoaValues::Flags(values) => Some(values),
            _ => None,
        }
    }
}

impl SoaCarrier<u32> for SoaValues {
    open spec fn holds(&self, values: Seq<u32>) -> bool {
        *self matches SoaValues::U32s(v) && v@ == values
    }

    open spec fn lacks(&self) -> bool {
        !(*self is U32s)
    }

    open spec fn is_called(name: Seq<char>) -> bool {
        name == "u32"@
    }

    fn value_type() -> (name: &'static str) {
        "u32"
    }

    fn carry(values: Vec<u32>) -> (carrier: Self) {
        SoaValues::U32s(values)
    }

    fn carried(&self) -> (values: Option<&Vec<u32>>) {
        match self {
            SoaValues::U32s(values) => Some(values),
            _ => None,
        }
    }
}

impl SoaCarrier<u64> for SoaValues {
    open spec fn holds(&self, values: Seq<u64>) -> bool {
        *self matches SoaValues::U64s(v) && v@ == values
    }

    open spec fn lacks(&self) -> bool {
        !(*self is U64s)
    }

    open spec fn is_called(name: Seq<char>) -> bool {
        name == "u64"@
    }

    fn value_type() -> (name: &'static str) {
        "u64"
    }

    fn carry(values: Vec<u64>) -> (carrier: Self) {
        SoaValues::U64s(values)
    }

    fn carried(&self) -> (values: Option<&Vec<u64>>) {
        match self {
            SoaValues::U64s(values) => Some(values),
            _ => None,
        }
    }
}

impl SoaCarrier<i32> for SoaValues {
    open spec fn holds(&self, values: Seq<i32>) -> bool {
        *self matches SoaValues::I32s(v) && v@ == values
    }

    open spec fn lacks(&self) -> bool {
        !(*self is I32s)
    }

    open spec fn is_called(name: Seq<char>) -> bool {
        name == "i32"@
    }

    fn value_type() -> (name: &'static str) {
        "i32"
    }

    fn carry(values: Vec<i32>) -> (carrier: Self) {
        SoaValues::I32s(values)
    }

    fn carried(&self) -> (values: Option<&Vec<i32>>) {
        match self {
            SoaValues::I32s(values) => Some(values),
            _ => None,
        }
    }
}

impl SoaCarrier<i64> for SoaValues {
    open spec fn holds(&self, values: Seq<i64>) -> bool {
        *self matches SoaValues::I64s(v) && v@ == values
    }

    open spec fn lacks(&self) -> bool {
        !(*self is I64s)
    }

    open spec fn is_called(name: Seq<char>) -> bool {
        name == "i64"@
    }

    fn value_type() -> (name: &'static str) {
        "i64"
    }

    fn carry(values: Vec<i64>) -> (carrier: Self) {
        SoaValues::I64s(values)
    }

    fn carried(&self) -> (values: Option<&Vec<i64>>) {
        match self {
            SoaValues::I64s(values) => Some(values),
            _ => None,
        }
    }
}

} // verus!
