//! Elementwise expressions over one source and a number. The number never gives support to an
//! element that has none.

use vstd::prelude::*;
use crate::backend::{
    add_scalar_bytes, and_scalar_bytes, div_scalar_bytes, each, eq_scalar_bytes, flag,
    ge_scalar_bytes, gt_scalar_bytes, le_scalar_bytes, lt_scalar_bytes, mul_scalar_bytes,
    ne_scalar_bytes, or_scalar_bytes, power, quotient, raise_bytes_to, rem_scalar_bytes, remainder,
    sub_scalar_bytes, wrapped, xor_scalar_bytes, zeros,
};
use crate::error::{Error, Result};
use crate::unary::{Sealed, UnaryOp};

verus! {

/// Every element plus the number.
#[derive(Clone, Copy, Debug)]
pub struct AddScalar<T> {
    scalar: T,
}

impl<T> Sealed for AddScalar<T> {

}

impl<T> AddScalar<T> {
    pub closed spec fn scalar(&self) -> T {
        self.scalar
    }

    pub fn new(scalar: T) -> (op: Self)
        ensures
            op.scalar() == scalar,
    {
        AddScalar { scalar }
    }

    pub fn number(&self) -> (scalar: &T)
        ensures
            *scalar == self.scalar(),
    {
        &self.scalar
    }
}

impl UnaryOp<u8> for AddScalar<u8> {
    type Output = u8;

    open spec fn is_result(&self, values: Seq<u8>, out: Seq<u8>) -> bool {
        let scalar = self.scalar();
        out == each(values, |a: u8| wrapped(a + scalar))
    }

    fn apply(&self, values: Vec<u8>) -> (result: Result<Vec<u8>>) {
        match add_scalar_bytes(values, self.scalar) {
            Ok(out) => {
                assert(self.is_result(values@, out@)) by {
                    let scalar = self.scalar();
                    assert(out@ =~= each(values@, |a: u8| wrapped(a + scalar)));
                }
                Ok(out)
            },
            Err(error) => Err(Error::Nd(error)),
        }
    }
}

/// Every element less the number.
#[derive(Clone, Copy, Debug)]
pub struct SubScalar<T> {
    scalar: T,
}

impl<T> Sealed for SubScalar<T> {

}

impl<T> SubScalar<T> {
    pub closed spec fn scalar(&self) -> T {
        self.scalar
    }

    pub fn new(scalar: T) -> (op: Self)
        ensures
            op.scalar() == scalar,
    {
        SubScalar { scalar }
    }

    pub fn number(&self) -> (scalar: &T)
        ensures
            *scalar == self.scalar(),
    {
        &self.scalar
    }
}

impl UnaryOp<u8> for SubScalar<u8> {
    type Output = u8;

    open spec fn is_result(&self, values: Seq<u8>, out: Seq<u8>) -> bool {
        let scalar = self.scalar();
        out == each(values, |a: u8| wrapped(a - scalar))
    }

    fn apply(&self, values: Vec<u8>) -> (result: Result<Vec<u8>>) {
        match sub_scalar_bytes(values, self.scalar) {
            Ok(out) => {
                assert(self.is_result(values@, out@)) by {
                    let scalar = self.scalar();
                    assert(out@ =~= each(values@, |a: u8| wrapped(a - scalar)));
                }
                Ok(out)
            },
            Err(error) => Err(Error::Nd(error)),
        }
    }
}

/// Every element times the number.
#[derive(Clone, Copy, Debug)]
pub struct MulScalar<T> {
    scalar: T,
}

impl<T> Sealed for MulScalar<T> {

}

impl<T> MulScalar<T> {
    pub closed spec fn scalar(&self) -> T {
        self.scalar
    }

    pub fn new(scalar: T) -> (op: Self)
        ensures
            op.scalar() == scalar,
    {
        MulScalar { scalar }
    }

    pub fn number(&self) -> (scalar: &T)
        ensures
            *scalar == self.scalar(),
    {
        &self.scalar
    }
}

impl UnaryOp<u8> for MulScalar<u8> {
    type Output = u8;

    open spec fn is_result(&self, values: Seq<u8>, out: Seq<u8>) -> bool {
        let scalar = self.scalar();
        out == each(values, |a: u8| wrapped(a * scalar))
    }

    fn apply(&self, values: Vec<u8>) -> (result: Result<Vec<u8>>) {
        match mul_scalar_bytes(values, self.scalar) {
            Ok(out) => {
                assert(self.is_result(values@, out@)) by {
                    let scalar = self.scalar();
                    assert(out@ =~= each(values@, |a: u8| wrapped(a * scalar)));
                }
                Ok(out)
            },
            Err(error) => Err(Error::Nd(error)),
        }
    }
}

/// Every element divided by the number, zero for a zero number.
#[derive(Clone, Copy, Debug)]
pub struct DivScalar<T> {
    scalar: T,
}

impl<T> Sealed for DivScalar<T> {

}

impl<T> DivScalar<T> {
    pub closed spec fn scalar(&self) -> T {
        self.scalar
    }

    pub fn new(scalar: T) -> (op: Self)
        ensures
            op.scalar() == scalar,
    {
        DivScalar { scalar }
    }

    pub fn number(&self) -> (scalar: &T)
        ensures
            *scalar == self.scalar(),
    {
        &self.scalar
    }
}

impl UnaryOp<u8> for DivScalar<u8> {
    type Output = u8;

    open spec fn is_result(&self, values: Seq<u8>, out: Seq<u8>) -> bool {
        let scalar = self.scalar();
        out == each(values, |a: u8| quotient(a, scalar))
    }

    fn apply(&self, values: Vec<u8>) -> (result: Result<Vec<u8>>) {
        if self.scalar == 0 {
            let out = zeros(values.len());
            assert(self.is_result(values@, out@)) by {
                let scalar = self.scalar();
                assert(out@ =~= each(values@, |a: u8| quotient(a, scalar)));
            }
            return Ok(out);
        }
        match div_scalar_bytes(values, self.scalar) {
            Ok(out) => {
                assert(self.is_result(values@, out@)) by {
                    let scalar = self.scalar();
                    assert(out@ =~= each(values@, |a: u8| quotient(a, scalar)));
                }
                Ok(out)
            },
            Err(error) => Err(Error::Nd(error)),
        }
    }
}

/// Every element raised to the power of the number, wrapped around.
#[derive(Clone, Copy, Debug)]
pub struct PowScalar<T> {
    scalar: T,
}

impl<T> Sealed for PowScalar<T> {

}

impl<T> PowScalar<T> {
    pub closed spec fn scalar(&self) -> T {
        self.scalar
    }

    pub fn new(scalar: T) -> (op: Self)
        ensures
            op.scalar() == scalar,
    {
        PowScalar { scalar }
    }

    pub fn number(&self) -> (scalar: &T)
        ensures
            *scalar == self.scalar(),
    {
        &self.scalar
    }
}

impl UnaryOp<u8> for PowScalar<u8> {
    type Output = u8;

    open spec fn is_result(&self, values: Seq<u8>, out: Seq<u8>) -> bool {
        let scalar = self.scalar();
        out == each(values, |a: u8| wrapped(power(a, scalar)))
    }

    fn apply(&self, values: Vec<u8>) -> (result: Result<Vec<u8>>) {
        let out = raise_bytes_to(values, self.scalar);
        assert(self.is_result(values@, out@)) by {
            let scalar = self.scalar();
            assert(out@ =~= each(values@, |a: u8| wrapped(power(a, scalar))));
        }
        Ok(out)
    }
}

/// The remainder of every element by the number, zero for a zero number.
#[derive(Clone, Copy, Debug)]
pub struct RemScalar<T> {
    scalar: T,
}

impl<T> Sealed for RemScalar<T> {

}

impl<T> RemScalar<T> {
    pub closed spec fn scalar(&self) -> T {
        self.scalar
    }

    pub fn new(scalar: T) -> (op: Self)
        ensures
            op.scalar() == scalar,
    {
        RemScalar { scalar }
    }

    pub fn number(&self) -> (scalar: &T)
        ensures
            *scalar == self.scalar(),
    {
        &self.scalar
    }
}

impl UnaryOp<u8> for RemScalar<u8> {
    type Output = u8;

    open spec fn is_result(&self, values: Seq<u8>, out: Seq<u8>) -> bool {
        let scalar = self.scalar();
        out == each(values, |a: u8| remainder(a, scalar))
    }

    fn apply(&self, values: Vec<u8>) -> (result: Result<Vec<u8>>) {
        if self.scalar == 0 {
            let out = zeros(values.len());
            assert(self.is_result(values@, out@)) by {
                let scalar = self.scalar();
                assert(out@ =~= each(values@, |a: u8| remainder(a, scalar)));
            }
            return Ok(out);
        }
        match rem_scalar_bytes(values, self.scalar) {
            Ok(out) => {
                assert(self.is_result(values@, out@)) by {
                    let scalar = self.scalar();
                    assert(out@ =~= each(values@, |a: u8| remainder(a, scalar)));
                }
                Ok(out)
            },
            Err(error) => Err(Error::Nd(error)),
        }
    }
}

/// One for an element that equals the number, else zero.
#[derive(Clone, Copy, Debug)]
pub struct EqScalar<T> {
    scalar: T,
}

impl<T> Sealed for EqScalar<T> {

}

impl<T> EqScalar<T> {
    pub closed spec fn scalar(&self) -> T {
        self.scalar
    }

    pub fn new(scalar: T) -> (op: Self)
        ensures
            op.scalar() == scalar,
    {
        EqScalar { scalar }
    }

    pub fn number(&self) -> (scalar: &T)
        ensures
            *scalar == self.scalar(),
    {
        &self.scalar
    }
}

impl UnaryOp<u8> for EqScalar<u8> {
    type Output = u8;

    open spec fn is_result(&self, values: Seq<u8>, out: Seq<u8>) -> bool {
        let scalar = self.scalar();
        out == each(values, |a: u8| flag(a == scalar))
    }

    fn apply(&self, values: Vec<u8>) -> (result: Result<Vec<u8>>) {
        match eq_scalar_bytes(values, self.scalar) {
            Ok(out) => {
                assert(self.is_result(values@, out@)) by {
                    let scalar = self.scalar();
                    assert(out@ =~= each(values@, |a: u8| flag(a == scalar)));
                }
                Ok(out)
            },
            Err(error) => Err(Error::Nd(error)),
        }
    }
}

/// One for an element that is not the number, else zero.
#[derive(Clone, Copy, Debug)]
pub struct NeScalar<T> {
    scalar: T,
}

impl<T> Sealed for NeScalar<T> {

}

impl<T> NeScalar<T> {
    pub closed spec fn scalar(&self) -> T {
        self.scalar
    }

    pub fn new(scalar: T) -> (op: Self)
        ensures
            op.scalar() == scalar,
    {
        NeScalar { scalar }
    }

    pub fn number(&self) -> (scalar: &T)
        ensures
            *scalar == self.scalar(),
    {
        &self.scalar
    }
}

impl UnaryOp<u8> for NeScalar<u8> {
    type Output = u8;

    open spec fn is_result(&self, values: Seq<u8>, out: Seq<u8>) -> bool {
        let scalar = self.scalar();
        out == each(values, |a: u8| flag(a != scalar))
    }

    fn apply(&self, values: Vec<u8>) -> (result: Result<Vec<u8>>) {
        match ne_scalar_bytes(values, self.scalar) {
            Ok(out) => {
                assert(self.is_result(values@, out@)) by {
                    let scalar = self.scalar();
                    assert(out@ =~= each(values@, |a: u8| flag(a != scalar)));
                }
                Ok(out)
            },
            Err(error) => Err(Error::Nd(error)),
        }
    }
}

/// One for an element that is greater, else zero.
#[derive(Clone, Copy, Debug)]
pub struct GtScalar<T> {
    scalar: T,
}

impl<T> Sealed for GtScalar<T> {

}

impl<T> GtScalar<T> {
    pub closed spec fn scalar(&self) -> T {
        self.scalar
    }

    pub fn new(scalar: T) -> (op: Self)
        ensures
            op.scalar() == scalar,
    {
        GtScalar { scalar }
    }

    pub fn number(&self) -> (scalar: &T)
        ensures
            *scalar == self.scalar(),
    {
        &self.scalar
    }
}

impl UnaryOp<u8> for GtScalar<u8> {
    type Output = u8;

    open spec fn is_result(&self, values: Seq<u8>, out: Seq<u8>) -> bool {
        let scalar = self.scalar();
        out == each(values, |a: u8| flag(a > scalar))
    }

    fn apply(&self, values: Vec<u8>) -> (result: Result<Vec<u8>>) {
        match gt_scalar_bytes(values, self.scalar) {
            Ok(out) => {
                assert(self.is_result(values@, out@)) by {
                    let scalar = self.scalar();
                    assert(out@ =~= each(values@, |a: u8| flag(a > scalar)));
                }
                Ok(out)
            },
            Err(error) => Err(Error::Nd(error)),
        }
    }
}

/// One for an element that is not less, else zero.
#[derive(Clone, Copy, Debug)]
pub struct GeScalar<T> {
    scalar: T,
}

impl<T> Sealed for GeScalar<T> {

}

impl<T> GeScalar<T> {
    pub closed spec fn scalar(&self) -> T {
        self.scalar
    }

    pub fn new(scalar: T) -> (op: Self)
        ensures
            op.scalar() == scalar,
    {
        GeScalar { scalar }
    }

    pub fn number(&self) -> (scalar: &T)
        ensures
            *scalar == self.scalar(),
    {
        &self.scalar
    }
}

impl UnaryOp<u8> for GeScalar<u8> {
    type Output = u8;

    open spec fn is_result(&self, values: Seq<u8>, out: Seq<u8>) -> bool {
        let scalar = self.scalar();
        out == each(values, |a: u8| flag(a >= scalar))
    }

    fn apply(&self, values: Vec<u8>) -> (result: Result<Vec<u8>>) {
        match ge_scalar_bytes(values, self.scalar) {
            Ok(out) => {
                assert(self.is_result(values@, out@)) by {
                    let scalar = self.scalar();
                    assert(out@ =~= each(values@, |a: u8| flag(a >= scalar)));
                }
                Ok(out)
            },
            Err(error) => Err(Error::Nd(error)),
        }
    }
}

/// One for an element that is less, else zero.
#[derive(Clone, Copy, Debug)]
pub struct LtScalar<T> {
    scalar: T,
}

impl<T> Sealed for LtScalar<T> {

}

impl<T> LtScalar<T> {
    pub closed spec fn scalar(&self) -> T {
        self.scalar
    }

    pub fn new(scalar: T) -> (op: Self)
        ensures
            op.scalar() == scalar,
    {
        LtScalar { scalar }
    }

    pub fn number(&self) -> (scalar: &T)
        ensures
            *scalar == self.scalar(),
    {
        &self.scalar
    }
}

impl UnaryOp<u8> for LtScalar<u8> {
    type Output = u8;

    open spec fn is_result(&self, values: Seq<u8>, out: Seq<u8>) -> bool {
        let scalar = self.scalar();
        out == each(values, |a: u8| flag(a < scalar))
    }

    fn apply(&self, values: Vec<u8>) -> (result: Result<Vec<u8>>) {
        match lt_scalar_bytes(values, self.scalar) {
            Ok(out) => {
                assert(self.is_result(values@, out@)) by {
                    let scalar = self.scalar();
                    assert(out@ =~= each(values@, |a: u8| flag(a < scalar)));
                }
                Ok(out)
            },
            Err(error) => Err(Error::Nd(error)),
        }
    }
}

/// One for an element that is not greater, else zero.
#[derive(Clone, Copy, Debug)]
pub struct LeScalar<T> {
    scalar: T,
}

impl<T> Sealed for LeScalar<T> {

}

impl<T> LeScalar<T> {
    pub closed spec fn scalar(&self) -> T {
        self.scalar
    }

    pub fn new(scalar: T) -> (op: Self)
        ensures
            op.scalar() == scalar,
    {
        LeScalar { scalar }
    }

    pub fn number(&self) -> (scalar: &T)
        ensures
            *scalar == self.scalar(),
    {
        &self.scalar
    }
}

impl UnaryOp<u8> for LeScalar<u8> {
    type Output = u8;

    open spec fn is_result(&self, values: Seq<u8>, out: Seq<u8>) -> bool {
        let scalar = self.scalar();
        out == each(values, |a: u8| flag(a <= scalar))
    }

    fn apply(&self, values: Vec<u8>) -> (result: Result<Vec<u8>>) {
        match le_scalar_bytes(values, self.scalar) {
            Ok(out) => {
                assert(self.is_result(values@, out@)) by {
                    let scalar = self.scalar();
                    assert(out@ =~= each(values@, |a: u8| flag(a <= scalar)));
                }
                Ok(out)
            },
            Err(error) => Err(Error::Nd(error)),
        }
    }
}

/// One where neither the element nor the number is zero, else zero.
#[derive(Clone, Copy, Debug)]
pub struct AndScalar<T> {
    scalar: T,
}

impl<T> Sealed for AndScalar<T> {

}

impl<T> AndScalar<T> {
    pub closed spec fn scalar(&self) -> T {
        self.scalar
    }

    pub fn new(scalar: T) -> (op: Self)
        ensures
            op.scalar() == scalar,
    {
        AndScalar { scalar }
    }

    pub fn number(&self) -> (scalar: &T)
        ensures
            *scalar == self.scalar(),
    {
        &self.scalar
    }
}

impl UnaryOp<u8> for AndScalar<u8> {
    type Output = u8;

    open spec fn is_result(&self, values: Seq<u8>, out: Seq<u8>) -> bool {
        let scalar = self.scalar();
        out == each(values, |a: u8| flag(a != 0 && scalar != 0))
    }

    fn apply(&self, values: Vec<u8>) -> (result: Result<Vec<u8>>) {
        match and_scalar_bytes(values, self.scalar) {
            Ok(out) => {
                assert(self.is_result(values@, out@)) by {
                    let scalar = self.scalar();
                    assert(out@ =~= each(values@, |a: u8| flag(a != 0 && scalar != 0)));
                }
                Ok(out)
            },
            Err(error) => Err(Error::Nd(error)),
        }
    }
}

/// One where the element or the number is not zero, else zero.
#[derive(Clone, Copy, Debug)]
pub struct OrScalar<T> {
    scalar: T,
}

impl<T> Sealed for OrScalar<T> {

}

impl<T> OrScalar<T> {
    pub closed spec fn scalar(&self) -> T {
        self.scalar
    }

    pub fn new(scalar: T) -> (op: Self)
        ensures
            op.scalar() == scalar,
    {
        OrScalar { scalar }
    }

    pub fn number(&self) -> (scalar: &T)
        ensures
            *scalar == self.scalar(),
    {
        &self.scalar
    }
}

impl UnaryOp<u8> for OrScalar<u8> {
    type Output = u8;

    open spec fn is_result(&self, values: Seq<u8>, out: Seq<u8>) -> bool {
        let scalar = self.scalar();
        out == each(values, |a: u8| flag(a != 0 || scalar != 0))
    }

    fn apply(&self, values: Vec<u8>) -> (result: Result<Vec<u8>>) {
        match or_scalar_bytes(values, self.scalar) {
            Ok(out) => {
                assert(self.is_result(values@, out@)) by {
                    let scalar = self.scalar();
                    assert(out@ =~= each(values@, |a: u8| flag(a != 0 || scalar != 0)));
                }
                Ok(out)
            },
            Err(error) => Err(Error::Nd(error)),
        }
    }
}

/// One where just one of the element and the number is not zero, else zero.
#[derive(Clone, Copy, Debug)]
pub struct XorScalar<T> {
    scalar: T,
}

impl<T> Sealed for XorScalar<T> {

}

impl<T> XorScalar<T> {
    pub closed spec fn scalar(&self) -> T {
        self.scalar
    }

    pub fn new(scalar: T) -> (op: Self)
        ensures
            op.scalar() == scalar,
    {
        XorScalar { scalar }
    }

    pub fn number(&self) -> (scalar: &T)
        ensures
            *scalar == self.scalar(),
    {
        &self.scalar
    }
}

impl UnaryOp<u8> for XorScalar<u8> {
    type Output = u8;

    open spec fn is_result(&self, values: Seq<u8>, out: Seq<u8>) -> bool {
        let scalar = self.scalar();
        out == each(values, |a: u8| flag((a != 0) != (scalar != 0)))
    }

    fn apply(&self, values: Vec<u8>) -> (result: Result<Vec<u8>>) {
        match xor_scalar_bytes(values, self.scalar) {
            Ok(out) => {
                assert(self.is_result(values@, out@)) by {
                    let scalar = self.scalar();
                    assert(out@ =~= each(values@, |a: u8| flag((a != 0) != (scalar != 0))));
                }
                Ok(out)
            },
            Err(error) => Err(Error::Nd(error)),
        }
    }
}

/// The logarithm of every element to the base of the number. For floating-point elements.
#[derive(Clone, Copy, Debug)]
pub struct LogScalar<T> {
    scalar: T,
}

impl<T> Sealed for LogScalar<T> {

}

impl<T> LogScalar<T> {
    pub closed spec fn scalar(&self) -> T {
        self.scalar
    }

    pub fn new(scalar: T) -> (op: Self)
        ensures
            op.scalar() == scalar,
    {
        LogScalar { scalar }
    }

    pub fn number(&self) -> (scalar: &T)
        ensures
            *scalar == self.scalar(),
    {
        &self.scalar
    }
}

} // verus!
