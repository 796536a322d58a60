use vstd::prelude::*;

mod hipergeometrijska;

pub use self::hipergeometrijska::Hipergeometrijska;

verus! {

/// An exact probability or moment, `stevec / imenovalec`.
#[derive(Clone, Copy, Debug, PartialEq, Eq, Structural)]
pub struct Ulomek {
    pub stevec: u128,
    pub imenovalec: u128,
}

} // verus!
