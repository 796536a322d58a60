pub mod porazdelitev;
pub mod utils;

pub use porazdelitev::Hipergeometrijska;
pub use porazdelitev::Ulomek;
