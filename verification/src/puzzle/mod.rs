pub mod grip;
pub mod piece;

pub use grip::Grip;
pub use piece::Piece;
