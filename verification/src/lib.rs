pub mod actions;
pub mod board;
pub mod bounds;
pub mod coord;
pub mod parser;
pub mod plane;
pub mod shear;
pub mod store;

pub use actions::ActionEvent;
pub use actions::apply_action;
pub use actions::apply_actions;
pub use board::create_board;
pub use coord::Coord;
pub use coord::spec_parity;
pub use parser::parse_command;
pub use plane::PLANE_DEN;
pub use plane::PlanePos;
pub use store::Piece;
pub use store::Tile;
pub use store::TileStore;
