pub mod brief;
pub mod features;
pub mod field;
pub mod imga;
pub mod maze;
pub mod pixmat;
