pub mod order;
pub mod level;
pub mod side;
pub mod book;
pub mod command;

pub use book::{BookError, FillReport, LevelSnapshot, Orderbook};
pub use order::{Order, OrderType};
pub use side::Fill;
