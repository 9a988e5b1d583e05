pub mod text;
pub mod cursor;
pub mod preview;
pub mod model;
pub mod paths;
pub mod order;
pub mod keys;
pub mod state;
pub mod discovery;
pub mod walk;
pub mod panel;
pub mod laws;
