pub mod buddy_alloc;
pub mod bump_alloc;
pub mod drivers;
pub mod timer;
pub mod trap;
pub mod abi;
pub mod tasks;
pub mod shell;
