pub mod bufpage;
pub mod catalog;
pub mod codec;
pub mod engine;
pub mod buffer;
pub mod pager;
pub mod rel;
pub mod heap;
