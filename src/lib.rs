//! Building blocks of a file watcher that reruns a command once a burst of
//! writes has settled, and of a line chopper that fits text to a terminal.

pub mod chop;
pub mod debounce;
pub mod filter;
pub mod ignore_cache;
pub mod trigger;
