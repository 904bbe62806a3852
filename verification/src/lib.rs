//! The logic of a UDP proxy that makes a network worse on purpose: it adds
//! latency and jitter, loses packets and limits the rate, in both directions.
//!
//! [`types`] holds the arguments, the settings and the events. [`lane`] decides
//! when each packet of a client leaves, with the rate limit of [`limiter`] and
//! the queue of [`queue`]; [`delivery`] states what holds of a lane over time.
//! [`proxy`] knows the clients. [`ui`] and [`screen`] say what keys do and what
//! is shown. [`rounding`] and [`double`] are floating-point arithmetic in
//! integers, for [`loss`], [`rate`] and [`limiter`].
//!
//! Sockets, clocks and the terminal are outside: times come in as nanoseconds
//! since the start, and what is to be done goes out as a value.
pub mod addr;
pub mod blaster;
pub mod delivery;
pub mod double;
pub mod lane;
pub mod limiter;
pub mod loss;
pub mod packet;
pub mod proxy;
pub mod queue;
pub mod random;
pub mod rate;
pub mod rounding;
pub mod screen;
pub mod text;
pub mod types;
pub mod ui;
