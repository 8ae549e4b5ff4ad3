//! Core of a periodic call-auction matching engine: a generational
//! registered-order store, price-sorted side books maintained under batch
//! insertion and cancellation, and the uniform-price equilibrium matcher
//! that clears every crossing order at one rate per auction.

pub mod market;
pub mod orders;
pub mod pipeline;
pub mod sorted_vec_orders;
pub mod stats;
