//! A periodic batch auction for a single instrument: resting buy and sell
//! orders are collected into demand and supply curves, one uniform clearing
//! price and quantity are found where the curves cross, and that quantity is
//! handed back to the orders by price and seniority.

pub mod auction;
pub mod book;
pub mod command;
pub mod price;
