//! Configuration values handed in by the shell.
//!
//! The shell reads and decodes the configuration file; the core only sees
//! these plain values.

use vstd::prelude::*;

verus! {

#[derive(Debug, Clone)]
pub struct BinanceConfig {
    pub symbol: String,
}

#[derive(Debug, Clone)]
pub struct BitstampConfig {
    pub symbol: String,
}

#[derive(Debug)]
pub struct ServerConfig {
    pub grpc_listen_addr: String,
    pub binance: BinanceConfig,
    pub bitstamp: BitstampConfig,
}

} // verus!
