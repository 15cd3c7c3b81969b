//! A memcached-compatible wire protocol engine: a streaming tokenizer,
//! command parser and response serializer over a duplex byte stream,
//! with byte-exact framing contracts, plus a small time-series store
//! for timing samples.

pub mod cmd;
pub mod conversions;
pub mod errors;
pub mod laws;
pub mod statistics;
pub mod stats;
pub mod stream;
pub mod time_series;
pub mod transport;
pub mod wire;

pub use cmd::Cmd;
pub use cmd::Get;
pub use cmd::Resp;
pub use cmd::SetCmd;
pub use cmd::SetInstr;
pub use cmd::Stat;
pub use cmd::Value;
pub use errors::TcpTransportError;
pub use errors::TcpTransportResult;
pub use stats::TransportStats;
pub use stream::ByteStream;
pub use stream::MemStream;
pub use time_series::TimeSeries;
pub use transport::TcpTransport;
