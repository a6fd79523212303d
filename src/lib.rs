pub mod buffer;
pub mod date;
pub mod request;
pub mod response;
pub mod server;
pub mod wire;

pub use date::{now, CachedNow, ClockView, Now};
pub use request::{decode, Malformed, Request, RequestHeaders, RequestView};
pub use response::{Response, ResponseView, StatusMsg};
pub use server::{
    internal_error_resp, response_bytes, Connection, Exchange, HttpServer, SendStep, Sending,
    SendingView, Step, MAX_IDLE_WRITES,
};
pub use wire::decimal_of;
