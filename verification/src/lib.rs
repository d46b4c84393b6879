pub mod text;
pub mod glob;
pub mod url;
pub mod method;
pub mod parse_state;
pub mod parse;
pub mod error;
pub mod response;
pub mod throttle;
pub mod tdate;
pub mod logging;
pub mod startup;
pub mod serving;
pub mod migrate;
pub mod dirlist;
pub mod cgi;
pub mod request;
pub mod config;
pub mod mime;
pub mod auth;
pub mod timers;
pub mod connection;
pub mod conn;
pub mod circuit;
pub mod health;
pub mod live;
pub mod router;
pub mod proxy_config;
pub mod diff;
pub mod forwarder;
pub mod answer;
