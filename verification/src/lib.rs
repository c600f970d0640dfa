//! A small verified library around a JSON value tree: a recursive-descent
//! parser from text to a value tree, a minimal serializer back to text, and a
//! few self-contained routines (HTTP request-line parsing, a bounded
//! producer/consumer work queue, and assorted micro-routines).

pub mod http;
pub mod json_grammar;
pub mod json_laws;
pub mod json_parse;
pub mod json_value;
pub mod json_wf;
pub mod json_ser;
pub mod routines;
pub mod tasks;
pub mod text;

pub use json_grammar::ParseError;
pub use json_parse::JsonParser;
pub use json_parse::parse_text;
pub use json_ser::serialize_json;
pub use http::HttpRequest;
pub use http::parse_http_request;
pub use http::parse_http_request_optimized;
pub use json_value::JsonNumber;
pub use json_value::JsonValue;
pub use routines::basic_sort;
pub use routines::closure_operation;
pub use routines::iterators;
pub use routines::memory_allocation_and_management;
pub use tasks::drain_queue;
pub use tasks::process_task;
pub use tasks::square_all;
pub use tasks::WorkQueue;
pub use tasks::WorkerAction;
