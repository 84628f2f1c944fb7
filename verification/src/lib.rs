//! Verified cores of a set of small networking and systems programs:
//! a varint codec, a DNS query codec, a BMP pixel editor, an HTTP header
//! parser, and the state machine of a single-upstream forwarding proxy.

mod beep;
mod bmp;
mod dns;
mod headers;
mod proxy;
mod shout;
mod varint;

pub use beep::beep_count;
pub use beep::beeps_of;

pub use bmp::header_len;
pub use bmp::le16;
pub use bmp::le32;
pub use bmp::parsed_info;
pub use bmp::pixel_spec;
pub use bmp::BmpError;
pub use bmp::BMP;
pub use bmp::BMPInfo;

pub use dns::answer_count;
pub use dns::answer_display;
pub use dns::answer_matches;
pub use dns::answers_sized;
pub use dns::answers_start;
pub use dns::be16;
pub use dns::be32;
pub use dns::dec_chars;
pub use dns::digit_char;
pub use dns::find_dot;
pub use dns::header_bytes;
pub use dns::labels_fit;
pub use dns::qname_bytes;
pub use dns::query_bytes;
pub use dns::question_bytes;
pub use dns::Answer;
pub use dns::Answers;
pub use dns::DnsError;
pub use dns::Query;

pub use headers::find_nl;
pub use headers::find_sep;
pub use headers::header_pairs;
pub use headers::header_response_body;
pub use headers::json_pretty_of;
pub use headers::pair_of;
pub use headers::pairs_view;
pub use headers::parse_headers;
pub use headers::response_head;
pub use headers::strip_cr;

pub use proxy::classify;
pub use proxy::classify_spec;
pub use proxy::event_request;
pub use proxy::events_for;
pub use proxy::exchange_step;
pub use proxy::gateway_failure_response;
pub use proxy::gateway_status;
pub use proxy::lemma_client_order_under_interleaving;
pub use proxy::lemma_contained_failures_never_fatal;
pub use proxy::lemma_exchanges_serialized;
pub use proxy::lemma_gateway_failure_then_next;
pub use proxy::lemma_healthy_run_sequential;
pub use proxy::lemma_reconnect_transparent;
pub use proxy::lemma_requests_served_in_order;
pub use proxy::outcome_view;
pub use proxy::read_view;
pub use proxy::response_view;
pub use proxy::response_views;
pub use proxy::run;
pub use proxy::script_requests;
pub use proxy::served_requests;
pub use proxy::served_responses;
pub use proxy::session_run;
pub use proxy::session_step;
pub use proxy::ConnectEvent;
pub use proxy::ExchangeOutcome;
pub use proxy::FailureKind;
pub use proxy::FailureScope;
pub use proxy::Forwarder;
pub use proxy::ManagerState;
pub use proxy::ReadEvent;
pub use proxy::Request;
pub use proxy::Response;
pub use proxy::RunEvent;
pub use proxy::SessionModel;
pub use proxy::SessionState;
pub use proxy::StartupError;
pub use proxy::TransportEvent;
pub use proxy::UpstreamManager;

pub use shout::shout_reply;
pub use shout::upper_of;

pub use varint::decode;
pub use varint::m128;
pub use varint::encode;
pub use varint::lemma_encode_decode_round_trip;
pub use varint::take_until_inclusive;
pub use varint::varint_bytes;
pub use varint::varint_prefix;
pub use varint::varint_value;
pub use varint::ByteStream;
