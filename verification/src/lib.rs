use vstd::prelude::*;

mod answer;
mod header;
mod message;
mod name;
mod question;
mod resolver;
mod wire;

pub use answer::Answer;
pub use header::Header;
pub use header::HEADER_SIZE;
pub use message::Message;
pub use name::DecodedName;
pub use name::LabelDict;
pub use name::decode_name;
pub use name::encode_text_bytes;
pub use question::Question;
pub use resolver::ForwardingRun;
pub use resolver::Resolver;
pub use resolver::build_query;
pub use resolver::collect_answers;
pub use resolver::default_resolver;

verus! {

/// A fatal error while decoding one DNS message; the datagram that
/// produced it is dropped.
#[derive(Clone, Copy, Debug, PartialEq, Eq, Structural)]
pub enum DecodeError {
    /// Fewer bytes were available than a field requires.
    TruncatedInput,
    /// A compression pointer referenced a non-earlier or unusable offset,
    /// a label was not valid UTF-8, or a length byte was neither a plain
    /// label length nor a pointer tag.
    MalformedName,
}

} // verus!
