use vstd::prelude::*;

pub mod content_type;
pub mod commented_fields;
pub mod continuation;
pub mod decoders;
pub mod parser;
pub mod stream;
pub mod text;

pub use content_type::{ContentType, HeaderValue};
pub use stream::MessageStream;

verus! {

} // verus!
