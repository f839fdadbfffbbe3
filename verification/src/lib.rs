//! A parser for the codings named in the value of an HTTP `Transfer-Encoding`
//! header field.
//!
//! The field value is a comma-separated list of coding names, in the order in
//! which the codings were applied to the message body. [`transfer_encodings`]
//! hands the codings out in the order in which they must be undone, the last
//! one listed first. The four standard codings come as values of
//! [`StdTransferEncoding`]; any other name comes as a slice of the field value,
//! without its surrounding whitespace. Reading the list allocates nothing and
//! copies nothing.
//!
//! ```
//! use uhttp_transfer_encoding::{transfer_encodings, StdTransferEncoding, TransferEncoding};
//!
//! let mut encs = transfer_encodings(" gzip, custom-enc, chunked");
//! assert_eq!(encs.next(), Some(TransferEncoding::Std(StdTransferEncoding::Chunked)));
//! assert_eq!(encs.next(), Some(TransferEncoding::Other("custom-enc")));
//! assert_eq!(encs.next(), Some(TransferEncoding::Std(StdTransferEncoding::Gzip)));
//! assert_eq!(encs.next(), None);
//! ```
//!
//! The contracts speak of text as a sequence of characters. Module [`text`]
//! holds that model, [`encoding`] the classification of one token, [`list`]
//! the list as a whole, and [`ascii`] the facts about UTF-8 on which the
//! byte-wise scanning in [`scan`] rests.

pub mod ascii;
pub mod encoding;
pub mod list;
pub mod scan;
pub mod text;

pub use encoding::{StdTransferEncoding, TransferEncoding, TransferEncodingView};
pub use list::{transfer_encodings, TransferEncodings};
