use vstd::prelude::*;

verus! {

/// The failure of a request handler: a message for people, and optional data for the
/// client.
#[derive(Debug, PartialEq)]
pub struct ServerError<E> {
    pub message: String,
    pub data: Option<E>,
}

impl<E> ServerError<E> {
    /// A failure with this message and no data.
    pub fn new(message: String) -> (r: ServerError<E>)
        ensures
            r.message@ == message@,
            r.data is None,
    {
        ServerError { message, data: None }
    }

    /// A failure with this message and this data.
    pub fn with_data(message: String, data: E) -> (r: ServerError<E>)
        ensures
            r.message@ == message@,
            r.data == Some(data),
    {
        ServerError { message, data: Some(data) }
    }
}

} // verus!
