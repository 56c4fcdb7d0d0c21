use vstd::prelude::*;

verus! {

/// Errors of the codec, the client pipeline and the server core.
#[derive(Debug, Clone, Copy, PartialEq, Eq, Structural)]
pub enum HttpError {
    ReadLineEof,
    ReadLineUnknown,
    InvalidHeaders,
    InvalidQuery,
    InvalidContentSize,
    InvalidContent,
    JsonParseError,
    WriteHeadError,
    WriteBodyError,
    InvalidStatus,
    RequestError,
    UrlError,
    UrlNeedsRootError,
    ConnectError,
    ShutdownError,
    SslError,
    UnknownScheme,
}

/// The name of an error's kind.
pub open spec fn error_name(e: HttpError) -> Seq<char> {
    match e {
        HttpError::ReadLineEof => "ReadLineEof"@,
        HttpError::ReadLineUnknown => "ReadLineUnknown"@,
        HttpError::InvalidHeaders => "InvalidHeaders"@,
        HttpError::InvalidQuery => "InvalidQuery"@,
        HttpError::InvalidContentSize => "InvalidContentSize"@,
        HttpError::InvalidContent => "InvalidContent"@,
        HttpError::JsonParseError => "JsonParseError"@,
        HttpError::WriteHeadError => "WriteHeadError"@,
        HttpError::WriteBodyError => "WriteBodyError"@,
        HttpError::InvalidStatus => "InvalidStatus"@,
        HttpError::RequestError => "RequestError"@,
        HttpError::UrlError => "UrlError"@,
        HttpError::UrlNeedsRootError => "UrlNeedsRootError"@,
        HttpError::ConnectError => "ConnectError"@,
        HttpError::ShutdownError => "ShutdownError"@,
        HttpError::SslError => "SslError"@,
        HttpError::UnknownScheme => "UnknownScheme"@,
    }
}

impl HttpError {
    /// The variant's name, as it would be printed.
    pub fn name(&self) -> (r: &'static str)
        ensures
            r@ == error_name(*self),
    {
        match self {
            HttpError::ReadLineEof => "ReadLineEof",
            HttpError::ReadLineUnknown => "ReadLineUnknown",
            HttpError::InvalidHeaders => "InvalidHeaders",
            HttpError::InvalidQuery => "InvalidQuery",
            HttpError::InvalidContentSize => "InvalidContentSize",
            HttpError::InvalidContent => "InvalidContent",
            HttpError::JsonParseError => "JsonParseError",
            HttpError::WriteHeadError => "WriteHeadError",
            HttpError::WriteBodyError => "WriteBodyError",
            HttpError::InvalidStatus => "InvalidStatus",
            HttpError::RequestError => "RequestError",
            HttpError::UrlError => "UrlError",
            HttpError::UrlNeedsRootError => "UrlNeedsRootError",
            HttpError::ConnectError => "ConnectError",
            HttpError::ShutdownError => "ShutdownError",
            HttpError::SslError => "SslError",
            HttpError::UnknownScheme => "UnknownScheme",
        }
    }
}

} // verus!
