//! The library's error taxonomy.  Parse errors are recoverable and reported
//! to the document's caller; per-operation fetch errors are converted into
//! inline diagnostic text; a failed join is fatal to the assembly.
use vstd::prelude::*;

verus! {

/// Why a directive script failed to parse.
#[derive(Clone, Copy, Debug, PartialEq, Eq, Structural)]
pub enum ParseError {
    /// A script block's opening marker never closes with `>`.
    MalformedTag,
    /// The opening marker does not declare the expected directive-language
    /// type.
    WrongScriptType,
    /// A directive call is not of the form `name(arg, ...)`.
    MalformedDirective,
    /// A directive name that the language does not know.
    UnknownDirective,
    /// A fetch directive without exactly one string or symbol argument, or
    /// an unreadable literal.
    BadArgument,
    /// A script block that never closes.
    UnterminatedBlock,
}

/// Everything that can go wrong while serving and assembling documents.
#[derive(Debug)]
pub enum SaraError {
    ChrootNotPermitted(String),
    FileInvalidPermissions(String),
    FileNotFound(String),
    RequestedDirectory(String),
    OtherIOError(String),
    HtmlFileNotUtf8,
    FailedParsingSarascript(ParseError),
    JoinError(usize),
    HttpMethodUnsuported(String),
    HttpHostInvalid(String),
    FailedToBuildResponse,
    FailedToReadConfig(String),
    DaemonizingFailed(String),
    FailedToWriteToStream(String),
    FrameError(String),
    FailedToSendRequest(String),
    InvalidUri,
    DnsResolution(String),
}

/// The fixed description each error carries, as the characters of
/// `describe`'s result.
pub open spec fn describe_chars(e: &SaraError) -> Seq<char> {
    match e {
        SaraError::ChrootNotPermitted(_) => "not permitted to change root"@,
        SaraError::FileInvalidPermissions(_) => "permissions were invalid"@,
        SaraError::FileNotFound(_) => "no file or api found"@,
        SaraError::RequestedDirectory(_) => "requested a directory"@,
        SaraError::OtherIOError(_) => "input or output failed"@,
        SaraError::HtmlFileNotUtf8 => "document is not valid UTF-8"@,
        SaraError::FailedParsingSarascript(_) => "failed to parse script"@,
        SaraError::JoinError(_) => "not able to join task handle(s)"@,
        SaraError::HttpMethodUnsuported(_) => "method is unsupported"@,
        SaraError::HttpHostInvalid(_) => "not sure how to handle host"@,
        SaraError::FailedToBuildResponse => "could not build response"@,
        SaraError::FailedToReadConfig(_) => "failed to read config"@,
        SaraError::DaemonizingFailed(_) => "could not daemonize"@,
        SaraError::FailedToWriteToStream(_) => "failed to write to stream"@,
        SaraError::FrameError(_) => "could not retrieve http frame"@,
        SaraError::FailedToSendRequest(_) => "failed to send request"@,
        SaraError::InvalidUri => "invalid uri"@,
        SaraError::DnsResolution(_) => "dns resolution failed"@,
    }
}

impl SaraError {
    /// A short, fixed description of the error, for logs and inline
    /// diagnostics.
    pub fn describe(&self) -> (r: &'static str)
        ensures
            r@ == describe_chars(self),
    {
        match self {
            Self::ChrootNotPermitted(_) => "not permitted to change root",
            Self::FileInvalidPermissions(_) => "permissions were invalid",
            Self::FileNotFound(_) => "no file or api found",
            Self::RequestedDirectory(_) => "requested a directory",
            Self::OtherIOError(_) => "input or output failed",
            Self::HtmlFileNotUtf8 => "document is not valid UTF-8",
            Self::FailedParsingSarascript(_) => "failed to parse script",
            Self::JoinError(_) => "not able to join task handle(s)",
            Self::HttpMethodUnsuported(_) => "method is unsupported",
            Self::HttpHostInvalid(_) => "not sure how to handle host",
            Self::FailedToBuildResponse => "could not build response",
            Self::FailedToReadConfig(_) => "failed to read config",
            Self::DaemonizingFailed(_) => "could not daemonize",
            Self::FailedToWriteToStream(_) => "failed to write to stream",
            Self::FrameError(_) => "could not retrieve http frame",
            Self::FailedToSendRequest(_) => "failed to send request",
            Self::InvalidUri => "invalid uri",
            Self::DnsResolution(_) => "dns resolution failed",
        }
    }

    /// The errors that the server maps to an HTTP response of its own; the
    /// others never reach a client.
    pub open spec fn reaches_client(&self) -> bool {
        ||| self is ChrootNotPermitted
        ||| self is FileInvalidPermissions
        ||| self is FileNotFound
        ||| self is RequestedDirectory
        ||| self is OtherIOError
        ||| self is HtmlFileNotUtf8
        ||| self is FailedParsingSarascript
        ||| self is JoinError
        ||| self is HttpMethodUnsuported
        ||| self is HttpHostInvalid
        ||| self is FailedToBuildResponse
        ||| self is InvalidUri
        ||| self is DnsResolution
    }

    /// The status code and plain-text body of the HTTP response reporting
    /// this error to a client.
    pub fn to_response_parts(&self) -> (r: (u16, &'static str))
        requires
            self.reaches_client(),
        ensures
            (self is FileInvalidPermissions || self is FileNotFound || self
                is RequestedDirectory) ==> r.0 == 404 && r.1@ == "URL not available"@,
            self is OtherIOError ==> r.0 == 500 && r.1@
                == "URL not available due to server error. Please check back later"@,
            self is HtmlFileNotUtf8 ==> r.0 == 500 && r.1@
                == "The URI requested is corrupted (invalid UTF-8)"@,
            self is ChrootNotPermitted ==> r.0 == 500 && r.1@ == "An unkown error occured"@,
            self is FailedParsingSarascript ==> r.0 == 500 && r.1@
                == "Unable to parse the requested script"@,
            self is JoinError ==> r.0 == 500 && r.1@
                == "Failed to parse one or more scripts on this page"@,
            self is HttpMethodUnsuported ==> r.0 == 405 && r.1@
                == "HTTP method is unsupported."@,
            self is HttpHostInvalid ==> r.0 == 400 && r.1@
                == "Server cannot respond to requests for this host"@,
            self is FailedToBuildResponse ==> r.0 == 500 && r.1@
                == "Server encountered an unkown error"@,
            self is InvalidUri ==> r.0 == 400 && r.1@ == "Invalid uri"@,
            self is DnsResolution ==> r.0 == 500 && r.1@ == "Failed to resolve DNS of host"@,
    {
        match self {
            Self::FileInvalidPermissions(_) | Self::FileNotFound(_) | Self::RequestedDirectory(_) =>
                (404, "URL not available"),
            Self::OtherIOError(_) => (
                500,
                "URL not available due to server error. Please check back later",
            ),
            Self::HtmlFileNotUtf8 => (500, "The URI requested is corrupted (invalid UTF-8)"),
            Self::ChrootNotPermitted(_) => (500, "An unkown error occured"),
            Self::FailedParsingSarascript(_) => (500, "Unable to parse the requested script"),
            Self::JoinError(_) => (500, "Failed to parse one or more scripts on this page"),
            Self::HttpMethodUnsuported(_) => (405, "HTTP method is unsupported."),
            Self::HttpHostInvalid(_) => (400, "Server cannot respond to requests for this host"),
            Self::FailedToBuildResponse => (500, "Server encountered an unkown error"),
            Self::InvalidUri => (400, "Invalid uri"),
            Self::DnsResolution(_) => (500, "Failed to resolve DNS of host"),
            _ => (500, "An unkown error occured"),
        }
    }
}

} // verus!
