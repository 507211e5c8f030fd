//! The library's error type, with a view that contracts speak of and the
//! message that each error displays.
use vstd::prelude::*;

verus! {

/// Everything that can go wrong while turning chapters into markers.
#[derive(Debug, Clone)]
pub enum MarkerFixerError {
    NoInputPaths,
    PathMissing(String),
    Io { path: String, message: String },
    ExternalTool { tool: String, message: String },
    InvalidMetadata(String),
    InvalidMp4(String),
    InvalidXmp(String),
}

/// The mathematical value of a [`MarkerFixerError`].
pub enum ErrorView {
    NoInputPaths,
    PathMissing(Seq<char>),
    Io { path: Seq<char>, message: Seq<char> },
    ExternalTool { tool: Seq<char>, message: Seq<char> },
    InvalidMetadata(Seq<char>),
    InvalidMp4(Seq<char>),
    InvalidXmp(Seq<char>),
}

impl View for MarkerFixerError {
    type V = ErrorView;

    open spec fn view(&self) -> ErrorView {
        match self {
            MarkerFixerError::NoInputPaths => ErrorView::NoInputPaths,
            MarkerFixerError::PathMissing(p) => ErrorView::PathMissing(p@),
            MarkerFixerError::Io { path, message } => ErrorView::Io {
                path: path@,
                message: message@,
            },
            MarkerFixerError::ExternalTool { tool, message } => ErrorView::ExternalTool {
                tool: tool@,
                message: message@,
            },
            MarkerFixerError::InvalidMetadata(m) => ErrorView::InvalidMetadata(m@),
            MarkerFixerError::InvalidMp4(m) => ErrorView::InvalidMp4(m@),
            MarkerFixerError::InvalidXmp(m) => ErrorView::InvalidXmp(m@),
        }
    }
}

/// A result whose error is a [`MarkerFixerError`], seen through the views of both sides.
pub open spec fn result_view<T: View>(r: Result<T, MarkerFixerError>) -> Result<T::V, ErrorView> {
    match r {
        Ok(v) => Ok(v@),
        Err(e) => Err(e@),
    }
}

impl ErrorView {
    /// The text that the error displays.
    pub open spec fn message(self) -> Seq<char> {
        match self {
            ErrorView::NoInputPaths => "No input paths provided"@,
            ErrorView::PathMissing(p) => "Path does not exist: "@ + p,
            ErrorView::Io { path, message } => "I/O error at "@ + path + ": "@ + message,
            ErrorView::ExternalTool { tool, message } => "External tool error ("@ + tool + "): "@
                + message,
            ErrorView::InvalidMetadata(m) => "Invalid media metadata: "@ + m,
            ErrorView::InvalidMp4(m) => "Invalid MP4 structure: "@ + m,
            ErrorView::InvalidXmp(m) => "Invalid XMP metadata: "@ + m,
        }
    }
}

impl MarkerFixerError {
    /// A copy of the error.
    pub fn clone_error(&self) -> (r: MarkerFixerError)
        ensures
            r@ == self@,
    {
        match self {
            MarkerFixerError::NoInputPaths => MarkerFixerError::NoInputPaths,
            MarkerFixerError::PathMissing(p) => MarkerFixerError::PathMissing(p.clone()),
            MarkerFixerError::Io { path, message } => MarkerFixerError::Io {
                path: path.clone(),
                message: message.clone(),
            },
            MarkerFixerError::ExternalTool { tool, message } => MarkerFixerError::ExternalTool {
                tool: tool.clone(),
                message: message.clone(),
            },
            MarkerFixerError::InvalidMetadata(m) => MarkerFixerError::InvalidMetadata(m.clone()),
            MarkerFixerError::InvalidMp4(m) => MarkerFixerError::InvalidMp4(m.clone()),
            MarkerFixerError::InvalidXmp(m) => MarkerFixerError::InvalidXmp(m.clone()),
        }
    }

    /// The text that the error displays.
    pub fn message(&self) -> (r: String)
        ensures
            r@ == self@.message(),
    {
        match self {
            MarkerFixerError::NoInputPaths => "No input paths provided".to_string(),
            MarkerFixerError::PathMissing(p) => {
                let mut s = "Path does not exist: ".to_string();
                s.append(p.as_str());
                s
            },
            MarkerFixerError::Io { path, message } => {
                let mut s = "I/O error at ".to_string();
                s.append(path.as_str());
                s.append(": ");
                s.append(message.as_str());
                s
            },
            MarkerFixerError::ExternalTool { tool, message } => {
                let mut s = "External tool error (".to_string();
                s.append(tool.as_str());
                s.append("): ");
                s.append(message.as_str());
                s
            },
            MarkerFixerError::InvalidMetadata(m) => {
                let mut s = "Invalid media metadata: ".to_string();
                s.append(m.as_str());
                s
            },
            MarkerFixerError::InvalidMp4(m) => {
                let mut s = "Invalid MP4 structure: ".to_string();
                s.append(m.as_str());
                s
            },
            MarkerFixerError::InvalidXmp(m) => {
                let mut s = "Invalid XMP metadata: ".to_string();
                s.append(m.as_str());
                s
            },
        }
    }
}


#[verifier::external_type_specification]
#[verifier::external_body]
pub struct ExIoError(std::io::Error);

/// The message of an I/O error (`Display` for `std::io::Error`). It may come from the
/// operating system, so nothing is stated of it.
#[verifier::external_body]
fn io_error_message(e: &std::io::Error) -> String {
    e.to_string()
}

/// Turns the error of an I/O result into an I/O error at a path.
pub trait IoResultExt<T>: Sized {
    fn at_path(self, path: &str) -> Result<T, MarkerFixerError>;
}

impl<T> IoResultExt<T> for Result<T, std::io::Error> {
    fn at_path(self, path: &str) -> (r: Result<T, MarkerFixerError>)
        ensures
            match self {
                Ok(v) => r matches Ok(w) && w == v,
                Err(_) => r matches Err(e) && e@ is Io && e@->Io_path == path@,
            },
    {
        match self {
            Ok(v) => Ok(v),
            Err(e) => Err(MarkerFixerError::Io { path: path.to_string(), message: io_error_message(&e) }),
        }
    }
}

} // verus!
