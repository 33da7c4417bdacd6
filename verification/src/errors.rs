//! Error types for the engine.

use vstd::prelude::*;

verus! {

/// Main error type for repository operations.  Every variant carries a
/// contextual message.
#[derive(Debug, Clone)]
pub enum BlazeError {
    /// I/O related errors
    Io(String),
    /// Database related errors
    Database(String),
    /// File system errors
    FileSystem(String),
    /// Repository errors
    Repository(String),
    /// Configuration errors
    Config(String),
    /// Chunk processing errors
    Chunk(String),
    /// Lock file errors
    Lock(String),
    /// Serialization/deserialization errors
    Serialization(String),
    /// Hash computation errors
    Hash(String),
    /// Path resolution errors
    Path(String),
    /// Permission errors
    Permission(String),
    /// Validation errors
    Validation(String),
    /// Network errors
    Network(String),
    /// Generic error with custom message
    Generic(String),
}

/// The label that introduces each error kind's message.
pub open spec fn error_label(e: &BlazeError) -> Seq<char> {
    match e {
        BlazeError::Io(_) => "I/O error: "@,
        BlazeError::Database(_) => "Database error: "@,
        BlazeError::FileSystem(_) => "File system error: "@,
        BlazeError::Repository(_) => "Repository error: "@,
        BlazeError::Config(_) => "Configuration error: "@,
        BlazeError::Chunk(_) => "Chunk processing error: "@,
        BlazeError::Lock(_) => "Lock file error: "@,
        BlazeError::Serialization(_) => "Serialization error: "@,
        BlazeError::Hash(_) => "Hash computation error: "@,
        BlazeError::Path(_) => "Path error: "@,
        BlazeError::Permission(_) => "Permission error: "@,
        BlazeError::Validation(_) => "Validation error: "@,
        BlazeError::Network(_) => "Network error: "@,
        BlazeError::Generic(_) => "Error: "@,
    }
}

/// The message carried inside an error, without its label.
pub open spec fn error_payload(e: &BlazeError) -> Seq<char> {
    match e {
        BlazeError::Io(m) => m@,
        BlazeError::Database(m) => m@,
        BlazeError::FileSystem(m) => m@,
        BlazeError::Repository(m) => m@,
        BlazeError::Config(m) => m@,
        BlazeError::Chunk(m) => m@,
        BlazeError::Lock(m) => m@,
        BlazeError::Serialization(m) => m@,
        BlazeError::Hash(m) => m@,
        BlazeError::Path(m) => m@,
        BlazeError::Permission(m) => m@,
        BlazeError::Validation(m) => m@,
        BlazeError::Network(m) => m@,
        BlazeError::Generic(m) => m@,
    }
}

/// The full human-readable message of an error: its label followed by
/// its payload.
pub open spec fn error_message(e: &BlazeError) -> Seq<char> {
    error_label(e) + error_payload(e)
}

impl BlazeError {
    /// Render the error as its labelled message.
    pub fn message(&self) -> (r: String)
        ensures
            r@ == error_message(self),
    {
        let mut s = match self {
            BlazeError::Io(_) => String::from_str("I/O error: "),
            BlazeError::Database(_) => String::from_str("Database error: "),
            BlazeError::FileSystem(_) => String::from_str("File system error: "),
            BlazeError::Repository(_) => String::from_str("Repository error: "),
            BlazeError::Config(_) => String::from_str("Configuration error: "),
            BlazeError::Chunk(_) => String::from_str("Chunk processing error: "),
            BlazeError::Lock(_) => String::from_str("Lock file error: "),
            BlazeError::Serialization(_) => String::from_str("Serialization error: "),
            BlazeError::Hash(_) => String::from_str("Hash computation error: "),
            BlazeError::Path(_) => String::from_str("Path error: "),
            BlazeError::Permission(_) => String::from_str("Permission error: "),
            BlazeError::Validation(_) => String::from_str("Validation error: "),
            BlazeError::Network(_) => String::from_str("Network error: "),
            BlazeError::Generic(_) => String::from_str("Error: "),
        };
        let payload = match self {
            BlazeError::Io(m) => m,
            BlazeError::Database(m) => m,
            BlazeError::FileSystem(m) => m,
            BlazeError::Repository(m) => m,
            BlazeError::Config(m) => m,
            BlazeError::Chunk(m) => m,
            BlazeError::Lock(m) => m,
            BlazeError::Serialization(m) => m,
            BlazeError::Hash(m) => m,
            BlazeError::Path(m) => m,
            BlazeError::Permission(m) => m,
            BlazeError::Validation(m) => m,
            BlazeError::Network(m) => m,
            BlazeError::Generic(m) => m,
        };
        s.append(payload.as_str());
        s
    }
}

/// Extension trait that wraps an error with additional context, turning
/// it into a `BlazeError::Generic` whose message opens with the context.
pub trait ResultExt<T>: Sized {
    /// Whether this result is the success case.
    spec fn is_success(&self) -> bool;

    /// The success value, when `is_success` holds.
    spec fn success_value(&self) -> T;

    /// Add context computed by a closure to an error.
    fn with_context<F: FnOnce() -> String>(self, f: F) -> (r: Result<T, BlazeError>)
        requires
            f.requires(()),
        ensures
            r is Ok <==> self.is_success(),
            r matches Ok(v) ==> v == self.success_value(),
            r matches Err(e) ==> e is Generic,
    ;

    /// Add static context to an error.
    fn context(self, msg: &str) -> (r: Result<T, BlazeError>)
        ensures
            r is Ok <==> self.is_success(),
            r matches Ok(v) ==> v == self.success_value(),
            r matches Err(e) ==> e is Generic && error_payload(&e).len() >= msg@.len()
                && error_payload(&e).subrange(0, msg@.len() as int) == msg@,
    ;
}

impl<T> ResultExt<T> for Result<T, BlazeError> {
    open spec fn is_success(&self) -> bool {
        self is Ok
    }

    open spec fn success_value(&self) -> T {
        self->Ok_0
    }

    fn with_context<F: FnOnce() -> String>(self, f: F) -> (r: Result<T, BlazeError>) {
        match self {
            Ok(v) => Ok(v),
            Err(base) => {
                let mut msg = f();
                msg.append(": ");
                let base_msg = base.message();
                msg.append(base_msg.as_str());
                Err(BlazeError::Generic(msg))
            },
        }
    }

    fn context(self, msg: &str) -> (r: Result<T, BlazeError>) {
        match self {
            Ok(v) => Ok(v),
            Err(base) => {
                let mut out = String::from_str(msg);
                out.append(": ");
                let base_msg = base.message();
                out.append(base_msg.as_str());
                Err(BlazeError::Generic(out))
            },
        }
    }
}

/// The standard I/O error type, carried through unverified conversions.
#[verifier::external_type_specification]
#[verifier::external_body]
pub struct ExIoError(std::io::Error);

/// Relies on std's Display rendering of io::Error; the text is
/// informational only, so nothing is promised of it.
#[verifier::external_body]
fn io_error_message(e: &std::io::Error) -> String {
    format!("{}", e)
}

impl<T> ResultExt<T> for Result<T, std::io::Error> {
    open spec fn is_success(&self) -> bool {
        self is Ok
    }

    open spec fn success_value(&self) -> T {
        self->Ok_0
    }

    fn with_context<F: FnOnce() -> String>(self, f: F) -> (r: Result<T, BlazeError>) {
        match self {
            Ok(v) => Ok(v),
            Err(base) => {
                let mut msg = f();
                msg.append(": I/O error: ");
                let detail = io_error_message(&base);
                msg.append(detail.as_str());
                Err(BlazeError::Generic(msg))
            },
        }
    }

    fn context(self, msg: &str) -> (r: Result<T, BlazeError>) {
        match self {
            Ok(v) => Ok(v),
            Err(base) => {
                let mut out = String::from_str(msg);
                out.append(": I/O error: ");
                let detail = io_error_message(&base);
                out.append(detail.as_str());
                proof {
                    assert(out@.subrange(0, msg@.len() as int) =~= msg@);
                }
                Err(BlazeError::Generic(out))
            },
        }
    }
}

} // verus!
