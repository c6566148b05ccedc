//! Errors: a kind, a text, and the texts of what caused them.
use vstd::prelude::*;

verus! {

/// The kinds of failure that file operations report.
#[derive(Debug, Clone, Copy, PartialEq, Eq, Structural)]
pub enum ErrorKind {
    /// Something that is needed does not exist.
    NotFound,
    /// The operation is not permitted.
    PermissionDenied,
    /// The other side refused the connection.
    ConnectionRefused,
    /// The other side reset the connection.
    ConnectionReset,
    /// The other host cannot be reached.
    HostUnreachable,
    /// The network of the other host cannot be reached.
    NetworkUnreachable,
    /// The other side gave the connection up.
    ConnectionAborted,
    /// There is no connection.
    NotConnected,
    /// The address is in use.
    AddrInUse,
    /// The address is not there to be used.
    AddrNotAvailable,
    /// The network is down.
    NetworkDown,
    /// The receiving end is gone.
    BrokenPipe,
    /// Something that is to be made exists already.
    AlreadyExists,
    /// The operation would have to wait.
    WouldBlock,
    /// Something that must be a directory is none.
    NotADirectory,
    /// Something that must not be a directory is one.
    IsADirectory,
    /// A directory that must be empty is not.
    DirectoryNotEmpty,
    /// The file system can only be read.
    ReadOnlyFilesystem,
    /// A file of the network is gone.
    StaleNetworkFileHandle,
    /// An argument cannot be used.
    InvalidInput,
    /// Data is not in the form that it should have.
    InvalidData,
    /// The operation took too long.
    TimedOut,
    /// Nothing could be written.
    WriteZero,
    /// There is no room left.
    StorageFull,
    /// One cannot move in the file.
    NotSeekable,
    /// There is no room left for the user.
    QuotaExceeded,
    /// The file is too large.
    FileTooLarge,
    /// Something is in use.
    ResourceBusy,
    /// A program is in use.
    ExecutableFileBusy,
    /// The operation would wait for itself.
    Deadlock,
    /// Two paths are not on the same device.
    CrossesDevices,
    /// There are too many links.
    TooManyLinks,
    /// A name cannot be used.
    InvalidFilename,
    /// There are too many arguments.
    ArgumentListTooLong,
    /// The operation was interrupted.
    Interrupted,
    /// The host does not offer the operation.
    Unsupported,
    /// Data ended too early.
    UnexpectedEof,
    /// There is not enough memory.
    OutOfMemory,
    /// A failure described by its text alone.
    Other,
    /// Any kind not listed here.
    Uncategorized,
}

/// A failure.
#[derive(Debug, PartialEq, Eq)]
pub struct Error {
    /// What kind of failure it is.
    pub kind: ErrorKind,
    /// What it says when it is shown.
    pub text: String,
    /// What each of its causes says, the nearest first.
    pub causes: Vec<String>,
}

/// The value of an [`Error`].
#[verifier::ext_equal]
pub struct ErrorView {
    pub kind: ErrorKind,
    pub text: Seq<char>,
    pub causes: Seq<Seq<char>>,
}

/// The strings in `v`, each by its characters.
pub open spec fn text_views(v: Seq<String>) -> Seq<Seq<char>> {
    v.map_values(|t: String| t@)
}

impl View for Error {
    type V = ErrorView;

    open spec fn view(&self) -> ErrorView {
        ErrorView { kind: self.kind, text: self.text@, causes: text_views(self.causes@) }
    }
}

/// An error without a cause.
pub open spec fn plain_error(kind: ErrorKind, text: Seq<char>) -> ErrorView {
    ErrorView { kind, text, causes: Seq::empty() }
}

/// An error that says `text` and comes from `cause`, whose kind it keeps.
pub open spec fn error_from(text: Seq<char>, cause: ErrorView) -> ErrorView {
    ErrorView { kind: cause.kind, text, causes: seq![cause.text] + cause.causes }
}

impl Error {
    /// An error without a cause.
    pub fn new(kind: ErrorKind, text: String) -> (r: Error)
        ensures
            r@ == plain_error(kind, text@),
    {
        let r: Error = Error { kind, text, causes: Vec::new() };
        assert(r@.causes =~= Seq::empty());
        r
    }

    /// An error that says `text` and comes from `cause`, whose kind it keeps.
    pub fn from_cause(text: String, cause: Error) -> (r: Error)
        ensures
            r@ == error_from(text@, cause@),
    {
        let mut causes: Vec<String> = cause.causes;
        causes.insert(0, cause.text);
        let r: Error = Error { kind: cause.kind, text, causes };
        assert(r@.causes =~= seq![cause@.text] + cause@.causes);
        r
    }

    /// A copy of the error.
    pub fn duplicate(&self) -> (r: Error)
        ensures
            r@ == self@,
    {
        let mut causes: Vec<String> = Vec::new();
        let mut i: usize = 0;
        while i < self.causes.len()
            invariant
                0 <= i <= self.causes@.len(),
                causes@.len() == i,
                forall|j: int| 0 <= j < i ==> causes@[j]@ == self.causes@[j]@,
            decreases self.causes@.len() - i,
        {
            causes.push(self.causes[i].clone());
            i = i + 1;
        }
        let r: Error = Error { kind: self.kind, text: self.text.clone(), causes };
        assert(r@.causes =~= self@.causes);
        r
    }
}

/// An error of kind [`ErrorKind::Other`] without a cause.
pub fn other(text: String) -> (r: Error)
    ensures
        r@ == plain_error(ErrorKind::Other, text@),
{
    Error::new(ErrorKind::Other, text)
}

} // verus!
