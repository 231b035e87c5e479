use vstd::prelude::*;
use vstd::string::StringExecFns;

verus! {

/// Engine-level errors shared by the graph model, the execution engine and output routing.
#[derive(Debug, Clone)]
pub enum EngineError {
    /// No asset root was found starting from the given directory.
    AssetsNotFound { start_dir: String },
    /// A configuration file was read but its content was rejected.
    InvalidConfig { path: String, msg: String },
    /// The vertex stage did not compile; carries the backend's log.
    VertexCompile(String),
    /// The fragment stage did not compile; carries the backend's log.
    FragmentCompile(String),
    /// The program did not link; carries the backend's log.
    Link(String),
    /// A backend object could not be created.
    GlCreate(String),
    /// Topology and resolution failures, described by their message.
    Other(String),
}

/// `e` is an `Other` error whose message reads `msg`.
pub open spec fn other_error(e: EngineError, msg: Seq<char>) -> bool {
    e is Other && e->Other_0@ == msg
}

/// `r` failed with an `Other` error whose message reads `msg`.
pub open spec fn failed_with<T>(r: Result<T, EngineError>, msg: Seq<char>) -> bool {
    r is Err && other_error(r->Err_0, msg)
}

impl EngineError {
    pub fn other(s: &str) -> (r: EngineError)
        ensures
            other_error(r, s@),
    {
        EngineError::Other(String::from_str(s))
    }

    /// Human-readable description of the error.
    pub fn message(&self) -> (r: String)
        ensures
            self is Other ==> r@ == self->Other_0@,
    {
        match self {
            EngineError::AssetsNotFound { start_dir } => {
                let mut s = String::from_str("assets not found (starting at ");
                s.append(start_dir.as_str());
                s.append(")");
                s
            },
            EngineError::InvalidConfig { path, msg } => {
                let mut s = String::from_str("invalid config at ");
                s.append(path.as_str());
                s.append(": ");
                s.append(msg.as_str());
                s
            },
            EngineError::VertexCompile(msg) => {
                String::from_str("vertex shader compile error: ").concat(msg.as_str())
            },
            EngineError::FragmentCompile(msg) => {
                String::from_str("fragment shader compile error: ").concat(msg.as_str())
            },
            EngineError::Link(msg) => String::from_str("program link error: ").concat(msg.as_str()),
            EngineError::GlCreate(msg) => {
                String::from_str("backend object creation failed: ").concat(msg.as_str())
            },
            EngineError::Other(msg) => msg.clone(),
        }
    }
}

} // verus!
