//! Errors produced by the library.
use vstd::prelude::*;

use crate::text::{join, join_strings, texts};

verus! {

/// Errors produced by the core library.
#[derive(Debug)]
pub enum Error {
    /// The node file lacks well-formed frontmatter delimiters.
    MissingFrontmatter,
    /// The frontmatter or configuration is not valid YAML; the text says why.
    Yaml(String),
    /// Reading or writing a file failed; the text says why.
    Io(String),
    TypeConstraint(String),
    InvalidProject(String),
    NodeNotFound(String),
    EdgeAlreadyExists { from: String, to: String },
    EdgeNotFound { from: String, to: String },
    CycleDetected { path: Vec<String> },
    DeletionBlocked { node_id: String, dependents: Vec<String> },
}

/// The mathematical value of an error.
pub enum ErrorSpec {
    MissingFrontmatter,
    Yaml(Seq<char>),
    Io(Seq<char>),
    TypeConstraint(Seq<char>),
    InvalidProject(Seq<char>),
    NodeNotFound(Seq<char>),
    EdgeAlreadyExists { from: Seq<char>, to: Seq<char> },
    EdgeNotFound { from: Seq<char>, to: Seq<char> },
    CycleDetected { path: Seq<Seq<char>> },
    DeletionBlocked { node_id: Seq<char>, dependents: Seq<Seq<char>> },
}

impl View for Error {
    type V = ErrorSpec;

    open spec fn view(&self) -> ErrorSpec {
        match self {
            Error::MissingFrontmatter => ErrorSpec::MissingFrontmatter,
            Error::Yaml(m) => ErrorSpec::Yaml(m@),
            Error::Io(m) => ErrorSpec::Io(m@),
            Error::TypeConstraint(m) => ErrorSpec::TypeConstraint(m@),
            Error::InvalidProject(m) => ErrorSpec::InvalidProject(m@),
            Error::NodeNotFound(m) => ErrorSpec::NodeNotFound(m@),
            Error::EdgeAlreadyExists { from, to } => ErrorSpec::EdgeAlreadyExists {
                from: from@,
                to: to@,
            },
            Error::EdgeNotFound { from, to } => ErrorSpec::EdgeNotFound { from: from@, to: to@ },
            Error::CycleDetected { path } => ErrorSpec::CycleDetected { path: texts(path@) },
            Error::DeletionBlocked { node_id, dependents } => ErrorSpec::DeletionBlocked {
                node_id: node_id@,
                dependents: texts(dependents@),
            },
        }
    }
}

/// The human-readable text of an error.
pub open spec fn error_text(e: ErrorSpec) -> Seq<char> {
    match e {
        ErrorSpec::MissingFrontmatter => "invalid node file: missing or malformed frontmatter delimiters"@,
        ErrorSpec::Yaml(m) => "failed to parse YAML: "@ + m,
        ErrorSpec::Io(m) => "I/O error: "@ + m,
        ErrorSpec::TypeConstraint(m) => "type constraint violation: "@ + m,
        ErrorSpec::InvalidProject(m) => "invalid project: "@ + m,
        ErrorSpec::NodeNotFound(id) => "node not found: "@ + id,
        ErrorSpec::EdgeAlreadyExists { from, to } => "edge already exists: "@ + from + " -> "@ + to,
        ErrorSpec::EdgeNotFound { from, to } => "edge not found: "@ + from + " -> "@ + to,
        ErrorSpec::CycleDetected { path } => "adding this edge would create a cycle: "@ + join(
            path,
            " -> "@,
        ),
        ErrorSpec::DeletionBlocked { node_id, dependents } => "cannot delete node "@ + node_id
            + " because other nodes depend on it: "@ + join(dependents, ", "@),
    }
}

impl Error {
    /// The human-readable text of this error.
    pub fn to_string(&self) -> (r: String)
        ensures
            r@ == error_text(self@),
    {
        match self {
            Error::MissingFrontmatter => String::from_str(
                "invalid node file: missing or malformed frontmatter delimiters",
            ),
            Error::Yaml(m) => {
                let mut r = String::from_str("failed to parse YAML: ");
                r.append(m.as_str());
                r
            },
            Error::Io(m) => {
                let mut r = String::from_str("I/O error: ");
                r.append(m.as_str());
                r
            },
            Error::TypeConstraint(m) => {
                let mut r = String::from_str("type constraint violation: ");
                r.append(m.as_str());
                r
            },
            Error::InvalidProject(m) => {
                let mut r = String::from_str("invalid project: ");
                r.append(m.as_str());
                r
            },
            Error::NodeNotFound(id) => {
                let mut r = String::from_str("node not found: ");
                r.append(id.as_str());
                r
            },
            Error::EdgeAlreadyExists { from, to } => {
                let mut r = String::from_str("edge already exists: ");
                r.append(from.as_str());
                r.append(" -> ");
                r.append(to.as_str());
                r
            },
            Error::EdgeNotFound { from, to } => {
                let mut r = String::from_str("edge not found: ");
                r.append(from.as_str());
                r.append(" -> ");
                r.append(to.as_str());
                r
            },
            Error::CycleDetected { path } => {
                let mut r = String::from_str("adding this edge would create a cycle: ");
                let j = join_strings(path, " -> ");
                r.append(j.as_str());
                r
            },
            Error::DeletionBlocked { node_id, dependents } => {
                let mut r = String::from_str("cannot delete node ");
                r.append(node_id.as_str());
                r.append(" because other nodes depend on it: ");
                let j = join_strings(dependents, ", ");
                r.append(j.as_str());
                r
            },
        }
    }
}

} // verus!
