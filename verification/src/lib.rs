//! Concurrent task-graph notations and the conversions between them.
//!
//! Three textual notations describe the same kind of task graph: a
//! structured notation with nested sequential/parallel blocks and
//! dependency annotations, a block-structured Par notation, and a linear
//! Fork-Join notation built from fork/join/goto instructions.  This crate
//! holds the graph models, the conversions between them, the dependency
//! validator and the execution-graph builder.

pub mod cfg;
mod error;
pub mod flow;
pub mod graph;
pub mod fk;
pub mod ir;
pub mod lower;
pub mod par;
pub mod text;
pub mod validate;

pub use error::{Error, ValidationError, ValidationErrorKind};
pub use graph::{ForkJoin, Graph, Ir, Par, Unvalidated, Valid};
pub use ir::Node as IrNode;

use vstd::prelude::*;

verus! {

/// Which notation a piece of text is written in.
#[derive(Debug, Clone, Copy, PartialEq, Eq, Structural)]
pub enum Format {
    Ir,
    Par,
    ForkJoin,
}

/// Maps a file extension to its notation: `graph`, `par` or `fk`.
pub fn format_from_ext(ext: &str) -> (r: Result<Format, Error>)
    ensures
        r is Ok <==> (ext@ == "graph"@ || ext@ == "par"@ || ext@ == "fk"@),
        r matches Ok(f) ==> f == (if ext@ == "graph"@ {
            Format::Ir
        } else if ext@ == "par"@ {
            Format::Par
        } else {
            Format::ForkJoin
        }),
        r matches Err(e) ==> e matches Error::InvalidType(t) && t@ == ext@,
{
    if crate::text::str_eq(ext, "graph") {
        Ok(Format::Ir)
    } else if crate::text::str_eq(ext, "par") {
        Ok(Format::Par)
    } else if crate::text::str_eq(ext, "fk") {
        Ok(Format::ForkJoin)
    } else {
        Err(Error::InvalidType(ext.to_owned()))
    }
}

/// Parses text in the given notation and pivots it into the structured
/// notation.
pub fn parse(input: &str, format: Format) -> (r: Result<Graph<IrNode, Ir, Unvalidated>, Error>)
    ensures
        r matches Err(e) ==> e is ParseError,
{
    match format {
        Format::Ir => Graph::<IrNode, Ir>::parse(input),
        Format::Par => {
            match Graph::<par::Node, Par>::parse(input) {
                Ok(g) => Ok(g.to_ir()),
                Err(e) => Err(e),
            }
        }
        Format::ForkJoin => {
            match Graph::<fk::Stmt, ForkJoin>::parse(input) {
                Ok(g) => Ok(g.to_ir()),
                Err(e) => Err(e),
            }
        }
    }
}


} // verus!
