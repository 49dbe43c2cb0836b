//! Graph cell editor core: a store of typed cells joined by data-flow
//! relationships, a stepped execution engine, a formula subsystem with
//! reference resolution and cycle detection, and graph validation.

pub mod canvas;
pub mod cell;
pub mod event;
pub mod execution;
pub mod external;
pub mod flags;
pub mod geometry;
pub mod id_generator;
pub mod markdown_links;
pub mod math_eval;
pub mod relationship;
pub mod text;
pub mod validation;

pub use canvas::{Canvas, CanvasError};
pub use cell::{Cell, CellContent, CellId, CellType};
pub use event::{EventType, GraphEvent};
pub use execution::{
    CellData, CellError, CodeEvaluator, ExecutionEngine, ExecutionError, ExecutionLogEntry,
    ExecutionMode, ExecutionReport, ExecutionStatus,
};
pub use geometry::{Rectangle, SplitDirection, SplitRatio};
pub use id_generator::IdGenerator;
pub use markdown_links::CellLink;
pub use math_eval::FormulaError;
pub use relationship::Relationship;
pub use validation::{
    ValidatedCanvas, ValidationIssue, ValidationIssueType, ValidationResult, ValidationSeverity,
    Validator,
};
