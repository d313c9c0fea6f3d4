pub mod ast;
pub mod diagnostic;
pub mod dom;
pub mod forge;
pub mod text;

pub use ast::{ArgSpec, ArgType, ArgValue, BlockNode, Document, InlineExt, MdEvent, Node, Span};
pub use diagnostic::{Diagnostic, ErrorCode, Level};
pub use dom::{VElement, VNode};
pub use forge::{EvalContext, Forge, ForgeBuilder};
