//! Arena-allocated document trees and the byte-level scanners of a
//! CommonMark / MDX parser, with their contracts proved by Verus.

pub mod arena;

pub use arena::{Arena, ArenaNode, StringRef, NO_PARENT};
pub mod builder;
pub use builder::ArenaBuilder;
pub mod line_index;
pub use line_index::LineIndex;
pub mod codec;
pub use codec::{decode_string_ref_data, encode_string_ref_data};
pub mod read_arena;
pub use read_arena::ReadArena;
pub mod options;
pub use options::Options;
pub mod special_bytes;
pub mod ascii;
pub mod text;
pub mod post_passes;
pub mod firstpass;
pub mod mdx_lex;
pub mod mdx;
pub mod search;
pub mod inline_scope;
pub mod labels;
pub mod heading_attrs;
pub mod directive_attrs;
pub mod continuation;
pub mod normalize;
pub mod math_scope;
pub mod tag_name;
pub mod js_check;
pub mod jsx_attrs;
pub mod jsx_tag;
pub mod delim_runs;
pub mod block_ends;
