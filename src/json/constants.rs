//! The punctuation marks that frame a JSON text.
use vstd::prelude::*;

verus! {

pub const QUOTE: char = '"';

pub const LEFT_BRACKET: char = '[';

pub const RIGHT_BRACKET: char = ']';

pub const LEFT_BRACE: char = '{';

pub const RIGHT_BRACE: char = '}';

pub const COLUMN: char = ':';

pub const NEW_LINE: char = '\n';

pub const COMMA: char = ',';

} // verus!
