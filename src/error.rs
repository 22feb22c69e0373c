use vstd::prelude::*;
use crate::text::{int_text, push_int};

verus! {

/// An error raised while reading a document or welding its lines.
pub struct WeldError {
    pub message: String,
}

impl WeldError {
    pub fn new(message: String) -> (r: WeldError)
        ensures
            r.message@ == message@,
    {
        WeldError { message }
    }
}

/// The stream ended in the middle of a record.
pub fn eof() -> (r: WeldError)
    ensures
        r.message@ == "unexpected eof"@,
{
    WeldError::new(String::from_str("unexpected eof"))
}

/// A record carried tag `got` where tag `expected` was due.
pub fn unexpected_tag(expected: i32, got: i32) -> (r: WeldError)
    ensures
        r.message@ == "unexpected tag: "@ + int_text(got as int) + ", expected: "@ + int_text(
            expected as int,
        ),
{
    let mut m = String::from_str("unexpected tag: ");
    push_int(&mut m, got);
    m.append(", expected: ");
    push_int(&mut m, expected);
    WeldError::new(m)
}

/// A `LINE` entity ended without a value for `tag`.
pub fn missing_tag_for_entity(tag: i32) -> (r: WeldError)
    ensures
        r.message@ == "missing tag for entity: "@ + int_text(tag as int),
{
    let mut m = String::from_str("missing tag for entity: ");
    push_int(&mut m, tag);
    WeldError::new(m)
}

} // verus!
