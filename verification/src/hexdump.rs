//! A columned hexadecimal rendering of a byte buffer, for diagnostics.

use vstd::prelude::*;

verus! {

/// The text that `pretty_hex` renders for a byte buffer in its default
/// configuration: a title line with the length, then rows of sixteen bytes with
/// an address prefix, the hex octets in groups of four and an ASCII column.
pub uninterp spec fn hex_dump_text(data: Seq<u8>) -> Seq<char>;

/// Calls `pretty_hex::PrettyHex::hex_dump` and formats the wrapper it returns
/// with `{:?}`. The rendering depends on the bytes alone; the contract gives it
/// its name and claims nothing else about it.
#[verifier::external_body]
fn render_hex_dump(data: &[u8]) -> (text: String)
    ensures
        text@ == hex_dump_text(data@),
{
    format!("{:?}", pretty_hex::PrettyHex::hex_dump(data))
}

/// Renders `data` as a multi-line hex dump. Printing is left to the caller.
pub fn dump_hex(data: &[u8]) -> (text: String)
    ensures
        text@ == hex_dump_text(data@),
{
    render_hex_dump(data)
}

} // verus!
