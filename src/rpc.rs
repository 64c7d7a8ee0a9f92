//! Framing of the local control channel: one message per line.
use vstd::prelude::*;

verus! {

/// The bytes sent for one control message: the message and a newline.
pub fn encode_message(msg: &str) -> (r: String)
    ensures
        r@ == msg@.push('\n'),
{
    let mut r = msg.to_owned();
    r.append("\n");
    proof {
        reveal_strlit("\n");
    }
    assert(r@ =~= msg@.push('\n'));
    r
}

} // verus!
