use vstd::prelude::*;

use crate::text::string_of;

verus! {

/// The ASCII bytes of `d` (those at most 0x7f), in order, as characters.
pub open spec fn ascii_chars(d: Seq<u8>) -> Seq<char>
    decreases d.len(),
{
    if d.len() == 0 {
        Seq::empty()
    } else if d.last() <= 0x7f {
        ascii_chars(d.drop_last()).push(d.last() as char)
    } else {
        ascii_chars(d.drop_last())
    }
}

/// Text from bytes that are not valid UTF-8: every byte above 0x7f is dropped.
pub fn filter_ascii(data: Vec<u8>) -> (r: String)
    ensures
        r@ == ascii_chars(data@),
{
    let mut d: Vec<char> = Vec::new();
    let mut i: usize = 0;
    while i < data.len()
        invariant
            0 <= i <= data.len(),
            d@ == ascii_chars(data@.take(i as int)),
        decreases data.len() - i,
    {
        let b = data[i];
        if b <= 0x7f {
            d.push(b as char);
        }
        assert(data@.take(i + 1).drop_last() =~= data@.take(i as int));
        i = i + 1;
    }
    assert(data@.take(i as int) =~= data@);
    string_of(&d)
}

} // verus!
