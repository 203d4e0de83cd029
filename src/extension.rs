//! The extension of a file name: the text after its last period.
use vstd::prelude::*;
use vstd::string::*;

verus! {

/// Index `i` holds a period and no period follows it.
pub open spec fn is_last_dot(name: Seq<char>, i: int) -> bool {
    &&& 0 <= i < name.len()
    &&& name[i] == '.'
    &&& forall|j: int| i < j < name.len() ==> name[j] != '.'
}

/// The extension of a file name: `None` when the name holds no period,
/// otherwise everything strictly after the last period (possibly empty).
pub open spec fn extension_of(name: Seq<char>) -> Option<Seq<char>> {
    if exists|i: int| is_last_dot(name, i) {
        let i = choose|i: int| is_last_dot(name, i);
        Some(name.subrange(i + 1, name.len() as int))
    } else {
        None
    }
}

/// The extension of `name`, as `extension_of` gives it.
pub fn extension(name: &str) -> (r: Option<String>)
    ensures
        r is Some <==> extension_of(name@) is Some,
        r is Some ==> r->0@ == extension_of(name@)->0,
{
    let len = name.unicode_len();
    let mut i: usize = len;
    while i > 0
        invariant
            i <= len,
            len == name@.len(),
            forall|j: int| i <= j < len ==> name@[j] != '.',
        decreases i,
    {
        if name.get_char(i - 1) == '.' {
            proof {
                assert(is_last_dot(name@, i - 1));
                let k = choose|k: int| is_last_dot(name@, k);
                assert(k == i - 1);
            }
            let tail = name.substring_char(i, len);
            return Some(tail.to_owned());
        }
        i = i - 1;
    }
    assert(!exists|k: int| is_last_dot(name@, k));
    None
}

} // verus!
