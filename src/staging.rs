//! Names of the temporary files that hold staged artifacts.
use vstd::prelude::*;

verus! {

/// `.crunchy-cli_`, the prefix of every staged file, so that an interrupted
/// run can sweep them.
pub open spec fn staged_prefix() -> Seq<char> {
    seq!['.', 'c', 'r', 'u', 'n', 'c', 'h', 'y', '-', 'c', 'l', 'i', '_']
}

/// Whether a file name belongs to a staged artifact.
pub fn is_staged_name(name: &str) -> (r: bool)
    ensures
        r == (name@.len() >= staged_prefix().len() && name@.subrange(
            0,
            staged_prefix().len() as int,
        ) == staged_prefix()),
{
    let p = staged_prefix_text();
    let n = name.unicode_len();
    if n < 13 {
        return false;
    }
    let mut i: usize = 0;
    while i < 13
        invariant
            n == name@.len(),
            n >= 13,
            p@ == staged_prefix(),
            i <= 13,
            forall|k: int| 0 <= k < i ==> name@[k] == staged_prefix()[k],
        decreases 13 - i,
    {
        if name.get_char(i) != p.get_char(i) {
            assert(name@.subrange(0, 13)[i as int] != staged_prefix()[i as int]);
            return false;
        }
        i = i + 1;
    }
    assert(name@.subrange(0, 13) =~= staged_prefix());
    true
}

/// The prefix as text.
pub fn staged_prefix_text() -> (r: String)
    ensures
        r@ == staged_prefix(),
{
    let mut s = String::new();
    crate::text::push_char(&mut s, '.');
    crate::text::push_char(&mut s, 'c');
    crate::text::push_char(&mut s, 'r');
    crate::text::push_char(&mut s, 'u');
    crate::text::push_char(&mut s, 'n');
    crate::text::push_char(&mut s, 'c');
    crate::text::push_char(&mut s, 'h');
    crate::text::push_char(&mut s, 'y');
    crate::text::push_char(&mut s, '-');
    crate::text::push_char(&mut s, 'c');
    crate::text::push_char(&mut s, 'l');
    crate::text::push_char(&mut s, 'i');
    crate::text::push_char(&mut s, '_');
    assert(s@ =~= staged_prefix());
    s
}

} // verus!
