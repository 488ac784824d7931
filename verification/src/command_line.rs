//! The part of the stub's command line that is handed on to the executable.
use vstd::prelude::*;

verus! {

/// ` -- ` starts at byte `i` of `s`.
pub open spec fn is_separator(s: Seq<u8>, i: int) -> bool {
    0 <= i && i + 4 <= s.len() && s[i] == 0x20 && s[i + 1] == 0x2D && s[i + 2] == 0x2D && s[i + 3] == 0x20
}

/// `b` is ASCII white space.
pub open spec fn is_space(b: u8) -> bool {
    b == 0x20 || (0x09 <= b && b <= 0x0D)
}

/// Returns the byte range `(start, end)` of the part of `command_line` meant for the
/// executable: what follows the last ` -- `, with the white space around it trimmed; an empty
/// range at the end where there is no ` -- `.
pub fn executable_command_line(command_line: &[u8]) -> (range: (usize, usize))
    ensures
        ({
            let s = command_line@;
            let (start, end) = range;
            &&& (exists|i: int| #[trigger] is_separator(s, i)) ==> exists|i: int|
                #[trigger] is_separator(s, i) && (forall|j: int| i < j ==> !is_separator(s, j)) && i + 4 <= start
                && forall|k: int| i + 4 <= k < start ==> is_space(#[trigger] s[k])
            &&& (forall|i: int| !#[trigger] is_separator(s, i)) ==> start == s.len() && end == s.len()
            &&& start <= end <= s.len()
            &&& start < s.len() ==> !is_space(s[start as int])
            &&& forall|k: int| end <= k < s.len() ==> is_space(#[trigger] s[k])
            &&& start < end ==> !is_space(s[end - 1])
        }),
{
    let len = command_line.len();
    let ghost s = command_line@;
    if len < 4 {
        assert forall|i: int| !#[trigger] is_separator(s, i) by {}
        return (len, len);
    }
    let mut i: usize = len - 4;
    loop
        invariant
            len == s.len(),
            len >= 4,
            i <= len - 4,
            s == command_line@,
            forall|j: int| i < j ==> !#[trigger] is_separator(s, j),
        ensures
            i <= len - 4,
            is_separator(s, i as int),
            forall|j: int| i < j ==> !#[trigger] is_separator(s, j),
        decreases i,
    {
        if command_line[i] == 0x20 && command_line[i + 1] == 0x2D && command_line[i + 2] == 0x2D && command_line[i + 3]
            == 0x20 {
            break;
        }
        if i == 0 {
            assert forall|j: int| !#[trigger] is_separator(s, j) by {
                if j == 0 {
                }
            }
            return (len, len);
        }
        i -= 1;
    }
    assert(is_separator(s, i as int));
    let mut start = i + 4;
    while start < len && is_ascii_space(command_line[start])
        invariant
            i + 4 <= start <= len,
            len == s.len(),
            s == command_line@,
            forall|k: int| i + 4 <= k < start ==> is_space(#[trigger] s[k]),
        decreases len - start,
    {
        start += 1;
    }
    let mut end = len;
    while end > start && is_ascii_space(command_line[end - 1])
        invariant
            start <= end <= len,
            len == s.len(),
            s == command_line@,
            forall|k: int| end <= k < len ==> is_space(#[trigger] s[k]),
        decreases end,
    {
        end -= 1;
    }
    (start, end)
}

/// Returns `true` if `b` is ASCII white space.
fn is_ascii_space(b: u8) -> (result: bool)
    ensures
        result == is_space(b),
{
    b == 0x20 || (0x09 <= b && b <= 0x0D)
}

} // verus!
