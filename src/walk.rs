use vstd::prelude::*;

use crate::text::chars_of;

verus! {

/// Whether the path text holds `/.`, the mark of a hidden file or directory.
pub open spec fn hidden(s: Seq<char>) -> bool {
    exists|i: int| 0 <= i < s.len() - 1 && s[i] == '/' && #[trigger] s[i + 1] == '.'
}

/// Whether a path is hidden: some component of it starts with a dot.
pub fn is_hidden_path(path: &str) -> (r: bool)
    ensures
        r == hidden(path@),
{
    let cs = chars_of(path);
    if cs.len() < 2 {
        return false;
    }
    let mut i: usize = 0;
    while i < cs.len() - 1
        invariant
            cs.len() >= 2,
            cs@ == path@,
            forall|j: int| 0 <= j < i && j < cs.len() - 1 ==> !(cs@[j] == '/' && #[trigger] cs@[j + 1] == '.'),
        decreases cs.len() - i,
    {
        if cs[i] == '/' && cs[i + 1] == '.' {
            return true;
        }
        i = i + 1;
    }
    false
}

/// Whether `s` begins with `p`.
pub open spec fn begins_with(s: Seq<char>, p: Seq<char>) -> bool {
    p.len() <= s.len() && s.subrange(0, p.len() as int) == p
}

fn starts_with_chars(s: &Vec<char>, p: &Vec<char>) -> (r: bool)
    ensures
        r == begins_with(s@, p@),
{
    if p.len() > s.len() {
        return false;
    }
    let mut i: usize = 0;
    while i < p.len()
        invariant
            p.len() <= s.len(),
            i <= p.len(),
            forall|j: int| 0 <= j < i ==> s@[j] == p@[j],
        decreases p.len() - i,
    {
        if s[i] != p[i] {
            assert(s@.subrange(0, p.len() as int)[i as int] != p@[i as int]);
            return false;
        }
        i = i + 1;
    }
    assert(s@.subrange(0, p.len() as int) =~= p@);
    true
}

/// Whether a MIME description (as `file -bi` prints it) is kept by the walk:
/// text files, and directories, which the walk must enter.
pub fn mime_admits(description: &str) -> (r: bool)
    ensures
        r == (begins_with(description@, "text/"@) || begins_with(description@, "inode/directory;"@)),
{
    let d = chars_of(description);
    let text = chars_of("text/");
    let dir = chars_of("inode/directory;");
    starts_with_chars(&d, &text) || starts_with_chars(&d, &dir)
}

} // verus!
