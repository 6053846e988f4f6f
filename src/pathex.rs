use vstd::prelude::*;

use crate::ngram::strings_view;
use crate::text::chars_of;

verus! {

/// The components that remain after resolving `.` and `..` from left to right,
/// without looking at the file system: `.` is dropped, `..` drops the component
/// before it (none at the root).
pub open spec fn resolved(parts: Seq<Seq<char>>) -> Seq<Seq<char>>
    decreases parts.len(),
{
    if parts.len() == 0 {
        seq![]
    } else {
        let r = resolved(parts.drop_last());
        let c = parts.last();
        if c == seq!['.'] {
            r
        } else if c == seq!['.', '.'] {
            if r.len() > 0 { r.drop_last() } else { r }
        } else {
            r.push(c)
        }
    }
}

/// Resolves `.` and `..` among the components of an absolute path, lexically.
pub fn resolve_components(parts: &Vec<String>) -> (r: Vec<String>)
    ensures
        strings_view(r@) == resolved(strings_view(parts@)),
{
    let ghost pv = strings_view(parts@);
    let mut out: Vec<String> = Vec::new();
    let mut i: usize = 0;
    while i < parts.len()
        invariant
            i <= parts.len(),
            pv == strings_view(parts@),
            strings_view(out@) == resolved(pv.subrange(0, i as int)),
        decreases parts.len() - i,
    {
        let ghost pre = pv.subrange(0, i + 1);
        assert(pre.drop_last() =~= pv.subrange(0, i as int));
        assert(pre.last() == parts@[i as int]@);
        let cs = chars_of(parts[i].as_str());
        let is_dot = cs.len() == 1 && cs[0] == '.';
        let is_dot_dot = cs.len() == 2 && cs[0] == '.' && cs[1] == '.';
        if is_dot {
            assert(cs@ =~= seq!['.']);
        } else if is_dot_dot {
            assert(cs@ =~= seq!['.', '.']);
            assert(cs@ != seq!['.']);
            if out.len() > 0 {
                let ghost o0 = out@;
                out.pop();
                assert(strings_view(out@) =~= strings_view(o0).drop_last());
            }
        } else {
            assert(cs@ != seq!['.']) by {
                if cs@ == seq!['.'] {
                    assert(cs@.len() == 1);
                }
            }
            assert(cs@ != seq!['.', '.']) by {
                if cs@ == seq!['.', '.'] {
                    assert(cs@.len() == 2);
                }
            }
            let ghost o0 = out@;
            out.push(parts[i].clone());
            assert(strings_view(out@) =~= strings_view(o0).push(parts@[i as int]@));
        }
        i = i + 1;
    }
    assert(pv.subrange(0, parts.len() as int) =~= pv);
    out
}

} // verus!
