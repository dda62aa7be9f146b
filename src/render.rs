//! Identifiers for the graph-description output.

use vstd::prelude::*;

use crate::finder::ClassReference;
use crate::names::substring;

verus! {

/// `s` with each dot and each hyphen replaced by an underscore.
pub open spec fn sanitized(s: Seq<char>) -> Seq<char> {
    s.map_values(|c: char| if c == '.' || c == '-' { '_' } else { c })
}

/// `s` made into a graph-description identifier: dots and hyphens become underscores.
pub fn sanitize_for_dot(s: &str) -> (r: String)
    ensures
        r@ == sanitized(s@),
{
    let cs = crate::names::chars_of(s);
    let n = cs.len();
    let mut out = String::new();
    let mut i: usize = 0;
    proof {
        reveal_strlit("_");
    }
    while i < n
        invariant
            cs@ == s@,
            n == s@.len(),
            i <= n,
            out@ == sanitized(s@.take(i as int)),
        decreases n - i,
    {
        let c = cs[i];
        let ghost before = out@;
        if c == '.' || c == '-' {
            proof {
                reveal_strlit("_");
            }
            out.append("_");
            assert(out@ =~= before.push('_'));
        } else {
            let one = substring(s, i, i + 1);
            out.append(one.as_str());
            assert(one@ =~= seq![c]);
            assert(out@ =~= before.push(c));
        }
        assert(sanitized(s@.take(i + 1)) =~= sanitized(s@.take(i as int)).push(sanitized(s@)[i as int]));
        assert(out@ =~= sanitized(s@.take(i + 1)));
        i = i + 1;
    }
    assert(s@.take(n as int) =~= s@);
    out
}

/// The identifier of a class's node: its sanitized module path, an underscore, and its
/// sanitized name.
pub fn dot_node_id(c: &ClassReference) -> (r: String)
    ensures
        r@ == sanitized(c.module_name@) + seq!['_'] + sanitized(c.class_name@),
{
    let mut out = sanitize_for_dot(c.module_name.as_str());
    out.append("_");
    proof {
        reveal_strlit("_");
    }
    let name = sanitize_for_dot(c.class_name.as_str());
    out.append(name.as_str());
    out
}

} // verus!
