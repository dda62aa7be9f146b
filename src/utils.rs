//! Relative-import resolution on dotted module paths.

use vstd::prelude::*;

use crate::names::substring;

verus! {

/// The position of the last dot of `s` below `k`, or -1.
pub open spec fn last_dot_below(s: Seq<char>, k: int) -> int
    decreases k,
{
    if k <= 0 {
        -1
    } else if s[k - 1] == '.' {
        k - 1
    } else {
        last_dot_below(s, k - 1)
    }
}

/// `module` without its last `k` dotted components; empty when it has no more than `k`.
pub open spec fn drop_components(module: Seq<char>, k: nat) -> Seq<char>
    decreases k,
{
    if k == 0 {
        module
    } else {
        let p = last_dot_below(module, module.len() as int);
        if p < 0 {
            Seq::empty()
        } else {
            drop_components(module.subrange(0, p), (k - 1) as nat)
        }
    }
}

/// The package that a relative import of `level` dots starts from: the module itself
/// for a package and one dot, one component up for each further dot; for a plain
/// module, one component up for each dot.
pub open spec fn relative_base(module: Seq<char>, level: nat, is_package: bool) -> Seq<char> {
    if is_package {
        drop_components(module, (level - 1) as nat)
    } else {
        drop_components(module, level)
    }
}

/// The position of the last dot of `s`, if any.
fn last_dot(s: &str) -> (r: Option<usize>)
    ensures
        match r {
            Some(p) => p < s@.len() && last_dot_below(s@, s@.len() as int) == p,
            None => last_dot_below(s@, s@.len() as int) < 0,
        },
{
    let cs = crate::names::chars_of(s);
    let len = cs.len();
    let mut k: usize = len;
    while k > 0
        invariant
            cs@ == s@,
            len == s@.len(),
            k <= len,
            last_dot_below(s@, len as int) == last_dot_below(s@, k as int),
        decreases k,
    {
        if cs[k - 1] == '.' {
            return Some(k - 1);
        }
        k = k - 1;
    }
    None
}

/// `module` without its last `k` dotted components.
pub fn drop_last_components(module: &str, k: usize) -> (r: String)
    ensures
        r@ == drop_components(module@, k as nat),
{
    let mut cur = module.to_owned();
    let mut left: usize = k;
    while left > 0
        invariant
            left <= k,
            drop_components(cur@, left as nat) == drop_components(module@, k as nat),
        decreases left,
    {
        match last_dot(cur.as_str()) {
            Some(p) => {
                cur = substring(cur.as_str(), 0, p);
            },
            None => {
                return String::new();
            },
        }
        left = left - 1;
    }
    cur
}

/// Resolves a relative import of `level` dots in `current_module` to the module path it
/// starts from (PEP 328); `None` for an absolute import (level 0).
pub fn resolve_relative_import_base(current_module: &str, level: usize, is_package: bool) -> (r:
    Option<String>)
    ensures
        level == 0 ==> r is None,
        level > 0 ==> (r matches Some(b) && b@ == relative_base(current_module@, level as nat, is_package)),
{
    if level == 0 {
        return None;
    }
    if is_package {
        Some(drop_last_components(current_module, level - 1))
    } else {
        Some(drop_last_components(current_module, level))
    }
}

} // verus!
