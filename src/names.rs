//! Character-level helpers on dotted names and the lexicographic order of strings.

use vstd::prelude::*;
use vstd::std_specs::iter::IteratorSpec;
use vstd::string::*;

verus! {

/// Lexicographic order on character sequences by code point: the order of `str`'s `Ord`.
pub open spec fn seq_lt(a: Seq<char>, b: Seq<char>) -> bool
    decreases a.len(),
{
    if b.len() == 0 {
        false
    } else if a.len() == 0 {
        true
    } else if a[0] != b[0] {
        (a[0] as int) < (b[0] as int)
    } else {
        seq_lt(a.drop_first(), b.drop_first())
    }
}

pub proof fn lemma_seq_lt_irreflexive(a: Seq<char>)
    ensures
        !seq_lt(a, a),
    decreases a.len(),
{
    if a.len() > 0 {
        lemma_seq_lt_irreflexive(a.drop_first());
    }
}

pub proof fn lemma_seq_lt_total(a: Seq<char>, b: Seq<char>)
    ensures
        a != b ==> seq_lt(a, b) || seq_lt(b, a),
    decreases a.len(),
{
    if a.len() > 0 && b.len() > 0 && a[0] == b[0] {
        lemma_seq_lt_total(a.drop_first(), b.drop_first());
        if a.drop_first() == b.drop_first() {
            assert(a =~= seq![a[0]] + a.drop_first());
            assert(b =~= seq![b[0]] + b.drop_first());
        }
    } else if a.len() == 0 && b.len() == 0 {
        assert(a =~= b);
    } else if a.len() > 0 && b.len() > 0 {
        assert((a[0] as int) != (b[0] as int));
    }
}

pub proof fn lemma_seq_lt_transitive(a: Seq<char>, b: Seq<char>, c: Seq<char>)
    requires
        seq_lt(a, b),
        seq_lt(b, c),
    ensures
        seq_lt(a, c),
    decreases a.len(),
{
    if a.len() > 0 && a[0] == b[0] && b[0] == c[0] {
        lemma_seq_lt_transitive(a.drop_first(), b.drop_first(), c.drop_first());
    }
}

/// The characters of `s`, in order.
pub fn chars_of(s: &str) -> (r: Vec<char>)
    ensures
        r@ == s@,
{
    broadcast use vstd::string::axiom_spec_iter, vstd::string::next_postcondition;

    let n = s.unicode_len();
    let mut it = s.chars();
    let mut r: Vec<char> = Vec::new();
    while r.len() < n
        invariant
            n == s@.len(),
            r@ + it.remaining() == s@,
        decreases n - r.len(),
    {
        match it.next() {
            Some(c) => {
                r.push(c);
                assert(r@ + it.remaining() =~= s@);
            },
            None => {
                assert(r@ =~= s@);
            },
        }
    }
    assert(r@ =~= s@);
    r
}

/// Whether `a` comes before `b` in the lexicographic order of strings.
pub fn str_lt(a: &str, b: &str) -> (r: bool)
    ensures
        r == seq_lt(a@, b@),
{
    let ca = chars_of(a);
    let cb = chars_of(b);
    let la = ca.len();
    let lb = cb.len();
    let mut i: usize = 0;
    assert(a@.skip(0) =~= a@);
    assert(b@.skip(0) =~= b@);
    while i < la && i < lb
        invariant
            ca@ == a@,
            cb@ == b@,
            la == a@.len(),
            lb == b@.len(),
            i <= la,
            i <= lb,
            seq_lt(a@, b@) == seq_lt(a@.skip(i as int), b@.skip(i as int)),
        decreases la - i,
    {
        let x = ca[i];
        let y = cb[i];
        if x != y {
            return x < y;
        }
        assert(a@.skip(i as int).drop_first() =~= a@.skip(i + 1));
        assert(b@.skip(i as int).drop_first() =~= b@.skip(i + 1));
        i = i + 1;
    }
    i < lb
}

/// Whether the characters of `s` are equal to those of `t`.
pub fn str_eq(s: &str, t: &str) -> (r: bool)
    ensures
        r == (s@ == t@),
{
    let cs = chars_of(s);
    let ct = chars_of(t);
    let ls = cs.len();
    let lt = ct.len();
    if ls != lt {
        return false;
    }
    let mut i: usize = 0;
    while i < ls
        invariant
            cs@ == s@,
            ct@ == t@,
            ls == s@.len(),
            lt == t@.len(),
            ls == lt,
            i <= ls,
            s@.take(i as int) == t@.take(i as int),
        decreases ls - i,
    {
        if cs[i] != ct[i] {
            return false;
        }
        assert(s@.take(i + 1) =~= s@.take(i as int).push(s@[i as int]));
        assert(t@.take(i + 1) =~= t@.take(i as int).push(t@[i as int]));
        i = i + 1;
    }
    assert(s@ =~= s@.take(ls as int));
    assert(t@ =~= t@.take(lt as int));
    true
}

/// `prefix` followed by a dot begins `name`.
pub open spec fn is_dotted_prefix(prefix: Seq<char>, name: Seq<char>) -> bool {
    &&& name.len() > prefix.len()
    &&& name.subrange(0, prefix.len() as int) == prefix
    &&& name[prefix.len() as int] == '.'
}

/// What follows `prefix` and its dot in `name`.
pub open spec fn after_dotted_prefix(prefix: Seq<char>, name: Seq<char>) -> Seq<char> {
    name.subrange(prefix.len() + 1int, name.len() as int)
}

/// `a`, a dot, then `b`.
pub open spec fn dotted(a: Seq<char>, b: Seq<char>) -> Seq<char> {
    a + seq!['.'] + b
}

/// Whether `name` begins with `prefix` followed by a dot.
pub fn has_dotted_prefix(name: &str, prefix: &str) -> (r: bool)
    ensures
        r == is_dotted_prefix(prefix@, name@),
{
    let cn = chars_of(name);
    let cp = chars_of(prefix);
    let ln = cn.len();
    let lp = cp.len();
    if ln <= lp {
        return false;
    }
    let mut i: usize = 0;
    while i < lp
        invariant
            cn@ == name@,
            cp@ == prefix@,
            ln == name@.len(),
            lp == prefix@.len(),
            lp < ln,
            i <= lp,
            name@.take(i as int) == prefix@.take(i as int),
        decreases lp - i,
    {
        if cn[i] != cp[i] {
            assert(name@.subrange(0, lp as int)[i as int] != prefix@[i as int]);
            return false;
        }
        assert(name@.take(i + 1) =~= name@.take(i as int).push(name@[i as int]));
        assert(prefix@.take(i + 1) =~= prefix@.take(i as int).push(prefix@[i as int]));
        i = i + 1;
    }
    assert(prefix@ =~= prefix@.take(lp as int));
    assert(name@.subrange(0, lp as int) =~= name@.take(lp as int));
    cn[lp] == '.'
}

/// The characters of `s` from `from` up to `to`, as a new string.
pub fn substring(s: &str, from: usize, to: usize) -> (r: String)
    requires
        from <= to <= s@.len(),
    ensures
        r@ == s@.subrange(from as int, to as int),
{
    s.substring_char(from, to).to_owned()
}

/// `a`, a dot, then `b`, as a new string.
pub fn join_dotted(a: &str, b: &str) -> (r: String)
    ensures
        r@ == dotted(a@, b@),
{
    let s = a.to_owned().concat(".");
    proof {
        reveal_strlit(".");
    }
    s.concat(b)
}

} // verus!
