use vstd::prelude::*;
use vstd::string::StrSliceExecFns;

verus! {

/// The characters of the string, in order.
pub(crate) fn chars_of(s: &str) -> (r: Vec<char>)
    ensures
        r@ == s@,
{
    let n = s.unicode_len();
    let mut r: Vec<char> = Vec::new();
    let mut i: usize = 0;
    while i < n
        invariant
            n == s@.len(),
            i <= n,
            r@ == s@.take(i as int),
        decreases n - i,
    {
        r.push(s.get_char(i));
        assert(r@ =~= s@.take(i + 1));
        i = i + 1;
    }
    assert(r@ =~= s@);
    r
}

/// Relies on collecting characters into a `String` (`FromIterator<char>`):
/// the string of `v[from..to]`.
#[verifier::external_body]
pub(crate) fn string_of(v: &Vec<char>, from: usize, to: usize) -> (r: String)
    requires
        from <= to <= v@.len(),
    ensures
        r@ == v@.subrange(from as int, to as int),
{
    v[from..to].iter().collect()
}

pub(crate) fn chars_eq(a: &Vec<char>, b: &Vec<char>) -> (r: bool)
    ensures
        r == (a@ == b@),
{
    if a.len() != b.len() {
        return false;
    }
    let mut i: usize = 0;
    while i < a.len()
        invariant
            a@.len() == b@.len(),
            i <= a@.len(),
            forall|j: int| 0 <= j < i ==> a@[j] == b@[j],
        decreases a@.len() - i,
    {
        if a[i] != b[i] {
            return false;
        }
        i = i + 1;
    }
    assert(a@ =~= b@);
    true
}

/// The length of the longest common prefix of `a` and `b[from..]`.
pub(crate) fn common_prefix_len(a: &Vec<char>, b: &Vec<char>, from: usize) -> (r: usize)
    requires
        from <= b@.len(),
    ensures
        r <= a@.len(),
        from + r <= b@.len(),
        a@.subrange(0, r as int) == b@.subrange(from as int, from + r),
        r == a@.len() || from + r == b@.len() || a@[r as int] != b@[from + r],
{
    let n: usize = b.len();
    let mut i: usize = 0;
    while i < a.len() && from + i < n && a[i] == b[from + i]
        invariant
            n == b@.len(),
            from <= n,
            i <= a@.len(),
            from + i <= n,
            a@.subrange(0, i as int) == b@.subrange(from as int, from + i),
        decreases a@.len() - i,
    {
        assert(a@.subrange(0, i + 1) =~= b@.subrange(from as int, from + i + 1));
        i = i + 1;
    }
    i
}

/// `v[from..to]` as a new vector.
pub(crate) fn sub_chars(v: &Vec<char>, from: usize, to: usize) -> (r: Vec<char>)
    requires
        from <= to <= v@.len(),
    ensures
        r@ == v@.subrange(from as int, to as int),
{
    let mut r: Vec<char> = Vec::new();
    let mut i: usize = from;
    while i < to
        invariant
            from <= i <= to <= v@.len(),
            r@ == v@.subrange(from as int, i as int),
        decreases to - i,
    {
        r.push(v[i]);
        assert(r@ =~= v@.subrange(from as int, i + 1));
        i = i + 1;
    }
    r
}

} // verus!
