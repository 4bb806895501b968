//! Small helpers on strings and characters.

use vstd::prelude::*;
use vstd::std_specs::iter::IteratorSpec;

verus! {

broadcast use vstd::string::group_string_axioms;

/// Appends a character with `String::push`; the contract claims what its
/// documentation says: the character is added at the end.
#[verifier::external_body]
pub(crate) fn string_push(s: &mut String, c: char)
    ensures
        final(s)@ == old(s)@.push(c),
{
    s.push(c);
}

/// The characters of a string, in order.
pub fn str_chars(s: &str) -> (r: Vec<char>)
    ensures
        r@ == s@,
{
    let mut out: Vec<char> = Vec::new();
    for c in it: s.chars()
        invariant
            it.seq() == s@,
            out@ == it.seq().take(it.index()),
    {
        out.push(c);
        assert(out@ =~= it.seq().take(it.index() + 1));
    }
    assert(out@ =~= s@);
    out
}

/// A string made of the characters of a sequence.
pub fn string_from_chars(chars: &[char]) -> (r: String)
    ensures
        r@ == chars@,
{
    let mut s = String::new();
    let mut i: usize = 0;
    while i < chars.len()
        invariant
            i <= chars@.len(),
            s@ == chars@.take(i as int),
        decreases chars@.len() - i,
    {
        string_push(&mut s, chars[i]);
        i = i + 1;
        assert(s@ =~= chars@.take(i as int));
    }
    assert(chars@.take(chars@.len() as int) =~= chars@);
    s
}

/// The views of a sequence of strings.
pub open spec fn strings_view(v: Seq<String>) -> Seq<Seq<char>> {
    v.map_values(|x: String| x@)
}

/// Whether two texts are equal, character by character.
pub fn text_eq(a: &str, b: &str) -> (r: bool)
    ensures
        r == (a@ == b@),
{
    let x = str_chars(a);
    let y = str_chars(b);
    if x.len() != y.len() {
        return false;
    }
    let mut i: usize = 0;
    while i < x.len()
        invariant
            i <= x@.len(),
            x@.len() == y@.len(),
            x@ == a@,
            y@ == b@,
            forall|j: int| 0 <= j < i ==> x@[j] == y@[j],
        decreases x@.len() - i,
    {
        if x[i] != y[i] {
            return false;
        }
        i = i + 1;
    }
    assert(x@ =~= y@);
    true
}

/// `f` occurs in `t`.
pub open spec fn has_part(t: Seq<char>, f: Seq<char>) -> bool {
    exists|i: int| 0 <= i <= t.len() - f.len() && #[trigger] t.subrange(i, i + f.len()) == f
}

/// Whether `f` occurs in `t`.
pub fn text_contains(t: &str, f: &str) -> (r: bool)
    ensures
        r == has_part(t@, f@),
{
    let x = str_chars(t);
    let y = str_chars(f);
    let xl = x.len();
    let yl = y.len();
    if yl > xl {
        return false;
    }
    let mut i: usize = 0;
    while i <= xl - yl
        invariant
            xl == x@.len(),
            yl == y@.len(),
            x@ == t@,
            y@ == f@,
            y@.len() <= x@.len(),
            i <= x@.len() - y@.len() + 1,
            forall|k: int| 0 <= k < i ==> #[trigger] x@.subrange(k, k + y@.len()) != y@,
        decreases x@.len() - y@.len() + 1 - i,
    {
        let mut j: usize = 0;
        while j < yl && x[i + j] == y[j]
            invariant
                xl == x@.len(),
                yl == y@.len(),
                y@.len() <= x@.len(),
                i <= x@.len() - y@.len(),
                j <= y@.len(),
                forall|m: int| 0 <= m < j ==> x@[i + m] == y@[m],
            decreases y@.len() - j,
        {
            j = j + 1;
        }
        if j == yl {
            proof {
                assert(x@.subrange(i as int, i + y@.len()) =~= y@);
            }
            return true;
        }
        proof {
            assert(x@.subrange(i as int, i + y@.len())[j as int] != y@[j as int]);
        }
        i = i + 1;
    }
    proof {
        assert forall|k: int| 0 <= k <= t@.len() - f@.len() implies #[trigger] t@.subrange(k, k + f@.len()) != f@ by {
            assert(x@.subrange(k, k + y@.len()) != y@);
        }
    }
    false
}

/// `f` occurs in `t` exactly when it stands at some position of `t`.
pub proof fn lemma_has_part_at(t: Seq<char>, f: Seq<char>, i: int)
    ensures
        0 <= i <= t.len() - f.len() && t.subrange(i, i + f.len()) == f ==> has_part(t, f),
        has_part(t, f) ==> exists|j: int| 0 <= j <= t.len() - f.len() && #[trigger] t.subrange(j, j + f.len()) == f,
{
}

/// What occurs in a text occurs in any text around it; in particular a
/// text occurs in itself, and at the start or the end of a longer one.
pub proof fn lemma_has_part_extends(t: Seq<char>, f: Seq<char>, a: Seq<char>, b: Seq<char>)
    requires
        has_part(t, f),
    ensures
        has_part(a + t + b, f),
{
    let i = choose|i: int| 0 <= i <= t.len() - f.len() && #[trigger] t.subrange(i, i + f.len()) == f;
    let u = a + t + b;
    let j = a.len() + i;
    assert(u.subrange(j, j + f.len()) =~= t.subrange(i, i + f.len()));
    lemma_has_part_at(u, f, j);
}

/// A text occurs in itself.
pub proof fn lemma_has_part_self(t: Seq<char>)
    ensures
        has_part(t, t),
{
    assert(t.subrange(0, t.len() as int) =~= t);
    lemma_has_part_at(t, t, 0);
}

} // verus!
