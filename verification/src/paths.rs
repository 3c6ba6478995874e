//! Path-string helpers: the first `::`-delimited segment of a re-export
//! path, and character-wise string equality.

use vstd::prelude::*;
use vstd::string::StrSliceExecFns;

verus! {

/// The first `::`-delimited segment of a path: the characters before the
/// first `::`, or the whole path when it contains none.
pub open spec fn first_segment(s: Seq<char>) -> Seq<char>
    decreases s.len(),
{
    if s.len() < 2 {
        s
    } else if s[0] == ':' && s[1] == ':' {
        Seq::empty()
    } else {
        seq![s[0]] + first_segment(s.drop_first())
    }
}

proof fn lemma_first_segment_no_sep(s: Seq<char>)
    requires
        forall|k: int| 0 <= k < s.len() - 1 ==> !((#[trigger] s[k]) == ':' && s[k + 1] == ':'),
    ensures
        first_segment(s) == s,
    decreases s.len(),
{
    if s.len() < 2 {
    } else {
        assert(!(s[0] == ':' && s[1] == ':'));
        let rest = s.drop_first();
        assert forall|k: int| 0 <= k < rest.len() - 1 implies !((#[trigger] rest[k]) == ':'
            && rest[k + 1] == ':') by {
            assert(rest[k] == s[k + 1]);
            assert(rest[k + 1] == s[k + 2]);
        }
        lemma_first_segment_no_sep(rest);
        assert(seq![s[0]] + rest =~= s);
    }
}

proof fn lemma_first_segment_sep(s: Seq<char>, j: int)
    requires
        0 <= j,
        j + 2 <= s.len(),
        s[j] == ':' && s[j + 1] == ':',
        forall|k: int| 0 <= k < j ==> !((#[trigger] s[k]) == ':' && s[k + 1] == ':'),
    ensures
        first_segment(s) == s.take(j),
    decreases j,
{
    if j == 0 {
        assert(first_segment(s) == Seq::<char>::empty());
        assert(s.take(0) =~= Seq::<char>::empty());
    } else {
        assert(!(s[0] == ':' && s[1] == ':'));
        let rest = s.drop_first();
        assert(rest[j - 1] == s[j]);
        assert(rest[j] == s[j + 1]);
        assert forall|k: int| 0 <= k < j - 1 implies !((#[trigger] rest[k]) == ':' && rest[k + 1]
            == ':') by {
            assert(rest[k] == s[k + 1]);
            assert(rest[k + 1] == s[k + 2]);
        }
        lemma_first_segment_sep(rest, j - 1);
        assert(seq![s[0]] + rest.take(j - 1) =~= s.take(j));
    }
}

/// The first `::`-delimited segment of a path string.
pub fn path_first_segment(s: &str) -> (r: String)
    ensures
        r@ == first_segment(s@),
{
    let n = s.unicode_len();
    if n >= 1 {
        let mut i: usize = 0;
        while i < n - 1
            invariant
                n == s@.len(),
                1 <= n,
                0 <= i <= n - 1,
                forall|k: int| 0 <= k < i ==> !((#[trigger] s@[k]) == ':' && s@[k + 1] == ':'),
            decreases n - i,
        {
            if s.get_char(i) == ':' && s.get_char(i + 1) == ':' {
                let seg = s.substring_char(0, i);
                proof {
                    lemma_first_segment_sep(s@, i as int);
                    assert(s@.subrange(0, i as int) =~= s@.take(i as int));
                }
                return seg.to_owned();
            }
            i += 1;
        }
    }
    proof {
        lemma_first_segment_no_sep(s@);
    }
    s.to_owned()
}

/// Character-for-character equality of two string slices.
pub fn str_eq(a: &str, b: &str) -> (r: bool)
    ensures
        r == (a@ == b@),
{
    let an = a.unicode_len();
    let bn = b.unicode_len();
    if an != bn {
        return false;
    }
    let mut i: usize = 0;
    while i < an
        invariant
            an == a@.len(),
            an == b@.len(),
            0 <= i <= an,
            forall|k: int| 0 <= k < i ==> a@[k] == b@[k],
        decreases an - i,
    {
        if a.get_char(i) != b.get_char(i) {
            return false;
        }
        i += 1;
    }
    proof {
        assert(a@ =~= b@);
    }
    true
}

} // verus!
