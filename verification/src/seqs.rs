//! Sequences: where an item of some kind first stands.

use vstd::prelude::*;

verus! {

/// Where the first item of `s` that meets `p` stands; the length of `s` if
/// none does.
pub open spec fn first_index<T>(s: Seq<T>, p: spec_fn(T) -> bool) -> int
    decreases s.len(),
{
    if s.len() == 0 {
        0
    } else if p(s[0]) {
        0
    } else {
        1 + first_index(s.drop_first(), p)
    }
}

/// What `first_index` finds: an item that meets `p` with none before it that
/// does, or the end of the sequence.
pub proof fn lemma_first_index<T>(s: Seq<T>, p: spec_fn(T) -> bool)
    ensures
        0 <= first_index(s, p) <= s.len(),
        first_index(s, p) < s.len() ==> p(s[first_index(s, p)]),
        forall|j: int| 0 <= j < first_index(s, p) ==> !p(#[trigger] s[j]),
    decreases s.len(),
{
    if s.len() > 0 && !p(s[0]) {
        let rest = s.drop_first();
        lemma_first_index(rest, p);
        assert forall|j: int| 0 <= j < first_index(s, p) implies !p(#[trigger] s[j]) by {
            if j > 0 {
                assert(rest[j - 1] == s[j]);
            }
        }
    }
}

/// The place `at` is what `first_index` finds if no item before it meets `p`
/// and the item there does, or `at` is the end.
pub proof fn lemma_first_index_is<T>(s: Seq<T>, p: spec_fn(T) -> bool, at: int)
    requires
        0 <= at <= s.len(),
        forall|j: int| 0 <= j < at ==> !p(#[trigger] s[j]),
        at < s.len() ==> p(s[at]),
    ensures
        first_index(s, p) == at,
{
    lemma_first_index(s, p);
    let found = first_index(s, p);
    if found < at {
        assert(!p(s[found]));
    }
    if at < found {
        assert(!p(s[at]));
    }
}

/// Whether `at` is the first place of `keys` that holds the least of them.
pub open spec fn is_first_least(keys: Seq<u32>, at: int) -> bool {
    &&& 0 <= at < keys.len()
    &&& forall|j: int| 0 <= j < keys.len() ==> keys[at] <= #[trigger] keys[j]
    &&& forall|j: int| 0 <= j < at ==> keys[at] < #[trigger] keys[j]
}

/// The first place of `keys` that holds the least of them.
pub fn first_least(keys: &Vec<u32>) -> (r: usize)
    requires
        keys@.len() > 0,
    ensures
        is_first_least(keys@, r as int),
{
    let mut best: usize = 0;
    let mut i: usize = 1;
    while i < keys.len()
        invariant
            1 <= i <= keys@.len(),
            best < i,
            forall|j: int| 0 <= j < i ==> keys@[best as int] <= #[trigger] keys@[j],
            forall|j: int| 0 <= j < best ==> keys@[best as int] < #[trigger] keys@[j],
        decreases keys@.len() - i,
    {
        if keys[i] < keys[best] {
            best = i;
        }
        i += 1;
    }
    best
}

} // verus!
