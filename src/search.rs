use vstd::prelude::*;

verus! {

/// The first position at or after `i` of an element whose key is `name`, or -1.
pub open spec fn find_key<A>(s: Seq<A>, key: spec_fn(A) -> Seq<char>, name: Seq<char>, i: int) -> int
    decreases s.len() - i,
{
    if i < 0 || i >= s.len() {
        -1
    } else if key(s[i]) == name {
        i
    } else {
        find_key(s, key, name, i + 1)
    }
}

pub proof fn lemma_find_key<A>(s: Seq<A>, key: spec_fn(A) -> Seq<char>, name: Seq<char>, i: int)
    requires
        0 <= i,
    ensures
        -1 <= find_key(s, key, name, i) < s.len(),
        find_key(s, key, name, i) >= 0 ==> find_key(s, key, name, i) >= i && key(
            s[find_key(s, key, name, i)],
        ) == name,
        find_key(s, key, name, i) < 0 <==> (forall|k: int| i <= k < s.len() ==> key(s[k]) != name),
        forall|k: int| i <= k < find_key(s, key, name, i) ==> key(s[k]) != name,
    decreases s.len() - i,
{
    if i < s.len() && key(s[i]) != name {
        lemma_find_key(s, key, name, i + 1);
    }
}

} // verus!
