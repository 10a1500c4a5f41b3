use vstd::prelude::*;

verus! {

/// Number of free (unowned) blocks in a block-owner map.
pub open spec fn count_free(s: Seq<Option<u16>>) -> nat
    decreases s.len(),
{
    if s.len() == 0 {
        0
    } else {
        count_free(s.drop_last()) + if s.last() is None { 1nat } else { 0nat }
    }
}

/// Number of owned blocks in a block-owner map.
pub open spec fn count_owned(s: Seq<Option<u16>>) -> nat
    decreases s.len(),
{
    if s.len() == 0 {
        0
    } else {
        count_owned(s.drop_last()) + if s.last() is Some { 1nat } else { 0nat }
    }
}

/// Owned and free blocks together make up the whole map.
pub proof fn lemma_owned_plus_free(s: Seq<Option<u16>>)
    ensures
        count_owned(s) + count_free(s) == s.len(),
    decreases s.len(),
{
    if s.len() > 0 {
        lemma_owned_plus_free(s.drop_last());
    }
}

pub proof fn lemma_count_free_push(s: Seq<Option<u16>>, v: Option<u16>)
    ensures
        count_free(s.push(v)) == count_free(s) + if v is None { 1nat } else { 0nat },
{
    assert(s.push(v).drop_last() =~= s);
}

pub proof fn lemma_count_free_prefix(s: Seq<Option<u16>>, m: int)
    requires
        0 <= m < s.len(),
    ensures
        count_free(s.subrange(0, m + 1)) == count_free(s.subrange(0, m)) + if s[m] is None {
            1nat
        } else {
            0nat
        },
{
    assert(s.subrange(0, m + 1).drop_last() =~= s.subrange(0, m));
}

pub proof fn lemma_count_free_update(s: Seq<Option<u16>>, k: int, v: Option<u16>)
    requires
        0 <= k < s.len(),
    ensures
        count_free(s.update(k, v)) + (if s[k] is None { 1nat } else { 0nat }) == count_free(s)
            + (if v is None { 1nat } else { 0nat }),
    decreases s.len(),
{
    let t = s.update(k, v);
    if k == s.len() - 1 {
        assert(t.drop_last() =~= s.drop_last());
    } else {
        assert(t.drop_last() =~= s.drop_last().update(k, v));
        lemma_count_free_update(s.drop_last(), k, v);
    }
}

pub proof fn lemma_count_free_le(s: Seq<Option<u16>>)
    ensures
        count_free(s) <= s.len(),
    decreases s.len(),
{
    if s.len() > 0 {
        lemma_count_free_le(s.drop_last());
    }
}

/// A stretch of owned blocks adds nothing to the free count of a prefix.
pub proof fn lemma_count_free_prefix_owned(s: Seq<Option<u16>>, b: int, k: int)
    requires
        0 <= b,
        0 <= k,
        b + k <= s.len(),
        forall|x: int| b <= x < b + k ==> (#[trigger] s[x]) is Some,
    ensures
        count_free(s.subrange(0, b + k)) == count_free(s.subrange(0, b)),
    decreases k,
{
    if k > 0 {
        lemma_count_free_prefix_owned(s, b, k - 1);
        lemma_count_free_prefix(s, b + k - 1);
    }
}

/// A map with no free block has a free count of zero.
pub proof fn lemma_count_free_none(s: Seq<Option<u16>>)
    requires
        forall|x: int| 0 <= x < s.len() ==> (#[trigger] s[x]) is Some,
    ensures
        count_free(s) == 0,
    decreases s.len(),
{
    if s.len() > 0 {
        lemma_count_free_none(s.drop_last());
    }
}

/// Appending `k` free blocks adds `k` to the free count.
pub proof fn lemma_count_free_tail(s: Seq<Option<u16>>, k: nat)
    ensures
        count_free(s + Seq::new(k, |x: int| None::<u16>)) == count_free(s) + k,
    decreases k,
{
    if k > 0 {
        lemma_count_free_tail(s, (k - 1) as nat);
        let t = s + Seq::new(k, |x: int| None::<u16>);
        assert(t.drop_last() =~= s + Seq::new((k - 1) as nat, |x: int| None::<u16>));
    }
}

} // verus!
