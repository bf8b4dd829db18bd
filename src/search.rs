use vstd::prelude::*;

verus! {

/// Whether `pat` occurs in `hay` starting at `p`.
pub open spec fn occurs_at(hay: Seq<u8>, pat: Seq<u8>, p: int) -> bool {
    0 <= p && p + pat.len() <= hay.len() && hay.subrange(p, p + pat.len()) == pat
}

/// The first position at or after `from` where `pat` occurs.
pub open spec fn next_occurrence(hay: Seq<u8>, pat: Seq<u8>, from: int) -> Option<int>
    decreases hay.len() + 1 - from,
{
    if from < 0 || from + pat.len() > hay.len() {
        None
    } else if occurs_at(hay, pat, from) {
        Some(from)
    } else {
        next_occurrence(hay, pat, from + 1)
    }
}

/// The positions that a search reports: the first occurrence at or after
/// `from`, then the first at or after that position plus `inc`, and so on,
/// for as long as the position searched from lies inside `hay`.
pub open spec fn search_positions(hay: Seq<u8>, pat: Seq<u8>, inc: nat, from: int) -> Seq<int>
    decreases hay.len() + inc - from,
{
    if from < 0 || from >= hay.len() || inc == 0 {
        Seq::empty()
    } else {
        match next_occurrence(hay, pat, from) {
            None => Seq::empty(),
            Some(p) => if from <= p < hay.len() {
                seq![p] + search_positions(hay, pat, inc, p + inc)
            } else {
                Seq::empty()
            },
        }
    }
}

proof fn lemma_next_occurrence_is(hay: Seq<u8>, pat: Seq<u8>, from: int, q: int)
    requires
        0 <= from <= q,
        occurs_at(hay, pat, q),
        forall|j: int| from <= j < q ==> !occurs_at(hay, pat, j),
    ensures
        next_occurrence(hay, pat, from) == Some(q),
    decreases q - from,
{
    if from < q {
        lemma_next_occurrence_is(hay, pat, from + 1, q);
    }
}

proof fn lemma_next_occurrence_none(hay: Seq<u8>, pat: Seq<u8>, from: int)
    requires
        0 <= from,
        forall|j: int| from <= j ==> !occurs_at(hay, pat, j),
    ensures
        next_occurrence(hay, pat, from) is None,
    decreases hay.len() + 1 - from,
{
    if from + pat.len() <= hay.len() {
        lemma_next_occurrence_none(hay, pat, from + 1);
    }
}

proof fn lemma_next_occurrence_facts(hay: Seq<u8>, pat: Seq<u8>, from: int)
    requires
        0 <= from,
    ensures
        next_occurrence(hay, pat, from) matches Some(p) ==> from <= p && occurs_at(hay, pat, p)
            && forall|j: int| from <= j < p ==> !occurs_at(hay, pat, j),
        next_occurrence(hay, pat, from) is None ==> forall|j: int|
            from <= j ==> !occurs_at(hay, pat, j),
    decreases hay.len() + 1 - from,
{
    if from + pat.len() <= hay.len() && !occurs_at(hay, pat, from) {
        lemma_next_occurrence_facts(hay, pat, from + 1);
    }
}

/// Relies on memchr::memmem::find: the index of the first occurrence of the
/// needle in the haystack, if there is one.
#[verifier::external_body]
fn memmem_find(hay: &[u8], needle: &[u8]) -> (r: Option<usize>)
    ensures
        r matches Some(i) ==> occurs_at(hay@, needle@, i as int) && forall|j: int|
            0 <= j < i ==> !occurs_at(hay@, needle@, j),
        r is None ==> forall|j: int| !occurs_at(hay@, needle@, j),
{
    memchr::memmem::find(hay, needle)
}

proof fn lemma_occurs_shift(hay: Seq<u8>, pat: Seq<u8>, off: int, j: int)
    requires
        0 <= off <= hay.len(),
        0 <= j,
    ensures
        occurs_at(hay.subrange(off, hay.len() as int), pat, j) <==> occurs_at(hay, pat, off + j),
{
    let sub = hay.subrange(off, hay.len() as int);
    if 0 <= j && j + pat.len() <= sub.len() {
        assert(sub.subrange(j, j + pat.len()) =~= hay.subrange(off + j, off + j + pat.len()));
    }
}

/// The first position at or after `from` where `pattern` occurs in `buffer`.
fn find_from(buffer: &[u8], pattern: &[u8], from: usize) -> (r: Option<usize>)
    requires
        from <= buffer@.len(),
    ensures
        r matches Some(p) ==> next_occurrence(buffer@, pattern@, from as int) == Some(p as int),
        r is None ==> next_occurrence(buffer@, pattern@, from as int) is None,
{
    let rest = &buffer[from..buffer.len()];
    let found = memmem_find(rest, pattern);
    match found {
        Some(i) => {
            proof {
                lemma_occurs_shift(buffer@, pattern@, from as int, i as int);
                assert forall|j: int| from <= j < from + i implies !occurs_at(buffer@, pattern@, j) by {
                    lemma_occurs_shift(buffer@, pattern@, from as int, j - from);
                }
                lemma_next_occurrence_is(buffer@, pattern@, from as int, from + i);
            }
            Some(from + i)
        },
        None => {
            proof {
                assert forall|j: int| from <= j implies !occurs_at(buffer@, pattern@, j) by {
                    lemma_occurs_shift(buffer@, pattern@, from as int, j - from);
                }
                lemma_next_occurrence_none(buffer@, pattern@, from as int);
            }
            None
        },
    }
}

/// The positions at which `pattern` occurs in `buffer`: the first
/// occurrence, then after each reported position the first occurrence at
/// least `increment` bytes further on. An increment of 1 reports every
/// occurrence, overlapping ones included.
pub fn binary_search(buffer: &[u8], pattern: &[u8], increment: usize) -> (r: Vec<usize>)
    requires
        pattern@.len() > 0,
        increment > 0,
    ensures
        r@.len() == search_positions(buffer@, pattern@, increment as nat, 0).len(),
        forall|i: int|
            0 <= i < r@.len() ==> r@[i] as int == search_positions(
                buffer@,
                pattern@,
                increment as nat,
                0,
            )[i],
{
    let mut positions: Vec<usize> = Vec::new();
    let mut offset: usize = 0;
    let ghost whole = search_positions(buffer@, pattern@, increment as nat, 0);
    while offset < buffer.len()
        invariant_except_break
            offset <= buffer@.len(),
        invariant
            increment > 0,
            pattern@.len() > 0,
            forall|i: int| 0 <= i < positions@.len() ==> positions@[i] as int == whole[i],
            positions@.len() + search_positions(buffer@, pattern@, increment as nat, offset as int).len()
                == whole.len(),
            forall|i: int|
                0 <= i < search_positions(buffer@, pattern@, increment as nat, offset as int).len()
                    ==> whole[positions@.len() + i] == search_positions(
                    buffer@,
                    pattern@,
                    increment as nat,
                    offset as int,
                )[i],
        ensures
            search_positions(buffer@, pattern@, increment as nat, offset as int).len() == 0,
        decreases buffer@.len() - offset,
    {
        let ghost tail = search_positions(buffer@, pattern@, increment as nat, offset as int);
        match find_from(buffer, pattern, offset) {
            None => {
                break;
            },
            Some(p) => {
                proof {
                    lemma_next_occurrence_facts(buffer@, pattern@, offset as int);
                }
                let next = if increment >= buffer.len() - p {
                    buffer.len()
                } else {
                    p + increment
                };
                proof {
                    let after = search_positions(buffer@, pattern@, increment as nat, p + increment);
                    assert(tail == seq![p as int] + after);
                    if increment >= buffer.len() - p {
                        assert(after.len() == 0);
                        assert(search_positions(buffer@, pattern@, increment as nat, next as int).len()
                            == 0);
                    }
                    assert(whole[positions@.len() as int] == tail[0]);
                    assert forall|i: int|
                        0 <= i < search_positions(
                            buffer@,
                            pattern@,
                            increment as nat,
                            next as int,
                        ).len() implies whole[positions@.len() + 1 + i] == search_positions(
                        buffer@,
                        pattern@,
                        increment as nat,
                        next as int,
                    )[i] by {
                        assert(tail[1 + i] == after[i]);
                    }
                }
                positions.push(p);
                offset = next;
            },
        }
    }
    positions
}

/// With an increment of 1 the search reports every position where the
/// pattern occurs, and nothing else.
pub proof fn lemma_search_finds_every_occurrence(hay: Seq<u8>, pat: Seq<u8>, from: int, q: int)
    requires
        pat.len() > 0,
        0 <= from,
    ensures
        search_positions(hay, pat, 1, from).contains(q) <==> (from <= q && occurs_at(hay, pat, q)),
    decreases hay.len() + 1 - from,
{
    if from < hay.len() {
        lemma_next_occurrence_facts(hay, pat, from);
        match next_occurrence(hay, pat, from) {
            None => {},
            Some(p) => {
                let after = search_positions(hay, pat, 1, p + 1);
                lemma_search_finds_every_occurrence(hay, pat, p + 1, q);
                assert(search_positions(hay, pat, 1, from) == seq![p] + after);
                if after.contains(q) {
                    let k = choose|k: int| 0 <= k < after.len() && after[k] == q;
                    assert((seq![p] + after)[k + 1] == q);
                }
                if q == p {
                    assert((seq![p] + after)[0] == q);
                }
                if (seq![p] + after).contains(q) && q != p {
                    let k = choose|k: int| 0 <= k < (seq![p] + after).len() && (seq![p] + after)[k] == q;
                    assert(after[k - 1] == q);
                }
            },
        }
    } else {
        if from <= q && occurs_at(hay, pat, q) {
            assert(false);
        }
    }
}

} // verus!
