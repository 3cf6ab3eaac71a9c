//! Searching memory for a byte pattern.
use vstd::prelude::*;

verus! {

/// `pat` occurs in `data` at `i`.
pub open spec fn matches_at(data: Seq<u8>, pat: Seq<u8>, i: int) -> bool {
    0 <= i && i + pat.len() <= data.len() && data.subrange(i, i + pat.len()) == pat
}

/// Every place where `pat` occurs in the first `n` starting points of
/// `data`, in increasing order.
pub open spec fn match_starts(data: Seq<u8>, pat: Seq<u8>, n: int) -> Seq<usize>
    decreases n,
{
    if n <= 0 {
        Seq::empty()
    } else {
        let r = match_starts(data, pat, n - 1);
        if matches_at(data, pat, n - 1) { r.push((n - 1) as usize) } else { r }
    }
}

/// How many matches a scan reports: at most `max` of them, but a scan
/// always reports the first match it finds.
pub open spec fn scan_limit(total: nat, max: usize) -> nat {
    let cap: nat = if max == 0 { 1 } else { max as nat };
    if total < cap { total } else { cap }
}

proof fn lemma_match_starts_len(data: Seq<u8>, pat: Seq<u8>, n: int)
    requires
        n >= 0,
    ensures
        match_starts(data, pat, n).len() <= n,
    decreases n,
{
    if n > 0 {
        lemma_match_starts_len(data, pat, n - 1);
    }
}

proof fn lemma_match_starts_prefix(data: Seq<u8>, pat: Seq<u8>, m: int, n: int)
    requires
        0 <= m <= n,
    ensures
        match_starts(data, pat, m).len() <= match_starts(data, pat, n).len(),
        match_starts(data, pat, n).take(match_starts(data, pat, m).len() as int) == match_starts(data, pat, m),
    decreases n - m,
{
    if m < n {
        lemma_match_starts_prefix(data, pat, m, n - 1);
        let a = match_starts(data, pat, m);
        let b = match_starts(data, pat, n - 1);
        if matches_at(data, pat, n - 1) {
            assert(b.push((n - 1) as usize).take(a.len() as int) =~= b.take(a.len() as int));
        }
    } else {
        assert(match_starts(data, pat, n).take(match_starts(data, pat, n).len() as int) =~= match_starts(data, pat, n));
    }
}

/// The places where `pattern` occurs in `data`, overlapping ones included,
/// in increasing order, up to `max_matches` of them (the first one is
/// always reported); none for an empty pattern.
pub fn mem_scan_pattern(data: &[u8], pattern: &[u8], max_matches: usize) -> (r: Vec<usize>)
    ensures
        pattern@.len() == 0 || data@.len() < pattern@.len() ==> r@.len() == 0,
        pattern@.len() > 0 && data@.len() >= pattern@.len() ==> {
            let all = match_starts(data@, pattern@, data@.len() as int);
            r@ == all.take(scan_limit(all.len(), max_matches) as int)
        },
{
    let mut results: Vec<usize> = Vec::new();
    if pattern.len() == 0 || data.len() < pattern.len() {
        return results;
    }
    let plen = pattern.len();
    let dlen = data.len();
    let last = dlen - plen;
    let ghost all = match_starts(data@, pattern@, data@.len() as int);
    let ghost cap: nat = if max_matches == 0 { 1 } else { max_matches as nat };
    let mut i: usize = 0;
    while i <= last
        invariant_except_break
            results@ == match_starts(data@, pattern@, i as int),
            results@.len() < cap,
            i == last + 1 ==> results@ == all && all.take(all.len() as int) == all,
        invariant
            dlen == data@.len(),
            plen == pattern@.len(),
            plen > 0,
            last == data@.len() - plen,
            i <= last + 1,
            all == match_starts(data@, pattern@, data@.len() as int),
            cap == (if max_matches == 0 { 1nat } else { max_matches as nat }),
        ensures
            results@ == all.take(scan_limit(all.len(), max_matches) as int),
        decreases last + 1 - i,
    {
        let mut k: usize = 0;
        while k < plen && data[i + k] == pattern[k]
            invariant
                dlen == data@.len(),
                plen == pattern@.len(),
                i <= last,
                last == data@.len() - plen,
                k <= plen,
                forall|j: int| 0 <= j < k ==> data@[i + j] == pattern@[j],
            decreases plen - k,
        {
            k = k + 1;
        }
        proof {
            if k == plen {
                assert(data@.subrange(i as int, i + plen) =~= pattern@);
            } else {
                assert(data@[i + k] != pattern@[k as int]);
                assert(data@.subrange(i as int, i + plen)[k as int] == data@[i + k]);
            }
        }
        if k == plen {
            results.push(i);
            if results.len() >= max_matches {
                proof {
                    lemma_match_starts_prefix(data@, pattern@, i as int + 1, data@.len() as int);
                    lemma_match_starts_len(data@, pattern@, i as int + 1);
                }
                break;
            }
        }
        i = i + 1;
        proof {
            if i > last {
                assert(i as int == data@.len() - plen + 1);
                lemma_match_starts_tail(data@, pattern@, i as int, data@.len() as int);
                lemma_take_all(all);
            }
        }
    }
    results
}

proof fn lemma_take_all<A>(s: Seq<A>)
    ensures
        s.take(s.len() as int) == s,
{
    assert(s.take(s.len() as int) =~= s);
}

proof fn lemma_match_starts_tail(data: Seq<u8>, pat: Seq<u8>, m: int, n: int)
    requires
        pat.len() > 0,
        data.len() - pat.len() + 1 <= m <= n,
    ensures
        match_starts(data, pat, n) == match_starts(data, pat, m),
    decreases n - m,
{
    if m < n {
        lemma_match_starts_tail(data, pat, m, n - 1);
        assert(!matches_at(data, pat, n - 1));
    }
}

} // verus!
