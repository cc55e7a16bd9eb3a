//! Searching for a pattern inside a sequence: the first and the last place
//! where it occurs, over characters and over bytes.

use vstd::prelude::*;

verus! {

/// `p` occurs in `s` starting at index `i`.
pub open spec fn match_at<T>(s: Seq<T>, p: Seq<T>, i: int) -> bool {
    &&& 0 <= i
    &&& i + p.len() <= s.len()
    &&& forall|k: int| 0 <= k < p.len() ==> s[i + k] == p[k]
}

/// `i` is the first place where `p` occurs in `s`.
pub open spec fn is_first_match<T>(s: Seq<T>, p: Seq<T>, i: int) -> bool {
    &&& match_at(s, p, i)
    &&& forall|j: int| 0 <= j < i ==> !#[trigger] match_at(s, p, j)
}

/// `i` is the last place where `p` occurs in `s`.
pub open spec fn is_last_match<T>(s: Seq<T>, p: Seq<T>, i: int) -> bool {
    &&& match_at(s, p, i)
    &&& forall|j: int| i < j ==> !#[trigger] match_at(s, p, j)
}

/// The index of the first occurrence of `p` in `s`, if any (`str::find`).
pub open spec fn find<T>(s: Seq<T>, p: Seq<T>) -> Option<int> {
    if exists|i: int| is_first_match(s, p, i) {
        Some(choose|i: int| is_first_match(s, p, i))
    } else {
        None
    }
}

/// The index of the last occurrence of `p` in `s`, if any (`str::rfind`).
pub open spec fn rfind<T>(s: Seq<T>, p: Seq<T>) -> Option<int> {
    if exists|i: int| is_last_match(s, p, i) {
        Some(choose|i: int| is_last_match(s, p, i))
    } else {
        None
    }
}

/// `s` begins with `p`.
pub open spec fn starts_with<T>(s: Seq<T>, p: Seq<T>) -> bool {
    match_at(s, p, 0)
}

/// A pattern of one element occurs exactly where that element stands.
pub proof fn lemma_match_single<T>(s: Seq<T>, c: T, j: int)
    ensures
        match_at(s, seq![c], j) <==> (0 <= j < s.len() && s[j] == c),
{
    if match_at(s, seq![c], j) {
        assert(s[j + 0] == seq![c][0]);
    }
    if 0 <= j < s.len() && s[j] == c {
        assert forall|k: int| 0 <= k < 1 implies s[j + k] == seq![c][k] by {
            assert(k == 0);
        }
    }
}

pub proof fn lemma_find_is<T>(s: Seq<T>, p: Seq<T>, i: int)
    requires
        is_first_match(s, p, i),
    ensures
        find(s, p) == Some(i),
{
    let k = choose|k: int| is_first_match(s, p, k);
    assert(is_first_match(s, p, k));
    if k < i {
        assert(!match_at(s, p, k));
    } else if i < k {
        assert(!match_at(s, p, i));
    }
}

pub proof fn lemma_rfind_is<T>(s: Seq<T>, p: Seq<T>, i: int)
    requires
        is_last_match(s, p, i),
    ensures
        rfind(s, p) == Some(i),
{
    let k = choose|k: int| is_last_match(s, p, k);
    assert(is_last_match(s, p, k));
    if k < i {
        assert(!match_at(s, p, i));
    } else if i < k {
        assert(!match_at(s, p, k));
    }
}

proof fn lemma_first_match_exists<T>(s: Seq<T>, p: Seq<T>, k: int)
    requires
        match_at(s, p, k),
    ensures
        exists|i: int| is_first_match(s, p, i),
    decreases k,
{
    if exists|j: int| 0 <= j < k && match_at(s, p, j) {
        let j = choose|j: int| 0 <= j < k && match_at(s, p, j);
        lemma_first_match_exists(s, p, j);
    } else {
        assert(is_first_match(s, p, k));
    }
}

proof fn lemma_last_match_exists<T>(s: Seq<T>, p: Seq<T>, k: int)
    requires
        match_at(s, p, k),
    ensures
        exists|i: int| is_last_match(s, p, i),
    decreases s.len() - k,
{
    if exists|j: int| k < j && match_at(s, p, j) {
        let j = choose|j: int| k < j && match_at(s, p, j);
        lemma_last_match_exists(s, p, j);
    } else {
        assert(is_last_match(s, p, k));
    }
}

/// `find` is `Some` exactly where the pattern occurs, and then it names the
/// first occurrence.
pub proof fn lemma_find<T>(s: Seq<T>, p: Seq<T>)
    ensures
        find(s, p) is None <==> forall|i: int| !#[trigger] match_at(s, p, i),
        find(s, p) matches Some(i) ==> is_first_match(s, p, i),
{
    if exists|i: int| match_at(s, p, i) {
        let i = choose|i: int| match_at(s, p, i);
        lemma_first_match_exists(s, p, i);
    }
}

/// `rfind` is `Some` exactly where the pattern occurs, and then it names the
/// last occurrence.
pub proof fn lemma_rfind<T>(s: Seq<T>, p: Seq<T>)
    ensures
        rfind(s, p) is None <==> forall|i: int| !#[trigger] match_at(s, p, i),
        rfind(s, p) matches Some(i) ==> is_last_match(s, p, i),
{
    if exists|i: int| match_at(s, p, i) {
        let i = choose|i: int| match_at(s, p, i);
        lemma_last_match_exists(s, p, i);
    }
}

/// The first index in `v[from..to]` that holds `c`, as an index of `v`.
pub fn find_char(v: &Vec<char>, from: usize, to: usize, c: char) -> (res: Option<usize>)
    requires
        from <= to <= v@.len(),
    ensures
        match res {
            Some(k) => from <= k < to && find(v@.subrange(from as int, to as int), seq![c]) == Some(
                k - from,
            ),
            None => find(v@.subrange(from as int, to as int), seq![c]) is None,
        },
{
    let ghost s = v@.subrange(from as int, to as int);
    let mut i: usize = from;
    while i < to
        invariant
            from <= i <= to <= v@.len(),
            s == v@.subrange(from as int, to as int),
            forall|j: int| from <= j < i ==> v@[j] != c,
        decreases to - i,
    {
        if v[i] == c {
            proof {
                assert forall|j: int| 0 <= j < i - from implies !#[trigger] match_at(s, seq![c], j) by {
                    lemma_match_single(s, c, j);
                }
                lemma_match_single(s, c, i - from);
                lemma_find_is(s, seq![c], i - from);
            }
            return Some(i);
        }
        i = i + 1;
    }
    proof {
        assert forall|j: int| !#[trigger] match_at(s, seq![c], j) by {
            lemma_match_single(s, c, j);
        }
        lemma_find(s, seq![c]);
    }
    None
}

/// The last index in `v[from..to]` that holds `c`, as an index of `v`.
pub fn rfind_char(v: &Vec<char>, from: usize, to: usize, c: char) -> (res: Option<usize>)
    requires
        from <= to <= v@.len(),
    ensures
        match res {
            Some(k) => from <= k < to && rfind(v@.subrange(from as int, to as int), seq![c])
                == Some(k - from),
            None => rfind(v@.subrange(from as int, to as int), seq![c]) is None,
        },
{
    let ghost s = v@.subrange(from as int, to as int);
    let mut i: usize = to;
    while i > from
        invariant
            from <= i <= to <= v@.len(),
            s == v@.subrange(from as int, to as int),
            forall|j: int| i <= j < to ==> v@[j] != c,
        decreases i - from,
    {
        if v[i - 1] == c {
            proof {
                assert forall|j: int| i - 1 - from < j implies !#[trigger] match_at(s, seq![c], j) by {
                    lemma_match_single(s, c, j);
                }
                lemma_match_single(s, c, i - 1 - from);
                lemma_rfind_is(s, seq![c], i - 1 - from);
            }
            return Some(i - 1);
        }
        i = i - 1;
    }
    proof {
        assert forall|j: int| !#[trigger] match_at(s, seq![c], j) by {
            lemma_match_single(s, c, j);
        }
        lemma_rfind(s, seq![c]);
    }
    None
}

/// The first index in `v[from..to]` where a CR LF pair begins, as an index of `v`.
pub fn find_crlf_char(v: &Vec<char>, from: usize, to: usize) -> (res: Option<usize>)
    requires
        from <= to <= v@.len(),
    ensures
        match res {
            Some(k) => from <= k && k + 2 <= to && find(
                v@.subrange(from as int, to as int),
                seq!['\r', '\n'],
            ) == Some(k - from),
            None => find(v@.subrange(from as int, to as int), seq!['\r', '\n']) is None,
        },
{
    let ghost s = v@.subrange(from as int, to as int);
    let ghost p = seq!['\r', '\n'];
    let mut i: usize = from;
    while to - i > 1
        invariant
            from <= i <= to <= v@.len(),
            s == v@.subrange(from as int, to as int),
            p == seq!['\r', '\n'],
            forall|j: int| 0 <= j < i - from ==> !#[trigger] match_at(s, p, j),
        decreases to - i,
    {
        if v[i] == '\r' && v[i + 1] == '\n' {
            proof {
                assert(match_at(s, p, i - from));
                lemma_find_is(s, p, i - from);
            }
            return Some(i);
        }
        assert(!match_at(s, p, i - from)) by {
            if match_at(s, p, i - from) {
                assert(s[(i - from) + 0] == p[0]);
                assert(s[(i - from) + 1] == p[1]);
            }
        }
        i = i + 1;
    }
    proof {
        assert forall|j: int| !#[trigger] match_at(s, p, j) by {
            if match_at(s, p, j) && j >= i - from {
                assert(j + 2 <= s.len());
            }
        }
        lemma_find(s, p);
    }
    None
}

/// The first index of `data` where `pat` begins.
pub fn find_bytes(data: &[u8], pat: &[u8]) -> (res: Option<usize>)
    requires
        pat@.len() > 0,
    ensures
        match res {
            Some(k) => find(data@, pat@) == Some(k as int),
            None => find(data@, pat@) is None,
        },
{
    let n = data.len();
    let m = pat.len();
    if m > n {
        proof {
            assert forall|j: int| !#[trigger] match_at(data@, pat@, j) by {}
            lemma_find(data@, pat@);
        }
        return None;
    }
    let mut i: usize = 0;
    while m <= n - i
        invariant
            n == data@.len(),
            m == pat@.len(),
            0 < m <= n,
            i <= n,
            forall|j: int| 0 <= j < i ==> !#[trigger] match_at(data@, pat@, j),
        decreases n - i,
    {
        let mut k: usize = 0;
        let mut same = true;
        while k < m
            invariant
                n == data@.len(),
                m == pat@.len(),
                i + m <= n,
                k <= m,
                same ==> forall|t: int| 0 <= t < k ==> data@[i + t] == pat@[t],
                !same ==> !match_at(data@, pat@, i as int),
            decreases m - k,
        {
            if data[i + k] != pat[k] {
                same = false;
            }
            k = k + 1;
        }
        if same {
            proof {
                lemma_find_is(data@, pat@, i as int);
            }
            return Some(i);
        }
        i = i + 1;
    }
    proof {
        assert forall|j: int| !#[trigger] match_at(data@, pat@, j) by {}
        lemma_find(data@, pat@);
    }
    None
}

/// Whether `v[from..]` begins with `p`.
pub fn starts_with_chars(v: &Vec<char>, from: usize, p: &Vec<char>) -> (r: bool)
    requires
        from <= v@.len(),
    ensures
        r == starts_with(v@.subrange(from as int, v@.len() as int), p@),
{
    let ghost s = v@.subrange(from as int, v@.len() as int);
    if p.len() > v.len() - from {
        return false;
    }
    let mut k: usize = 0;
    while k < p.len()
        invariant
            from <= v@.len(),
            from + p@.len() <= v@.len() <= usize::MAX,
            s == v@.subrange(from as int, v@.len() as int),
            k <= p@.len(),
            forall|t: int| 0 <= t < k ==> s[0 + t] == p@[t],
        decreases p@.len() - k,
    {
        if v[from + k] != p[k] {
            assert(s[0 + k] != p@[k as int]);
            return false;
        }
        k = k + 1;
    }
    true
}

} // verus!
