//! Character-sequence helpers shared by the codec: pattern search,
//! line splitting and conversion between strings and character vectors.
use vstd::prelude::*;
use vstd::std_specs::iter::IteratorSpec;
use vstd::string::next_post;

verus! {

broadcast use {vstd::string::next_postcondition, vstd::string::axiom_spec_iter};

/// `pat` occurs in `t` starting at index `i`.
pub open spec fn occurs_at(t: Seq<char>, pat: Seq<char>, i: int) -> bool {
    0 <= i && i + pat.len() <= t.len() && t.subrange(i, i + pat.len()) == pat
}

/// Index of the first occurrence of `pat` in `t` at or after `i`, or -1.
pub open spec fn find_from(t: Seq<char>, pat: Seq<char>, i: int) -> int
    decreases t.len() + 1 - i,
{
    if i < 0 || i + pat.len() > t.len() {
        -1
    } else if occurs_at(t, pat, i) {
        i
    } else {
        find_from(t, pat, i + 1)
    }
}

/// Index of the first occurrence of `pat` in `t`, or -1.
pub open spec fn find(t: Seq<char>, pat: Seq<char>) -> int {
    find_from(t, pat, 0)
}

/// What `find_from` returns is an occurrence at or after `i`.
pub proof fn lemma_find_from_found(t: Seq<char>, pat: Seq<char>, i: int)
    ensures
        find_from(t, pat, i) >= 0 ==> find_from(t, pat, i) >= i && occurs_at(
            t,
            pat,
            find_from(t, pat, i),
        ),
    decreases t.len() + 1 - i,
{
    if i < 0 || i + pat.len() > t.len() {
    } else if occurs_at(t, pat, i) {
    } else {
        lemma_find_from_found(t, pat, i + 1);
    }
}

/// `find_from` returns `k` when `pat` occurs at `k` and nowhere in `[i, k)`.
pub proof fn lemma_find_from_first(t: Seq<char>, pat: Seq<char>, i: int, k: int)
    requires
        0 <= i <= k,
        occurs_at(t, pat, k),
        forall|j: int| i <= j < k ==> !occurs_at(t, pat, j),
    ensures
        find_from(t, pat, i) == k,
    decreases k - i,
{
    if i < k {
        lemma_find_from_first(t, pat, i + 1, k);
    }
}

/// `find_from` returns -1 when `pat` occurs nowhere at or after `i`.
pub proof fn lemma_find_from_absent(t: Seq<char>, pat: Seq<char>, i: int)
    requires
        0 <= i,
        forall|j: int| i <= j ==> !#[trigger] occurs_at(t, pat, j),
    ensures
        find_from(t, pat, i) == -1,
    decreases t.len() + 1 - i,
{
    if i + pat.len() <= t.len() {
        lemma_find_from_absent(t, pat, i + 1);
    }
}

/// The characters of `s`, in order.
pub fn chars_of(s: &str) -> (r: Vec<char>)
    ensures
        r@ == s@,
{
    let mut out: Vec<char> = Vec::new();
    let mut it = s.chars();
    loop
        invariant
            out@ + it.remaining() == s@,
            it.decrease() is Some,
        ensures
            out@ == s@,
        decreases it.decrease()->0,
    {
        let ghost before = it;
        let c = it.next();
        assert(next_post(&before, &it, c));
        match c {
            Some(c) => {
                out.push(c);
            },
            None => {
                assert(out@ + before.remaining() =~= out@);
                assert(out@ == s@);
                break;
            },
        }
    }
    out
}

/// `pat` occurs in `t` at absolute index `i`.
fn matches_at(t: &Vec<char>, i: usize, pat: &Vec<char>) -> (r: bool)
    requires
        i + pat.len() <= t.len(),
    ensures
        r == occurs_at(t@, pat@, i as int),
{
    let mut m: usize = 0;
    while m < pat.len()
        invariant
            m <= pat.len(),
            i + pat.len() <= t.len(),
            forall|k: int| 0 <= k < m ==> t@[i + k] == pat@[k],
        decreases pat.len() - m,
    {
        if t[i + m] != pat[m] {
            assert(t@.subrange(i as int, i + pat.len())[m as int] != pat@[m as int]);
            return false;
        }
        m = m + 1;
    }
    assert(t@.subrange(i as int, i + pat.len()) =~= pat@);
    true
}

/// First occurrence of `pat` in the window `t[lo..hi]`, as an index into `t`.
pub fn find_in(t: &Vec<char>, lo: usize, hi: usize, pat: &Vec<char>) -> (r: Option<usize>)
    requires
        lo <= hi <= t.len(),
        pat.len() > 0,
    ensures
        ({
            let f = find(t@.subrange(lo as int, hi as int), pat@);
            match r {
                Some(j) => f >= 0 && j == lo + f,
                None => f == -1,
            }
        }),
{
    let ghost u = t@.subrange(lo as int, hi as int);
    if hi - lo < pat.len() {
        return None;
    }
    let last = hi - pat.len();
    let mut i: usize = lo;
    while i <= last
        invariant
            lo <= i <= last + 1,
            last + pat.len() == hi,
            pat.len() > 0,
            lo <= hi <= t.len(),
            u == t@.subrange(lo as int, hi as int),
            find(u, pat@) == find_from(u, pat@, i - lo),
        decreases last + 1 - i,
    {
        let hit = matches_at(t, i, pat);
        assert(u.subrange(i - lo, i - lo + pat.len()) =~= t@.subrange(i as int, i + pat.len()));
        if hit {
            return Some(i);
        }
        i = i + 1;
    }
    None
}

/// The characters `s[a..b]` as a new string.
pub fn slice_string(s: &str, a: usize, b: usize) -> (r: String)
    requires
        a <= b <= s@.len(),
    ensures
        r@ == s@.subrange(a as int, b as int),
{
    String::from_str(s.substring_char(a, b))
}

} // verus!
