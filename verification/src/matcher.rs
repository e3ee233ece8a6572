//! The suffix-continuation matcher: an automaton built from a target word
//! that tests whether a query word continues the target.  The automaton is
//! the classic failure-function construction: `backtrack[i]` holds the
//! length of the longest proper border (prefix that is also a suffix) of
//! `target[0..i]`, and a query is replayed through the failure-linked
//! states.  The query is accepted iff the target is empty, the target
//! occurs inside the query, or a non-empty prefix of the target is a
//! suffix of the query.

use vstd::prelude::*;

verus! {

/// `t[0..k]` is a suffix of the prefix `q[0..j]`: after reading the first
/// `j` characters of `q`, the automaton for `t` can be `k` characters deep.
pub open spec fn overlap_at(t: Seq<char>, q: Seq<char>, j: int, k: int) -> bool {
    &&& 0 <= k <= t.len()
    &&& k <= j <= q.len()
    &&& forall|x: int| 0 <= x < k ==> t[x] == q[j - k + x]
}

/// No prefix of `t` of a length in `(lo, hi]` is a suffix of `q[0..j]`.
pub open spec fn no_overlap_above(t: Seq<char>, q: Seq<char>, j: int, lo: int, hi: int) -> bool {
    forall|k: int| lo < k <= hi ==> !overlap_at(t, q, j, k)
}

/// The target does not occur inside `q` ending at any position up to `j`.
pub open spec fn no_occurrence_upto(t: Seq<char>, q: Seq<char>, j: int) -> bool {
    forall|e: int| 0 <= e <= j ==> !overlap_at(t, q, e, t.len() as int)
}

/// `k` is a proper border of the prefix `t[0..i]`: a prefix of `t` shorter
/// than `i` characters that is also a suffix of `t[0..i]`.
pub open spec fn is_border(t: Seq<char>, i: int, k: int) -> bool {
    k < i && overlap_at(t, t, i, k)
}

/// `k` is the longest proper border of the prefix `t[0..i]`.
pub open spec fn is_longest_border(t: Seq<char>, i: int, k: int) -> bool {
    &&& is_border(t, i, k)
    &&& forall|m: int| k < m < i ==> !is_border(t, i, m)
}

/// The backtrack table of the matcher: one entry per prefix of `t`, entry
/// `i` holding the length of the longest proper border of `t[0..i]`.
pub open spec fn backtrack_ok(t: Seq<char>, f: Seq<usize>) -> bool {
    &&& f.len() == t.len() + 1
    &&& f[0] == 0
    &&& forall|i: int| 1 <= i <= t.len() ==> is_longest_border(t, i, #[trigger] f[i] as int)
}

/// The acceptance criterion of the matcher: the query continues the target
/// iff the target is empty, the target occurs somewhere inside the query,
/// or some non-empty prefix of the target is a suffix of the query.
pub open spec fn continuation_match(t: Seq<char>, q: Seq<char>) -> bool {
    ||| t.len() == 0
    ||| exists|j: int| 0 <= j <= q.len() && overlap_at(t, q, j, t.len() as int)
    ||| exists|k: int| 0 < k <= t.len() && overlap_at(t, q, q.len() as int, k)
}

proof fn lemma_overlap_extend(t: Seq<char>, q: Seq<char>, j: int, k: int)
    requires
        overlap_at(t, q, j, k),
        j < q.len(),
        k < t.len(),
        t[k] == q[j],
    ensures
        overlap_at(t, q, j + 1, k + 1),
{
    assert forall|x: int| 0 <= x < k + 1 implies #[trigger] t[x] == q[j + 1 - (k + 1) + x] by {
        if x < k {
            assert(t[x] == q[j - k + x]);
        }
    }
}

proof fn lemma_overlap_unstep(t: Seq<char>, q: Seq<char>, j: int, k: int)
    requires
        overlap_at(t, q, j + 1, k),
        1 <= k,
    ensures
        overlap_at(t, q, j, k - 1),
        t[k - 1] == q[j],
{
    assert(t[k - 1] == q[j + 1 - k + (k - 1)]);
    assert forall|x: int| 0 <= x < k - 1 implies #[trigger] t[x] == q[j - (k - 1) + x] by {
        assert(t[x] == q[j + 1 - k + x]);
    }
}

proof fn lemma_overlap_nest(t: Seq<char>, q: Seq<char>, j: int, a: int, b: int)
    requires
        overlap_at(t, q, j, a),
        overlap_at(t, q, j, b),
        a < b,
    ensures
        is_border(t, b, a),
{
    assert forall|x: int| 0 <= x < a implies #[trigger] t[x] == t[b - a + x] by {
        assert(t[x] == q[j - a + x]);
        assert(t[b - a + x] == q[j - b + (b - a + x)]);
    }
}

proof fn lemma_border_compose(t: Seq<char>, q: Seq<char>, j: int, k: int, b: int)
    requires
        overlap_at(t, q, j, k),
        is_border(t, k, b),
    ensures
        overlap_at(t, q, j, b),
{
    assert forall|x: int| 0 <= x < b implies #[trigger] t[x] == q[j - b + x] by {
        assert(t[x] == t[k - b + x]);
        assert(t[k - b + x] == q[j - k + (k - b + x)]);
    }
}

/// Collect the characters of a string slice into a vector.
fn chars_of(s: &str) -> (v: Vec<char>)
    ensures
        v@ == s@,
{
    let n: usize = s.unicode_len();
    let mut v: Vec<char> = Vec::new();
    let mut i: usize = 0;
    while i < n
        invariant
            i <= n,
            n == s@.len(),
            v@ == s@.subrange(0, i as int),
        decreases n - i,
    {
        let c = s.get_char(i);
        v.push(c);
        proof {
            assert(v@ =~= s@.subrange(0, i + 1));
        }
        i = i + 1;
    }
    proof {
        assert(v@ =~= s@);
    }
    v
}

/// One automaton step.  `start` is the depth reached after the first `j`
/// characters of `q`, maximal among depths up to `cap`; the result is the
/// maximal depth (up to `cap + 1`) after also reading `c`, found by
/// following backtrack links until `c` extends the overlap.
fn advance(
    target: &Vec<char>,
    backtrack: &Vec<usize>,
    start: usize,
    c: char,
    q: Ghost<Seq<char>>,
    j: Ghost<int>,
    cap: Ghost<int>,
) -> (r: usize)
    requires
        start < target@.len(),
        start < backtrack@.len(),
        forall|p: int| 1 <= p <= start ==> is_longest_border(target@, p, #[trigger] backtrack@[p] as int),
        0 <= j@ < q@.len(),
        q@[j@] == c,
        overlap_at(target@, q@, j@, start as int),
        start as int <= cap@,
        no_overlap_above(target@, q@, j@, start as int, cap@),
    ensures
        r <= start + 1,
        overlap_at(target@, q@, j@ + 1, r as int),
        no_overlap_above(target@, q@, j@ + 1, r as int, cap@ + 1),
{
    let ghost t = target@;
    let ghost qs = q@;
    let ghost jj = j@;
    let ghost j1 = j@ + 1;
    let n: usize = target.len();
    let mut cur = start;
    proof {
        assert forall|k: int| cur + 1 < k <= cap@ + 1 implies !overlap_at(t, qs, j1, k) by {
            if overlap_at(t, qs, j1, k) {
                lemma_overlap_unstep(t, qs, jj, k);
                assert(!overlap_at(t, qs, jj, k - 1));
            }
        }
        assert(no_overlap_above(t, qs, j1, cur as int + 1, cap@ + 1));
    }
    loop
        invariant
            cur <= start,
            start < n,
            n == target@.len(),
            start < backtrack@.len(),
            target@ == t,
            q@ == qs,
            j@ == jj,
            j1 == jj + 1,
            forall|p: int| 1 <= p <= start ==> is_longest_border(t, p, #[trigger] backtrack@[p] as int),
            0 <= jj < qs.len(),
            qs[jj] == c,
            overlap_at(t, qs, jj, cur as int),
            no_overlap_above(t, qs, j1, cur as int + 1, cap@ + 1),
        decreases cur,
    {
        if target[cur] == c {
            proof {
                lemma_overlap_extend(t, qs, jj, cur as int);
            }
            return cur + 1;
        }
        if cur == 0 {
            proof {
                assert forall|k: int| 0 < k <= cap@ + 1 implies !overlap_at(t, qs, j1, k) by {
                    if overlap_at(t, qs, j1, k) {
                        lemma_overlap_unstep(t, qs, jj, k);
                    }
                }
                assert(no_overlap_above(t, qs, j1, 0, cap@ + 1));
                assert(overlap_at(t, qs, j1, 0));
            }
            return 0;
        }
        proof {
            assert(is_longest_border(t, cur as int, backtrack@[cur as int] as int));
            lemma_border_compose(t, qs, jj, cur as int, backtrack@[cur as int] as int);
            let ghost nxt = backtrack@[cur as int] as int;
            assert forall|k: int| nxt + 1 < k <= cap@ + 1 implies !overlap_at(t, qs, j1, k) by {
                if overlap_at(t, qs, j1, k) {
                    lemma_overlap_unstep(t, qs, jj, k);
                    if k - 1 < cur {
                        lemma_overlap_nest(t, qs, jj, k - 1, cur as int);
                    }
                }
            }
            assert(no_overlap_above(t, qs, j1, nxt + 1, cap@ + 1));
        }
        cur = backtrack[cur];
    }
}

/// An automaton built from a target word that tests whether a query word
/// exhibits a non-empty continuation of the target.  Immutable once built.
pub struct SuffixMatcher {
    target: Vec<char>,
    backtrack: Vec<usize>,
}

impl SuffixMatcher {
    /// The target word the matcher was built from.
    pub closed spec fn target_seq(&self) -> Seq<char> {
        self.target@
    }

    /// The backtrack table is exactly the border table of the target.
    pub closed spec fn wf(&self) -> bool {
        backtrack_ok(self.target@, self.backtrack@)
    }

    /// Build the automaton for `target` by the standard failure-function
    /// computation: each table entry extends the previous one by following
    /// backtrack links until the next character matches.
    pub fn new(target: &str) -> (m: SuffixMatcher)
        ensures
            m.wf(),
            m.target_seq() == target@,
    {
        let chars = chars_of(target);
        let ghost t = chars@;
        let n: usize = chars.len();
        let mut backs: Vec<usize> = Vec::new();
        backs.push(0);
        if n > 0 {
            backs.push(0);
            proof {
                assert(overlap_at(t, t, 1, 0));
            }
            let mut i: usize = 1;
            while i < n
                invariant
                    1 <= i <= n,
                    n == t.len(),
                    chars@ == t,
                    backs@.len() == i + 1,
                    backs@[0] == 0,
                    forall|p: int| 1 <= p <= i ==> is_longest_border(t, p, #[trigger] backs@[p] as int),
                decreases n - i,
            {
                let fi = backs[i];
                let ghost ii = i as int;
                proof {
                    assert(is_longest_border(t, ii, fi as int));
                    assert forall|k: int| fi < k <= ii - 1 implies !overlap_at(t, t, ii, k) by {
                        if overlap_at(t, t, ii, k) {
                            assert(is_border(t, ii, k));
                        }
                    }
                    assert(no_overlap_above(t, t, ii, fi as int, ii - 1));
                }
                let c = chars[i];
                let r = advance(&chars, &backs, fi, c, Ghost(t), Ghost(ii), Ghost(ii - 1));
                backs.push(r);
                proof {
                    let ghost i2 = ii + 1;
                    assert(is_border(t, i2, r as int));
                    assert forall|m: int| r < m < i2 implies !is_border(t, i2, m) by {
                        assert(!overlap_at(t, t, i2, m));
                    }
                    assert(is_longest_border(t, i2, r as int));
                }
                i = i + 1;
            }
        }
        let m = SuffixMatcher { target: chars, backtrack: backs };
        m
    }

    /// Replay `query` through the automaton.  Accepts as soon as the full
    /// target has been traversed (the target occurs in the query), or at
    /// the end of the query if the automaton rests in any non-initial
    /// state (a non-empty prefix of the target is a suffix of the query).
    pub fn try_match(&self, query: &str) -> (r: bool)
        requires
            self.wf(),
        ensures
            r == continuation_match(self.target_seq(), query@),
    {
        let ghost t = self.target@;
        let ghost qs = query@;
        let t_len: usize = self.target.len();
        if t_len == 0 {
            return true;
        }
        let q_len: usize = query.unicode_len();
        let mut idx: usize = 0;
        let mut j: usize = 0;
        proof {
            assert(overlap_at(t, qs, 0, 0));
            assert(no_overlap_above(t, qs, 0, 0, t.len() as int));
            assert forall|e: int| 0 <= e <= 0 implies !overlap_at(t, qs, e, t.len() as int) by {
            }
            assert(no_occurrence_upto(t, qs, 0));
        }
        while j < q_len
            invariant
                self.wf(),
                t == self.target@,
                qs == query@,
                t_len == t.len(),
                q_len == qs.len(),
                0 < t_len,
                idx < t_len,
                j <= q_len,
                overlap_at(t, qs, j as int, idx as int),
                no_overlap_above(t, qs, j as int, idx as int, t.len() as int),
                no_occurrence_upto(t, qs, j as int),
            decreases q_len - j,
        {
            let c = query.get_char(j);
            let ghost jold = j as int;
            let r = advance(
                &self.target,
                &self.backtrack,
                idx,
                c,
                Ghost(qs),
                Ghost(jold),
                Ghost(t_len as int),
            );
            if r == t_len {
                proof {
                    assert(overlap_at(t, qs, jold + 1, t.len() as int));
                    assert(0 <= jold + 1 <= qs.len());
                }
                return true;
            }
            idx = r;
            j = j + 1;
            proof {
                assert(overlap_at(t, qs, j as int, idx as int));
                assert forall|k: int| idx < k <= t.len() implies !overlap_at(t, qs, j as int, k) by {
                    assert(!overlap_at(t, qs, jold + 1, k));
                }
                assert(no_overlap_above(t, qs, j as int, idx as int, t.len() as int));
                assert forall|e: int| 0 <= e <= j implies !overlap_at(t, qs, e, t.len() as int) by {
                    if e <= jold {
                        assert(!overlap_at(t, qs, e, t.len() as int));
                    } else {
                        assert(e == jold + 1);
                        assert(!overlap_at(t, qs, jold + 1, t.len() as int));
                    }
                }
                assert(no_occurrence_upto(t, qs, j as int));
            }
        }
        proof {
            if idx > 0 {
                assert(overlap_at(t, qs, qs.len() as int, idx as int));
            } else {
                if continuation_match(t, qs) {
                    if exists|j2: int| 0 <= j2 <= qs.len() && overlap_at(t, qs, j2, t.len() as int) {
                        let j2 = choose|j2: int| 0 <= j2 <= qs.len() && overlap_at(t, qs, j2, t.len() as int);
                        assert(!overlap_at(t, qs, j2, t.len() as int));
                        assert(false);
                    } else if exists|k: int| 0 < k <= t.len() && overlap_at(t, qs, qs.len() as int, k) {
                        let k = choose|k: int| 0 < k <= t.len() && overlap_at(t, qs, qs.len() as int, k);
                        assert(!overlap_at(t, qs, j as int, k));
                        assert(false);
                    } else {
                        assert(false);
                    }
                }
            }
        }
        idx > 0
    }
}

/// A word always continues from itself: the whole target occurs in the
/// query when the query is the target itself.
pub proof fn lemma_match_self(t: Seq<char>)
    ensures
        continuation_match(t, t),
{
    if t.len() > 0 {
        assert(overlap_at(t, t, t.len() as int, t.len() as int));
    }
}

/// The empty query continues the target exactly when the target is empty.
pub proof fn lemma_match_empty_query(t: Seq<char>)
    ensures
        continuation_match(t, Seq::<char>::empty()) <==> t.len() == 0,
{
    let q = Seq::<char>::empty();
    if continuation_match(t, q) && t.len() != 0 {
        if exists|j: int| 0 <= j <= q.len() && overlap_at(t, q, j, t.len() as int) {
            let j = choose|j: int| 0 <= j <= q.len() && overlap_at(t, q, j, t.len() as int);
            assert(false);
        } else if exists|k: int| 0 < k <= t.len() && overlap_at(t, q, q.len() as int, k) {
            let k = choose|k: int| 0 < k <= t.len() && overlap_at(t, q, q.len() as int, k);
            assert(false);
        } else {
            assert(false);
        }
    }
}

/// The empty target accepts every query.
pub proof fn lemma_empty_target_matches(q: Seq<char>)
    ensures
        continuation_match(Seq::<char>::empty(), q),
{
}

} // verus!
