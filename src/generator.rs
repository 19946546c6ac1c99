//! Builds a chain from a corpus and walks it.
use vstd::prelude::*;

use crate::chain::Chain;
use crate::tokenizer::{split, tokens};
use crate::MarkovErr;

verus! {

/// The position that follows `i` in a sequence of `n` tokens read in a
/// circle: the last token is followed by the first.
pub open spec fn follower(n: int, i: int) -> int {
    if i + 1 < n {
        i + 1
    } else {
        0
    }
}

/// The positions `i < k` of `t` at which `a` stands, followed by `b`.
pub open spec fn pairs_before(t: Seq<Seq<char>>, a: Seq<char>, b: Seq<char>, k: int) -> nat
    decreases k,
{
    if k <= 0 {
        0
    } else {
        pairs_before(t, a, b, k - 1) + (if t[k - 1] == a && t[follower(t.len() as int, k - 1)]
            == b {
            1nat
        } else {
            0
        })
    }
}

/// How often `a` is followed by `b` in `t`, the last token being followed
/// by the first.
pub open spec fn pair_count(t: Seq<Seq<char>>, a: Seq<char>, b: Seq<char>) -> nat {
    pairs_before(t, a, b, t.len() as int)
}

/// The positions `i < k` of `t` at which `a` stands.
pub open spec fn occurrences_before(t: Seq<Seq<char>>, a: Seq<char>, k: int) -> nat
    decreases k,
{
    if k <= 0 {
        0
    } else {
        occurrences_before(t, a, k - 1) + (if t[k - 1] == a {
            1nat
        } else {
            0
        })
    }
}

/// How many positions of `t` hold `a`; each of them is followed by some
/// token, the last one by the first.
pub open spec fn occurrences(t: Seq<Seq<char>>, a: Seq<char>) -> nat {
    occurrences_before(t, a, t.len() as int)
}

/// Generation of `length` tokens from `start` on `corpus` fails exactly when
/// a step has to be sampled and `start` is not a token of the corpus.
pub open spec fn walk_fails(corpus: Seq<char>, start: Seq<char>, length: int) -> bool {
    length >= 2 && !tokens(corpus).contains(start)
}

proof fn lemma_occurrences_bound(t: Seq<Seq<char>>, a: Seq<char>, k: int)
    requires
        0 <= k,
    ensures
        occurrences_before(t, a, k) <= k,
    decreases k,
{
    if k > 0 {
        lemma_occurrences_bound(t, a, k - 1);
    }
}

proof fn lemma_occurrences_positive(t: Seq<Seq<char>>, a: Seq<char>, k: int)
    requires
        0 <= k <= t.len(),
    ensures
        occurrences_before(t, a, k) > 0 <==> exists|i: int| 0 <= i < k && t[i] == a,
    decreases k,
{
    if k > 0 {
        lemma_occurrences_positive(t, a, k - 1);
        if t[k - 1] != a && occurrences_before(t, a, k) == 0 {
            assert forall|i: int| 0 <= i < k implies t[i] != a by {
                if i < k - 1 {
                    assert(!(exists|i: int| 0 <= i < k - 1 && t[i] == a));
                }
            }
        }
    }
}

proof fn lemma_contains_iff_occurs(t: Seq<Seq<char>>, a: Seq<char>)
    ensures
        t.contains(a) <==> occurrences(t, a) > 0,
{
    lemma_occurrences_positive(t, a, t.len() as int);
    if t.contains(a) {
        let i = choose|i: int| 0 <= i < t.len() && t[i] == a;
        assert(exists|i: int| 0 <= i < t.len() && t[i] == a);
    }
}

proof fn lemma_pair_positive(t: Seq<Seq<char>>, a: Seq<char>, b: Seq<char>, k: int)
    requires
        0 <= k <= t.len(),
        pairs_before(t, a, b, k) > 0,
    ensures
        t.contains(b),
    decreases k,
{
    if t[k - 1] == a && t[follower(t.len() as int, k - 1)] == b {
        assert(t[follower(t.len() as int, k - 1)] == b);
    } else {
        lemma_pair_positive(t, a, b, k - 1);
    }
}

/// No dead ends: on a non-empty corpus every token that follows another is
/// itself followed by some token, and generation from the first token of the
/// corpus succeeds for every length.
pub proof fn lemma_reachable(corpus: Seq<char>)
    requires
        tokens(corpus).len() > 0,
    ensures
        forall|a: Seq<char>, b: Seq<char>|
            #[trigger] pair_count(tokens(corpus), a, b) > 0 ==> occurrences(tokens(corpus), b) > 0
                && tokens(corpus).contains(a),
        forall|k: int| !walk_fails(corpus, tokens(corpus)[0], k),
{
    let t = tokens(corpus);
    assert forall|a: Seq<char>, b: Seq<char>|
        #[trigger] pair_count(t, a, b) > 0 implies occurrences(t, b) > 0 && t.contains(a) by {
        lemma_pair_positive(t, a, b, t.len() as int);
        lemma_contains_iff_occurs(t, b);
        lemma_pair_source(t, a, b, t.len() as int);
    }
    assert(t.contains(t[0]));
}

proof fn lemma_pair_source(t: Seq<Seq<char>>, a: Seq<char>, b: Seq<char>, k: int)
    requires
        0 <= k <= t.len(),
        pairs_before(t, a, b, k) > 0,
    ensures
        t.contains(a),
    decreases k,
{
    if t[k - 1] == a && t[follower(t.len() as int, k - 1)] == b {
        assert(t[k - 1] == a);
    } else {
        lemma_pair_source(t, a, b, k - 1);
    }
}

/// Builds the chain of a token sequence: each token is recorded as followed
/// by the next, and the last one by the first.
pub fn ingest(ts: &Vec<String>) -> (c: Chain)
    ensures
        c.wf(),
        forall|a: Seq<char>, b: Seq<char>|
            #[trigger] c.edge(a, b) == pair_count(ts@.map_values(|s: String| s@), a, b),
        forall|a: Seq<char>|
            #[trigger] c.outgoing(a) == occurrences(ts@.map_values(|s: String| s@), a)
                && c.edge_sum(a, c.successors(a)) == c.outgoing(a),
{
    let ghost t = ts@.map_values(|s: String| s@);
    let mut c = Chain::new();
    let n = ts.len();
    let mut i: usize = 0;
    while i < n
        invariant
            n == ts@.len(),
            t == ts@.map_values(|s: String| s@),
            i <= n,
            c.wf(),
            forall|a: Seq<char>, b: Seq<char>| #[trigger] c.edge(a, b) == pairs_before(t, a, b, i as int),
            forall|a: Seq<char>| #[trigger] c.outgoing(a) == occurrences_before(t, a, i as int),
            c.pair_total() <= i,
        decreases n - i,
    {
        let j: usize = if i + 1 < n { i + 1 } else { 0 };
        proof {
            lemma_occurrences_bound(t, ts@[i as int]@, i as int);
        }
        c.see(ts[i].as_str(), ts[j].as_str());
        i = i + 1;
    }
    proof {
        assert forall|a: Seq<char>| #[trigger]
            c.outgoing(a) == occurrences(t, a) && c.edge_sum(a, c.successors(a)) == c.outgoing(a) by {
            c.lemma_out_is_sum(a);
        }
    }
    c
}

/// Generates `length` tokens (none when `length <= 0`): `init`, then each
/// next one sampled as a successor of the one before in the chain of
/// `input`'s tokens.
pub fn gen(input: &str, init: &str, length: i32) -> (res: Result<Vec<String>, MarkovErr>)
    ensures
        res is Err <==> walk_fails(input@, init@, length as int),
        match res {
            Ok(out) => {
                &&& out@.len() == (if length > 0 { length as int } else { 0 })
                &&& length > 0 ==> out@[0]@ == init@
                &&& forall|k: int|
                    0 <= k < out@.len() - 1 ==> pair_count(
                        tokens(input@),
                        #[trigger] out@[k]@,
                        out@[k + 1]@,
                    ) > 0
            },
            Err(MarkovErr::NotSeen { w }) => w@ == init@,
            Err(_) => false,
        },
{
    let ts = split(input);
    let ghost t = tokens(input@);
    let chain = ingest(&ts);
    if length <= 0 {
        return Ok(Vec::new());
    }
    let mut out: Vec<String> = Vec::new();
    let mut w = init.to_string();
    out.push(init.to_string());
    let mut k: i32 = 1;
    while k < length
        invariant
            t == tokens(input@),
            chain.wf(),
            forall|a: Seq<char>, b: Seq<char>| #[trigger] chain.edge(a, b) == pair_count(t, a, b),
            forall|a: Seq<char>| #[trigger] chain.outgoing(a) == occurrences(t, a),
            1 <= k <= length,
            out@.len() == k,
            out@[0]@ == init@,
            out@[k - 1]@ == w@,
            k >= 2 ==> occurrences(t, init@) > 0 && occurrences(t, w@) > 0,
            forall|m: int|
                0 <= m < out@.len() - 1 ==> pair_count(t, #[trigger] out@[m]@, out@[m + 1]@) > 0,
        decreases length - k,
    {
        match chain.next(w.as_str()) {
            Ok(x) => {
                proof {
                    let r = choose|r: int| 0 <= r < chain.outgoing(w@) && x@ == #[trigger] chain.choice(w@, r);
                    chain.lemma_choice_slots(w@, x@, r);
                    lemma_pair_positive(t, w@, x@, t.len() as int);
                    lemma_contains_iff_occurs(t, x@);
                }
                w = x.clone();
                out.push(x);
                k = k + 1;
            },
            Err(e) => {
                proof {
                    lemma_contains_iff_occurs(t, init@);
                }
                return Err(e);
            },
        }
    }
    proof {
        lemma_contains_iff_occurs(t, init@);
    }
    Ok(out)
}

} // verus!
