//! The transition model: for each token, the tokens recorded after it, with
//! counts.
use vstd::prelude::*;

use crate::MarkovErr;

verus! {

/// A token recorded after some source token, and how many times.
struct Successor {
    to: String,
    weight: u64,
}

/// A source token, its total outgoing count, and its successors.
struct Node {
    word: String,
    out: u64,
    next: Vec<Successor>,
}

/// Counts of ordered token pairs. For a token `a`, `outgoing(a)` is the
/// number of pairs recorded that start with `a`, and `edge(a, b)` the number
/// of times the pair `(a, b)` was recorded.
pub struct Chain {
    nodes: Vec<Node>,
    pairs: u64,
}

spec fn pair_lens(ns: Seq<Node>) -> nat
    decreases ns.len(),
{
    if ns.len() == 0 {
        0
    } else {
        ns[0].next@.len() + pair_lens(ns.drop_first())
    }
}

proof fn lemma_lens_push(ns: Seq<Node>, n: Node)
    ensures
        pair_lens(ns.push(n)) == pair_lens(ns) + n.next@.len(),
    decreases ns.len(),
{
    if ns.len() == 0 {
        assert(ns.push(n).drop_first() =~= ns);
    } else {
        assert(ns.push(n).drop_first() =~= ns.drop_first().push(n));
        lemma_lens_push(ns.drop_first(), n);
    }
}

proof fn lemma_lens_change(ns: Seq<Node>, ms: Seq<Node>, k: int)
    requires
        0 <= k < ns.len(),
        ms.len() == ns.len(),
        forall|j: int| 0 <= j < ns.len() && j != k ==> ms[j] == ns[j],
    ensures
        pair_lens(ms) + ns[k].next@.len() == pair_lens(ns) + ms[k].next@.len(),
    decreases ns.len(),
{
    if k == 0 {
        assert(ms.drop_first() =~= ns.drop_first());
    } else {
        lemma_lens_change(ns.drop_first(), ms.drop_first(), k - 1);
    }
}

spec fn weight_sum(es: Seq<Successor>) -> nat
    decreases es.len(),
{
    if es.len() == 0 {
        0
    } else {
        es[0].weight as nat + weight_sum(es.drop_first())
    }
}

spec fn weight_to(es: Seq<Successor>, b: Seq<char>) -> nat
    decreases es.len(),
{
    if es.len() == 0 {
        0
    } else if es[0].to@ == b {
        es[0].weight as nat
    } else {
        weight_to(es.drop_first(), b)
    }
}

/// Successors laid end to end, each over as many slots as its weight: the
/// one that covers slot `r`.
spec fn select(es: Seq<Successor>, r: int) -> Seq<char>
    decreases es.len(),
{
    if es.len() == 0 {
        Seq::empty()
    } else if r < es[0].weight {
        es[0].to@
    } else {
        select(es.drop_first(), r - es[0].weight)
    }
}

/// The first slot covered by `b` in the layout of [`select`].
spec fn offset_of(es: Seq<Successor>, b: Seq<char>) -> nat
    decreases es.len(),
{
    if es.len() == 0 {
        0
    } else if es[0].to@ == b {
        0
    } else {
        es[0].weight as nat + offset_of(es.drop_first(), b)
    }
}

spec fn list_ok(es: Seq<Successor>) -> bool {
    &&& forall|i: int, j: int| 0 <= i < j < es.len() ==> es[i].to@ != es[j].to@
    &&& forall|i: int| 0 <= i < es.len() ==> #[trigger] es[i].weight >= 1
}

spec fn node_ok(n: Node) -> bool {
    &&& list_ok(n.next@)
    &&& n.out == weight_sum(n.next@)
    &&& n.next@.len() > 0
}

spec fn index_of(ns: Seq<Node>, a: Seq<char>) -> int {
    if exists|k: int| 0 <= k < ns.len() && ns[k].word@ == a {
        choose|k: int| 0 <= k < ns.len() && ns[k].word@ == a
    } else {
        -1
    }
}

proof fn lemma_drop_first_ok(es: Seq<Successor>)
    requires
        list_ok(es),
        es.len() > 0,
    ensures
        list_ok(es.drop_first()),
{
    let t = es.drop_first();
    assert forall|i: int, j: int| 0 <= i < j < t.len() implies t[i].to@ != t[j].to@ by {
        assert(t[i] == es[i + 1] && t[j] == es[j + 1]);
    }
    assert forall|i: int| 0 <= i < t.len() implies #[trigger] t[i].weight >= 1 by {
        assert(t[i] == es[i + 1]);
    }
}

proof fn lemma_sum_push(es: Seq<Successor>, e: Successor)
    ensures
        weight_sum(es.push(e)) == weight_sum(es) + e.weight,
    decreases es.len(),
{
    if es.len() == 0 {
        assert(es.push(e).drop_first() =~= es);
    } else {
        assert(es.push(e).drop_first() =~= es.drop_first().push(e));
        lemma_sum_push(es.drop_first(), e);
    }
}

proof fn lemma_weight_to_push(es: Seq<Successor>, e: Successor, x: Seq<char>)
    requires
        forall|j: int| 0 <= j < es.len() ==> es[j].to@ != e.to@,
    ensures
        weight_to(es.push(e), x) == weight_to(es, x) + (if x == e.to@ { e.weight as nat } else { 0 }),
    decreases es.len(),
{
    if es.len() == 0 {
        assert(es.push(e).drop_first() =~= es);
    } else {
        assert(es.push(e).drop_first() =~= es.drop_first().push(e));
        assert(es.push(e)[0] == es[0]);
        assert forall|j: int| 0 <= j < es.drop_first().len() implies es.drop_first()[j].to@ != e.to@ by {
            assert(es.drop_first()[j] == es[j + 1]);
        }
        lemma_weight_to_push(es.drop_first(), e, x);
    }
}

/// `fs` is `es` with the weight at `k` raised by one.
spec fn bumped(es: Seq<Successor>, fs: Seq<Successor>, k: int) -> bool {
    &&& 0 <= k < es.len()
    &&& fs.len() == es.len()
    &&& forall|j: int| 0 <= j < es.len() && j != k ==> fs[j] == es[j]
    &&& fs[k].to@ == es[k].to@
    &&& fs[k].weight == es[k].weight + 1
}

proof fn lemma_bump(es: Seq<Successor>, fs: Seq<Successor>, k: int, x: Seq<char>)
    requires
        bumped(es, fs, k),
        list_ok(es),
    ensures
        weight_sum(fs) == weight_sum(es) + 1,
        weight_to(fs, x) == weight_to(es, x) + (if x == es[k].to@ { 1nat } else { 0 }),
    decreases es.len(),
{
    if k == 0 {
        assert(fs.drop_first() =~= es.drop_first());
        if x != es[0].to@ {
            assert(fs[0].to@ != x);
        }
    } else {
        lemma_drop_first_ok(es);
        assert(bumped(es.drop_first(), fs.drop_first(), k - 1));
        lemma_bump(es.drop_first(), fs.drop_first(), k - 1, x);
        assert(fs[0] == es[0]);
        if es[0].to@ == x {
            assert(es[0].to@ != es[k].to@);
        }
    }
}

proof fn lemma_weight_to_absent(es: Seq<Successor>, b: Seq<char>)
    requires
        forall|j: int| 0 <= j < es.len() ==> es[j].to@ != b,
    ensures
        weight_to(es, b) == 0,
    decreases es.len(),
{
    if es.len() > 0 {
        assert(es[0].to@ != b);
        assert forall|j: int| 0 <= j < es.drop_first().len() implies es.drop_first()[j].to@ != b by {
            assert(es.drop_first()[j] == es[j + 1]);
        }
        lemma_weight_to_absent(es.drop_first(), b);
    }
}

proof fn lemma_weight_to_at(es: Seq<Successor>, k: int)
    requires
        list_ok(es),
        0 <= k < es.len(),
    ensures
        weight_to(es, es[k].to@) == es[k].weight,
    decreases es.len(),
{
    if k > 0 {
        assert(es[0].to@ != es[k].to@);
        lemma_drop_first_ok(es);
        assert(es.drop_first()[k - 1] == es[k]);
        lemma_weight_to_at(es.drop_first(), k - 1);
    }
}

proof fn lemma_select_member(es: Seq<Successor>, r: int)
    requires
        0 <= r < weight_sum(es),
    ensures
        exists|j: int| 0 <= j < es.len() && es[j].to@ == select(es, r),
    decreases es.len(),
{
    if r < es[0].weight {
        assert(es[0].to@ == select(es, r));
    } else {
        lemma_select_member(es.drop_first(), r - es[0].weight);
        let j = choose|j: int|
            0 <= j < es.drop_first().len() && es.drop_first()[j].to@ == select(
                es.drop_first(),
                r - es[0].weight,
            );
        assert(es[j + 1] == es.drop_first()[j]);
    }
}

proof fn lemma_offset_bound(es: Seq<Successor>, b: Seq<char>)
    ensures
        offset_of(es, b) + weight_to(es, b) <= weight_sum(es),
    decreases es.len(),
{
    if es.len() > 0 {
        lemma_offset_bound(es.drop_first(), b);
    }
}

proof fn lemma_select_slots(es: Seq<Successor>, b: Seq<char>, r: int)
    requires
        list_ok(es),
        0 <= r < weight_sum(es),
    ensures
        (select(es, r) == b) <==> (offset_of(es, b) <= r < offset_of(es, b) + weight_to(es, b)),
    decreases es.len(),
{
    let w = es[0].weight as int;
    if es.len() > 1 {
        lemma_drop_first_ok(es);
    }
    if es[0].to@ == b {
        if r >= w {
            let rest = es.drop_first();
            lemma_select_member(rest, r - w);
            let j = choose|j: int| 0 <= j < rest.len() && rest[j].to@ == select(rest, r - w);
            assert(rest[j] == es[j + 1]);
        }
    } else if r >= w {
        lemma_select_slots(es.drop_first(), b, r - w);
    }
}

/// Relies on rand's `thread_rng().gen_range(low, high)`: a value in
/// `[low, high)`, drawn uniformly; it panics when `low >= high`.
#[verifier::external_body]
fn draw_below(n: u64) -> (r: u64)
    requires
        n > 0,
    ensures
        r < n,
{
    rand::Rng::gen_range(&mut rand::thread_rng(), 0u64, n)
}

fn find_successor(es: &Vec<Successor>, b: &String) -> (r: Option<usize>)
    ensures
        match r {
            Some(j) => j < es@.len() && es@[j as int].to@ == b@,
            None => forall|l: int| 0 <= l < es@.len() ==> es@[l].to@ != b@,
        },
{
    let mut j: usize = 0;
    while j < es.len()
        invariant
            j <= es@.len(),
            forall|l: int| 0 <= l < j ==> es@[l].to@ != b@,
        decreases es@.len() - j,
    {
        if es[j].to == *b {
            return Some(j);
        }
        j = j + 1;
    }
    None
}

spec fn targets(es: Seq<Successor>) -> Seq<Seq<char>> {
    es.map_values(|e: Successor| e.to@)
}

/// The sum of `weight_to(es, b)` over the tokens `b` of `bs`.
spec fn weights_of(es: Seq<Successor>, bs: Seq<Seq<char>>) -> nat
    decreases bs.len(),
{
    if bs.len() == 0 {
        0
    } else {
        weight_to(es, bs[0]) + weights_of(es, bs.drop_first())
    }
}

proof fn lemma_weights_of_rest(es: Seq<Successor>, bs: Seq<Seq<char>>)
    requires
        es.len() > 0,
        forall|i: int| 0 <= i < bs.len() ==> bs[i] != es[0].to@,
    ensures
        weights_of(es, bs) == weights_of(es.drop_first(), bs),
    decreases bs.len(),
{
    if bs.len() > 0 {
        assert(bs[0] != es[0].to@);
        lemma_weights_of_rest(es, bs.drop_first());
    }
}

proof fn lemma_weight_sum_targets(es: Seq<Successor>)
    requires
        list_ok(es),
    ensures
        weight_sum(es) == weights_of(es, targets(es)),
    decreases es.len(),
{
    if es.len() > 0 {
        let rest = es.drop_first();
        lemma_drop_first_ok(es);
        lemma_weight_sum_targets(rest);
        assert(targets(es).drop_first() =~= targets(rest));
        assert forall|i: int| 0 <= i < targets(rest).len() implies targets(rest)[i] != es[0].to@ by {
            assert(rest[i] == es[i + 1]);
        }
        lemma_weights_of_rest(es, targets(rest));
    }
}

impl Chain {
    /// Well-formedness: source tokens are distinct; each holds distinct
    /// successors of positive weight, and its outgoing count is their sum.
    pub closed spec fn wf(self) -> bool {
        &&& forall|k: int| 0 <= k < self.nodes@.len() ==> node_ok(#[trigger] self.nodes@[k])
        &&& forall|k: int, l: int|
            0 <= k < l < self.nodes@.len() ==> self.nodes@[k].word@ != self.nodes@[l].word@
        &&& self.pairs == pair_lens(self.nodes@)
    }

    /// The number of distinct tokens from which a pair was recorded.
    pub closed spec fn source_count(self) -> nat {
        self.nodes@.len()
    }

    /// The number of distinct pairs recorded.
    pub closed spec fn pair_total(self) -> nat {
        pair_lens(self.nodes@)
    }

    /// The number of recorded pairs that start with `a`.
    pub closed spec fn outgoing(self, a: Seq<char>) -> nat {
        let k = index_of(self.nodes@, a);
        if k >= 0 {
            self.nodes@[k].out as nat
        } else {
            0
        }
    }

    /// The number of times the pair `(a, b)` was recorded.
    pub closed spec fn edge(self, a: Seq<char>, b: Seq<char>) -> nat {
        let k = index_of(self.nodes@, a);
        if k >= 0 {
            weight_to(self.nodes@[k].next@, b)
        } else {
            0
        }
    }

    /// The tokens recorded after `a`, each once.
    pub closed spec fn successors(self, a: Seq<char>) -> Seq<Seq<char>> {
        let k = index_of(self.nodes@, a);
        if k >= 0 {
            targets(self.nodes@[k].next@)
        } else {
            Seq::empty()
        }
    }

    /// The sum of `edge(a, b)` over the tokens `b` of `bs`.
    pub open spec fn edge_sum(self, a: Seq<char>, bs: Seq<Seq<char>>) -> nat
        decreases bs.len(),
    {
        if bs.len() == 0 {
            0
        } else {
            self.edge(a, bs[0]) + self.edge_sum(a, bs.drop_first())
        }
    }

    /// The successor of `a` that slot `r` selects, for `r` in
    /// `[0, outgoing(a))`: each successor `b` covers `edge(a, b)` slots.
    pub closed spec fn choice(self, a: Seq<char>, r: int) -> Seq<char> {
        let k = index_of(self.nodes@, a);
        if k >= 0 {
            select(self.nodes@[k].next@, r)
        } else {
            Seq::empty()
        }
    }

    /// The first slot that `b` covers among the successors of `a`.
    pub closed spec fn offset(self, a: Seq<char>, b: Seq<char>) -> nat {
        let k = index_of(self.nodes@, a);
        if k >= 0 {
            offset_of(self.nodes@[k].next@, b)
        } else {
            0
        }
    }

    proof fn lemma_index(self, a: Seq<char>, k: int)
        requires
            self.wf(),
            0 <= k < self.nodes@.len(),
            self.nodes@[k].word@ == a,
        ensures
            index_of(self.nodes@, a) == k,
    {
        let c = index_of(self.nodes@, a);
        assert(0 <= c < self.nodes@.len() && self.nodes@[c].word@ == a);
        if c < k {
            assert(self.nodes@[c].word@ != self.nodes@[k].word@);
        } else if c > k {
            assert(self.nodes@[k].word@ != self.nodes@[c].word@);
        }
    }

    proof fn lemma_edge_sum(self, a: Seq<char>, bs: Seq<Seq<char>>)
        requires
            index_of(self.nodes@, a) >= 0,
        ensures
            self.edge_sum(a, bs) == weights_of(self.nodes@[index_of(self.nodes@, a)].next@, bs),
        decreases bs.len(),
    {
        if bs.len() > 0 {
            self.lemma_edge_sum(a, bs.drop_first());
        }
    }

    /// Each token's outgoing count is the sum of `edge(a, b)` over its
    /// successors `b`: the distinct tokens with `edge(a, b) > 0`.
    pub proof fn lemma_out_is_sum(self, a: Seq<char>)
        requires
            self.wf(),
        ensures
            self.successors(a).no_duplicates(),
            forall|b: Seq<char>| self.successors(a).contains(b) <==> #[trigger] self.edge(a, b) > 0,
            self.outgoing(a) == self.edge_sum(a, self.successors(a)),
    {
        let k = index_of(self.nodes@, a);
        if k >= 0 {
            let es = self.nodes@[k].next@;
            assert(node_ok(self.nodes@[k]));
            lemma_weight_sum_targets(es);
            self.lemma_edge_sum(a, targets(es));
            assert forall|b: Seq<char>| self.successors(a).contains(b) <==> #[trigger] self.edge(a, b)
                > 0 by {
                if self.successors(a).contains(b) {
                    let j = choose|j: int| 0 <= j < es.len() && targets(es)[j] == b;
                    lemma_weight_to_at(es, j);
                } else {
                    assert forall|j: int| 0 <= j < es.len() implies es[j].to@ != b by {
                        assert(targets(es)[j] == es[j].to@);
                    }
                    lemma_weight_to_absent(es, b);
                }
            }
            assert forall|i: int, j: int| 0 <= i < targets(es).len() && 0 <= j < targets(es).len() && i != j
                implies targets(es)[i] != targets(es)[j] by {
                if i < j {
                    assert(es[i].to@ != es[j].to@);
                } else {
                    assert(es[j].to@ != es[i].to@);
                }
            }
        } else {
            assert forall|b: Seq<char>| self.successors(a).contains(b) <==> #[trigger] self.edge(a, b)
                > 0 by {}
        }
    }

    /// Sampling law: each slot `r` in `[0, outgoing(a))` selects one
    /// successor, and the slots that select `b` are exactly the
    /// `edge(a, b)` consecutive slots from `offset(a, b)`. A slot drawn
    /// uniformly thus selects `b` with probability `edge(a, b) / outgoing(a)`.
    pub proof fn lemma_choice_slots(self, a: Seq<char>, b: Seq<char>, r: int)
        requires
            self.wf(),
            0 <= r < self.outgoing(a),
        ensures
            self.offset(a, b) + self.edge(a, b) <= self.outgoing(a),
            (self.choice(a, r) == b) <==> (self.offset(a, b) <= r < self.offset(a, b) + self.edge(
                a,
                b,
            )),
            self.edge(a, self.choice(a, r)) > 0,
    {
        let k = index_of(self.nodes@, a);
        assert(node_ok(self.nodes@[k]));
        let es = self.nodes@[k].next@;
        lemma_offset_bound(es, b);
        lemma_select_slots(es, b, r);
        lemma_select_member(es, r);
        let j = choose|j: int| 0 <= j < es.len() && es[j].to@ == select(es, r);
        lemma_weight_to_at(es, j);
    }

    /// An empty chain.
    pub fn new() -> (c: Chain)
        ensures
            c.wf(),
            forall|a: Seq<char>| #[trigger] c.outgoing(a) == 0,
            forall|a: Seq<char>, b: Seq<char>| #[trigger] c.edge(a, b) == 0,
            c.source_count() == 0,
            c.pair_total() == 0,
    {
        Chain { nodes: Vec::new(), pairs: 0 }
    }

    fn find_node(&self, a: &String) -> (r: Option<usize>)
        requires
            self.wf(),
        ensures
            match r {
                Some(k) => k < self.nodes@.len() && self.nodes@[k as int].word@ == a@ && index_of(
                    self.nodes@,
                    a@,
                ) == k,
                None => index_of(self.nodes@, a@) == -1,
            },
    {
        let mut k: usize = 0;
        while k < self.nodes.len()
            invariant
                self.wf(),
                k <= self.nodes@.len(),
                forall|l: int| 0 <= l < k ==> self.nodes@[l].word@ != a@,
            decreases self.nodes@.len() - k,
        {
            if self.nodes[k].word == *a {
                proof {
                    self.lemma_index(a@, k as int);
                }
                return Some(k);
            }
            k = k + 1;
        }
        None
    }

    /// Records the ordered pair `(a, b)` once: `outgoing(a)` and `edge(a, b)`
    /// each grow by one, and nothing else changes.
    pub fn see(&mut self, a: &str, b: &str)
        requires
            old(self).wf(),
            old(self).outgoing(a@) < u64::MAX,
            old(self).pair_total() < u64::MAX,
        ensures
            final(self).wf(),
            final(self).source_count() == old(self).source_count() + (if old(self).outgoing(a@)
                == 0 {
                1nat
            } else {
                0
            }),
            final(self).pair_total() == old(self).pair_total() + (if old(self).edge(a@, b@) == 0 {
                1nat
            } else {
                0
            }),
            forall|x: Seq<char>|
                #[trigger] final(self).outgoing(x) == old(self).outgoing(x) + (if x == a@ {
                    1nat
                } else {
                    0
                }),
            forall|x: Seq<char>, y: Seq<char>|
                #[trigger] final(self).edge(x, y) == old(self).edge(x, y) + (if x == a@ && y
                    == b@ {
                    1nat
                } else {
                    0
                }),
    {
        let a_s = a.to_string();
        let b_s = b.to_string();
        let ghost pre = *self;
        match self.find_node(&a_s) {
            None => {
                let e = Successor { to: b_s, weight: 1 };
                let mut next: Vec<Successor> = Vec::new();
                next.push(e);
                proof {
                    assert(next@ =~= Seq::<Successor>::empty().push(e));
                    lemma_sum_push(Seq::<Successor>::empty(), e);
                }
                proof {
                    lemma_lens_push(self.nodes@, Node { word: a_s, out: 1, next });
                }
                self.nodes.push(Node { word: a_s, out: 1, next });
                self.pairs = self.pairs + 1;
                proof {
                    let n = pre.nodes@.len() as int;
                    assert(self.nodes@[n] == Node { word: a_s, out: 1, next });
                    assert(self.wf()) by {
                        assert forall|l: int| 0 <= l < self.nodes@.len() implies node_ok(
                            #[trigger] self.nodes@[l],
                        ) by {
                            if l < n {
                                assert(self.nodes@[l] == pre.nodes@[l]);
                            }
                        }
                        assert forall|l: int, m: int| 0 <= l < m < self.nodes@.len() implies
                            self.nodes@[l].word@ != self.nodes@[m].word@ by {
                            if m < n {
                                assert(pre.nodes@[l].word@ != pre.nodes@[m].word@);
                            } else {
                                assert(pre.nodes@[l].word@ != a@);
                            }
                        }
                    }
                    assert forall|x: Seq<char>, y: Seq<char>| #[trigger]
                        self.edge(x, y) == pre.edge(x, y) + (if x == a@ && y == b@ {
                            1nat
                        } else {
                            0
                        }) && self.outgoing(x) == pre.outgoing(x) + (if x == a@ { 1nat } else { 0 }) by {
                        if x == a@ {
                            self.lemma_index(x, n);
                            lemma_weight_to_push(Seq::<Successor>::empty(), e, y);
                            assert(weight_to(Seq::<Successor>::empty(), y) == 0);
                        } else {
                            let k = index_of(pre.nodes@, x);
                            if k >= 0 {
                                assert(self.nodes@[k] == pre.nodes@[k]);
                                self.lemma_index(x, k);
                            } else {
                                assert forall|l: int| 0 <= l < self.nodes@.len() implies
                                    self.nodes@[l].word@ != x by {
                                    if l < n {
                                        assert(self.nodes@[l] == pre.nodes@[l]);
                                    }
                                }
                            }
                        }
                    }
                    assert forall|x: Seq<char>| #[trigger]
                        self.outgoing(x) == pre.outgoing(x) + (if x == a@ { 1nat } else { 0 }) by {
                        assert(self.edge(x, b@) == pre.edge(x, b@) + (if x == a@ { 1nat } else { 0 }));
                    }
                }
            },
            Some(k) => {
                let ghost es = self.nodes@[k as int].next@;
                let ghost mut pos: int = -1;
                proof {
                    assert(node_ok(self.nodes@[k as int]));
                    lemma_offset_bound(es, b@);
                }
                match find_successor(&self.nodes[k].next, &b_s) {
                    Some(j) => {
                        proof {
                            lemma_weight_to_at(es, j as int);
                            pos = j as int;
                        }
                        let w = self.nodes[k].next[j].weight;
                        self.nodes[k].next[j].weight = w + 1;
                    },
                    None => {
                        proof {
                            lemma_weight_to_absent(es, b@);
                        }
                        self.nodes[k].next.push(Successor { to: b_s, weight: 1 });
                        self.pairs = self.pairs + 1;
                    },
                }
                let o = self.nodes[k].out;
                self.nodes[k].out = o + 1;
                proof {
                    lemma_lens_change(pre.nodes@, self.nodes@, k as int);
                    let fs = self.nodes@[k as int].next@;
                    if pos >= 0 {
                        assert(bumped(es, fs, pos));
                        lemma_bump(es, fs, pos, b@);
                        assert forall|x: Seq<char>| #[trigger]
                            weight_to(fs, x) == weight_to(es, x) + (if x == b@ { 1nat } else { 0 }) by {
                            lemma_bump(es, fs, pos, x);
                        }
                        assert forall|i: int, j: int| 0 <= i < j < fs.len() implies fs[i].to@
                            != fs[j].to@ by {
                            assert(es[i].to@ != es[j].to@);
                        }
                        assert forall|i: int| 0 <= i < fs.len() implies #[trigger] fs[i].weight
                            >= 1 by {
                            assert(es[i].weight >= 1);
                        }
                    } else {
                        let e = fs.last();
                        assert(fs =~= es.push(e));
                        lemma_sum_push(es, e);
                        assert forall|x: Seq<char>| #[trigger]
                            weight_to(fs, x) == weight_to(es, x) + (if x == b@ { 1nat } else { 0 }) by {
                            lemma_weight_to_push(es, e, x);
                        }
                        assert forall|i: int, j: int| 0 <= i < j < fs.len() implies fs[i].to@
                            != fs[j].to@ by {
                            if j < es.len() {
                                assert(es[i].to@ != es[j].to@);
                            }
                        }
                        assert forall|i: int| 0 <= i < fs.len() implies #[trigger] fs[i].weight
                            >= 1 by {
                            if i < es.len() {
                                assert(es[i].weight >= 1);
                            }
                        }
                    }
                    assert(node_ok(self.nodes@[k as int]));
                    assert forall|l: int| 0 <= l < self.nodes@.len() implies node_ok(
                        #[trigger] self.nodes@[l],
                    ) by {
                        if l != k {
                            assert(self.nodes@[l] == pre.nodes@[l]);
                        }
                    }
                    assert forall|l: int, m: int| 0 <= l < m < self.nodes@.len() implies
                        self.nodes@[l].word@ != self.nodes@[m].word@ by {
                        assert(pre.nodes@[l].word@ != pre.nodes@[m].word@);
                    }
                    assert(self.wf());
                    assert forall|x: Seq<char>| index_of(self.nodes@, x) == index_of(pre.nodes@, x) by {
                        let c = index_of(pre.nodes@, x);
                        if c >= 0 {
                            pre.lemma_index(x, c);
                            self.lemma_index(x, c);
                        } else {
                            assert forall|l: int| 0 <= l < self.nodes@.len() implies
                                self.nodes@[l].word@ != x by {
                                assert(self.nodes@[l].word@ == pre.nodes@[l].word@);
                            }
                        }
                    }
                    assert forall|x: Seq<char>, y: Seq<char>| #[trigger]
                        self.edge(x, y) == pre.edge(x, y) + (if x == a@ && y == b@ {
                            1nat
                        } else {
                            0
                        }) && self.outgoing(x) == pre.outgoing(x) + (if x == a@ { 1nat } else { 0 }) by {
                        let c = index_of(pre.nodes@, x);
                        if c >= 0 && c != k {
                            assert(self.nodes@[c] == pre.nodes@[c]);
                        }
                        if x != a@ {
                            assert(c != k);
                        }
                    }
                    assert forall|x: Seq<char>| #[trigger]
                        self.outgoing(x) == pre.outgoing(x) + (if x == a@ { 1nat } else { 0 }) by {
                        assert(self.edge(x, b@) == pre.edge(x, b@) + (if x == a@ { 1nat } else { 0 }));
                    }
                }
            },
        }
    }

    /// The successor of `seed` that slot `r` selects (see [`Chain::choice`]).
    pub fn pick(&self, seed: &str, r: u64) -> (w: String)
        requires
            self.wf(),
            r < self.outgoing(seed@),
        ensures
            w@ == self.choice(seed@, r as int),
            self.edge(seed@, w@) > 0,
    {
        proof {
            self.lemma_choice_slots(seed@, seed@, r as int);
        }
        let s = seed.to_string();
        let k = match self.find_node(&s) {
            Some(k) => k,
            // `r < outgoing(seed)` rules this out: `seed` has a node.
            None => {
                return String::new();
            },
        };
        let es = &self.nodes[k].next;
        proof {
            assert(node_ok(self.nodes@[k as int]));
        }
        let mut acc: u64 = 0;
        let mut j: usize = 0;
        assert(es@.skip(0) =~= es@);
        while j < es.len()
            invariant
                k < self.nodes@.len(),
                index_of(self.nodes@, seed@) == k,
                es@ == self.nodes@[k as int].next@,
                self.edge(seed@, self.choice(seed@, r as int)) > 0,
                j <= es@.len(),
                acc + weight_sum(es@.skip(j as int)) == weight_sum(es@),
                weight_sum(es@) == self.nodes@[k as int].out,
                acc <= r < weight_sum(es@),
                select(es@, r as int) == select(es@.skip(j as int), r - acc),
            decreases es@.len() - j,
        {
            let ghost rest = es@.skip(j as int);
            assert(rest.drop_first() =~= es@.skip(j as int + 1));
            assert(rest[0] == es@[j as int]);
            let w = es[j].weight;
            if r - acc < w {
                return es[j].to.clone();
            }
            acc = acc + w;
            j = j + 1;
        }
        // The slots run out only past `outgoing(seed)`, so the loop returns.
        assert(es@.skip(j as int).len() == 0);
        String::new()
    }

    /// A successor of `seed`, drawn with probability
    /// `edge(seed, b) / outgoing(seed)`; an error naming `seed` when no pair
    /// starting with it was recorded.
    pub fn next(&self, seed: &str) -> (res: Result<String, MarkovErr>)
        requires
            self.wf(),
        ensures
            res is Ok <==> self.outgoing(seed@) > 0,
            match res {
                Ok(w) => exists|r: int|
                    0 <= r < self.outgoing(seed@) && w@ == #[trigger] self.choice(seed@, r),
                Err(MarkovErr::NotSeen { w }) => w@ == seed@,
                Err(_) => false,
            },
    {
        let total = self.out_count(seed);
        if total == 0 {
            return Err(MarkovErr::NotSeen { w: seed.to_string() });
        }
        let r = draw_below(total);
        Ok(self.pick(seed, r))
    }

    /// The number of recorded pairs that start with `a`.
    pub fn out_count(&self, a: &str) -> (n: u64)
        requires
            self.wf(),
        ensures
            n == self.outgoing(a@),
    {
        match self.find_node(&a.to_string()) {
            Some(k) => self.nodes[k].out,
            None => 0,
        }
    }

    /// The number of times the pair `(a, b)` was recorded.
    pub fn weight(&self, a: &str, b: &str) -> (n: u64)
        requires
            self.wf(),
        ensures
            n == self.edge(a@, b@),
    {
        match self.find_node(&a.to_string()) {
            Some(k) => {
                let ghost es = self.nodes@[k as int].next@;
                proof {
                    assert(node_ok(self.nodes@[k as int]));
                    lemma_offset_bound(es, b@);
                }
                match find_successor(&self.nodes[k].next, &b.to_string()) {
                    Some(j) => {
                        proof {
                            lemma_weight_to_at(es, j as int);
                        }
                        self.nodes[k].next[j].weight
                    },
                    None => {
                        proof {
                            lemma_weight_to_absent(es, b@);
                        }
                        0
                    },
                }
            },
            None => 0,
        }
    }

    /// The number of distinct tokens from which a pair was recorded.
    pub fn node_count(&self) -> (n: usize)
        ensures
            n == self.source_count(),
    {
        self.nodes.len()
    }

    /// The number of distinct pairs recorded.
    pub fn edge_count(&self) -> (n: u64)
        requires
            self.wf(),
        ensures
            n == self.pair_total(),
    {
        self.pairs
    }
}

} // verus!
