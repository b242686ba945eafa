use std::cmp::Ordering;

use vstd::prelude::*;

verus! {

/// A sequence of round indices, strictly decreasing.
pub open spec fn strictly_decreasing(s: Seq<usize>) -> bool {
    forall|a: int, b: int| 0 <= a < b < s.len() ==> s[a] > s[b]
}

/// Lexicographic comparison of `a` and `b`, looking from position `k` on.
pub open spec fn lex_cmp_from(a: Seq<usize>, b: Seq<usize>, k: nat) -> Ordering
    decreases a.len() - k,
{
    if k >= a.len() {
        if k >= b.len() {
            Ordering::Equal
        } else {
            Ordering::Less
        }
    } else if k >= b.len() {
        Ordering::Greater
    } else if a[k as int] < b[k as int] {
        Ordering::Less
    } else if a[k as int] > b[k as int] {
        Ordering::Greater
    } else {
        lex_cmp_from(a, b, k + 1)
    }
}

/// Lexicographic order on sequences; a proper prefix is smaller.
pub open spec fn lex_cmp(a: Seq<usize>, b: Seq<usize>) -> Ordering {
    lex_cmp_from(a, b, 0)
}

/// `a` is not above `b` in lexicographic order.
pub open spec fn lex_le(a: Seq<usize>, b: Seq<usize>) -> bool {
    lex_cmp(a, b) != Ordering::Greater
}

/// The label set of a vertex: the rounds in which an eliminated neighbour
/// touched it, kept in the order in which they were added, which is
/// decreasing.
pub struct LabelSet {
    rounds: Vec<usize>,
}

impl View for LabelSet {
    type V = Seq<usize>;

    closed spec fn view(&self) -> Seq<usize> {
        self.rounds@
    }
}

impl LabelSet {
    pub open spec fn wf(&self) -> bool {
        strictly_decreasing(self@)
    }

    /// The empty label set.
    pub fn new() -> (r: LabelSet)
        ensures
            r@ == Seq::<usize>::empty(),
            r.wf(),
    {
        LabelSet { rounds: Vec::new() }
    }

    /// Adds `round`, which is not above any round already held; adding a
    /// round that is already there changes nothing.
    pub fn insert(&mut self, round: usize)
        requires
            old(self).wf(),
            forall|k: int| 0 <= k < old(self)@.len() ==> old(self)@[k] >= round,
        ensures
            final(self).wf(),
            final(self)@ == with_round(old(self)@, round),
    {
        let len = self.rounds.len();
        if len == 0 || self.rounds[len - 1] != round {
            self.rounds.push(round);
        }
    }

    /// The number of rounds held.
    pub fn len(&self) -> (r: usize)
        ensures
            r == self@.len(),
    {
        self.rounds.len()
    }

    /// The rounds held, largest first.
    pub fn rounds(&self) -> (r: &[usize])
        ensures
            r@ == self@,
    {
        self.rounds.as_slice()
    }
}

/// `s` with `round` added at its end, unless it already ends with it.
pub open spec fn with_round(s: Seq<usize>, round: usize) -> Seq<usize> {
    if s.len() > 0 && s.last() == round {
        s
    } else {
        s.push(round)
    }
}

/// Adds `round` to `s` when `marked` holds; the work of one vertex in a
/// label update.
pub fn label_if(s: &mut LabelSet, marked: bool, round: usize)
    requires
        old(s).wf(),
        marked ==> forall|k: int| 0 <= k < old(s)@.len() ==> old(s)@[k] >= round,
    ensures
        final(s).wf(),
        final(s)@ == if marked {
            with_round(old(s)@, round)
        } else {
            old(s)@
        },
{
    if marked {
        s.insert(round);
    }
}

/// Compares two label sets: lexicographically over their rounds, largest
/// round first; when one is a proper prefix of the other, the longer one is
/// greater.
pub fn rose_cmp(a: &LabelSet, b: &LabelSet) -> (r: Ordering)
    ensures
        r == lex_cmp(a@, b@),
{
    let x = a.rounds();
    let y = b.rounds();
    let mut k: usize = 0;
    while k < x.len() && k < y.len()
        invariant
            x@ == a@,
            y@ == b@,
            k <= x@.len(),
            k <= y@.len(),
            lex_cmp(a@, b@) == lex_cmp_from(a@, b@, k as nat),
        decreases x@.len() - k,
    {
        if x[k] < y[k] {
            return Ordering::Less;
        } else if x[k] > y[k] {
            return Ordering::Greater;
        }
        k = k + 1;
    }
    if k < x.len() {
        Ordering::Greater
    } else if k < y.len() {
        Ordering::Less
    } else {
        Ordering::Equal
    }
}

/// The number of edges of a complete graph on `n` vertices.
pub open spec fn complete_edges(n: int) -> int {
    n * (n - 1) / 2
}

/// The number of edges of a complete graph on `n` vertices, where it fits
/// in a `usize`.
pub fn complete_graph_edge_count(n: usize) -> (r: Option<usize>)
    ensures
        match r {
            Some(m) => m == complete_edges(n as int),
            None => n * (n - 1) > usize::MAX,
        },
{
    if n == 0 {
        return Some(0);
    }
    match n.checked_mul(n - 1) {
        Some(p) => Some(p / 2),
        None => None,
    }
}


/// Swapping the arguments of the comparison mirrors its result.
pub proof fn lemma_lex_cmp_from_flip(a: Seq<usize>, b: Seq<usize>, k: nat)
    ensures
        (lex_cmp_from(a, b, k) == Ordering::Less) == (lex_cmp_from(b, a, k) == Ordering::Greater),
        (lex_cmp_from(a, b, k) == Ordering::Equal) == (lex_cmp_from(b, a, k) == Ordering::Equal),
    decreases a.len() - k,
{
    if k < a.len() && k < b.len() && a[k as int] == b[k as int] {
        lemma_lex_cmp_from_flip(a, b, k + 1);
    }
}

/// Equal under the comparison means equal from position `k` on.
pub proof fn lemma_lex_cmp_from_equal(a: Seq<usize>, b: Seq<usize>, k: nat)
    requires
        lex_cmp_from(a, b, k) == Ordering::Equal,
        k <= a.len(),
        k <= b.len(),
    ensures
        a.len() == b.len(),
        forall|t: int| k <= t < a.len() ==> a[t] == b[t],
    decreases a.len() - k,
{
    if k < a.len() {
        lemma_lex_cmp_from_equal(a, b, k + 1);
    }
}

/// The comparison is transitive.
pub proof fn lemma_lex_cmp_from_transitive(a: Seq<usize>, b: Seq<usize>, c: Seq<usize>, k: nat)
    requires
        lex_cmp_from(a, b, k) != Ordering::Greater,
        lex_cmp_from(b, c, k) != Ordering::Greater,
    ensures
        lex_cmp_from(a, c, k) != Ordering::Greater,
        lex_cmp_from(a, b, k) == Ordering::Less || lex_cmp_from(b, c, k) == Ordering::Less
            ==> lex_cmp_from(a, c, k) == Ordering::Less,
    decreases a.len() - k,
{
    if k < a.len() && k < b.len() && k < c.len() && a[k as int] == b[k as int] && b[k as int]
        == c[k as int] {
        lemma_lex_cmp_from_transitive(a, b, c, k + 1);
    }
}

/// The properties of the label order used by every selection: it is a total
/// order on sequences.
pub proof fn lemma_lex_cmp_order(a: Seq<usize>, b: Seq<usize>)
    ensures
        (lex_cmp(a, b) == Ordering::Less) == (lex_cmp(b, a) == Ordering::Greater),
        (lex_cmp(a, b) == Ordering::Equal) == (a == b),
        (lex_cmp(a, b) == Ordering::Equal) == (lex_cmp(b, a) == Ordering::Equal),
{
    lemma_lex_cmp_from_flip(a, b, 0);
    if lex_cmp(a, b) == Ordering::Equal {
        lemma_lex_cmp_from_equal(a, b, 0);
        assert(a =~= b);
    }
    if a == b {
        lemma_lex_cmp_from_reflexive(a, 0);
    }
}

proof fn lemma_lex_cmp_from_reflexive(a: Seq<usize>, k: nat)
    ensures
        lex_cmp_from(a, a, k) == Ordering::Equal,
    decreases a.len() - k,
{
    if k < a.len() {
        lemma_lex_cmp_from_reflexive(a, k + 1);
    }
}

/// Transitivity of the label order.
pub proof fn lemma_lex_cmp_transitive(a: Seq<usize>, b: Seq<usize>, c: Seq<usize>)
    requires
        lex_le(a, b),
        lex_le(b, c),
    ensures
        lex_le(a, c),
        lex_cmp(a, b) == Ordering::Less || lex_cmp(b, c) == Ordering::Less ==> lex_cmp(a, c)
            == Ordering::Less,
{
    lemma_lex_cmp_from_transitive(a, b, c, 0);
}

} // verus!
