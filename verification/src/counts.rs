//! The table of domains and how often each occurs, and the order in which a
//! ranking lists its rows.

use crate::text::{lemma_lex_lt_irreflexive, lemma_lex_lt_total, lemma_lex_lt_transitive, lex_lt};
use vstd::prelude::*;

verus! {

/// A table from domain to number of occurrences. Each domain has one row.
pub struct DomainCounts {
    rows: Vec<(String, usize)>,
}

impl View for DomainCounts {
    type V = Map<Seq<char>, nat>;

    closed spec fn view(&self) -> Map<Seq<char>, nat> {
        Map::new(
            |domain: Seq<char>| self.row_of(domain) < self.rows@.len(),
            |domain: Seq<char>| self.rows@[self.row_of(domain)].1 as nat,
        )
    }
}

impl DomainCounts {
    #[verifier::type_invariant]
    closed spec fn one_row_each(&self) -> bool {
        forall|i: int, j: int|
            0 <= i < j < self.rows@.len() ==> (#[trigger] self.rows@[i]).0@ != (
            #[trigger] self.rows@[j]).0@
    }

    /// The index of a row for `domain`, or the number of rows.
    closed spec fn row_of(&self, domain: Seq<char>) -> int {
        if exists|i: int| 0 <= i < self.rows@.len() && (#[trigger] self.rows@[i]).0@ == domain {
            choose|i: int| 0 <= i < self.rows@.len() && (#[trigger] self.rows@[i]).0@ == domain
        } else {
            self.rows@.len() as int
        }
    }

    /// Row `i` is the row of its domain.
    proof fn lemma_row(&self, i: int)
        requires
            self.one_row_each(),
            0 <= i < self.rows@.len(),
        ensures
            self.row_of(self.rows@[i].0@) == i,
            self@.contains_key(self.rows@[i].0@),
            self@[self.rows@[i].0@] == self.rows@[i].1,
    {
        let domain = self.rows@[i].0@;
        let found = self.row_of(domain);
        if found < i {
            assert(self.rows@[found].0@ != self.rows@[i].0@);
        } else if i < found {
            assert(self.rows@[i].0@ != self.rows@[found].0@);
        }
    }

    /// A domain that no row has is not in the table.
    proof fn lemma_missing(&self, domain: Seq<char>)
        requires
            forall|i: int| 0 <= i < self.rows@.len() ==> (#[trigger] self.rows@[i]).0@ != domain,
        ensures
            !self@.contains_key(domain),
    {
    }

    /// The empty table.
    pub fn new() -> (counts: DomainCounts)
        ensures
            counts@ == Map::<Seq<char>, nat>::empty(),
    {
        let counts = DomainCounts { rows: Vec::new() };
        assert(counts@ =~= Map::<Seq<char>, nat>::empty());
        counts
    }

    /// The index of the row for `domain`, or the number of rows.
    fn find(&self, domain: &String) -> (k: usize)
        ensures
            k <= self.rows@.len(),
            k < self.rows@.len() ==> self.rows@[k as int].0@ == domain@,
            k == self.rows@.len() ==> !self@.contains_key(domain@),
            k < self.rows@.len() <==> self@.contains_key(domain@),
    {
        let mut k: usize = 0;
        while k < self.rows.len()
            invariant
                k <= self.rows@.len(),
                forall|i: int| 0 <= i < k ==> (#[trigger] self.rows@[i]).0@ != domain@,
            decreases self.rows@.len() - k,
        {
            if self.rows[k].0 == *domain {
                proof {
                    use_type_invariant(self);
                    self.lemma_row(k as int);
                }
                return k;
            }
            k += 1;
        }
        proof {
            self.lemma_missing(domain@);
        }
        k
    }

    /// The count of `domain`, or `None` where the table has no row for it.
    pub fn get(&self, domain: &str) -> (count: Option<usize>)
        ensures
            count is Some <==> self@.contains_key(domain@),
            count matches Some(c) ==> self@[domain@] == c,
    {
        let key = domain.to_owned();
        let k = self.find(&key);
        if k < self.rows.len() {
            proof {
                use_type_invariant(self);
                self.lemma_row(k as int);
            }
            Some(self.rows[k].1)
        } else {
            None
        }
    }

    /// Sets the count of `domain`, and returns the count that it had.
    pub fn insert(&mut self, domain: String, count: usize) -> (previous: Option<usize>)
        ensures
            final(self)@ == old(self)@.insert(domain@, count as nat),
            previous is Some <==> old(self)@.contains_key(domain@),
            previous matches Some(c) ==> old(self)@[domain@] == c,
    {
        let k = self.find(&domain);
        proof {
            use_type_invariant(&*self);
        }
        let ghost before = *self;
        let ghost key = domain@;
        let mut rows: Vec<(String, usize)> = Vec::new();
        core::mem::swap(&mut self.rows, &mut rows);
        let previous = if k < rows.len() {
            proof {
                before.lemma_row(k as int);
            }
            let previous = rows[k].1;
            rows.set(k, (domain, count));
            Some(previous)
        } else {
            rows.push((domain, count));
            None
        };
        proof {
            let after = DomainCounts { rows };
            let target = before@.insert(key, count as nat);
            assert forall|d: Seq<char>|
                after@.contains_key(d) == #[trigger] target.contains_key(d) && (target.contains_key(
                    d,
                ) ==> after@[d] == target[d]) by {
                if k < before.rows@.len() {
                    after.lemma_rows_after_set(before, k as int, d);
                } else {
                    after.lemma_rows_after_push(before, d);
                }
            }
            if k < before.rows@.len() {
                after.lemma_rows_after_set(before, k as int, key);
            } else {
                after.lemma_rows_after_push(before, key);
            }
            assert(after@ =~= target);
        }
        core::mem::swap(&mut self.rows, &mut rows);
        previous
    }

    /// Row `k` replaced by a row for the same domain: the table is the old
    /// one with that domain set to the new count.
    proof fn lemma_rows_after_set(&self, before: DomainCounts, k: int, d: Seq<char>)
        requires
            before.one_row_each(),
            0 <= k < before.rows@.len(),
            self.rows@ == before.rows@.update(k, self.rows@[k]),
            self.rows@[k].0@ == before.rows@[k].0@,
        ensures
            self.one_row_each(),
            agrees_at(before, *self, d, self.rows@[k].0@, self.rows@[k].1 as nat),
    {
        let key = self.rows@[k].0@;
        assert(self.one_row_each()) by {
            assert forall|i: int, j: int| 0 <= i < j < self.rows@.len() implies (
            #[trigger] self.rows@[i]).0@ != (#[trigger] self.rows@[j]).0@ by {
                assert(before.rows@[i].0@ != before.rows@[j].0@);
            }
        }
        self.lemma_row(k);
        if d != key {
            if before@.contains_key(d) {
                let i = before.row_of(d);
                before.lemma_row(i);
                assert(self.rows@[i] == before.rows@[i]);
                self.lemma_row(i);
            } else {
                assert forall|i: int| 0 <= i < self.rows@.len() implies (
                #[trigger] self.rows@[i]).0@ != d by {
                    if i != k {
                        before.lemma_row(i);
                    }
                }
                self.lemma_missing(d);
            }
        }
    }

    /// A row added for a domain that had none: the table is the old one
    /// with that domain set to the count of the row.
    proof fn lemma_rows_after_push(&self, before: DomainCounts, d: Seq<char>)
        requires
            before.one_row_each(),
            self.rows@.len() > 0,
            self.rows@ == before.rows@.push(self.rows@.last()),
            !before@.contains_key(self.rows@.last().0@),
        ensures
            self.one_row_each(),
            agrees_at(before, *self, d, self.rows@.last().0@, self.rows@.last().1 as nat),
    {
        let last = self.rows@.len() - 1;
        let key = self.rows@[last].0@;
        assert(self.one_row_each()) by {
            assert forall|i: int, j: int| 0 <= i < j < self.rows@.len() implies (
            #[trigger] self.rows@[i]).0@ != (#[trigger] self.rows@[j]).0@ by {
                before.lemma_row(i);
                if j < last {
                    assert(before.rows@[i].0@ != before.rows@[j].0@);
                }
            }
        }
        self.lemma_row(last);
        if d != key {
            if before@.contains_key(d) {
                let i = before.row_of(d);
                before.lemma_row(i);
                assert(self.rows@[i] == before.rows@[i]);
                self.lemma_row(i);
            } else {
                assert forall|i: int| 0 <= i < self.rows@.len() implies (
                #[trigger] self.rows@[i]).0@ != d by {
                    if i != last {
                        before.lemma_row(i);
                    }
                }
                self.lemma_missing(d);
            }
        }
    }

    /// The table has as many domains as rows.
    proof fn lemma_cardinality(&self)
        requires
            self.one_row_each(),
        ensures
            self@.dom().finite(),
            self@.dom().len() == self.rows@.len(),
    {
        let keys = Seq::new(self.rows@.len(), |i: int| self.rows@[i].0@);
        assert(keys.no_duplicates()) by {
            assert forall|i: int, j: int| 0 <= i < keys.len() && 0 <= j < keys.len() && i != j implies keys[i] != keys[j] by {
                if i < j {
                    assert(self.rows@[i].0@ != self.rows@[j].0@);
                } else {
                    assert(self.rows@[j].0@ != self.rows@[i].0@);
                }
            }
        }
        keys.unique_seq_to_set();
        vstd::seq_lib::seq_to_set_is_finite(keys);
        assert(keys.to_set() =~= self@.dom()) by {
            assert forall|d: Seq<char>| keys.to_set().contains(d) == self@.dom().contains(d) by {
                if keys.to_set().contains(d) {
                    let i = choose|i: int| 0 <= i < keys.len() && keys[i] == d;
                    self.lemma_row(i);
                }
                if self@.dom().contains(d) {
                    let i = self.row_of(d);
                    assert(keys[i] == d);
                }
            }
        }
    }

    /// The number of domains in the table.
    pub fn len(&self) -> (n: usize)
        ensures
            self@.dom().finite(),
            n == self@.dom().len(),
    {
        proof {
            use_type_invariant(self);
            self.lemma_cardinality();
        }
        self.rows.len()
    }

    /// The rows of the table: every domain once, with its count.
    pub fn rows(&self) -> (rows: &Vec<(String, usize)>)
        ensures
            self@.dom().finite(),
            rows@.len() == self@.dom().len(),
            forall|i: int, j: int| 0 <= i < j < rows@.len() ==> (#[trigger] rows@[i]).0@ != (
            #[trigger] rows@[j]).0@,
            forall|i: int|
                0 <= i < rows@.len() ==> self@.contains_key((#[trigger] rows@[i]).0@)
                    && self@[rows@[i].0@] == rows@[i].1,
            forall|domain: Seq<char>| #[trigger]
                self@.contains_key(domain) ==> exists|i: int|
                    0 <= i < rows@.len() && (#[trigger] rows@[i]).0@ == domain,
    {
        proof {
            use_type_invariant(self);
            self.lemma_cardinality();
            assert forall|i: int| 0 <= i < self.rows@.len() implies self@.contains_key(
                (#[trigger] self.rows@[i]).0@,
            ) && self@[self.rows@[i].0@] == self.rows@[i].1 by {
                self.lemma_row(i);
            }
        }
        &self.rows
    }
}

/// Whether table `after` is table `before` with `key` set to `count`, as far
/// as `domain` goes.
spec fn agrees_at(
    before: DomainCounts,
    after: DomainCounts,
    domain: Seq<char>,
    key: Seq<char>,
    count: nat,
) -> bool {
    if domain == key {
        after@.contains_key(domain) && after@[domain] == count
    } else {
        after@.contains_key(domain) == before@.contains_key(domain) && (before@.contains_key(domain)
            ==> after@[domain] == before@[domain])
    }
}

/// Whether row `a` stands before row `b` in a ranking: the higher count
/// first, and of two equal counts the domain that comes first in the
/// dictionary.
pub open spec fn ranks_before(a: (Seq<char>, usize), b: (Seq<char>, usize)) -> bool {
    a.1 > b.1 || (a.1 == b.1 && lex_lt(a.0, b.0))
}

/// `ranks_before` is a strict total order on rows with different domains.
pub proof fn lemma_ranks_before_order(
    a: (Seq<char>, usize),
    b: (Seq<char>, usize),
    c: (Seq<char>, usize),
)
    ensures
        !ranks_before(a, a),
        !(ranks_before(a, b) && ranks_before(b, a)),
        a.0 != b.0 ==> ranks_before(a, b) || ranks_before(b, a),
        ranks_before(a, b) && ranks_before(b, c) ==> ranks_before(a, c),
{
    lemma_lex_lt_irreflexive(a.0);
    lemma_lex_lt_total(a.0, b.0);
    if lex_lt(a.0, b.0) && lex_lt(b.0, c.0) {
        lemma_lex_lt_transitive(a.0, b.0, c.0);
    }
}

} // verus!
