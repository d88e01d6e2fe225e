//! A set of domain names, kept in ascending order without repetition.

use vstd::prelude::*;

use crate::text::{chars_eq, chars_lt, chars_of, lemma_seq_lt_asymmetric, lemma_seq_lt_irreflexive, lemma_seq_lt_total, lemma_seq_lt_transitive, seq_lt};

verus! {

broadcast use vstd::string::group_string_axioms;

/// Each element of `s` comes before every later one: `s` is ascending and
/// holds no element twice.
pub open spec fn strictly_sorted(s: Seq<Seq<char>>) -> bool {
    forall|i: int, j: int| 0 <= i < j < s.len() ==> seq_lt(#[trigger] s[i], #[trigger] s[j])
}

/// A set of domain names. Its view lists the names in ascending order, each
/// once, so that a set has exactly one view.
pub struct DomainSet {
    items: Vec<String>,
}

impl View for DomainSet {
    type V = Seq<Seq<char>>;

    closed spec fn view(&self) -> Seq<Seq<char>> {
        self.items@.map_values(|s: String| s@)
    }
}

impl DomainSet {
    /// The names are in ascending order, none twice. Every `DomainSet`
    /// keeps this.
    #[verifier::type_invariant]
    pub open spec fn wf(&self) -> bool {
        strictly_sorted(self@)
    }

    /// The empty set.
    pub fn new() -> (r: DomainSet)
        ensures
            r.wf(),
            r@ == Seq::<Seq<char>>::empty(),
    {
        let r = DomainSet { items: Vec::new() };
        assert(r@ =~= Seq::<Seq<char>>::empty());
        r
    }

    /// The number of names.
    pub fn len(&self) -> (r: usize)
        ensures
            r == self@.len(),
    {
        self.items.len()
    }

    /// Whether the set holds no name.
    pub fn is_empty(&self) -> (r: bool)
        ensures
            r == (self@.len() == 0),
    {
        self.items.len() == 0
    }

    /// The name at position `i` of the ascending order.
    pub fn get(&self, i: usize) -> (r: &String)
        requires
            i < self@.len(),
        ensures
            r@ == self@[i as int],
    {
        &self.items[i]
    }

    /// Whether `d` is in the set.
    pub fn contains(&self, d: &str) -> (r: bool)
        ensures
            r == self@.contains(d@),
    {
        let dc = chars_of(d);
        let mut k: usize = 0;
        while k < self.items.len()
            invariant
                k <= self.items.len(),
                dc@ == d@,
                forall|i: int| 0 <= i < k ==> self@[i] != d@,
            decreases self.items.len() - k,
        {
            let ic = chars_of(self.items[k].as_str());
            if chars_eq(&ic, &dc) {
                assert(self@[k as int] == d@);
                return true;
            }
            k = k + 1;
        }
        false
    }

    /// Adds `d`; returns whether it was not in the set before.
    pub fn insert(&mut self, d: String) -> (r: bool)
        ensures
            final(self).wf(),
            r == !old(self)@.contains(d@),
            final(self)@.to_set() == old(self)@.to_set().insert(d@),
            r ==> final(self)@.len() == old(self)@.len() + 1,
            !r ==> final(self)@ == old(self)@,
    {
        proof {
            use_type_invariant(&*self);
        }
        let ghost s = self@;
        let dc = chars_of(d.as_str());
        let mut pos: usize = 0;
        while pos < self.items.len()
            invariant
                pos <= self.items.len(),
                s == self@,
                s.len() == self.items.len(),
                dc@ == d@,
                strictly_sorted(s),
                forall|i: int| 0 <= i < pos ==> seq_lt(#[trigger] s[i], d@),
            ensures
                pos <= self.items.len(),
                s == self@,
                s.len() == self.items.len(),
                dc@ == d@,
                forall|i: int| 0 <= i < pos ==> seq_lt(#[trigger] s[i], d@),
                pos < s.len() ==> !seq_lt(s[pos as int], d@),
            decreases self.items.len() - pos,
        {
            let ic = chars_of(self.items[pos].as_str());
            assert(ic@ == s[pos as int]);
            if !chars_lt(&ic, &dc) {
                break;
            }
            pos = pos + 1;
        }
        let present = if pos < self.items.len() {
            let ic = chars_of(self.items[pos].as_str());
            chars_eq(&ic, &dc)
        } else {
            false
        };
        proof {
            // Nothing before `pos` equals `d`; nothing after it is below `d`.
            assert forall|i: int| 0 <= i < pos implies s[i] != d@ by {
                lemma_seq_lt_irreflexive(d@);
            }
            if pos < s.len() && !present {
                assert(!seq_lt(s[pos as int], d@));
                lemma_seq_lt_total(s[pos as int], d@);
                assert(seq_lt(d@, s[pos as int]));
            }
            if pos < s.len() {
                assert(!seq_lt(s[pos as int], d@));
            }
            assert forall|j: int| pos < j < s.len() implies seq_lt(d@, #[trigger] s[j]) by {
                assert(seq_lt(s[pos as int], s[j]));
                if s[pos as int] != d@ {
                    lemma_seq_lt_total(s[pos as int], d@);
                    lemma_seq_lt_transitive(d@, s[pos as int], s[j]);
                }
            }
            assert forall|j: int| pos < j < s.len() implies s[j] != d@ by {
                lemma_seq_lt_irreflexive(d@);
            }
        }
        if present {
            assert(s.contains(d@));
            return false;
        }
        // The names are moved out while `d` goes in, so that the set in
        // `self` stays ordered at every step.
        let mut items: Vec<String> = Vec::new();
        std::mem::swap(&mut items, &mut self.items);
        items.insert(pos, d);
        let ghost t = items@.map_values(|x: String| x@);
        assert(t =~= s.take(pos as int).push(d@) + s.skip(pos as int));
        assert(t.len() == s.len() + 1);
        assert forall|i: int, j: int| 0 <= i < j < t.len() implies seq_lt(
            #[trigger] t[i],
            #[trigger] t[j],
        ) by {
            if j < pos {
                assert(t[i] == s[i] && t[j] == s[j]);
            } else if j == pos {
                assert(t[i] == s[i] && t[j] == d@);
            } else if i < pos {
                assert(t[i] == s[i] && t[j] == s[j - 1]);
                if j - 1 == pos as int {
                    lemma_seq_lt_total(s[pos as int], d@);
                    lemma_seq_lt_transitive(s[i], d@, s[j - 1]);
                } else {
                    lemma_seq_lt_transitive(s[i], d@, s[j - 1]);
                }
            } else if i == pos {
                assert(t[i] == d@ && t[j] == s[j - 1]);
                if j - 1 == pos as int {
                    lemma_seq_lt_total(s[pos as int], d@);
                }
            } else {
                assert(t[i] == s[i - 1] && t[j] == s[j - 1]);
            }
        }
        assert(!s.contains(d@));
        assert(t.to_set() =~= s.to_set().insert(d@)) by {
            assert forall|x: Seq<char>| t.to_set().contains(x) implies s.to_set().insert(d@).contains(
                x,
            ) by {
                let k = choose|k: int| 0 <= k < t.len() && t[k] == x;
                if k < pos {
                    assert(s[k] == x);
                } else if k > pos {
                    assert(s[k - 1] == x);
                }
            }
            assert forall|x: Seq<char>| s.to_set().insert(d@).contains(x) implies t.to_set().contains(
                x,
            ) by {
                if x == d@ {
                    assert(t[pos as int] == x);
                } else {
                    let k = choose|k: int| 0 <= k < s.len() && s[k] == x;
                    if k < pos {
                        assert(t[k] == x);
                    } else {
                        assert(t[k + 1] == x);
                    }
                }
            }
        }
        self.items = items;
        true
    }

    /// The names, in ascending order.
    pub fn to_vec(&self) -> (r: Vec<String>)
        ensures
            r@.map_values(|s: String| s@) == self@,
    {
        self.items.clone()
    }

    /// Whether both sets hold the same names.
    pub fn same_names(&self, other: &DomainSet) -> (r: bool)
        ensures
            r == (self@ == other@),
    {
        if self.items.len() != other.items.len() {
            assert(self@.len() != other@.len());
            return false;
        }
        let mut k: usize = 0;
        while k < self.items.len()
            invariant
                k <= self.items.len(),
                self.items.len() == other.items.len(),
                forall|i: int| 0 <= i < k ==> self@[i] == other@[i],
            decreases self.items.len() - k,
        {
            if self.items[k] != other.items[k] {
                assert(self@[k as int] != other@[k as int]);
                return false;
            }
            k = k + 1;
        }
        assert(self@ =~= other@);
        true
    }
}

/// A set has one view: two well-formed sets that hold the same names have
/// equal views, so comparing views compares sets.
pub proof fn lemma_view_determined_by_names(a: Seq<Seq<char>>, b: Seq<Seq<char>>)
    requires
        strictly_sorted(a),
        strictly_sorted(b),
        a.to_set() == b.to_set(),
    ensures
        a == b,
    decreases a.len(),
{
    if a.len() == 0 {
        if b.len() > 0 {
            assert(b.to_set().contains(b[0]));
        }
        assert(a =~= b);
    } else if b.len() == 0 {
        assert(a.to_set().contains(a[0]));
    } else {
        // The first elements are both the least element of the set.
        assert(b.to_set().contains(a[0]));
        assert(a.to_set().contains(b[0]));
        let i = choose|i: int| 0 <= i < b.len() && b[i] == a[0];
        let j = choose|j: int| 0 <= j < a.len() && a[j] == b[0];
        if i > 0 && j > 0 {
            assert(seq_lt(b[0], b[i]));
            assert(seq_lt(a[0], a[j]));
            lemma_seq_lt_asymmetric(b[0], a[0]);
        }
        assert(a[0] == b[0]);
        let a1 = a.drop_first();
        let b1 = b.drop_first();
        assert forall|x: Seq<char>| a1.to_set().contains(x) implies b1.to_set().contains(x) by {
            let k = choose|k: int| 0 <= k < a1.len() && a1[k] == x;
            assert(seq_lt(a[0], a[k + 1]));
            lemma_seq_lt_irreflexive(a[0]);
            assert(b.to_set().contains(x));
            let m = choose|m: int| 0 <= m < b.len() && b[m] == x;
            assert(m != 0);
            assert(b1[m - 1] == x);
        }
        assert forall|x: Seq<char>| b1.to_set().contains(x) implies a1.to_set().contains(x) by {
            let k = choose|k: int| 0 <= k < b1.len() && b1[k] == x;
            assert(seq_lt(b[0], b[k + 1]));
            lemma_seq_lt_irreflexive(b[0]);
            assert(a.to_set().contains(x));
            let m = choose|m: int| 0 <= m < a.len() && a[m] == x;
            assert(m != 0);
            assert(a1[m - 1] == x);
        }
        assert(a1.to_set() =~= b1.to_set());
        assert(strictly_sorted(a1)) by {
            assert forall|p: int, q: int| 0 <= p < q < a1.len() implies seq_lt(
                #[trigger] a1[p],
                #[trigger] a1[q],
            ) by {
                assert(a1[p] == a[p + 1] && a1[q] == a[q + 1]);
            }
        }
        assert(strictly_sorted(b1)) by {
            assert forall|p: int, q: int| 0 <= p < q < b1.len() implies seq_lt(
                #[trigger] b1[p],
                #[trigger] b1[q],
            ) by {
                assert(b1[p] == b[p + 1] && b1[q] == b[q + 1]);
            }
        }
        lemma_view_determined_by_names(a1, b1);
        assert(a =~= seq![a[0]] + a1);
        assert(b =~= seq![b[0]] + b1);
    }
}

} // verus!
