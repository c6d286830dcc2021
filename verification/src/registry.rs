//! Keeping the anchors of a document apart: every slug given out or
//! reserved is recorded, and a slug already taken is numbered `-1`, `-2`, ...
//! with the first number that gives a slug not taken yet.

use vstd::prelude::*;
use crate::chars::push_char;
use crate::text::{decimal, push_decimal, lemma_decimal_len, lemma_numbered_injective};

verus! {

/// `base` numbered with `k`: `base-k`.
pub open spec fn numbered(base: Seq<char>, k: nat) -> Seq<char> {
    base + seq!['-'] + decimal(k)
}

/// Whether `k` is the first number from 1 on with `base-k` not taken.
pub open spec fn is_first_free(used: Set<Seq<char>>, base: Seq<char>, k: nat) -> bool {
    &&& k >= 1
    &&& !used.contains(numbered(base, k))
    &&& forall|m: nat| 1 <= m < k ==> #[trigger] used.contains(numbered(base, m))
}

/// The first number from 1 on with `base-k` not taken.
pub open spec fn first_free(used: Set<Seq<char>>, base: Seq<char>) -> nat {
    choose|k: nat| is_first_free(used, base, k)
}

/// What `make_unique` gives out for `base`, and the slugs taken afterwards:
/// `base` itself when it is not taken, otherwise `base-k` with the first
/// `k` from 1 on that gives a slug not taken; the slug given out is taken
/// from then on.
pub open spec fn spec_make_unique(used: Set<Seq<char>>, base: Seq<char>) -> (
    Seq<char>,
    Set<Seq<char>>,
) {
    if !used.contains(base) {
        (base, used.insert(base))
    } else {
        let slug = numbered(base, first_free(used, base));
        (slug, used.insert(slug))
    }
}

/// A number is the first free one in one way only.
proof fn lemma_first_free_unique(used: Set<Seq<char>>, base: Seq<char>, a: nat, b: nat)
    requires
        is_first_free(used, base, a),
        is_first_free(used, base, b),
    ensures
        a == b,
{
    if a < b {
        assert(used.contains(numbered(base, a)));
    } else if b < a {
        assert(used.contains(numbered(base, b)));
    }
}

/// `base` and `base-1`, ..., `base-m` are `m + 1` different slugs, so a
/// finite set holding them all has more than `m` elements.
proof fn lemma_numbered_bound(used: Set<Seq<char>>, base: Seq<char>, m: nat)
    requires
        used.finite(),
        used.contains(base),
        forall|j: nat| 1 <= j <= m ==> #[trigger] used.contains(numbered(base, j)),
    ensures
        m + 1 <= used.len(),
{
    let q = Seq::new(m, |j: int| numbered(base, (j + 1) as nat)).push(base);
    assert forall|a: int, b: int| 0 <= a < b < q.len() implies q[a] != q[b] by {
        if b < m {
            if q[a] == q[b] {
                lemma_numbered_injective(base, (a + 1) as nat, base, (b + 1) as nat);
            }
        } else {
            lemma_decimal_len((a + 1) as nat);
            assert(q[a].len() > base.len());
        }
    }
    assert(q.no_duplicates());
    q.unique_seq_to_set();
    assert forall|x: Seq<char>| q.to_set().contains(x) implies used.contains(x) by {
        let j = choose|j: int| 0 <= j < q.len() && q[j] == x;
        if j < m {
            assert(used.contains(numbered(base, (j + 1) as nat)));
        }
    }
    vstd::set_lib::lemma_len_subset(q.to_set(), used);
}

proof fn lemma_least_free_from(used: Set<Seq<char>>, base: Seq<char>, m: nat, k0: nat)
    requires
        1 <= m <= k0,
        forall|j: nat| 1 <= j < m ==> #[trigger] used.contains(numbered(base, j)),
        !used.contains(numbered(base, k0)),
    ensures
        exists|k: nat| k <= k0 && is_first_free(used, base, k),
    decreases k0 - m,
{
    if !used.contains(numbered(base, m)) {
        assert(is_first_free(used, base, m));
    } else {
        assert forall|j: nat| 1 <= j < m + 1 implies #[trigger] used.contains(numbered(base, j)) by {
        }
        lemma_least_free_from(used, base, m + 1, k0);
    }
}

/// In a finite set that holds `base`, the first free number exists and is
/// at most the number of slugs taken.
pub proof fn lemma_first_free(used: Set<Seq<char>>, base: Seq<char>)
    requires
        used.finite(),
        used.contains(base),
    ensures
        is_first_free(used, base, first_free(used, base)),
        first_free(used, base) <= used.len(),
{
    let l = used.len();
    if forall|j: nat| 1 <= j <= l ==> #[trigger] used.contains(numbered(base, j)) {
        lemma_numbered_bound(used, base, l);
    }
    let k0 = choose|j: nat| !(1 <= j <= l ==> #[trigger] used.contains(numbered(base, j)));
    lemma_least_free_from(used, base, 1, k0);
    let k = choose|k: nat| k <= k0 && is_first_free(used, base, k);
    lemma_first_free_unique(used, base, k, first_free(used, base));
}

/// The slug given out was not taken before, and it is taken afterwards
/// together with every slug taken before.
pub proof fn law_make_unique_fresh(used: Set<Seq<char>>, base: Seq<char>)
    requires
        used.finite(),
    ensures
        !used.contains(spec_make_unique(used, base).0),
        spec_make_unique(used, base).1 == used.insert(spec_make_unique(used, base).0),
        spec_make_unique(used, base).1.finite(),
{
    if used.contains(base) {
        lemma_first_free(used, base);
    }
}

/// The slugs given out for `bases`, one call of `make_unique` after
/// another, from the slugs `init` taken; and the slugs taken afterwards.
pub open spec fn make_unique_all(init: Set<Seq<char>>, bases: Seq<Seq<char>>) -> (
    Seq<Seq<char>>,
    Set<Seq<char>>,
)
    decreases bases.len(),
{
    if bases.len() == 0 {
        (Seq::empty(), init)
    } else {
        let (prev, used) = make_unique_all(init, bases.drop_last());
        let (slug, used2) = spec_make_unique(used, bases.last());
        (prev.push(slug), used2)
    }
}

/// Slugs given out one call after another never repeat, none of them was
/// taken at the start, and all of them are taken afterwards.
pub proof fn law_make_unique_never_repeats(init: Set<Seq<char>>, bases: Seq<Seq<char>>)
    requires
        init.finite(),
    ensures
        make_unique_all(init, bases).0.len() == bases.len(),
        make_unique_all(init, bases).1.finite(),
        forall|a: int, b: int|
            0 <= a < b < bases.len() ==> #[trigger] make_unique_all(init, bases).0[a]
                != #[trigger] make_unique_all(init, bases).0[b],
        forall|a: int|
            0 <= a < bases.len() ==> !init.contains(#[trigger] make_unique_all(init, bases).0[a])
                && make_unique_all(init, bases).1.contains(make_unique_all(init, bases).0[a]),
        forall|x: Seq<char>| init.contains(x) ==> make_unique_all(init, bases).1.contains(x),
    decreases bases.len(),
{
    if bases.len() > 0 {
        let p = bases.drop_last();
        law_make_unique_never_repeats(init, p);
        let (prev, used) = make_unique_all(init, p);
        law_make_unique_fresh(used, bases.last());
        let r = make_unique_all(init, bases).0;
        assert forall|a: int, b: int| 0 <= a < b < bases.len() implies #[trigger] r[a] != #[trigger] r[b] by {
            assert(r[a] == prev[a]);
            if b < p.len() {
                assert(r[b] == prev[b]);
            } else {
                assert(used.contains(prev[a]));
            }
        }
        assert forall|a: int| 0 <= a < bases.len() implies !init.contains(#[trigger] r[a])
            && make_unique_all(init, bases).1.contains(r[a]) by {
            if a < p.len() {
                assert(r[a] == prev[a]);
            }
        }
    }
}

/// The slugs given out or reserved so far in a document, each with the
/// last number it was given as a base (so that numbering a repeated base
/// goes on from there).
pub struct SlugRegistry {
    keys: Vec<String>,
    counts: Vec<usize>,
}

impl SlugRegistry {
    /// The slugs recorded, in the order they were recorded.
    pub closed spec fn key_seq(&self) -> Seq<Seq<char>> {
        self.keys@.map_values(|k: String| k@)
    }
}

impl View for SlugRegistry {
    type V = Set<Seq<char>>;

    /// The slugs taken.
    closed spec fn view(&self) -> Set<Seq<char>> {
        self.key_seq().to_set()
    }
}

impl SlugRegistry {
    /// Each slug is recorded once with a count, and every number up to a
    /// slug's count gives a slug taken.
    pub closed spec fn wf(&self) -> bool {
        &&& self.keys@.len() == self.counts@.len()
        &&& self.key_seq().no_duplicates()
        &&& forall|i: int, m: nat|
            0 <= i < self.keys@.len() && 1 <= m <= self.counts@[i] ==> #[trigger] self@.contains(
                numbered(self.key_seq()[i], m),
            )
    }

    proof fn lemma_view(&self)
        requires
            self.wf(),
        ensures
            self@.finite(),
            self@.len() == self.keys@.len(),
            forall|x: Seq<char>|
                self@.contains(x) <==> exists|i: int|
                    0 <= i < self.keys@.len() && #[trigger] self.keys@[i]@ == x,
    {
        self.key_seq().unique_seq_to_set();
        assert forall|x: Seq<char>| self@.contains(x) implies exists|i: int|
            0 <= i < self.keys@.len() && #[trigger] self.keys@[i]@ == x by {
            let i = choose|i: int| 0 <= i < self.key_seq().len() && self.key_seq()[i] == x;
            assert(self.keys@[i]@ == x);
        }
        assert forall|x: Seq<char>|
            (exists|i: int| 0 <= i < self.keys@.len() && #[trigger] self.keys@[i]@ == x) implies self@.contains(x) by {
            let i = choose|i: int| 0 <= i < self.keys@.len() && #[trigger] self.keys@[i]@ == x;
            assert(self.key_seq()[i] == x);
        }
    }

    /// No slug taken.
    pub fn new() -> (r: SlugRegistry)
        ensures
            r.wf(),
            r@ == Set::<Seq<char>>::empty(),
    {
        let r = SlugRegistry { keys: Vec::new(), counts: Vec::new() };
        assert(r.key_seq() =~= Seq::<Seq<char>>::empty());
        assert(r@ =~= Set::<Seq<char>>::empty());
        r
    }

    /// The position of `key` among the recorded slugs.
    fn find(&self, key: &String) -> (r: Option<usize>)
        requires
            self.wf(),
        ensures
            r matches Some(i) ==> i < self.keys@.len() && self.keys@[i as int]@ == key@,
            r is None <==> !self@.contains(key@),
    {
        proof {
            self.lemma_view();
        }
        let n = self.keys.len();
        let mut i: usize = 0;
        while i < n
            invariant
                n == self.keys@.len(),
                i <= n,
                forall|j: int| 0 <= j < i ==> self.keys@[j]@ != key@,
            decreases n - i,
        {
            if self.keys[i] == *key {
                assert(self.key_seq()[i as int] == key@);
                assert(self.key_seq().contains(key@));
                return Some(i);
            }
            i = i + 1;
        }
        None
    }

    /// Records a slug not taken yet, with count 0.
    fn push_new(&mut self, key: String)
        requires
            old(self).wf(),
            !old(self)@.contains(key@),
        ensures
            final(self).wf(),
            final(self)@ == old(self)@.insert(key@),
            final(self).key_seq() == old(self).key_seq().push(key@),
            final(self).counts@ == old(self).counts@.push(0),
    {
        let ghost old_seq = self.key_seq();
        self.keys.push(key);
        self.counts.push(0);
        assert(self.key_seq() =~= old_seq.push(key@));
        proof {
            old_seq.lemma_push_to_set_commute(key@);
            assert(!old_seq.contains(key@));
            assert forall|a: int, b: int| 0 <= a < b < self.key_seq().len() implies self.key_seq()[a]
                != self.key_seq()[b] by {
                if b == old_seq.len() {
                    assert(old_seq.contains(old_seq[a]));
                }
            }
            assert(self.key_seq().no_duplicates());
            assert forall|i: int, m: nat|
                0 <= i < self.keys@.len() && 1 <= m <= self.counts@[i] implies #[trigger] self@.contains(
                numbered(self.key_seq()[i], m),
            ) by {
                assert(i < old_seq.len());
                assert(old_seq.to_set().contains(numbered(old_seq[i], m)));
            }
        }
    }

    /// Reserves `id` (an explicit anchor of the document): it is taken
    /// from then on.
    pub fn reserve(&mut self, id: &str)
        requires
            old(self).wf(),
        ensures
            final(self).wf(),
            final(self)@ == old(self)@.insert(id@),
    {
        broadcast use vstd::string::group_string_axioms;

        let key = id.to_string();
        match self.find(&key) {
            Some(_) => {
                assert(self@.insert(id@) =~= self@);
            },
            None => {
                self.push_new(key);
            },
        }
    }
}

/// `base-k` as a string.
fn numbered_string(base: &String, k: usize) -> (r: String)
    ensures
        r@ == numbered(base@, k as nat),
{
    let mut r = base.clone();
    push_char(&mut r, '-');
    push_decimal(&mut r, k);
    assert(r@ =~= numbered(base@, k as nat));
    r
}

/// Gives out a slug for `base` that no slug given out or reserved before
/// takes: `base` itself when it is free, otherwise `base-1`, `base-2`, ...,
/// the first of these that is free (see `spec_make_unique`).
pub fn make_unique(base: &str, used: &mut SlugRegistry) -> (slug: String)
    requires
        old(used).wf(),
    ensures
        final(used).wf(),
        (slug@, final(used)@) == spec_make_unique(old(used)@, base@),
        !old(used)@.contains(slug@),
        final(used)@ == old(used)@.insert(slug@),
{
    broadcast use vstd::string::group_string_axioms;

    proof {
        used.lemma_view();
    }
    let key = base.to_string();
    match used.find(&key) {
        None => {
            used.push_new(key.clone());
            key
        },
        Some(i) => {
            let ghost taken = used@;
            let ghost seq0 = used.key_seq();
            let n = used.keys.len();
            let c = used.counts[i];
            proof {
                assert(seq0[i as int] == base@);
                assert forall|j: nat| 1 <= j <= c implies #[trigger] taken.contains(numbered(base@, j)) by {
                    assert(taken.contains(numbered(seq0[i as int], j)));
                }
                lemma_numbered_bound(taken, base@, c as nat);
            }
            let mut k = c + 1;
            let mut candidate = numbered_string(&key, k);
            while used.find(&candidate).is_some()
                invariant
                    used.wf(),
                    used@ == taken,
                    used.keys@.len() == n,
                    taken.finite(),
                    taken.len() == n,
                    taken.contains(base@),
                    key@ == base@,
                    1 <= k <= n,
                    candidate@ == numbered(base@, k as nat),
                    forall|j: nat| 1 <= j < k ==> #[trigger] taken.contains(numbered(base@, j)),
                decreases n - k,
            {
                proof {
                    assert forall|j: nat| 1 <= j <= k implies #[trigger] taken.contains(numbered(base@, j)) by {
                        if j == k {
                            assert(candidate@ == numbered(base@, j));
                        }
                    }
                    lemma_numbered_bound(taken, base@, k as nat);
                }
                k = k + 1;
                candidate = numbered_string(&key, k);
            }
            proof {
                assert(is_first_free(taken, base@, k as nat));
                lemma_first_free(taken, base@);
                lemma_first_free_unique(taken, base@, k as nat, first_free(taken, base@));
            }
            used.push_new(candidate.clone());
            let ghost seq1 = used.key_seq();
            used.counts.set(i, k);
            proof {
                assert(used.key_seq() == seq1);
                assert forall|a: int, m: nat|
                    0 <= a < used.keys@.len() && 1 <= m <= used.counts@[a] implies #[trigger] used@.contains(
                    numbered(used.key_seq()[a], m),
                ) by {
                    if a == i {
                        assert(used.key_seq()[a] == base@);
                        if m < k {
                            assert(taken.contains(numbered(base@, m)));
                        }
                    }
                }
            }
            candidate
        },
    }
}

} // verus!
