//! Rule names: their byte-wise lexicographic order, sorting, and a duplicate-free set.

use vstd::prelude::*;
use vstd::string::{StrSliceExecFns, StringExecFns};

verus! {

/// The view of a sequence of strings as a sequence of character sequences.
pub open spec fn views(s: Seq<String>) -> Seq<Seq<char>> {
    s.map_values(|x: String| x@)
}

/// Strict lexicographic order on character sequences, comparing characters by code point.
/// On UTF-8 strings this is the order of `str`'s `Ord` (which compares bytes).
pub open spec fn name_lt(a: Seq<char>, b: Seq<char>) -> bool
    decreases a.len(),
{
    if a.len() == 0 {
        b.len() > 0
    } else if b.len() == 0 {
        false
    } else if a[0] != b[0] {
        a[0] < b[0]
    } else {
        name_lt(a.drop_first(), b.drop_first())
    }
}

/// Every element is strictly smaller than every later one.
pub open spec fn strictly_sorted(s: Seq<Seq<char>>) -> bool {
    forall|i: int, j: int| 0 <= i < j < s.len() ==> name_lt(#[trigger] s[i], #[trigger] s[j])
}

/// The elements of a finite set of names in increasing order
/// (unique by `lemma_sorted_unique`).
pub open spec fn sorted_names(names: Set<Seq<char>>) -> Seq<Seq<char>> {
    choose|s: Seq<Seq<char>>| strictly_sorted(s) && s.to_set() == names
}

/// `name_lt` is irreflexive.
pub proof fn lemma_name_lt_irreflexive(a: Seq<char>)
    ensures
        !name_lt(a, a),
    decreases a.len(),
{
    if a.len() > 0 {
        lemma_name_lt_irreflexive(a.drop_first());
    }
}

/// `name_lt` is transitive.
pub proof fn lemma_name_lt_transitive(a: Seq<char>, b: Seq<char>, c: Seq<char>)
    requires
        name_lt(a, b),
        name_lt(b, c),
    ensures
        name_lt(a, c),
    decreases a.len(),
{
    if a.len() > 0 && b.len() > 0 && c.len() > 0 && a[0] == b[0] && b[0] == c[0] {
        lemma_name_lt_transitive(a.drop_first(), b.drop_first(), c.drop_first());
    }
}

/// Two different names are ordered one way or the other.
pub proof fn lemma_name_lt_total(a: Seq<char>, b: Seq<char>)
    requires
        a != b,
    ensures
        name_lt(a, b) || name_lt(b, a),
    decreases a.len(),
{
    if a.len() == 0 || b.len() == 0 {
        if a.len() == 0 && b.len() == 0 {
            assert(a =~= b);
        }
    } else if a[0] == b[0] {
        if a.drop_first() == b.drop_first() {
            assert(a =~= seq![a[0]] + a.drop_first());
            assert(b =~= seq![b[0]] + b.drop_first());
        }
        lemma_name_lt_total(a.drop_first(), b.drop_first());
    }
}

/// `name_lt` is asymmetric.
pub proof fn lemma_name_lt_asymmetric(a: Seq<char>, b: Seq<char>)
    requires
        name_lt(a, b),
    ensures
        !name_lt(b, a),
{
    if name_lt(b, a) {
        lemma_name_lt_transitive(a, b, a);
        lemma_name_lt_irreflexive(a);
    }
}

/// A strictly sorted sequence has no duplicates.
pub proof fn lemma_sorted_no_duplicates(s: Seq<Seq<char>>)
    requires
        strictly_sorted(s),
    ensures
        s.no_duplicates(),
{
    assert forall|i: int, j: int| 0 <= i < s.len() && 0 <= j < s.len() && i != j implies s[i]
        != s[j] by {
        if i < j {
            lemma_name_lt_irreflexive(s[i]);
        } else {
            lemma_name_lt_irreflexive(s[j]);
        }
    }
}

/// Two strictly sorted sequences with the same elements are equal.
pub proof fn lemma_sorted_unique(a: Seq<Seq<char>>, b: Seq<Seq<char>>)
    requires
        strictly_sorted(a),
        strictly_sorted(b),
        a.to_set() == b.to_set(),
    ensures
        a == b,
    decreases a.len(),
{
    if a.len() == 0 {
        if b.len() > 0 {
            assert(b.to_set().contains(b[0]));
        }
        assert(a =~= b);
    } else {
        assert(a.to_set().contains(a[0]));
        assert(b.len() > 0);
        assert(b.to_set().contains(b[0]));
        let i = choose|i: int| 0 <= i < b.len() && b[i] == a[0];
        let j = choose|j: int| 0 <= j < a.len() && a[j] == b[0];
        if a[0] != b[0] {
            assert(i > 0 && j > 0);
            assert(name_lt(b[0], b[i]));
            assert(name_lt(a[0], a[j]));
            lemma_name_lt_asymmetric(a[0], b[0]);
        }
        let a1 = a.drop_first();
        let b1 = b.drop_first();
        lemma_sorted_no_duplicates(a);
        lemma_sorted_no_duplicates(b);
        assert forall|x: Seq<char>| a1.to_set().contains(x) <==> b1.to_set().contains(x) by {
            if a1.to_set().contains(x) {
                let k = choose|k: int| 0 <= k < a1.len() && a1[k] == x;
                assert(a[k + 1] == x);
                assert(b.to_set().contains(x));
                let m = choose|m: int| 0 <= m < b.len() && b[m] == x;
                assert(m != 0);
                assert(b1[m - 1] == x);
            }
            if b1.to_set().contains(x) {
                let k = choose|k: int| 0 <= k < b1.len() && b1[k] == x;
                assert(b[k + 1] == x);
                assert(a.to_set().contains(x));
                let m = choose|m: int| 0 <= m < a.len() && a[m] == x;
                assert(m != 0);
                assert(a1[m - 1] == x);
            }
        }
        assert(a1.to_set() =~= b1.to_set());
        lemma_sorted_unique(a1, b1);
        assert(a =~= seq![a[0]] + a1);
        assert(b =~= seq![b[0]] + b1);
    }
}

/// A strictly sorted sequence is the sorted listing of its own elements.
pub proof fn lemma_sorted_is_sorted_names(s: Seq<Seq<char>>)
    requires
        strictly_sorted(s),
    ensures
        sorted_names(s.to_set()) == s,
{
    let t = sorted_names(s.to_set());
    assert(strictly_sorted(t) && t.to_set() == s.to_set());
    lemma_sorted_unique(s, t);
}

/// `t` with `x` inserted before the first element greater than it.
pub open spec fn insert_sorted(t: Seq<Seq<char>>, x: Seq<char>) -> Seq<Seq<char>>
    decreases t.len(),
{
    if t.len() == 0 {
        seq![x]
    } else if name_lt(x, t[0]) {
        seq![x] + t
    } else {
        seq![t[0]] + insert_sorted(t.drop_first(), x)
    }
}

proof fn lemma_insert_sorted(t: Seq<Seq<char>>, x: Seq<char>)
    requires
        strictly_sorted(t),
        !t.contains(x),
    ensures
        strictly_sorted(insert_sorted(t, x)),
        insert_sorted(t, x).to_set() == t.to_set().insert(x),
    decreases t.len(),
{
    let u = insert_sorted(t, x);
    if t.len() == 0 {
        assert(u.to_set() =~= t.to_set().insert(x)) by {
            assert(u[0] == x);
        }
    } else if name_lt(x, t[0]) {
        assert forall|i: int, j: int| 0 <= i < j < u.len() implies name_lt(
            #[trigger] u[i],
            #[trigger] u[j],
        ) by {
            if i == 0 {
                assert(u[j] == t[j - 1]);
                if j > 1 {
                    assert(name_lt(t[0], t[j - 1]));
                    lemma_name_lt_transitive(x, t[0], t[j - 1]);
                }
            } else {
                assert(u[i] == t[i - 1] && u[j] == t[j - 1]);
            }
        }
        assert(u.to_set() =~= t.to_set().insert(x)) by {
            assert forall|y: Seq<char>| u.to_set().contains(y) <==> t.to_set().insert(x).contains(
                y,
            ) by {
                if u.to_set().contains(y) {
                    let k = choose|k: int| 0 <= k < u.len() && u[k] == y;
                    if k > 0 {
                        assert(t[k - 1] == y);
                    }
                }
                if t.to_set().contains(y) {
                    let k = choose|k: int| 0 <= k < t.len() && t[k] == y;
                    assert(u[k + 1] == y);
                }
                if y == x {
                    assert(u[0] == y);
                }
            }
        }
    } else {
        assert(t.contains(t[0]));
        lemma_name_lt_total(x, t[0]);
        let rest = t.drop_first();
        assert(strictly_sorted(rest)) by {
            assert forall|i: int, j: int| 0 <= i < j < rest.len() implies name_lt(
                #[trigger] rest[i],
                #[trigger] rest[j],
            ) by {
                assert(rest[i] == t[i + 1] && rest[j] == t[j + 1]);
            }
        }
        assert(!rest.contains(x)) by {
            if rest.contains(x) {
                let k = choose|k: int| 0 <= k < rest.len() && rest[k] == x;
                assert(t[k + 1] == x);
            }
        }
        lemma_insert_sorted(rest, x);
        let w = insert_sorted(rest, x);
        assert(u == seq![t[0]] + w);
        assert forall|j: int| 0 <= j < w.len() implies name_lt(t[0], #[trigger] w[j]) by {
            assert(w.to_set().contains(w[j]));
            if w[j] != x {
                let k = choose|k: int| 0 <= k < rest.len() && rest[k] == w[j];
                assert(t[k + 1] == w[j]);
            }
        }
        assert forall|i: int, j: int| 0 <= i < j < u.len() implies name_lt(
            #[trigger] u[i],
            #[trigger] u[j],
        ) by {
            assert(u[j] == w[j - 1]);
            if i > 0 {
                assert(u[i] == w[i - 1]);
            }
        }
        assert(u.to_set() =~= t.to_set().insert(x)) by {
            assert forall|y: Seq<char>| u.to_set().contains(y) <==> t.to_set().insert(x).contains(
                y,
            ) by {
                if u.to_set().contains(y) {
                    let k = choose|k: int| 0 <= k < u.len() && u[k] == y;
                    if k > 0 {
                        assert(w.to_set().contains(w[k - 1]));
                        if y != x {
                            let m = choose|m: int| 0 <= m < rest.len() && rest[m] == y;
                            assert(t[m + 1] == y);
                        }
                    }
                }
                if t.to_set().contains(y) {
                    let k = choose|k: int| 0 <= k < t.len() && t[k] == y;
                    if k == 0 {
                        assert(u[0] == y);
                    } else {
                        assert(rest[k - 1] == y);
                        assert(w.to_set().contains(y));
                        let m = choose|m: int| 0 <= m < w.len() && w[m] == y;
                        assert(u[m + 1] == y);
                    }
                }
                if y == x {
                    assert(w.to_set().contains(x));
                    let m = choose|m: int| 0 <= m < w.len() && w[m] == x;
                    assert(u[m + 1] == y);
                }
            }
        }
    }
}

/// Every finite set of names has a sorted listing: `sorted_names` lists each element once,
/// in strictly increasing order.
pub proof fn lemma_sorted_names(names: Set<Seq<char>>)
    requires
        names.finite(),
    ensures
        strictly_sorted(sorted_names(names)),
        sorted_names(names).to_set() == names,
    decreases names.len(),
{
    if names.len() == 0 {
        names.lemma_len0_is_empty();
        let e = Seq::<Seq<char>>::empty();
        assert(e.to_set() =~= names);
        assert(strictly_sorted(e));
    } else {
        let x = names.choose();
        let rest = names.remove(x);
        lemma_sorted_names(rest);
        let t = sorted_names(rest);
        assert(!t.contains(x)) by {
            if t.contains(x) {
                assert(t.to_set().contains(x));
            }
        }
        lemma_insert_sorted(t, x);
        let u = insert_sorted(t, x);
        assert(u.to_set() =~= names);
        assert(strictly_sorted(u) && u.to_set() == names);
    }
}

/// Compares two names in the order `name_lt`.
pub fn name_less(a: &str, b: &str) -> (r: bool)
    ensures
        r == name_lt(a@, b@),
{
    let la = a.unicode_len();
    let lb = b.unicode_len();
    let mut i: usize = 0;
    assert(a@.skip(0) =~= a@);
    assert(b@.skip(0) =~= b@);
    while i < la && i < lb
        invariant
            i <= la,
            i <= lb,
            la == a@.len(),
            lb == b@.len(),
            name_lt(a@, b@) == name_lt(a@.skip(i as int), b@.skip(i as int)),
        decreases la - i,
    {
        let ca = a.get_char(i);
        let cb = b.get_char(i);
        assert(a@.skip(i as int).drop_first() =~= a@.skip(i + 1));
        assert(b@.skip(i as int).drop_first() =~= b@.skip(i + 1));
        if ca != cb {
            return ca < cb;
        }
        i = i + 1;
    }
    i < lb
}


/// Whether two names are equal.
pub fn name_eq(a: &str, b: &str) -> (r: bool)
    ensures
        r == (a@ == b@),
{
    let r = !name_less(a, b) && !name_less(b, a);
    proof {
        if a@ == b@ {
            lemma_name_lt_irreflexive(a@);
        } else {
            lemma_name_lt_total(a@, b@);
        }
    }
    r
}

/// Whether `name` occurs in `v`.
pub fn contains_name(v: &Vec<String>, name: &str) -> (r: bool)
    ensures
        r == views(v@).contains(name@),
{
    let n = v.len();
    let mut i: usize = 0;
    while i < n
        invariant
            n == v.len(),
            i <= n,
            forall|k: int| 0 <= k < i ==> v@[k]@ != name@,
        decreases n - i,
    {
        if name_eq(v[i].as_str(), name) {
            assert(views(v@)[i as int] == name@);
            return true;
        }
        i = i + 1;
    }
    false
}

/// An owned copy of `s`.
pub fn owned(s: &str) -> (r: String)
    ensures
        r@ == s@,
{
    let mut r = String::new();
    r.append(s);
    assert(r@ =~= s@);
    r
}

/// Sorts distinct names into increasing `name_lt` order (insertion sort).
pub fn sort_names(v: Vec<String>) -> (r: Vec<String>)
    requires
        views(v@).no_duplicates(),
    ensures
        views(r@) == sorted_names(views(v@).to_set()),
{
    let n = v.len();
    let mut out: Vec<String> = Vec::new();
    let mut i: usize = 0;
    while i < n
        invariant
            n == v.len(),
            i <= n,
            views(v@).no_duplicates(),
            strictly_sorted(views(out@)),
            views(out@).to_set() == views(v@).take(i as int).to_set(),
        decreases n - i,
    {
        let x = v[i].clone();
        let ghost s = views(out@);
        let ghost xv = x@;
        assert(!s.contains(xv)) by {
            if s.contains(xv) {
                assert(s.to_set().contains(xv));
                let k = choose|k: int| 0 <= k < i && views(v@).take(i as int)[k] == xv;
                assert(views(v@)[k] == views(v@)[i as int]);
            }
        }
        let mut j: usize = 0;
        loop
            invariant
                j <= out.len(),
                s == views(out@),
                xv == x@,
                forall|k: int| 0 <= k < j ==> !name_lt(xv, #[trigger] s[k]),
            ensures
                j <= out.len(),
                forall|k: int| 0 <= k < j ==> !name_lt(xv, #[trigger] s[k]),
                j < out.len() ==> name_lt(xv, s[j as int]),
            decreases out.len() - j,
        {
            if j >= out.len() {
                break;
            }
            if name_less(x.as_str(), out[j].as_str()) {
                break;
            }
            j = j + 1;
        }
        out.insert(j, x);
        let ghost t = views(out@);
        assert(t =~= s.insert(j as int, xv));
        assert forall|p: int, q: int| 0 <= p < q < t.len() implies name_lt(
            #[trigger] t[p],
            #[trigger] t[q],
        ) by {
            if q < j {
                assert(t[p] == s[p] && t[q] == s[q]);
            } else if q == j {
                assert(t[p] == s[p]);
                assert(s.contains(s[p]));
                lemma_name_lt_total(xv, s[p]);
            } else if p == j {
                assert(t[q] == s[q - 1]);
                if q - 1 > j {
                    lemma_name_lt_transitive(xv, s[j as int], s[q - 1]);
                }
            } else if p < j {
                assert(t[p] == s[p] && t[q] == s[q - 1]);
            } else {
                assert(t[p] == s[p - 1] && t[q] == s[q - 1]);
            }
        }
        assert(views(v@).take(i + 1) =~= views(v@).take(i as int).push(xv));
        assert(t.to_set() =~= s.to_set().insert(xv)) by {
            assert forall|y: Seq<char>| t.to_set().contains(y) <==> s.to_set().insert(xv).contains(
                y,
            ) by {
                if t.to_set().contains(y) {
                    let k = choose|k: int| 0 <= k < t.len() && t[k] == y;
                    if k < j {
                        assert(s[k] == y);
                    } else if k > j {
                        assert(s[k - 1] == y);
                    }
                }
                if s.to_set().contains(y) {
                    let k = choose|k: int| 0 <= k < s.len() && s[k] == y;
                    if k < j {
                        assert(t[k] == y);
                    } else {
                        assert(t[k + 1] == y);
                    }
                }
                if y == xv {
                    assert(t[j as int] == y);
                }
            }
        }
        assert(views(v@).take(i + 1).to_set() =~= views(v@).take(i as int).to_set().insert(xv)) by {
            views(v@).take(i as int).lemma_push_to_set_commute(xv);
        }
        i = i + 1;
    }
    assert(views(v@).take(n as int) =~= views(v@));
    proof {
        lemma_sorted_is_sorted_names(views(out@));
    }
    out
}

/// A finite set of rule names, held without duplicates.
pub struct NameSet {
    names: Vec<String>,
}

impl View for NameSet {
    type V = Set<Seq<char>>;

    closed spec fn view(&self) -> Set<Seq<char>> {
        views(self.names@).to_set()
    }
}

impl NameSet {
    #[verifier::type_invariant]
    spec fn no_repeats(self) -> bool {
        views(self.names@).no_duplicates()
    }

    /// The empty set.
    pub fn new() -> (r: Self)
        ensures
            r@ == Set::<Seq<char>>::empty(),
    {
        let r = NameSet { names: Vec::new() };
        assert(views(r.names@).to_set() =~= Set::<Seq<char>>::empty());
        r
    }

    /// The names of the set, each once, in no particular order.
    pub fn items(&self) -> (r: &Vec<String>)
        ensures
            views(r@).no_duplicates(),
            views(r@).to_set() == self@,
    {
        proof {
            use_type_invariant(self);
        }
        &self.names
    }

    /// Whether `name` is in the set.
    pub fn contains(&self, name: &str) -> (r: bool)
        ensures
            r == self@.contains(name@),
    {
        contains_name(&self.names, name)
    }

    /// Adds `name`; returns whether it was absent before.
    pub fn insert(&mut self, name: String) -> (r: bool)
        ensures
            r == !old(self)@.contains(name@),
            final(self)@ == old(self)@.insert(name@),
    {
        proof {
            use_type_invariant(&*self);
        }
        if self.contains(name.as_str()) {
            assert(old(self)@.insert(name@) =~= old(self)@);
            return false;
        }
        let ghost old_names = views(self.names@);
        let ghost nv = name@;
        let mut names: Vec<String> = Vec::new();
        std::mem::swap(&mut names, &mut self.names);
        names.push(name);
        assert(views(names@) =~= old_names.push(nv));
        self.names = names;
        assert(views(self.names@).to_set() =~= old_names.to_set().insert(nv)) by {
            assert forall|y: Seq<char>| #[trigger] views(self.names@).to_set().contains(y)
                <==> old_names.to_set().insert(nv).contains(y) by {
                if views(self.names@).to_set().contains(y) {
                    let k = choose|k: int|
                        0 <= k < views(self.names@).len() && views(self.names@)[k] == y;
                    if k < old_names.len() {
                        assert(old_names[k] == y);
                    }
                }
                if old_names.to_set().contains(y) {
                    let k = choose|k: int| 0 <= k < old_names.len() && old_names[k] == y;
                    assert(views(self.names@)[k] == y);
                }
                if y == nv {
                    assert(views(self.names@)[old_names.len() as int] == y);
                }
            }
        }
        true
    }

    /// The number of names.
    pub fn len(&self) -> (r: usize)
        ensures
            r == self@.len(),
    {
        proof {
            use_type_invariant(self);
            views(self.names@).unique_seq_to_set();
        }
        self.names.len()
    }

    /// Whether the set has no names.
    pub fn is_empty(&self) -> (r: bool)
        ensures
            r == (self@.len() == 0),
    {
        self.len() == 0
    }

    /// The names in increasing `name_lt` order.
    pub fn sorted(&self) -> (r: Vec<String>)
        ensures
            views(r@) == sorted_names(self@),
    {
        proof {
            use_type_invariant(self);
        }
        sort_names(self.names.clone())
    }
}

} // verus!
