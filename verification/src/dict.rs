//! The entitlement dictionary and the two filter operations over it.
//!
//! An `Entitlements` value is an ordered mapping from entitlement keys to
//! property-list values, in the order the inspector produced them. `strip`
//! removes every provisioned key in place and keeps everything else, with its
//! value and relative order; `list_present` reports which provisioned keys are
//! present, in the key set's own sorted order.

use vstd::prelude::*;
use crate::keys::{
    is_provisioned, is_provisioned_key, lemma_provisioned_keys_sorted, lex_lt,
    provisioned_entitlements, provisioned_keys,
};

verus! {

/// The specification view of a run of dictionary entries: each key as its
/// characters, beside its unchanged property-list value.
pub open spec fn entries_view(s: Seq<(String, plist::Value)>) -> Seq<(Seq<char>, plist::Value)> {
    s.map_values(|p: (String, plist::Value)| (p.0@, p.1))
}

/// The views of a run of keys.
pub open spec fn views_of(ss: Seq<String>) -> Seq<Seq<char>> {
    ss.map_values(|s: String| s@)
}

/// Whether an entry survives a strip: its key is not provisioned.
pub open spec fn keeps(p: (Seq<char>, plist::Value)) -> bool {
    !is_provisioned(p.0)
}

/// `keeps`, as a filter predicate.
pub open spec fn keep_pred() -> spec_fn((Seq<char>, plist::Value)) -> bool {
    |p: (Seq<char>, plist::Value)| keeps(p)
}

/// What remains of a dictionary once every provisioned key is removed.
pub open spec fn strip_entries(d: Seq<(Seq<char>, plist::Value)>) -> Seq<(Seq<char>, plist::Value)> {
    d.filter(keep_pred())
}

/// Whether the dictionary holds an entry under key `k`.
pub open spec fn has_key(d: Seq<(Seq<char>, plist::Value)>, k: Seq<char>) -> bool {
    exists|i: int| 0 <= i < d.len() && d[i].0 == k
}

/// Presence in the dictionary `d`, as a filter predicate on keys.
pub open spec fn present_pred(d: Seq<(Seq<char>, plist::Value)>) -> spec_fn(Seq<char>) -> bool {
    |k: Seq<char>| has_key(d, k)
}

/// The provisioned keys present in the dictionary, in the key set's order.
pub open spec fn present_keys(d: Seq<(Seq<char>, plist::Value)>) -> Seq<Seq<char>> {
    provisioned_keys().filter(present_pred(d))
}

/// Carrying the key `k`, as a filter predicate on entries.
pub open spec fn key_eq(k: Seq<char>) -> spec_fn((Seq<char>, plist::Value)) -> bool {
    |p: (Seq<char>, plist::Value)| p.0 == k
}

/// The entries of a dictionary that stand under the key `k`, in order.
pub open spec fn entries_with_key(d: Seq<(Seq<char>, plist::Value)>, k: Seq<char>) -> Seq<
    (Seq<char>, plist::Value),
> {
    d.filter(key_eq(k))
}

/// An ordered entitlement dictionary, as parsed from the inspector's output.
pub struct Entitlements {
    entries: Vec<(String, plist::Value)>,
}

impl View for Entitlements {
    type V = Seq<(Seq<char>, plist::Value)>;

    closed spec fn view(&self) -> Seq<(Seq<char>, plist::Value)> {
        entries_view(self.entries@)
    }
}

impl Entitlements {
    /// Builds a dictionary from its entries, kept in the given order.
    pub fn from_entries(entries: Vec<(String, plist::Value)>) -> (r: Entitlements)
        ensures
            r@ == entries_view(entries@),
    {
        Entitlements { entries }
    }

    /// The entries of the dictionary, in order.
    pub fn entries(&self) -> (r: &Vec<(String, plist::Value)>)
        ensures
            entries_view(r@) == self@,
    {
        &self.entries
    }

    /// The number of entries.
    pub fn len(&self) -> (r: usize)
        ensures
            r == self@.len(),
    {
        self.entries.len()
    }

    /// Whether the dictionary holds an entry under the given key.
    pub fn contains_key(&self, key: &String) -> (r: bool)
        ensures
            r == has_key(self@, key@),
    {
        let mut i: usize = 0;
        while i < self.entries.len()
            invariant
                0 <= i <= self.entries@.len(),
                forall|t: int| 0 <= t < i ==> (#[trigger] self@[t]).0 != key@,
            decreases self.entries@.len() - i,
        {
            if self.entries[i].0.eq(key) {
                proof {
                    assert(self@[i as int].0 == key@);
                }
                return true;
            }
            i = i + 1;
        }
        false
    }

    /// Removes every provisioned entitlement key, in place. Every other entry
    /// keeps its value and its place relative to the other survivors.
    pub fn strip(&mut self)
        ensures
            final(self)@ == strip_entries(old(self)@),
            forall|t: int|
                0 <= t < final(self)@.len() ==> !is_provisioned((#[trigger] final(self)@[t]).0),
    {
        let ghost orig: Seq<(Seq<char>, plist::Value)> = self@;
        let ghost mut j: int = 0;
        let mut i: usize = 0;
        proof {
            lemma_filter_empty(orig.subrange(0, 0), keep_pred());
            assert(orig.subrange(0, 0) =~= Seq::<(Seq<char>, plist::Value)>::empty());
            assert(self@ =~= strip_entries(orig.subrange(0, 0)) + orig.skip(0));
        }
        while i < self.entries.len()
            invariant
                0 <= j <= orig.len(),
                i as int == strip_entries(orig.subrange(0, j)).len(),
                self@ == strip_entries(orig.subrange(0, j)) + orig.skip(j),
            decreases orig.len() - j,
        {
            proof {
                assert(self@.len() == self.entries@.len());
                assert(j < orig.len());
                assert(self@[i as int] == orig.skip(j)[0]);
                assert(self@[i as int] == orig[j]);
                assert(self@[i as int].0 == self.entries@[i as int].0@);
                assert(orig.subrange(0, j + 1) =~= orig.subrange(0, j).push(orig[j]));
                lemma_filter_push(orig.subrange(0, j), keep_pred(), orig[j]);
            }
            let provisioned = is_provisioned_key(&self.entries[i].0);
            if provisioned {
                let ghost prev = self@;
                let ghost prev_entries = self.entries@;
                self.entries.remove(i);
                proof {
                    assert(self.entries@ == prev_entries.remove(i as int));
                    assert(self@ =~= prev.remove(i as int));
                    assert(!keeps(orig[j]));
                    assert(orig.skip(j).skip(1) =~= orig.skip(j + 1));
                    assert(self@ =~= strip_entries(orig.subrange(0, j + 1)) + orig.skip(j + 1));
                    j = j + 1;
                }
            } else {
                i = i + 1;
                proof {
                    assert(keeps(orig[j]));
                    assert(orig.skip(j).skip(1) =~= orig.skip(j + 1));
                    assert(self@ =~= strip_entries(orig.subrange(0, j + 1)) + orig.skip(j + 1));
                    j = j + 1;
                }
            }
        }
        proof {
            assert(orig.skip(j).len() == 0);
            assert(j == orig.len());
            assert(orig.subrange(0, j) =~= orig);
            assert forall|t: int| 0 <= t < self@.len() implies !is_provisioned(
                (#[trigger] self@[t]).0,
            ) by {
                orig.lemma_filter_pred(keep_pred(), t);
            }
        }
    }

    /// The provisioned entitlement keys present in the dictionary, in the key
    /// set's sorted order, whatever order the dictionary itself uses.
    pub fn list_present(&self) -> (r: Vec<String>)
        ensures
            views_of(r@) == present_keys(self@),
    {
        let keys = provisioned_entitlements();
        let mut r: Vec<String> = Vec::new();
        let mut i: usize = 0;
        proof {
            lemma_filter_empty(provisioned_keys().subrange(0, 0), present_pred(self@));
            assert(provisioned_keys().subrange(0, 0) =~= Seq::<Seq<char>>::empty());
            assert(views_of(r@) =~= provisioned_keys().subrange(0, 0).filter(present_pred(self@)));
        }
        while i < keys.len()
            invariant
                0 <= i <= keys.len(),
                keys@.len() == provisioned_keys().len(),
                forall|t: int| 0 <= t < keys@.len() ==> (#[trigger] keys@[t])@
                    == provisioned_keys()[t],
                views_of(r@) == provisioned_keys().subrange(0, i as int).filter(
                    present_pred(self@),
                ),
            decreases keys.len() - i,
        {
            proof {
                assert(provisioned_keys().subrange(0, i + 1) =~= provisioned_keys().subrange(
                    0,
                    i as int,
                ).push(provisioned_keys()[i as int]));
                lemma_filter_push(
                    provisioned_keys().subrange(0, i as int),
                    present_pred(self@),
                    provisioned_keys()[i as int],
                );
            }
            if self.contains_key(&keys[i]) {
                let ghost prev = r@;
                r.push(keys[i].clone());
                proof {
                    assert(r@ == prev.push(keys@[i as int]));
                    assert(views_of(r@) =~= views_of(prev).push(keys@[i as int]@));
                    assert(has_key(self@, provisioned_keys()[i as int]));
                }
            } else {
                proof {
                    assert(!has_key(self@, provisioned_keys()[i as int]));
                }
            }
            i = i + 1;
        }
        proof {
            assert(provisioned_keys().subrange(0, i as int) =~= provisioned_keys());
        }
        r
    }
}

/// A property-list document root as handed to the filter: the expected
/// dictionary, or any other root value, which both operations refuse.
pub enum PlistRoot {
    Dict(Entitlements),
    Other(plist::Value),
}

/// The filter operations' own failure.
#[derive(PartialEq, Eq, Structural, Clone, Copy, Debug)]
pub enum FilterError {
    NotADictionary,
}

/// Removes every provisioned entitlement key from the dictionary and returns
/// what is left; refuses a property-list root that is not a dictionary.
pub fn remove_provisioned_entitlements(entitlements: PlistRoot) -> (r: Result<
    Entitlements,
    FilterError,
>)
    ensures
        entitlements matches PlistRoot::Dict(d) ==> (r matches Ok(s) && s@ == strip_entries(d@)),
        entitlements is Other ==> r == Err::<Entitlements, FilterError>(
            FilterError::NotADictionary,
        ),
{
    match entitlements {
        PlistRoot::Dict(mut d) => {
            d.strip();
            Ok(d)
        },
        PlistRoot::Other(_) => Err(FilterError::NotADictionary),
    }
}

/// The provisioned entitlement keys present in the dictionary, in the key
/// set's sorted order; refuses a property-list root that is not a dictionary.
pub fn get_provisioned_entitlements(entitlements: &PlistRoot) -> (r: Result<
    Vec<String>,
    FilterError,
>)
    ensures
        entitlements matches PlistRoot::Dict(d) ==> (r matches Ok(ks) && views_of(ks@)
            == present_keys(d@)),
        entitlements is Other ==> r == Err::<Vec<String>, FilterError>(FilterError::NotADictionary),
{
    match entitlements {
        PlistRoot::Dict(d) => Ok(d.list_present()),
        PlistRoot::Other(_) => Err(FilterError::NotADictionary),
    }
}

/// Filtering an empty run of entries leaves an empty run.
proof fn lemma_filter_empty<A>(s: Seq<A>, pred: spec_fn(A) -> bool)
    requires
        s.len() == 0,
    ensures
        s.filter(pred) == s,
{
    reveal(Seq::filter);
}

/// Filtering distributes over appending one element at the back.
proof fn lemma_filter_push<A>(s: Seq<A>, pred: spec_fn(A) -> bool, x: A)
    ensures
        s.push(x).filter(pred) == if pred(x) {
            s.filter(pred).push(x)
        } else {
            s.filter(pred)
        },
{
    reveal(Seq::filter);
    assert(s.push(x).drop_last() =~= s);
    assert(s.push(x).last() == x);
}

/// A filter that keeps every element of a sequence returns it unchanged.
proof fn lemma_filter_all_kept<A>(s: Seq<A>, pred: spec_fn(A) -> bool)
    requires
        forall|i: int| 0 <= i < s.len() ==> pred(#[trigger] s[i]),
    ensures
        s.filter(pred) == s,
    decreases s.len(),
{
    reveal(Seq::filter);
    if s.len() > 0 {
        lemma_filter_all_kept(s.drop_last(), pred);
        assert(pred(s.last()));
        assert(s.filter(pred) =~= s);
    } else {
        assert(s.filter(pred) =~= s);
    }
}

/// Every element of a filtered sequence comes from the sequence itself.
proof fn lemma_filter_subset<A>(s: Seq<A>, pred: spec_fn(A) -> bool, x: A)
    requires
        s.filter(pred).contains(x),
    ensures
        s.contains(x),
    decreases s.len(),
{
    reveal(Seq::filter);
    if s.len() > 0 {
        let f = s.filter(pred);
        let fd = s.drop_last().filter(pred);
        if pred(s.last()) && x == s.last() {
            assert(s[s.len() - 1] == x);
        } else {
            assert(fd.contains(x)) by {
                let i = choose|i: int| 0 <= i < f.len() && f[i] == x;
                if pred(s.last()) {
                    assert(f == fd.push(s.last()));
                    assert(i < fd.len());
                    assert(fd[i] == x);
                } else {
                    assert(f == fd);
                    assert(fd[i] == x);
                }
            }
            lemma_filter_subset(s.drop_last(), pred, x);
            let j = choose|j: int| 0 <= j < s.drop_last().len() && s.drop_last()[j] == x;
            assert(s[j] == x);
        }
    }
}

/// Filtering by two predicates in a row keeps what passes both: `both` must
/// hold exactly where `p` and `q` both hold.
proof fn lemma_filter_filter<A>(
    s: Seq<A>,
    p: spec_fn(A) -> bool,
    q: spec_fn(A) -> bool,
    both: spec_fn(A) -> bool,
)
    requires
        forall|x: A| #[trigger] both(x) == (p(x) && q(x)),
    ensures
        s.filter(p).filter(q) == s.filter(both),
    decreases s.len(),
{
    reveal(Seq::filter);
    if s.len() > 0 {
        lemma_filter_filter(s.drop_last(), p, q, both);
        if p(s.last()) {
            assert(s.filter(p) == s.drop_last().filter(p).push(s.last()));
            lemma_filter_push(s.drop_last().filter(p), q, s.last());
        }
        assert(s.filter(p).filter(q) =~= s.filter(both));
    } else {
        assert(s.filter(p).filter(q) =~= s.filter(both));
    }
}

/// After a strip, no provisioned key is present, whether or not it was
/// present before.
pub proof fn lemma_strip_removes_provisioned(d: Seq<(Seq<char>, plist::Value)>, k: Seq<char>)
    requires
        is_provisioned(k),
    ensures
        !has_key(strip_entries(d), k),
{
    if has_key(strip_entries(d), k) {
        let i = choose|i: int| 0 <= i < strip_entries(d).len() && strip_entries(d)[i].0 == k;
        d.lemma_filter_pred(keep_pred(), i);
    }
}

/// Stripping is idempotent: a second strip changes nothing.
pub proof fn lemma_strip_idempotent(d: Seq<(Seq<char>, plist::Value)>)
    ensures
        strip_entries(strip_entries(d)) == strip_entries(d),
{
    assert forall|i: int| 0 <= i < strip_entries(d).len() implies keep_pred()(
        #[trigger] strip_entries(d)[i],
    ) by {
        d.lemma_filter_pred(keep_pred(), i);
    }
    lemma_filter_all_kept(strip_entries(d), keep_pred());
}

/// A strip preserves every entry whose key is not provisioned: under such a
/// key, the stripped dictionary holds exactly the entries the original held,
/// with their values, in their original relative order.
pub proof fn lemma_strip_preserves_unprovisioned(d: Seq<(Seq<char>, plist::Value)>, k: Seq<char>)
    requires
        !is_provisioned(k),
    ensures
        entries_with_key(strip_entries(d), k) == entries_with_key(d, k),
{
    assert forall|p: (Seq<char>, plist::Value)| #[trigger] key_eq(k)(p) == (keep_pred()(p)
        && key_eq(k)(p)) by {
        if key_eq(k)(p) {
            assert(p.0 == k);
            assert(keeps(p));
        }
    }
    lemma_filter_filter(d, keep_pred(), key_eq(k), key_eq(k));
}

/// Pointwise equal predicates filter a sequence to the same result.
proof fn lemma_filter_congruent<A>(s: Seq<A>, p: spec_fn(A) -> bool, q: spec_fn(A) -> bool)
    requires
        forall|x: A| #[trigger] p(x) == q(x),
    ensures
        s.filter(p) == s.filter(q),
    decreases s.len(),
{
    reveal(Seq::filter);
    if s.len() > 0 {
        lemma_filter_congruent(s.drop_last(), p, q);
    }
}

/// Filtering keeps a strictly ordered sequence of keys strictly ordered.
proof fn lemma_filter_keeps_sorted(s: Seq<Seq<char>>, pred: spec_fn(Seq<char>) -> bool)
    requires
        forall|i: int, j: int| 0 <= i < j < s.len() ==> lex_lt(#[trigger] s[i], #[trigger] s[j]),
    ensures
        forall|i: int, j: int|
            0 <= i < j < s.filter(pred).len() ==> lex_lt(
                #[trigger] s.filter(pred)[i],
                #[trigger] s.filter(pred)[j],
            ),
    decreases s.len(),
{
    reveal(Seq::filter);
    if s.len() > 0 {
        lemma_filter_keeps_sorted(s.drop_last(), pred);
        let f = s.filter(pred);
        let fd = s.drop_last().filter(pred);
        assert forall|i: int, j: int| 0 <= i < j < f.len() implies lex_lt(
            #[trigger] f[i],
            #[trigger] f[j],
        ) by {
            if pred(s.last()) {
                assert(f == fd.push(s.last()));
                if j < fd.len() {
                    assert(f[i] == fd[i] && f[j] == fd[j]);
                } else {
                    assert(f[j] == s.last());
                    assert(fd.contains(fd[i]));
                    lemma_filter_subset(s.drop_last(), pred, fd[i]);
                    let t = choose|t: int|
                        0 <= t < s.drop_last().len() && s.drop_last()[t] == fd[i];
                    assert(s[t] == fd[i]);
                    assert(lex_lt(s[t], s[s.len() - 1]));
                }
            } else {
                assert(f == fd);
            }
        }
    }
}

/// `list_present`'s result follows the key set's fixed sorted order.
pub proof fn lemma_present_keys_sorted(d: Seq<(Seq<char>, plist::Value)>)
    ensures
        forall|i: int, j: int|
            0 <= i < j < present_keys(d).len() ==> lex_lt(
                #[trigger] present_keys(d)[i],
                #[trigger] present_keys(d)[j],
            ),
{
    lemma_provisioned_keys_sorted();
    lemma_filter_keeps_sorted(provisioned_keys(), present_pred(d));
}

/// `list_present` depends only on which keys are present, not on the order
/// the dictionary holds them in.
pub proof fn lemma_present_keys_order_independent(
    d1: Seq<(Seq<char>, plist::Value)>,
    d2: Seq<(Seq<char>, plist::Value)>,
)
    requires
        forall|k: Seq<char>| #[trigger] has_key(d1, k) == has_key(d2, k),
    ensures
        present_keys(d1) == present_keys(d2),
{
    assert forall|k: Seq<char>| #[trigger] present_pred(d1)(k) == present_pred(d2)(k) by {
        assert(has_key(d1, k) == has_key(d2, k));
    }
    lemma_filter_congruent(provisioned_keys(), present_pred(d1), present_pred(d2));
}

/// A dictionary that holds no provisioned key is left unchanged by a strip.
pub proof fn lemma_strip_without_provisioned_is_identity(d: Seq<(Seq<char>, plist::Value)>)
    requires
        forall|k: Seq<char>| #[trigger] is_provisioned(k) ==> !has_key(d, k),
    ensures
        strip_entries(d) == d,
{
    assert forall|i: int| 0 <= i < d.len() implies keep_pred()(#[trigger] d[i]) by {
        if is_provisioned(d[i].0) {
            assert(has_key(d, d[i].0));
        }
    }
    lemma_filter_all_kept(d, keep_pred());
}

/// A key stands in `list_present`'s result exactly when it is provisioned and
/// present in the dictionary: the result is the intersection of the two sets.
pub proof fn lemma_list_present_membership(d: Seq<(Seq<char>, plist::Value)>, k: Seq<char>)
    ensures
        present_keys(d).contains(k) <==> (is_provisioned(k) && has_key(d, k)),
{
    if present_keys(d).contains(k) {
        let i = choose|i: int| 0 <= i < present_keys(d).len() && present_keys(d)[i] == k;
        provisioned_keys().lemma_filter_pred(present_pred(d), i);
        lemma_filter_subset(provisioned_keys(), present_pred(d), k);
    }
    if is_provisioned(k) && has_key(d, k) {
        let i = choose|i: int| 0 <= i < provisioned_keys().len() && provisioned_keys()[i] == k;
        provisioned_keys().lemma_filter_contains(present_pred(d), i);
    }
}

} // verus!
