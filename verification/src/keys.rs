//! The fixed set of provisioned entitlement keys.
//!
//! These are the entitlement identifiers that a provisioning profile injects
//! into an application's signature and that must not survive into an
//! entitlements file meant for re-signing with a different identity. The list
//! is kept sorted lexicographically and free of duplicates; both facts are
//! proved below.

use vstd::prelude::*;

verus! {

/// The provisioned entitlement keys, in lexicographic order.
pub open spec fn provisioned_keys() -> Seq<Seq<char>> {
    seq![
        "beta-reports-active"@,
        "com.apple.application-identifier"@,
        "com.apple.developer.aps-environment"@,
        "com.apple.developer.associated-domains"@,
        "com.apple.developer.icloud-container-environment"@,
        "com.apple.developer.icloud-container-identifiers"@,
        "com.apple.developer.icloud-services"@,
        "com.apple.developer.team-identifier"@,
        "com.apple.developer.ubiquity-container-identifiers"@,
        "com.apple.developer.ubiquity-kvstore-identifier"@,
        "com.apple.developer.weatherkit"@,
        "com.apple.security.application-groups"@,
        "keychain-access-groups"@,
    ]
}

/// Whether `k` is one of the provisioned entitlement keys.
pub open spec fn is_provisioned(k: Seq<char>) -> bool {
    provisioned_keys().contains(k)
}

/// The provisioned entitlement keys as runtime strings, in the same order as
/// `provisioned_keys`.
pub fn provisioned_entitlements() -> (r: Vec<String>)
    ensures
        r@.len() == provisioned_keys().len(),
        forall|i: int| 0 <= i < r@.len() ==> r@[i]@ == provisioned_keys()[i],
{
    let mut r: Vec<String> = Vec::new();
    r.push("beta-reports-active".to_string());
    r.push("com.apple.application-identifier".to_string());
    r.push("com.apple.developer.aps-environment".to_string());
    r.push("com.apple.developer.associated-domains".to_string());
    r.push("com.apple.developer.icloud-container-environment".to_string());
    r.push("com.apple.developer.icloud-container-identifiers".to_string());
    r.push("com.apple.developer.icloud-services".to_string());
    r.push("com.apple.developer.team-identifier".to_string());
    r.push("com.apple.developer.ubiquity-container-identifiers".to_string());
    r.push("com.apple.developer.ubiquity-kvstore-identifier".to_string());
    r.push("com.apple.developer.weatherkit".to_string());
    r.push("com.apple.security.application-groups".to_string());
    r.push("keychain-access-groups".to_string());
    r
}

/// Whether the given key is one of the provisioned entitlement keys.
pub fn is_provisioned_key(key: &String) -> (r: bool)
    ensures
        r == is_provisioned(key@),
{
    let keys = provisioned_entitlements();
    let mut i: usize = 0;
    while i < keys.len()
        invariant
            0 <= i <= keys.len(),
            keys@.len() == provisioned_keys().len(),
            forall|j: int| 0 <= j < keys@.len() ==> keys@[j]@ == provisioned_keys()[j],
            forall|j: int| 0 <= j < i ==> provisioned_keys()[j] != key@,
        decreases keys.len() - i,
    {
        if keys[i].eq(key) {
            proof {
                assert(provisioned_keys()[i as int] == key@);
            }
            return true;
        }
        i = i + 1;
    }
    false
}

/// Lexicographic order on character sequences: `a` comes strictly before `b`.
pub open spec fn lex_lt(a: Seq<char>, b: Seq<char>) -> bool
    decreases a.len(),
{
    if b.len() == 0 {
        false
    } else if a.len() == 0 {
        true
    } else if a[0] != b[0] {
        (a[0] as int) < (b[0] as int)
    } else {
        lex_lt(a.skip(1), b.skip(1))
    }
}

/// `lex_lt(a, b)` holds when `a` and `b` agree up to position `k` and either
/// `a` ends there or its character at `k` is the smaller one.
proof fn lemma_lex_lt_at(a: Seq<char>, b: Seq<char>, k: int)
    requires
        0 <= k <= a.len(),
        k < b.len(),
        forall|i: int| 0 <= i < k ==> a[i] == b[i],
        k < a.len() ==> (a[k] as int) < (b[k] as int),
    ensures
        lex_lt(a, b),
    decreases k,
{
    if k == 0 {
        if a.len() > 0 {
            assert(a[0] != b[0]);
        }
    } else {
        assert(a[0] == b[0]);
        assert forall|i: int| 0 <= i < k - 1 implies a.skip(1)[i] == b.skip(1)[i] by {
            assert(a.skip(1)[i] == a[i + 1]);
            assert(b.skip(1)[i] == b[i + 1]);
        }
        if k < a.len() {
            assert(a.skip(1)[k - 1] == a[k]);
            assert(b.skip(1)[k - 1] == b[k]);
        }
        lemma_lex_lt_at(a.skip(1), b.skip(1), k - 1);
    }
}

/// Lexicographic order is transitive.
pub proof fn lemma_lex_lt_trans(a: Seq<char>, b: Seq<char>, c: Seq<char>)
    requires
        lex_lt(a, b),
        lex_lt(b, c),
    ensures
        lex_lt(a, c),
    decreases a.len(),
{
    if a.len() > 0 && b.len() > 0 && c.len() > 0 {
        if a[0] == b[0] && b[0] == c[0] {
            lemma_lex_lt_trans(a.skip(1), b.skip(1), c.skip(1));
        }
    }
}

/// Lexicographic order is irreflexive.
pub proof fn lemma_lex_lt_irrefl(a: Seq<char>)
    ensures
        !lex_lt(a, a),
    decreases a.len(),
{
    if a.len() > 0 {
        lemma_lex_lt_irrefl(a.skip(1));
    }
}

/// In a sequence whose adjacent elements are strictly ordered, any earlier
/// element is strictly below any later one.
proof fn lemma_adjacent_implies_pairwise(s: Seq<Seq<char>>, i: int, j: int)
    requires
        forall|t: int| 0 <= t && t + 1 < s.len() ==> lex_lt(#[trigger] s[t], s[t + 1]),
        0 <= i < j < s.len(),
    ensures
        lex_lt(s[i], s[j]),
    decreases j - i,
{
    if j > i + 1 {
        lemma_adjacent_implies_pairwise(s, i, j - 1);
        lemma_lex_lt_trans(s[i], s[j - 1], s[j]);
    }
}

proof fn lemma_provisioned_keys_adjacent()
    ensures
        forall|t: int|
            0 <= t && t + 1 < provisioned_keys().len() ==> lex_lt(
                #[trigger] provisioned_keys()[t],
                provisioned_keys()[t + 1],
            ),
{
    reveal_strlit("beta-reports-active");
    reveal_strlit("com.apple.application-identifier");
    reveal_strlit("com.apple.developer.aps-environment");
    reveal_strlit("com.apple.developer.associated-domains");
    reveal_strlit("com.apple.developer.icloud-container-environment");
    reveal_strlit("com.apple.developer.icloud-container-identifiers");
    reveal_strlit("com.apple.developer.icloud-services");
    reveal_strlit("com.apple.developer.team-identifier");
    reveal_strlit("com.apple.developer.ubiquity-container-identifiers");
    reveal_strlit("com.apple.developer.ubiquity-kvstore-identifier");
    reveal_strlit("com.apple.developer.weatherkit");
    reveal_strlit("com.apple.security.application-groups");
    reveal_strlit("keychain-access-groups");
    let s = provisioned_keys();
    lemma_lex_lt_at(s[0], s[1], 0);
    lemma_lex_lt_at(s[1], s[2], 10);
    lemma_lex_lt_at(s[2], s[3], 21);
    lemma_lex_lt_at(s[3], s[4], 20);
    lemma_lex_lt_at(s[4], s[5], 37);
    lemma_lex_lt_at(s[5], s[6], 27);
    lemma_lex_lt_at(s[6], s[7], 20);
    lemma_lex_lt_at(s[7], s[8], 20);
    lemma_lex_lt_at(s[8], s[9], 29);
    lemma_lex_lt_at(s[9], s[10], 20);
    lemma_lex_lt_at(s[10], s[11], 10);
    lemma_lex_lt_at(s[11], s[12], 0);
}

/// The provisioned entitlement key list is sorted lexicographically: every
/// earlier key is strictly below every later one.
pub proof fn lemma_provisioned_keys_sorted()
    ensures
        forall|i: int, j: int|
            0 <= i < j < provisioned_keys().len() ==> lex_lt(
                provisioned_keys()[i],
                provisioned_keys()[j],
            ),
{
    lemma_provisioned_keys_adjacent();
    assert forall|i: int, j: int|
        0 <= i < j < provisioned_keys().len() implies lex_lt(
        provisioned_keys()[i],
        provisioned_keys()[j],
    ) by {
        lemma_adjacent_implies_pairwise(provisioned_keys(), i, j);
    }
}

/// The provisioned entitlement key list contains no duplicates.
pub proof fn lemma_provisioned_keys_distinct()
    ensures
        forall|i: int, j: int|
            0 <= i < j < provisioned_keys().len() ==> provisioned_keys()[i]
                != provisioned_keys()[j],
{
    lemma_provisioned_keys_sorted();
    assert forall|i: int, j: int|
        0 <= i < j < provisioned_keys().len() implies provisioned_keys()[i]
        != provisioned_keys()[j] by {
        lemma_lex_lt_irrefl(provisioned_keys()[i]);
    }
}

} // verus!
