use vstd::prelude::*;

use crate::effects::unicode_lower;

verus! {

broadcast use vstd::prelude::Seq::group_seq_extra, vstd::seq_lib::group_seq_lib_default;

/// The character of one decimal digit.
pub open spec fn dec_digit(d: int) -> char {
    if d == 0 {
        '0'
    } else if d == 1 {
        '1'
    } else if d == 2 {
        '2'
    } else if d == 3 {
        '3'
    } else if d == 4 {
        '4'
    } else if d == 5 {
        '5'
    } else if d == 6 {
        '6'
    } else if d == 7 {
        '7'
    } else if d == 8 {
        '8'
    } else {
        '9'
    }
}

/// The decimal rendering of a number, most significant digit first.
pub open spec fn dec_str(n: nat) -> Seq<char>
    decreases n,
{
    if n < 10 {
        seq![dec_digit(n as int)]
    } else {
        dec_str(n / 10).push(dec_digit((n % 10) as int))
    }
}

/// One decimal digit as text.
fn digit_str(d: u64) -> (r: String)
    requires
        d < 10,
    ensures
        r@ =~= seq![dec_digit(d as int)],
{
    let s: &str = if d == 0 {
        "0"
    } else if d == 1 {
        "1"
    } else if d == 2 {
        "2"
    } else if d == 3 {
        "3"
    } else if d == 4 {
        "4"
    } else if d == 5 {
        "5"
    } else if d == 6 {
        "6"
    } else if d == 7 {
        "7"
    } else if d == 8 {
        "8"
    } else {
        "9"
    };
    proof {
        reveal_strlit("0");
        reveal_strlit("1");
        reveal_strlit("2");
        reveal_strlit("3");
        reveal_strlit("4");
        reveal_strlit("5");
        reveal_strlit("6");
        reveal_strlit("7");
        reveal_strlit("8");
        reveal_strlit("9");
    }
    s.to_owned()
}

/// A number rendered as decimal text.
fn to_dec_string(n: u128) -> (r: String)
    ensures
        r@ =~= dec_str(n as nat),
    decreases n,
{
    if n < 10 {
        digit_str((n % 10) as u64)
    } else {
        let mut s = to_dec_string(n / 10);
        let tail = digit_str((n % 10) as u64);
        s.append(tail.as_str());
        s
    }
}

/// The k-th collision-avoiding candidate for a base name: first
/// `base (Copy)`, then `base (Copy 2)`, `base (Copy 3)`, and so on.
pub open spec fn copy_candidate(base: Seq<char>, k: nat) -> Seq<char> {
    if k <= 1 {
        base + " (Copy)"@
    } else {
        base + " (Copy "@ + dec_str(k) + ")"@
    }
}

/// The collision key of the k-th candidate: its lowercase form.
pub open spec fn candidate_key(base: Seq<char>, k: nat) -> Seq<char> {
    unicode_lower(copy_candidate(base, k))
}

/// The keys of a list of stored keys.
pub open spec fn keys_of(used: Seq<String>) -> Seq<Seq<char>> {
    used.map_values(|s: String| s@)
}

/// Whether a key is among the used ones.
pub open spec fn key_used(keys: Seq<Seq<char>>, k: Seq<char>) -> bool {
    exists|i: int| 0 <= i < keys.len() && #[trigger] keys[i] == k
}

/// Where the candidate walk stops at index k: the k-th key is free, or it
/// repeats an earlier candidate's key. The lowercase mapping never gives
/// two candidates one key — their decimal digits differ and digits have
/// no case — so the second arm is vacuous in fact; it is what lets the
/// walk stand on its own feet without assuming that of the mapping.
pub open spec fn copy_stop(base: Seq<char>, keys: Seq<Seq<char>>, k: nat) -> bool {
    ||| !key_used(keys, candidate_key(base, k))
    ||| exists|j: nat|
        1 <= j < k && #[trigger] candidate_key(base, j) == candidate_key(base, k)
}

/// k is the first index at which the candidate walk stops.
pub open spec fn is_copy_stop(base: Seq<char>, keys: Seq<Seq<char>>, k: nat) -> bool {
    &&& 1 <= k
    &&& copy_stop(base, keys, k)
    &&& forall|j: nat| 1 <= j < k ==> !copy_stop(base, keys, j)
}

/// At most one index is the first stop.
pub proof fn lemma_copy_stop_unique(base: Seq<char>, keys: Seq<Seq<char>>, k1: nat, k2: nat)
    requires
        is_copy_stop(base, keys, k1),
        is_copy_stop(base, keys, k2),
    ensures
        k1 == k2,
{
}

/// The candidate name at the first stop of the walk — on every input the
/// lowercase mapping can produce, the first candidate whose key is unused.
pub open spec fn chosen_copy_name(base: Seq<char>, keys: Seq<Seq<char>>) -> Seq<char> {
    copy_candidate(base, choose|k: nat| is_copy_stop(base, keys, k))
}

/// Filtering twice is filtering by the conjunction.
proof fn lemma_filter_filter<A>(s: Seq<A>, p: spec_fn(A) -> bool, q: spec_fn(A) -> bool)
    ensures
        s.filter(p).filter(q) =~= s.filter(|x: A| p(x) && q(x)),
    decreases s.len(),
{
    if s.len() > 0 {
        let pre = s.drop_last();
        assert(pre.push(s.last()) =~= s);
        lemma_filter_filter(pre, p, q);
    }
}

/// Filters of pointwise-equal predicates agree.
proof fn lemma_filter_ext<A>(s: Seq<A>, p: spec_fn(A) -> bool, q: spec_fn(A) -> bool)
    requires
        forall|x: A| #[trigger] p(x) == q(x),
    ensures
        s.filter(p) =~= s.filter(q),
    decreases s.len(),
{
    if s.len() > 0 {
        let pre = s.drop_last();
        assert(pre.push(s.last()) =~= s);
        lemma_filter_ext(pre, p, q);
    }
}

/// A filter that rejects some position shrinks the sequence.
proof fn lemma_filter_strict<A>(s: Seq<A>, p: spec_fn(A) -> bool, i: int)
    requires
        0 <= i < s.len(),
        !p(s[i]),
    ensures
        s.filter(p).len() < s.len(),
    decreases s.len(),
{
    broadcast use vstd::seq_lib::group_filter_ensures;

    let pre = s.drop_last();
    assert(pre.push(s.last()) =~= s);
    if i == s.len() - 1 {
    } else {
        lemma_filter_strict(pre, p, i);
    }
}

/// A filter that rejects nothing changes nothing.
proof fn lemma_filter_all<A>(s: Seq<A>, p: spec_fn(A) -> bool)
    requires
        forall|x: A| #[trigger] p(x),
    ensures
        s.filter(p) =~= s,
    decreases s.len(),
{
    if s.len() > 0 {
        let pre = s.drop_last();
        assert(pre.push(s.last()) =~= s);
        lemma_filter_all(pre, p);
    }
}

/// A copy of the stored keys.
fn clone_keys(used: &Vec<String>) -> (r: Vec<String>)
    ensures
        keys_of(r@) =~= keys_of(used@),
{
    let mut r: Vec<String> = Vec::new();
    let n = used.len();
    for i in 0..n
        invariant
            n == used.len(),
            keys_of(r@) =~= keys_of(used@).take(i as int),
    {
        r.push(used[i].clone());
        proof {
            assert(keys_of(used@).take(i + 1) =~= keys_of(used@).take(i as int).push(
                keys_of(used@)[i as int],
            ));
        }
    }
    proof {
        assert(keys_of(used@).take(n as int) =~= keys_of(used@));
    }
    r
}

/// Whether the key is among the stored ones.
fn key_listed(used: &Vec<String>, k: &String) -> (r: bool)
    ensures
        r == key_used(keys_of(used@), k@),
{
    let n = used.len();
    for i in 0..n
        invariant
            n == used.len(),
            forall|j: int| 0 <= j < i ==> #[trigger] keys_of(used@)[j] != k@,
    {
        if used[i] == *k {
            assert(keys_of(used@)[i as int] == k@);
            return true;
        }
    }
    false
}

/// The stored keys other than the given one.
fn drop_listed_key(used: &Vec<String>, k: &String) -> (r: Vec<String>)
    ensures
        keys_of(r@) =~= keys_of(used@).filter(|x: Seq<char>| x != k@),
{
    let ghost w = keys_of(used@);
    let ghost p = |x: Seq<char>| x != k@;
    let mut r: Vec<String> = Vec::new();
    let n = used.len();
    proof {
        assert(w.take(0).filter(p) =~= Seq::<Seq<char>>::empty());
    }
    for i in 0..n
        invariant
            n == used.len(),
            w == keys_of(used@),
            p == (|x: Seq<char>| x != k@),
            keys_of(r@) =~= w.take(i as int).filter(p),
    {
        proof {
            assert(w.take(i + 1) =~= w.take(i as int).push(w[i as int]));
        }
        if !(used[i] == *k) {
            r.push(used[i].clone());
        }
    }
    proof {
        assert(w.take(n as int) =~= w);
    }
    r
}

/// The first candidate name whose collision key — its lowercase form — is
/// not yet used: the base with ` (Copy)` appended, then ` (Copy 2)`,
/// ` (Copy 3)`, and so on. The walk strikes each tried key off a working
/// copy of the list, so it ends after at most one pass over the keys.
pub fn next_copy_name(base: &String, used: &Vec<String>) -> (r: String)
    ensures
        r@ == chosen_copy_name(base@, keys_of(used@)),
        exists|k: nat|
            1 <= k && r@ == #[trigger] copy_candidate(base@, k) && is_copy_stop(
                base@,
                keys_of(used@),
                k,
            ),
{
    let ghost usedv = keys_of(used@);
    let mut live = clone_keys(used);
    proof {
        reveal_strlit(" (Copy)");
        lemma_filter_all(
            usedv,
            |x: Seq<char>| forall|j: nat| 1 <= j < 1 ==> x != candidate_key(base@, j),
        );
    }
    let mut counter: u128 = 1;
    let mut candidate: String = base.clone().concat(" (Copy)");
    loop
        invariant
            usedv == keys_of(used@),
            1 <= counter,
            candidate@ == copy_candidate(base@, counter as nat),
            keys_of(live@) =~= usedv.filter(
                |x: Seq<char>| forall|j: nat|
                    1 <= j < counter as nat ==> x != candidate_key(base@, j),
            ),
            forall|j: nat| 1 <= j < counter as nat ==> !copy_stop(base@, usedv, j),
            counter as nat + live@.len() <= usedv.len() + 1,
        decreases live@.len(),
    {
        let key = crate::effects::lower_text(&candidate);
        let ghost c = counter as nat;
        let ghost p_c = |x: Seq<char>| forall|j: nat| 1 <= j < c ==> x != candidate_key(base@, j);
        if !key_listed(&live, &key) {
            proof {
                // The key survives nowhere in `live`; a used copy of it
                // either repeats an earlier candidate's key or would have
                // survived the filtering — so the walk stops here.
                broadcast use vstd::seq_lib::group_filter_ensures;

                if key_used(usedv, candidate_key(base@, c)) {
                    let i = choose|i: int|
                        0 <= i < usedv.len() && #[trigger] usedv[i] == candidate_key(base@, c);
                    if p_c(usedv[i]) {
                        assert(keys_of(live@).contains(usedv[i]));
                        let l = choose|l: int|
                            0 <= l < keys_of(live@).len() && keys_of(live@)[l] == usedv[i];
                        assert(key_used(keys_of(live@), key@));
                    }
                }
                assert(is_copy_stop(base@, usedv, c));
                let k2 = choose|k2: nat| is_copy_stop(base@, usedv, k2);
                lemma_copy_stop_unique(base@, usedv, c, k2);
            }
            return candidate;
        }
        proof {
            broadcast use vstd::seq_lib::group_filter_ensures;

            // The key was found live: it is used, and no earlier candidate
            // shares it, so the walk does not stop at this index.
            let l = choose|l: int|
                0 <= l < keys_of(live@).len() && #[trigger] keys_of(live@)[l] == key@;
            assert(keys_of(live@).contains(keys_of(live@)[l]));
            assert(usedv.filter(p_c).contains(keys_of(live@)[l]));
            assert(usedv.contains(keys_of(live@)[l]));
            let i = choose|i: int| 0 <= i < usedv.len() && #[trigger] usedv[i] == keys_of(live@)[l];
            assert(key_used(usedv, candidate_key(base@, c)));
            assert(p_c(candidate_key(base@, c)));
            assert(!copy_stop(base@, usedv, c));
        }
        let next_live = drop_listed_key(&live, &key);
        proof {
            let q = |x: Seq<char>| x != key@;
            lemma_filter_filter(usedv, p_c, q);
            lemma_filter_ext(
                usedv,
                |x: Seq<char>| p_c(x) && q(x),
                |x: Seq<char>| forall|j: nat|
                    1 <= j < c + 1 ==> x != candidate_key(base@, j),
            );
            let l = choose|l: int|
                0 <= l < keys_of(live@).len() && #[trigger] keys_of(live@)[l] == key@;
            lemma_filter_strict(keys_of(live@), q, l);
            assert(keys_of(next_live@) =~= keys_of(live@).filter(q));
            assert(live@.len() >= 1);
            assert(usedv.len() == used.len());
            assert(counter as nat <= used.len());
        }
        live = next_live;
        counter += 1;
        let num = to_dec_string(counter);
        candidate = base.clone().concat(" (Copy ").concat(num.as_str()).concat(")");
        proof {
            reveal_strlit(" (Copy ");
            reveal_strlit(")");
            assert(candidate@ =~= copy_candidate(base@, counter as nat));
        }
    }
}

} // verus!
