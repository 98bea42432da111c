//! Chains of overlapping primes: each next prime starts with the last
//! `overlap` digits of the chain so far and adds the rest of its digits.
use vstd::prelude::*;
use std::collections::hash_map::RandomState;
use crate::bases::{base_digits, chars_of, string_of, to_base};
use crate::random::{fresh_random_state, hash_of_index};

verus! {

/// Relies on `slice::swap`: exchanges the items at `i` and `j`.
#[verifier::external_body]
fn swap_items<T>(v: &mut Vec<T>, i: usize, j: usize)
    requires
        i < old(v)@.len(),
        j < old(v)@.len(),
    ensures
        final(v)@ == old(v)@.update(i as int, old(v)@[j as int]).update(j as int, old(v)@[i as int]),
{
    v.swap(i, j)
}

/// `a` and `b` hold the same items.
pub open spec fn same_items<T>(a: Seq<T>, b: Seq<T>) -> bool {
    &&& a.len() == b.len()
    &&& forall|x: T| a.contains(x) <==> b.contains(x)
}

/// Puts the items of `vec` in a random order (Fisher-Yates, with indices
/// drawn from a fresh random hash state): a permutation of them.
pub fn shuffle<T>(vec: &mut Vec<T>)
    ensures
        final(vec)@.to_multiset() == old(vec)@.to_multiset(),
        same_items(final(vec)@, old(vec)@),
{
    let state = fresh_random_state();
    let len = vec.len();
    let mut i: usize = len;
    while i > 1
        invariant
            vec@.len() == len,
            i <= len,
            vec@.to_multiset() == old(vec)@.to_multiset(),
            same_items(vec@, old(vec)@),
        decreases i,
    {
        i = i - 1;
        let h = hash_of_index(&state, i);
        let j = (h % ((i as u64) + 1)) as usize;
        let ghost s = vec@;
        swap_items(vec, i, j);
        proof {
            broadcast use vstd::seq_lib::to_multiset_update, vstd::seq_lib::to_multiset_contains,
                vstd::multiset::group_multiset_properties;

            let s1 = s.update(i as int, s[j as int]);
            if i == j {
                assert(vec@ =~= s);
            } else {
                let m = s.to_multiset();
                assert(s1[j as int] == s[j as int]);
                assert(s.contains(s[i as int]));
                assert(m.count(s[i as int]) > 0);
                assert(s1.to_multiset() == m.insert(s[j as int]).remove(s[i as int]));
                assert(vec@ == s1.update(j as int, s[i as int]));
                assert(vec@.to_multiset() == s1.to_multiset().insert(s[i as int]).remove(s[j as int]));
                assert(vec@.to_multiset() =~= m);
            }
            assert forall|x: T| vec@.contains(x) <==> s.contains(x) by {
                if vec@.contains(x) {
                    let k = choose|k: int| 0 <= k < vec@.len() && vec@[k] == x;
                    if k == j {
                        assert(s[i as int] == x);
                    } else if k == i {
                        assert(s[j as int] == x);
                    } else {
                        assert(s[k] == x);
                    }
                }
                if s.contains(x) {
                    let k = choose|k: int| 0 <= k < s.len() && s[k] == x;
                    if k == i {
                        assert(vec@[j as int] == x);
                    } else if k == j {
                        assert(vec@[i as int] == x);
                    } else {
                        assert(vec@[k] == x);
                    }
                }
            }
        }
    }
}

/// The chain spelled by `links`: the first in full, then each next one
/// without its first `overlap` characters.
pub open spec fn chain_text(links: Seq<Seq<char>>, overlap: nat) -> Seq<char>
    decreases links.len(),
{
    if links.len() == 0 {
        Seq::empty()
    } else if links.len() == 1 {
        links[0]
    } else {
        let last = links.last();
        chain_text(links.drop_last(), overlap) + last.subrange(overlap as int, last.len() as int)
    }
}

/// `p` may follow a chain spelling `text`: it is longer than `overlap` and
/// starts with the last `overlap` characters of `text`.
pub open spec fn links_to(text: Seq<char>, p: Seq<char>, overlap: nat) -> bool {
    &&& overlap <= text.len()
    &&& overlap < p.len()
    &&& p.subrange(0, overlap as int) == text.subrange(text.len() - overlap, text.len() as int)
}

/// `links` is a valid chain over `pool`: it starts with `start`, every next
/// link is a string of `pool` that links to the chain before it, and no
/// string is used twice.
pub open spec fn valid_chain(links: Seq<Seq<char>>, start: Seq<char>, pool: Seq<Seq<char>>, overlap: nat) -> bool {
    &&& links.len() >= 1
    &&& links[0] == start
    &&& forall|k: int|
        1 <= k < links.len() ==> #[trigger] pool.contains(links[k]) && links_to(
            chain_text(links.subrange(0, k), overlap),
            links[k],
            overlap,
        )
    &&& forall|a: int, b: int| 0 <= a < b < links.len() ==> links[a] != links[b]
}

proof fn lemma_chain_push(links: Seq<Seq<char>>, p: Seq<char>, overlap: nat)
    requires
        links.len() >= 1,
    ensures
        chain_text(links.push(p), overlap) == chain_text(links, overlap) + p.subrange(
            overlap as int,
            p.len() as int,
        ),
{
    assert(links.push(p).drop_last() == links);
}

/// Whether `s` is one of `used`.
fn contains_chars(used: &Vec<Vec<char>>, s: &Vec<char>) -> (r: bool)
    ensures
        r == used@.map_values(|v: Vec<char>| v@).contains(s@),
{
    let ghost m = used@.map_values(|v: Vec<char>| v@);
    let mut k: usize = 0;
    while k < used.len()
        invariant
            k <= used.len(),
            m == used@.map_values(|v: Vec<char>| v@),
            forall|t: int| 0 <= t < k ==> used@[t]@ != s@,
        decreases used.len() - k,
    {
        if vec_eq(&used[k], s) {
            assert(m[k as int] == s@);
            return true;
        }
        k = k + 1;
    }
    assert forall|t: int| 0 <= t < m.len() implies m[t] != s@ by {
        assert(m[t] == used@[t]@);
    }
    false
}

fn vec_eq(a: &Vec<char>, b: &Vec<char>) -> (r: bool)
    ensures
        r == (a@ == b@),
{
    if a.len() != b.len() {
        return false;
    }
    let mut i: usize = 0;
    while i < a.len()
        invariant
            a.len() == b.len(),
            i <= a.len(),
            forall|t: int| 0 <= t < i ==> a@[t] == b@[t],
        decreases a.len() - i,
    {
        if a[i] != b[i] {
            return false;
        }
        i = i + 1;
    }
    assert(a@ =~= b@);
    true
}

/// Whether `p` is longer than `overlap` and starts with the last `overlap`
/// characters of `text`.
fn links(text: &Vec<char>, p: &Vec<char>, overlap: usize) -> (r: bool)
    ensures
        r == links_to(text@, p@, overlap as nat),
{
    if overlap > text.len() || overlap >= p.len() {
        return false;
    }
    let base = text.len() - overlap;
    let mut i: usize = 0;
    while i < overlap
        invariant
            overlap <= text.len(),
            overlap < p.len(),
            base == text.len() - overlap,
            i <= overlap,
            forall|t: int| 0 <= t < i ==> p@[t] == text@[base + t],
        decreases overlap - i,
    {
        if p[i] != text[base + i] {
            assert(p@.subrange(0, overlap as int)[i as int] != text@.subrange(
                base as int,
                text.len() as int,
            )[i as int]);
            return false;
        }
        i = i + 1;
    }
    assert(p@.subrange(0, overlap as int) =~= text@.subrange(base as int, text.len() as int));
    true
}

/// Grows a chain from `start_prime`: while it is shorter than
/// `target_length`, it appends an unused prime of `pool` that links to it,
/// picked at random among those that do; it stops early when none does.
/// Returns the chain and its primes, in order.
pub fn build_chain_from_start(
    start_prime: &str,
    overlap: usize,
    target_length: usize,
    pool: &Vec<String>,
) -> (r: (String, Vec<String>))
    ensures
        valid_chain(
            r.1@.map_values(|s: String| s@),
            start_prime@,
            pool@.map_values(|s: String| s@),
            overlap as nat,
        ),
        r.0@ == chain_text(r.1@.map_values(|s: String| s@), overlap as nat),
        r.0@.len() < target_length ==> r.0@.len() < overlap || forall|k: int|
            0 <= k < pool@.len() && links_to(r.0@, #[trigger] pool@[k]@, overlap as nat)
                ==> r.1@.map_values(|s: String| s@).contains(pool@[k]@),
{
    let ghost pool_v = pool@.map_values(|s: String| s@);
    let mut pool_chars: Vec<Vec<char>> = Vec::new();
    let mut k: usize = 0;
    while k < pool.len()
        invariant
            k <= pool.len(),
            pool_chars@.len() == k,
            forall|t: int| 0 <= t < k ==> #[trigger] pool_chars@[t]@ == pool@[t]@,
        decreases pool.len() - k,
    {
        pool_chars.push(chars_of(pool[k].as_str()));
        k = k + 1;
    }
    let mut chain = chars_of(start_prime);
    let mut used: Vec<Vec<char>> = Vec::new();
    used.push(chars_of(start_prime));
    let ghost mut links_v: Seq<Seq<char>> = seq![start_prime@];
    assert(used@.map_values(|v: Vec<char>| v@) =~= links_v);
    while chain.len() < target_length
        invariant
            pool_chars@.len() == pool@.len(),
            forall|t: int| 0 <= t < pool@.len() ==> #[trigger] pool_chars@[t]@ == pool@[t]@,
            pool_v == pool@.map_values(|s: String| s@),
            used@.map_values(|v: Vec<char>| v@) == links_v,
            valid_chain(links_v, start_prime@, pool_v, overlap as nat),
            chain@ == chain_text(links_v, overlap as nat),
        ensures
            pool_v == pool@.map_values(|s: String| s@),
            used@.map_values(|v: Vec<char>| v@) == links_v,
            valid_chain(links_v, start_prime@, pool_v, overlap as nat),
            chain@ == chain_text(links_v, overlap as nat),
            chain@.len() < target_length ==> forall|k: int|
                0 <= k < pool@.len() && links_to(chain@, #[trigger] pool@[k]@, overlap as nat)
                    ==> links_v.contains(pool@[k]@),
        decreases if chain@.len() < target_length {
            target_length - chain@.len()
        } else {
            0
        },
    {
        let mut cands: Vec<usize> = Vec::new();
        let mut t: usize = 0;
        while t < pool_chars.len()
            invariant
                t <= pool_chars.len(),
                forall|c: int| 0 <= c < cands@.len() ==> #[trigger] cands@[c] < pool_chars@.len(),
                forall|c: int|
                    0 <= c < cands@.len() ==> links_to(chain@, pool_chars@[#[trigger] cands@[c] as int]@, overlap as nat),
                forall|u: int|
                    0 <= u < t && links_to(chain@, pool_chars@[u]@, overlap as nat) ==> #[trigger] cands@.contains(u as usize),
            decreases pool_chars.len() - t,
        {
            if links(&chain, &pool_chars[t], overlap) {
                let ghost before = cands@;
                cands.push(t);
                proof {
                    assert(cands@[cands@.len() - 1] == t);
                    assert forall|u: int|
                        0 <= u < t + 1 && links_to(chain@, pool_chars@[u]@, overlap as nat) implies #[trigger] cands@.contains(u as usize) by {
                        if u < t {
                            assert(before.contains(u as usize));
                            let w = choose|w: int| 0 <= w < before.len() && before[w] == u as usize;
                            assert(cands@[w] == u as usize);
                        }
                    }
                }
            }
            t = t + 1;
        }
        let ghost cands0 = cands@;
        shuffle(&mut cands);
        proof {
            assert forall|c: int| 0 <= c < cands@.len() implies #[trigger] cands@[c] < pool_chars@.len()
                && links_to(chain@, pool_chars@[cands@[c] as int]@, overlap as nat) by {
                assert(cands@.contains(cands@[c]));
                assert(cands0.contains(cands@[c]));
                let w = choose|w: int| 0 <= w < cands0.len() && cands0[w] == cands@[c];
            }
        }
        let mut pick: Option<usize> = None;
        let mut c: usize = 0;
        while c < cands.len()
            invariant
                c <= cands.len(),
                used@.map_values(|v: Vec<char>| v@) == links_v,
                pick matches Some(x) ==> x < pool_chars@.len() && links_to(chain@, pool_chars@[x as int]@, overlap as nat)
                    && !links_v.contains(pool_chars@[x as int]@),
                pick is None ==> forall|w: int| 0 <= w < c ==> links_v.contains(#[trigger] pool_chars@[cands@[w] as int]@),
                forall|w: int| 0 <= w < cands@.len() ==> #[trigger] cands@[w] < pool_chars@.len(),
                forall|w: int| 0 <= w < cands@.len() ==> links_to(chain@, pool_chars@[#[trigger] cands@[w] as int]@, overlap as nat),
            ensures
                pick matches Some(x) ==> x < pool_chars@.len() && links_to(chain@, pool_chars@[x as int]@, overlap as nat)
                    && !links_v.contains(pool_chars@[x as int]@),
                pick is None ==> forall|w: int| 0 <= w < cands@.len() ==> links_v.contains(#[trigger] pool_chars@[cands@[w] as int]@),
            decreases cands.len() - c,
        {
            if !contains_chars(&used, &pool_chars[cands[c]]) {
                pick = Some(cands[c]);
                break;
            }
            c = c + 1;
        }
        match pick {
            None => {
                proof {
                    assert forall|k: int|
                        0 <= k < pool@.len() && links_to(chain@, #[trigger] pool@[k]@, overlap as nat)
                            implies links_v.contains(pool@[k]@) by {
                        assert(pool_chars@[k]@ == pool@[k]@);
                        assert(cands0.contains(k as usize));
                        assert(cands@.contains(k as usize));
                        let w = choose|w: int| 0 <= w < cands@.len() && cands@[w] == k as usize;
                        assert(links_v.contains(pool_chars@[cands@[w] as int]@));
                    }
                }
                break;
            },
            Some(x) => {
                let p = &pool_chars[x];
                let ghost old_chain = chain@;
                let mut i: usize = overlap;
                while i < p.len()
                    invariant
                        overlap < p.len(),
                        overlap <= i <= p.len(),
                        chain@ == old_chain + p@.subrange(overlap as int, i as int),
                    decreases p.len() - i,
                {
                    chain.push(p[i]);
                    i = i + 1;
                    assert(chain@ == old_chain + p@.subrange(overlap as int, i as int));
                }
                assert(chain@.len() > old_chain.len());
                proof {
                    lemma_chain_push(links_v, p@, overlap as nat);
                    let nl = links_v.push(p@);
                    assert(nl.subrange(0, links_v.len() as int) == links_v);
                    assert(pool_v[x as int] == p@);
                    assert(pool_v.contains(p@));
                    assert forall|k: int|
                        1 <= k < nl.len() implies #[trigger] pool_v.contains(nl[k]) && links_to(
                            chain_text(nl.subrange(0, k), overlap as nat),
                            nl[k],
                            overlap as nat,
                        ) by {
                        if k < links_v.len() {
                            assert(nl.subrange(0, k) == links_v.subrange(0, k));
                        }
                    }
                    assert forall|a: int, b: int| 0 <= a < b < nl.len() implies nl[a] != nl[b] by {
                        if b == links_v.len() {
                            assert(links_v[a] == nl[a]);
                        }
                    }
                    links_v = nl;
                }
                used.push(copy_chars(p));
                assert(used@.map_values(|v: Vec<char>| v@) =~= links_v);
            },
        }
    }
    let mut out: Vec<String> = Vec::new();
    let mut u: usize = 0;
    while u < used.len()
        invariant
            u <= used.len(),
            out@.len() == u,
            forall|t: int| 0 <= t < u ==> #[trigger] out@[t]@ == used@[t]@,
        decreases used.len() - u,
    {
        out.push(string_of(&used[u]));
        u = u + 1;
    }
    assert(out@.map_values(|s: String| s@) =~= links_v);
    (string_of(&chain), out)
}

/// How many of `primes` have more than `overlap` digits.
pub open spec fn long_enough_count(primes: Seq<usize>, overlap: nat) -> nat
    decreases primes.len(),
{
    if primes.len() == 0 {
        0
    } else {
        long_enough_count(primes.drop_last(), overlap) + if base_digits(primes.last() as nat, 10).len() > overlap {
            1nat
        } else {
            0nat
        }
    }
}

/// The decimal forms of the primes with more than `overlap` digits, in
/// order.
pub open spec fn chain_pool(primes: Seq<usize>, overlap: nat) -> Seq<Seq<char>>
    decreases primes.len(),
{
    if primes.len() == 0 {
        Seq::empty()
    } else {
        let d = base_digits(primes.last() as nat, 10);
        let rest = chain_pool(primes.drop_last(), overlap);
        if d.len() > overlap {
            rest.push(d)
        } else {
            rest
        }
    }
}

proof fn lemma_pool_count(primes: Seq<usize>, overlap: nat, pool: Seq<String>)
    requires
        pool.map_values(|s: String| s@) == chain_pool(primes, overlap),
    ensures
        pool.len() == long_enough_count(primes, overlap),
{
    lemma_pool_len(primes, overlap);
}

proof fn lemma_pool_len(primes: Seq<usize>, overlap: nat)
    ensures
        chain_pool(primes, overlap).len() == long_enough_count(primes, overlap),
    decreases primes.len(),
{
    if primes.len() > 0 {
        lemma_pool_len(primes.drop_last(), overlap);
    }
}

/// The best chain found: its text cut to the target length, the primes it
/// uses, how many starting primes were tried, and how many primes were
/// long enough to take part.
pub struct ChainResult {
    pub chain: String,
    pub primes: Vec<String>,
    pub attempts: usize,
    pub available: usize,
}

/// The decimal forms of the primes that have more than `overlap` digits,
/// in the order of `primes`.
pub fn long_enough(primes: &Vec<usize>, overlap: usize) -> (r: Vec<String>)
    ensures
        r@.map_values(|s: String| s@) == chain_pool(primes@, overlap as nat),
{
    let mut r: Vec<String> = Vec::new();
    let mut j: usize = 0;
    while j < primes.len()
        invariant
            j <= primes.len(),
            r@.map_values(|s: String| s@) == chain_pool(primes@.subrange(0, j as int), overlap as nat),
        decreases primes.len() - j,
    {
        let s = to_base(primes[j], 10);
        let n = s.as_str().unicode_len();
        let ghost before = r@.map_values(|s: String| s@);
        let ghost sv = s@;
        if n > overlap {
            r.push(s);
        }
        proof {
            let sub = primes@.subrange(0, j + 1);
            assert(sub.drop_last() == primes@.subrange(0, j as int));
            assert(sub.last() == primes@[j as int]);
            assert(r@.map_values(|s: String| s@) =~= chain_pool(sub, overlap as nat));
        }
        j = j + 1;
    }
    assert(primes@.subrange(0, primes@.len() as int) == primes@);
    r
}

/// `text` cut to at most `n` characters.
pub open spec fn cut(text: Seq<char>, n: int) -> Seq<char> {
    if text.len() > n {
        text.subrange(0, n)
    } else {
        text
    }
}

/// Tries each long-enough prime in turn as the start of a chain, keeps the
/// longest chain (the first of equal ones), stops once one reaches
/// `target_length`, and cuts it to that length. `None` when no prime has
/// more than `overlap` digits.
pub fn search_chain(primes: &Vec<usize>, overlap: usize, target_length: usize) -> (r: Option<
    ChainResult,
>)
    ensures
        r is None <==> long_enough_count(primes@, overlap as nat) == 0,
        r matches Some(res) ==> {
            let links = res.primes@.map_values(|s: String| s@);
            &&& res.attempts >= 1
            &&& res.available == long_enough_count(primes@, overlap as nat)
            &&& links.len() >= 1
            &&& valid_chain(links, links[0], chain_pool(primes@, overlap as nat), overlap as nat)
            &&& res.chain@ == cut(chain_text(links, overlap as nat), target_length as int)
        },
{
    let pool = long_enough(primes, overlap);
    proof {
        lemma_pool_count(primes@, overlap as nat, pool@);
    }
    if pool.len() == 0 {
        return None;
    }
    let mut best_text: Vec<char> = Vec::new();
    let mut best_links: Vec<String> = Vec::new();
    let mut attempts: usize = 0;
    let mut k: usize = 0;
    while k < pool.len()
        invariant
            k <= pool.len(),
            pool.len() > 0,
            attempts == k,
            pool@.map_values(|s: String| s@) == chain_pool(primes@, overlap as nat),
            k > 0 ==> valid_chain(
                best_links@.map_values(|s: String| s@),
                best_links@.map_values(|s: String| s@)[0],
                chain_pool(primes@, overlap as nat),
                overlap as nat,
            ) && best_text@ == chain_text(best_links@.map_values(|s: String| s@), overlap as nat),
        ensures
            attempts >= 1,
            valid_chain(
                best_links@.map_values(|s: String| s@),
                best_links@.map_values(|s: String| s@)[0],
                chain_pool(primes@, overlap as nat),
                overlap as nat,
            ),
            best_text@ == chain_text(best_links@.map_values(|s: String| s@), overlap as nat),
        decreases pool.len() - k,
    {
        attempts = attempts + 1;
        let (text, links) = build_chain_from_start(pool[k].as_str(), overlap, target_length, &pool);
        let text_chars = chars_of(text.as_str());
        if k == 0 || text_chars.len() > best_text.len() {
            best_text = text_chars;
            best_links = links;
        }
        k = k + 1;
        if best_text.len() >= target_length {
            break;
        }
    }
    let mut out: Vec<char> = Vec::new();
    let n = if best_text.len() > target_length {
        target_length
    } else {
        best_text.len()
    };
    let mut i: usize = 0;
    while i < n
        invariant
            n <= best_text.len(),
            i <= n,
            out@ == best_text@.subrange(0, i as int),
        decreases n - i,
    {
        out.push(best_text[i]);
        i = i + 1;
        assert(out@ == best_text@.subrange(0, i as int));
    }
    assert(best_text@.subrange(0, best_text.len() as int) == best_text@);
    Some(ChainResult {
        chain: string_of(&out),
        primes: best_links,
        attempts,
        available: pool.len(),
    })
}

fn copy_chars(v: &Vec<char>) -> (r: Vec<char>)
    ensures
        r@ == v@,
{
    let mut r: Vec<char> = Vec::new();
    let mut i: usize = 0;
    while i < v.len()
        invariant
            i <= v.len(),
            r@ == v@.subrange(0, i as int),
        decreases v.len() - i,
    {
        r.push(v[i]);
        i = i + 1;
        assert(r@ == v@.subrange(0, i as int));
    }
    assert(v@.subrange(0, v.len() as int) == v@);
    r
}

} // verus!
