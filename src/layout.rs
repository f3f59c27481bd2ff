use vstd::prelude::*;
use vstd::arithmetic::div_mod::lemma_fundamental_div_mod;
use vstd::arithmetic::div_mod::lemma_fundamental_div_mod_converse;

verus! {

/// Size of the groups whose byte order the flip reverses.
pub const FLIP_GROUP: usize = 4;

/// For output position `i` of a flipped sequence of length `n`, the input
/// position it is taken from: groups of four are reversed, and a shorter
/// final group is reversed as it stands.
pub open spec fn flip_source(n: int, i: int) -> int {
    let start = i - i % 4;
    let len = if n - start < 4 { n - start } else { 4 };
    start + len - 1 - i % 4
}

/// `s` with the byte order reversed inside each group of four.
pub open spec fn flipped(s: Seq<u8>) -> Seq<u8> {
    Seq::new(s.len(), |i: int| s[flip_source(s.len() as int, i)])
}

/// The bytes as they are emitted: flipped when `flip` is set, else unchanged.
pub open spec fn byte_order(s: Seq<u8>, flip: bool) -> Seq<u8> {
    if flip {
        flipped(s)
    } else {
        s
    }
}

/// How many of the positions `0..n` fall into lane `b` of `banks` lanes.
pub open spec fn bank_len(n: nat, banks: nat, b: nat) -> nat {
    ((n + banks - 1 - b) / (banks as int)) as nat
}

/// The bytes of lane `b`: those whose position is `b` modulo `banks`, in order.
pub open spec fn bank_bytes(s: Seq<u8>, banks: nat, b: nat) -> Seq<u8> {
    Seq::new(bank_len(s.len(), banks, b), |k: int| s[k * banks + b])
}

proof fn lemma_flip_source_in_range(n: int, i: int)
    requires
        0 <= i < n,
    ensures
        i - i % 4 <= flip_source(n, i) < n,
        flip_source(n, i) - flip_source(n, i) % 4 == i - i % 4,
{
    let start = i - i % 4;
    let src = flip_source(n, i);
    lemma_fundamental_div_mod(i, 4);
    let q = i / 4;
    assert(start == q * 4);
    assert(start <= src < start + 4);
    lemma_fundamental_div_mod_converse(src, 4, q, src - start);
}

/// Flipping the byte order twice gives the bytes back, where the length is a
/// whole number of groups.
pub proof fn lemma_flip_involution(s: Seq<u8>)
    requires
        s.len() % 4 == 0,
    ensures
        flipped(flipped(s)) == s,
{
    let n = s.len() as int;
    assert forall|i: int| 0 <= i < n implies flip_source(n, flip_source(n, i)) == i by {
        lemma_flip_source_in_range(n, i);
        let start = i - i % 4;
        lemma_fundamental_div_mod(i, 4);
        lemma_fundamental_div_mod(n, 4);
        assert(n - start >= 4) by {
            assert(start == (i / 4) * 4);
            assert(n == (n / 4) * 4);
            assert(i / 4 < n / 4) by (nonlinear_arith)
                requires
                    i < n,
                    i == (i / 4) * 4 + i % 4,
                    n == (n / 4) * 4,
                    0 <= i % 4 < 4,
            ;
            assert((n / 4) * 4 - (i / 4) * 4 >= 4) by (nonlinear_arith)
                requires
                    i / 4 < n / 4,
            ;
        }
        let j = flip_source(n, i);
        assert(j == start + 3 - i % 4);
        assert(j % 4 == 3 - i % 4);
    }
    assert(flipped(flipped(s)) =~= s);
}

/// The bytes with each group of four reversed; a shorter final group is
/// reversed as it stands.
pub fn flip_bytes(bytes: &[u8]) -> (r: Vec<u8>)
    ensures
        r@ == flipped(bytes@),
{
    let n = bytes.len();
    let mut r: Vec<u8> = Vec::with_capacity(n);
    let mut i: usize = 0;
    while i < n
        invariant
            i <= n,
            n == bytes@.len(),
            r@.len() == i,
            forall|k: int| 0 <= k < i ==> r@[k] == bytes@[flip_source(n as int, k)],
        decreases n - i,
    {
        proof {
            lemma_flip_source_in_range(n as int, i as int);
        }
        let lane = i % FLIP_GROUP;
        let start = i - lane;
        let len = if n - start < FLIP_GROUP {
            n - start
        } else {
            FLIP_GROUP
        };
        r.push(bytes[start + len - 1 - lane]);
        i = i + 1;
    }
    assert(r@ =~= flipped(bytes@));
    r
}

/// The bytes in emission order: flipped when `flip` is set, else a copy.
pub fn order_bytes(bytes: &[u8], flip: bool) -> (r: Vec<u8>)
    ensures
        r@ == byte_order(bytes@, flip),
{
    if flip {
        flip_bytes(bytes)
    } else {
        let mut r: Vec<u8> = Vec::with_capacity(bytes.len());
        let mut i: usize = 0;
        while i < bytes.len()
            invariant
                i <= bytes@.len(),
                r@ == bytes@.subrange(0, i as int),
            decreases bytes@.len() - i,
        {
            r.push(bytes[i]);
            i = i + 1;
            assert(r@ =~= bytes@.subrange(0, i as int));
        }
        assert(r@ =~= bytes@);
        r
    }
}

proof fn lemma_bank_len_exact(n: nat, banks: nat, b: nat, k: nat)
    requires
        b < banks,
        k * banks + b >= n,
        k == 0 || (k - 1) * banks + b < n,
    ensures
        bank_len(n, banks, b) == k,
{
    let x = n + banks - 1 - b;
    if k == 0 {
        lemma_fundamental_div_mod_converse(x, banks as int, 0, x);
    } else {
        assert(k * banks == (k - 1) * banks + banks) by (nonlinear_arith);
        lemma_fundamental_div_mod_converse(x, banks as int, k as int, x - k * banks);
    }
}

/// The lane of `banks` lanes that holds the bytes whose position is `b`
/// modulo `banks`.
pub fn bank_lane(bytes: &[u8], banks: usize, b: usize) -> (r: Vec<u8>)
    requires
        b < banks,
    ensures
        r@ == bank_bytes(bytes@, banks as nat, b as nat),
{
    let n = bytes.len();
    let mut r: Vec<u8> = Vec::new();
    assert(r@.len() * banks == 0);
    let mut idx: usize = if b < n {
        b
    } else {
        n
    };
    while idx < n
        invariant
            b < banks,
            n == bytes@.len(),
            r@.len() * banks + b < n ==> idx == r@.len() * banks + b,
            r@.len() * banks + b >= n ==> idx == n,
            r@.len() == 0 || (r@.len() - 1) * banks + b < n,
            forall|k: int| 0 <= k < r@.len() ==> r@[k] == bytes@[k * banks + b],
        decreases n - idx,
    {
        let ghost k = r@.len();
        assert(idx == k * banks + b);
        r.push(bytes[idx]);
        assert((k + 1) * banks + b == idx + banks) by (nonlinear_arith)
            requires
                idx == k * banks + b,
        ;
        if n - idx > banks {
            idx = idx + banks;
        } else {
            idx = n;
        }
    }
    proof {
        lemma_bank_len_exact(n as nat, banks as nat, b as nat, r@.len());
    }
    assert(r@ =~= bank_bytes(bytes@, banks as nat, b as nat));
    r
}

/// Entry `k` of lane `b` is the byte at position `k * banks + b`, the one
/// position whose lane is `b` and whose word is `k`.
pub open spec fn lane_entry(s: Seq<u8>, banks: nat, b: nat, k: int) -> bool {
    let i = k * banks + b;
    &&& 0 <= i < s.len()
    &&& i % (banks as int) == b
    &&& i / (banks as int) == k
    &&& bank_bytes(s, banks, b)[k] == s[i]
}

/// Byte `i` stands in lane `i % banks`, as entry `i / banks`.
pub open spec fn lane_position(s: Seq<u8>, banks: nat, i: int) -> bool {
    let b = (i % (banks as int)) as nat;
    let k = i / (banks as int);
    &&& 0 <= k < bank_bytes(s, banks, b).len()
    &&& bank_bytes(s, banks, b)[k] == s[i]
}

proof fn lemma_lane_entry(s: Seq<u8>, banks: nat, b: nat, k: int)
    requires
        banks > 0,
        b < banks,
        0 <= k < bank_len(s.len(), banks, b),
    ensures
        lane_entry(s, banks, b, k),
{
    let d = banks as int;
    let n = s.len() as int;
    lemma_fundamental_div_mod_converse(k * banks + b, d, k, b as int);
    let x = n + d - 1 - b;
    lemma_fundamental_div_mod(x, d);
    assert(0 <= k * d + b < n) by (nonlinear_arith)
        requires
            0 <= k < x / d,
            x == d * (x / d) + x % d,
            0 <= x % d,
            x == n + d - 1 - b,
            d > 0,
            0 <= b,
    ;
}

proof fn lemma_byte_lane(s: Seq<u8>, banks: nat, i: int)
    requires
        banks > 0,
        0 <= i < s.len(),
    ensures
        lane_position(s, banks, i),
{
    let d = banks as int;
    let n = s.len() as int;
    lemma_fundamental_div_mod(i, d);
    let b = i % d;
    let q = i / d;
    let x = n + d - 1 - b;
    lemma_fundamental_div_mod(x, d);
    assert(x >= (q + 1) * d) by (nonlinear_arith)
        requires
            x == n + d - 1 - b,
            i == d * q + b,
            i < n,
    ;
    assert(q < x / d) by (nonlinear_arith)
        requires
            x >= (q + 1) * d,
            x == d * (x / d) + x % d,
            0 <= x % d < d,
            d > 0,
    ;
    assert(q * banks + b == i) by (nonlinear_arith)
        requires
            i == d * q + b,
            d == banks,
    ;
}

/// Every byte lies in the lane of its position modulo the lane count, at its
/// position divided by the lane count; every lane entry is the byte at the
/// one position that maps to it; and reading the lanes in turn for each word
/// gives the bytes back.
pub proof fn lemma_bank_coverage(s: Seq<u8>, banks: nat)
    requires
        banks > 0,
    ensures
        forall|i: int|
            0 <= i < s.len() ==> #[trigger] lane_position(s, banks, i),
        forall|b: nat, k: int|
            b < banks && 0 <= k < bank_bytes(s, banks, b).len() ==> #[trigger] lane_entry(s, banks, b, k),
        Seq::new(s.len(), |i: int| bank_bytes(s, banks, (i % (banks as int)) as nat)[i / (banks as int)])
            == s,
{
    assert forall|b: nat, k: int|
        b < banks && 0 <= k < bank_bytes(s, banks, b).len() implies #[trigger] lane_entry(s, banks, b, k) by {
        lemma_lane_entry(s, banks, b, k);
    }
    assert forall|i: int| 0 <= i < s.len() implies #[trigger] lane_position(s, banks, i) by {
        lemma_byte_lane(s, banks, i);
    }
    let joined = Seq::new(
        s.len(),
        |i: int| bank_bytes(s, banks, (i % (banks as int)) as nat)[i / (banks as int)],
    );
    assert forall|i: int| 0 <= i < s.len() implies #[trigger] joined[i] == s[i] by {
        assert(lane_position(s, banks, i));
    }
    assert(joined =~= s);
}

} // verus!
