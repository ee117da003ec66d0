//! Vault rules: what a scan makes of a file, finding a task by id, and
//! allocating fresh ids per the configured strategy.
//!
//! The file system work (walking the tasks directory, reserving filenames,
//! atomic rewrites) is the caller's; the decisions are here.

use vstd::prelude::*;

use vstd::string::StringExecFns;

use crate::taskmd::config::{Config, IdStrategy, spec_path_join, strip_dot_slash};
use crate::taskmd::model::{has_text, split_spec, ParseOutcome, Task};
use crate::yaml::{spec_yaml_parse, YamlV};
use crate::text::{
    all_digits, chars_of, contains_str, dec, dec_chars, digits_value, is_digit, lemma_dec_digits, lemma_dec_value, lemma_parse_dec, pad_zero, pad_zero_chars, parse_u64,
    parse_unsigned, str_eq, string_of, texts,
};

verus! {

/// Entropy for id generation; callers supply it so runs can be repeated.
pub trait Entropy {
    /// Milliseconds since the Unix epoch (for `ulid`).
    fn now_ms(&mut self) -> u64;

    /// A fresh pseudo-random value (for `random` and the `ulid` tail).
    fn rand_u64(&mut self) -> u64;
}

/// The splitmix64 output for a state.
pub open spec fn splitmix_out(s: u64) -> u64 {
    let z1 = vstd::wrapping::u64_specs::wrapping_mul(s ^ (s >> 30u64), 0xBF58476D1CE4E5B9u64);
    let z2 = vstd::wrapping::u64_specs::wrapping_mul(z1 ^ (z1 >> 27u64), 0x94D049BB133111EBu64);
    z2 ^ (z2 >> 31u64)
}

/// Entropy from the system clock plus a splitmix64 stream seeded from it.
/// Not cryptographic: ids only need to avoid collisions, and collisions are
/// checked anyway.
pub struct SystemEntropy {
    state: u64,
}

/// Nanoseconds since the Unix epoch (0 before it), cut to 64 bits.
#[verifier::external_body]
fn clock_nanos() -> (r: u64) {
    std::time::SystemTime::now().duration_since(std::time::UNIX_EPOCH).map(|d| d.as_nanos() as u64).unwrap_or(0)
}

/// Milliseconds since the Unix epoch (0 before it), cut to 64 bits.
#[verifier::external_body]
fn clock_millis() -> (r: u64) {
    std::time::SystemTime::now().duration_since(std::time::UNIX_EPOCH).map(|d| d.as_millis() as u64).unwrap_or(0)
}

impl SystemEntropy {
    /// A stream starting from a given state.
    pub fn with_seed(seed: u64) -> (r: SystemEntropy)
        ensures
            r.state_spec() == seed,
    {
        SystemEntropy { state: seed }
    }

    pub closed spec fn state_spec(self) -> u64 {
        self.state
    }
}

impl Default for SystemEntropy {
    /// Seeded from the clock.
    fn default() -> (r: SystemEntropy) {
        SystemEntropy { state: clock_nanos() }
    }
}

impl Entropy for SystemEntropy {
    /// The system clock; the random stream is left as it was.
    fn now_ms(&mut self) -> (r: u64)
        ensures
            final(self).state_spec() == old(self).state_spec(),
    {
        clock_millis()
    }

    /// One splitmix64 step: the state advances by the golden-ratio constant
    /// and the new state is mixed.
    fn rand_u64(&mut self) -> (r: u64)
        ensures
            final(self).state_spec() == vstd::wrapping::u64_specs::wrapping_add(old(self).state_spec(), 0x9E3779B97F4A7C15u64),
            r == splitmix_out(final(self).state_spec()),
    {
        self.state = self.state.wrapping_add(0x9E3779B97F4A7C15);
        let mut z = self.state;
        z = (z ^ (z >> 30)).wrapping_mul(0xBF58476D1CE4E5B9);
        z = (z ^ (z >> 27)).wrapping_mul(0x94D049BB133111EB);
        z ^ (z >> 31)
    }
}

/// The character of lowercase base36 digit `i` (`a`-`z`, then `0`-`9`).
pub open spec fn base36_char(i: int) -> char {
    if i < 26 {
        (('a' as int) + i) as char
    } else {
        (('0' as int) + i - 26) as char
    }
}

pub open spec fn is_base36_char(c: char) -> bool {
    ('a' <= c && c <= 'z') || ('0' <= c && c <= '9')
}

/// `x` divided by 36 `t` times: what is left of a drawn value once `t` of
/// its base36 digits have been used.
pub open spec fn b36_shift(x: nat, t: nat) -> nat
    decreases t,
{
    if t == 0 {
        x
    } else {
        b36_shift(x, (t - 1) as nat) / 36
    }
}

/// Character `k` of a random id built from `draws`: digit `k % 10`
/// (least significant first) of draw `k / 10`, in lowercase base36.
pub open spec fn random_id_char(draws: Seq<u64>, k: int) -> char {
    base36_char((b36_shift(draws[k / 10] as nat, (k % 10) as nat) % 36) as int)
}

/// How many values a random id of `length` characters draws: one, and one
/// more for every further ten characters.
pub open spec fn random_draws(length: nat) -> nat {
    if length == 0 {
        1
    } else {
        ((length + 9) / 10) as nat
    }
}

proof fn lemma_base36_char(i: int)
    requires
        0 <= i < 36,
    ensures
        is_base36_char(base36_char(i)),
{
}

/// The random id that the drawn values spell: `length` characters, ten
/// base36 digits taken from each draw, least significant digit first.
pub fn random_id_from(draws: &Vec<u64>, length: usize) -> (r: String)
    requires
        length <= 10 * draws.len(),
    ensures
        r@.len() == length,
        forall|k: int| 0 <= k < length ==> #[trigger] r@[k] == random_id_char(draws@, k),
        forall|i: int| 0 <= i < r@.len() ==> is_base36_char(#[trigger] r@[i]),
{
    let mut out: Vec<char> = Vec::new();
    let mut bits: u64 = 0;
    let mut j: usize = 0;
    let mut used: usize = 10;
    let mut k: usize = 0;
    while k < length
        invariant
            k <= length <= 10 * draws.len(),
            out.len() == k,
            used <= 10,
            used == 10 ==> k == 10 * j,
            used < 10 ==> k == 10 * j + used - 10 && j >= 1 && j <= draws.len() && bits as nat == b36_shift(
                draws@[j - 1] as nat,
                used as nat,
            ),
            forall|i: int| 0 <= i < k ==> #[trigger] out@[i] == random_id_char(draws@, i),
            forall|i: int| 0 <= i < k ==> is_base36_char(#[trigger] out@[i]),
        decreases length - k,
    {
        if used == 10 {
            assert(j < draws.len()) by (nonlinear_arith)
                requires
                    k == 10 * j,
                    k < length,
                    length <= 10 * draws.len(),
            ;
            bits = draws[j];
            j += 1;
            used = 0;
        }
        assert(k / 10 == j - 1 && k % 10 == used) by (nonlinear_arith)
            requires
                k == 10 * j + used - 10,
                0 <= used < 10,
        ;
        let d = bits % 36;
        let c: char = if d < 26 {
            ((97 + d) as u8) as char
        } else {
            ((48 + d - 26) as u8) as char
        };
        proof {
            assert(c == base36_char(d as int));
            lemma_base36_char(d as int);
            assert(c == random_id_char(draws@, k as int));
        }
        out.push(c);
        bits = bits / 36;
        used += 1;
        k += 1;
    }
    string_of(&out)
}

/// `length` characters of lowercase base36, matching taskmd's random ids:
/// digits are taken from a random value, a fresh one every ten characters.
/// Which characters come out is [`random_id_from`] of the values drawn.
pub fn random_id<E: Entropy>(length: usize, entropy: &mut E) -> (r: String)
    ensures
        r@.len() == length,
        forall|i: int| 0 <= i < r@.len() ==> is_base36_char(#[trigger] r@[i]),
        exists|draws: Seq<u64>|
            draws.len() == random_draws(length as nat) && forall|k: int|
                0 <= k < length ==> #[trigger] r@[k] == random_id_char(draws, k),
        random_candidate(r@, length as nat),
{
    let n: usize = if length == 0 {
        1
    } else {
        length / 10 + if length % 10 == 0 {
            0
        } else {
            1
        }
    };
    assert(n == random_draws(length as nat) && length <= 10 * n) by (nonlinear_arith)
        requires
            n == (if length == 0 {
                1
            } else {
                length / 10 + if length % 10 == 0 {
                    0int
                } else {
                    1int
                }
            }),
    ;
    let mut draws: Vec<u64> = Vec::new();
    while draws.len() < n
        invariant
            draws.len() <= n,
        decreases n - draws.len(),
    {
        draws.push(entropy.rand_u64());
    }
    let r = random_id_from(&draws, length);
    assert(forall|k: int| 0 <= k < length ==> #[trigger] r@[k] == random_id_char(draws@, k));
    r
}

/// The first ten characters (or all, when fewer) spell the timestamp `ms`.
pub open spec fn ts_prefixed(id: Seq<char>, ms: u64) -> bool {
    forall|k: int| 0 <= k < 10 && k < id.len() ==> #[trigger] id[k] == ts_char(ms, k)
}

/// Crockford base32 throughout, opening with some timestamp.
pub open spec fn ulid_shaped(id: Seq<char>) -> bool {
    &&& forall|i: int| 0 <= i < id.len() ==> crockford_chars().contains(#[trigger] id[i])
    &&& exists|ms: u64| #[trigger] ts_prefixed(id, ms)
}

/// The Crockford base32 alphabet taskmd uses, lowercase.
pub open spec fn crockford_chars() -> Seq<char> {
    "0123456789abcdefghjkmnpqrstvwxyz"@
}

/// Character `k` (0-9) of a timestamp in Crockford base32, most significant
/// 5-bit group first.
pub open spec fn ts_char(ms: u64, k: int) -> char {
    crockford_chars()[((ms >> (5 * (9 - k)) as u64) & 0x1Fu64) as int]
}

fn crockford(idx: u64, alpha: &Vec<char>) -> (c: char)
    requires
        idx < 32,
        alpha@ == crockford_chars(),
    ensures
        c == crockford_chars()[idx as int],
        crockford_chars().contains(c),
{
    proof {
        reveal_strlit("0123456789abcdefghjkmnpqrstvwxyz");
    }
    let c = alpha[idx as usize];
    assert(crockford_chars()[idx as int] == c);
    c
}

/// The 5-bit groups a drawn value gives the ulid tail, lowest first: at
/// least one, and more while bits above them remain.
pub open spec fn ulid_groups(x: u64) -> Seq<u64>
    decreases x,
{
    if (x >> 5u64) == 0 {
        seq![x & 0x1Fu64]
    } else {
        proof {
            assert((x >> 5u64) != 0 ==> (x >> 5u64) < x) by (bit_vector);
        }
        seq![x & 0x1Fu64] + ulid_groups(x >> 5u64)
    }
}

/// The groups of all draws, in order.
pub open spec fn ulid_tail(draws: Seq<u64>) -> Seq<u64>
    decreases draws.len(),
{
    if draws.len() == 0 {
        Seq::empty()
    } else {
        ulid_tail(draws.drop_last()) + ulid_groups(draws.last())
    }
}

/// How many tail characters a ulid of `length` characters needs.
pub open spec fn ulid_need(length: nat) -> nat {
    if length > 10 {
        (length - 10) as nat
    } else {
        0
    }
}

proof fn lemma_groups_nonempty(x: u64)
    ensures
        ulid_groups(x).len() >= 1,
        ulid_groups(x).len() <= 13,
        forall|i: int| 0 <= i < ulid_groups(x).len() ==> #[trigger] ulid_groups(x)[i] < 32,
    decreases x,
{
    assert((x & 0x1Fu64) < 32) by (bit_vector);
    if (x >> 5u64) != 0 {
        assert((x >> 5u64) < x) by (bit_vector)
            requires
                (x >> 5u64) != 0,
        ;
        lemma_groups_nonempty(x >> 5u64);
        assert(((x >> 5u64) >> 60u64) == 0) by (bit_vector);
        lemma_groups_le(x >> 5u64, 12);
        assert(ulid_groups(x) == seq![x & 0x1Fu64] + ulid_groups(x >> 5u64));
    }
}

/// A value with nothing above its lowest `5 k` bits gives at most `k` groups.
proof fn lemma_groups_le(x: u64, k: u64)
    requires
        1 <= k <= 12,
        (x >> (5 * k)) == 0,
    ensures
        ulid_groups(x).len() <= k,
    decreases k,
{
    if (x >> 5u64) != 0 {
        assert(k >= 2) by (bit_vector)
            requires
                (x >> 5u64) != 0,
                1 <= k <= 12,
                (x >> (5 * k)) == 0,
        ;
        let k1: u64 = (k - 1) as u64;
        assert(((x >> 5u64) >> (5 * k1)) == 0) by (bit_vector)
            requires
                1 <= k1 <= 11,
                k == k1 + 1,
                (x >> (5 * k)) == 0,
        ;
        lemma_groups_le(x >> 5u64, k1);
    }
}

/// A prefix of the draws gives a prefix of the tail.
proof fn lemma_tail_prefix(draws: Seq<u64>, m: int)
    requires
        0 <= m <= draws.len(),
    ensures
        ulid_tail(draws.take(m)).len() <= ulid_tail(draws).len(),
        ulid_tail(draws.take(m)) == ulid_tail(draws).take(ulid_tail(draws.take(m)).len() as int),
    decreases draws.len(),
{
    if m < draws.len() {
        assert(draws.drop_last().take(m) =~= draws.take(m));
        lemma_tail_prefix(draws.drop_last(), m);
        let t = ulid_tail(draws.drop_last());
        assert(ulid_tail(draws) == t + ulid_groups(draws.last()));
        assert(ulid_tail(draws).take(ulid_tail(draws.take(m)).len() as int) =~= t.take(
            ulid_tail(draws.take(m)).len() as int,
        ));
    } else {
        assert(draws.take(m) =~= draws);
        assert(ulid_tail(draws).take(ulid_tail(draws).len() as int) =~= ulid_tail(draws));
    }
}

/// Character `k` of a ulid built at `now_ms` from `draws`: the timestamp for
/// the first ten, then the groups of the draws.
pub open spec fn ulid_char(now_ms: u64, draws: Seq<u64>, k: int) -> char {
    if k < 10 {
        ts_char(now_ms, k)
    } else {
        crockford_chars()[ulid_tail(draws)[k - 10] as int]
    }
}

/// The ulid that a timestamp and the drawn values spell: Crockford base32
/// of the timestamp (ten characters) and then the 5-bit groups of each
/// draw, cut to `length`.
pub fn ulid_from(length: usize, now_ms: u64, draws: &Vec<u64>) -> (r: String)
    requires
        ulid_tail(draws@).len() >= ulid_need(length as nat),
    ensures
        r@.len() == length,
        forall|k: int| 0 <= k < length ==> #[trigger] r@[k] == ulid_char(now_ms, draws@, k),
        forall|i: int| 0 <= i < r@.len() ==> crockford_chars().contains(#[trigger] r@[i]),
{
    let alpha = chars_of("0123456789abcdefghjkmnpqrstvwxyz");
    proof {
        reveal_strlit("0123456789abcdefghjkmnpqrstvwxyz");
    }
    let mut out: Vec<char> = Vec::new();
    let mut k: u64 = 0;
    while k < 10
        invariant
            k <= 10,
            out.len() == k,
            alpha@ == crockford_chars(),
            forall|j: int| 0 <= j < k ==> out@[j] == ts_char(now_ms, j),
            forall|i: int| 0 <= i < out@.len() ==> crockford_chars().contains(#[trigger] out@[i]),
        decreases 10 - k,
    {
        let shift: u64 = 5 * (9 - k);
        let idx = (now_ms >> shift) & 0x1F;
        assert(idx < 32) by (bit_vector)
            requires
                idx == (now_ms >> shift) & 0x1F,
        ;
        let c = crockford(idx, &alpha);
        out.push(c);
        k += 1;
    }
    let ghost tail = ulid_tail(draws@);
    let ghost mut done: Seq<u64> = Seq::empty();
    let mut bits: u64 = 0;
    let mut have = false;
    let mut j: usize = 0;
    while out.len() < length
        invariant
            out.len() >= 10,
            out.len() == 10 + done.len(),
            alpha@ == crockford_chars(),
            tail == ulid_tail(draws@),
            tail.len() >= ulid_need(length as nat),
            j <= draws.len(),
            forall|i: int| 0 <= i < 10 ==> out@[i] == ts_char(now_ms, i),
            forall|i: int| 0 <= i < done.len() ==> out@[10 + i] == crockford_chars()[#[trigger] done[i] as int],
            forall|i: int| 0 <= i < out@.len() ==> crockford_chars().contains(#[trigger] out@[i]),
            have ==> j >= 1 && done + ulid_groups(bits) == ulid_tail(draws@.take(j as int)),
            !have ==> done == ulid_tail(draws@.take(j as int)),
        decreases length - out.len(),
    {
        if !have {
            proof {
                if j == draws.len() {
                    assert(draws@.take(j as int) =~= draws@);
                }
            }
            bits = draws[j];
            j += 1;
            have = true;
            proof {
                assert(draws@.take(j as int).drop_last() =~= draws@.take(j - 1));
            }
        }
        proof {
            lemma_groups_nonempty(bits);
        }
        let idx = bits & 0x1F;
        assert(idx < 32) by (bit_vector)
            requires
                idx == bits & 0x1F,
        ;
        let c = crockford(idx, &alpha);
        out.push(c);
        let ghost old_bits = bits;
        proof {
            done = done.push(idx);
        }
        bits = bits >> 5;
        if bits == 0 {
            have = false;
            proof {
                assert(ulid_groups(old_bits) =~= seq![idx]);
            }
        } else {
            proof {
                assert(ulid_groups(old_bits) =~= seq![idx] + ulid_groups(bits));
            }
        }
        proof {
            assert(done.drop_last() + ulid_groups(old_bits) == done.drop_last() + (seq![idx] + (if bits == 0 {
                Seq::<u64>::empty()
            } else {
                ulid_groups(bits)
            })));
            assert(done.drop_last() + (seq![idx] + (if bits == 0 {
                Seq::<u64>::empty()
            } else {
                ulid_groups(bits)
            })) =~= done + (if bits == 0 {
                Seq::<u64>::empty()
            } else {
                ulid_groups(bits)
            }));
            if bits == 0 {
                assert(done + Seq::<u64>::empty() =~= done);
            }
        }
    }
    proof {
        lemma_tail_prefix(draws@, j as int);
        let pre = ulid_tail(draws@.take(j as int));
        if have {
            assert(done == pre.take(done.len() as int));
            assert(forall|i: int| 0 <= i < done.len() ==> done[i] == #[trigger] pre[i]);
        }
        assert forall|i: int| 0 <= i < done.len() implies #[trigger] done[i] == tail[i] by {
            if have {
                assert(done[i] == (done + ulid_groups(bits))[i]);
            }
            assert(pre[i] == tail[i]);
        }
    }
    let mut res: Vec<char> = Vec::new();
    let mut i: usize = 0;
    while i < length
        invariant
            i <= length <= out.len(),
            res@ =~= out@.take(i as int),
        decreases length - i,
    {
        res.push(out[i]);
        i += 1;
    }
    proof {
        assert forall|k: int| 10 <= k < length implies res@[k] == ulid_char(now_ms, draws@, k) by {
            assert(res@[k] == out@[10 + (k - 10)]);
            assert(0 <= k - 10 < done.len());
            assert(done[k - 10] == tail[k - 10]);
            assert(out@[10 + (k - 10)] == crockford_chars()[done[k - 10] as int]);
        }
    }
    string_of(&res)
}

/// How many 5-bit groups a drawn value gives.
fn ulid_group_count(x: u64) -> (n: u64)
    ensures
        n == ulid_groups(x).len(),
        1 <= n <= 13,
{
    proof {
        lemma_groups_nonempty(x);
    }
    let mut n: u64 = 1;
    let mut b = x;
    while (b >> 5) != 0
        invariant
            n + ulid_groups(b).len() == ulid_groups(x).len() + 1,
            ulid_groups(x).len() <= 13,
            1 <= n,
        decreases b,
    {
        proof {
            lemma_groups_nonempty(b >> 5u64);
            assert((b >> 5u64) < b) by (bit_vector)
                requires
                    (b >> 5u64) != 0,
            ;
        }
        b = b >> 5;
        n += 1;
    }
    n
}

/// A text a random id draw can give: `length` characters spelled by
/// [`random_id_char`] from some drawn values.
pub open spec fn random_candidate(s: Seq<char>, length: nat) -> bool {
    &&& s.len() == length
    &&& exists|draws: Seq<u64>|
        draws.len() == random_draws(length) && forall|k: int| 0 <= k < length ==> #[trigger] s[k] == random_id_char(draws, k)
}

/// A text a ulid draw can give: `length` characters spelled by
/// [`ulid_char`] from some timestamp and drawn values.
pub open spec fn ulid_candidate(s: Seq<char>, length: nat) -> bool {
    &&& s.len() == length
    &&& exists|ms: u64, draws: Seq<u64>|
        #![trigger ts_prefixed(s, ms), ulid_tail(draws)]
        ts_prefixed(s, ms) && draws.len() >= 1 && ulid_tail(draws).len() >= ulid_need(length) && forall|k: int|
            0 <= k < length ==> #[trigger] s[k] == ulid_char(ms, draws, k)
}

/// Every candidate in `c` was already taken and is one the strategy can
/// draw (a ulid or a random id, after the strategy).
pub open spec fn all_taken(c: Seq<Seq<char>>, existing: Seq<Seq<char>>, length: nat, strategy: IdStrategy) -> bool {
    forall|k: int|
        0 <= k < c.len() ==> existing.contains(#[trigger] c[k]) && (if strategy == IdStrategy::Ulid {
            ulid_candidate(c[k], length)
        } else {
            random_candidate(c[k], length)
        })
}

/// Crockford base32 of the millisecond timestamp (ten characters) plus a
/// random tail, cut to `length`; the timestamp prefix is fixed by `now_ms`.
/// One value is drawn, and another each time the last one's groups are used
/// up; which characters come out is [`ulid_from`] of those values.
pub fn ulid_id<E: Entropy>(length: usize, now_ms: u64, entropy: &mut E) -> (r: String)
    ensures
        r@.len() == length,
        forall|k: int| 0 <= k < 10 && k < length ==> r@[k] == ts_char(now_ms, k),
        forall|i: int| 0 <= i < r@.len() ==> crockford_chars().contains(#[trigger] r@[i]),
        exists|draws: Seq<u64>|
            draws.len() >= 1 && ulid_tail(draws).len() >= ulid_need(length as nat) && forall|k: int|
                0 <= k < length ==> #[trigger] r@[k] == ulid_char(now_ms, draws, k),
        ulid_candidate(r@, length as nat),
{
    let need: u128 = if length > 10 {
        (length - 10) as u128
    } else {
        0
    };
    let mut draws: Vec<u64> = Vec::new();
    let first = entropy.rand_u64();
    draws.push(first);
    let mut avail: u128 = ulid_group_count(first) as u128;
    proof {
        assert(draws@.drop_last() =~= Seq::<u64>::empty());
        assert(draws@.last() == first);
        assert(ulid_tail(Seq::<u64>::empty()) == Seq::<u64>::empty());
        assert(ulid_tail(draws@) == ulid_tail(draws@.drop_last()) + ulid_groups(draws@.last()));
        assert(ulid_tail(draws@) =~= ulid_groups(first));
    }
    while avail <= need
        invariant
            avail == ulid_tail(draws@).len(),
            need == ulid_need(length as nat),
            need < 0x1_0000_0000_0000_0000,
            draws.len() >= 1,
        decreases need + 13 - avail,
    {
        let x = entropy.rand_u64();
        let ghost before = draws@;
        draws.push(x);
        let g = ulid_group_count(x);
        proof {
            assert(draws@.drop_last() =~= before);
            assert(draws@.last() == x);
            assert(ulid_tail(draws@) == ulid_tail(before) + ulid_groups(x));
        }
        avail = avail + g as u128;
    }
    let r = ulid_from(length, now_ms, &draws);
    proof {
        assert(ts_prefixed(r@, now_ms));
        assert(ulid_tail(draws@).len() >= ulid_need(length as nat));
        assert(forall|k: int| 0 <= k < length ==> #[trigger] r@[k] == ulid_char(now_ms, draws@, k));
    }
    r
}

/// A file under the tasks directory that looks like a task but is broken.
#[derive(Debug, Clone, PartialEq)]
pub struct InvalidFile {
    pub rel_path: String,
    pub reason: String,
}

/// The result of scanning a vault's tasks directory.
#[derive(Debug, Default, PartialEq)]
pub struct Scan {
    pub tasks: Vec<Task>,
    pub invalid: Vec<InvalidFile>,
}

/// `a` sorts before `b` from position `i` on: the first differing character
/// decides by code point, and a proper prefix comes first (how `String`s
/// compare).
pub open spec fn text_lt_from(a: Seq<char>, b: Seq<char>, i: int) -> bool
    decreases a.len() - i,
{
    if i < 0 || i >= a.len() {
        0 <= i < b.len()
    } else if i >= b.len() {
        false
    } else if a[i] != b[i] {
        (a[i] as u32) < (b[i] as u32)
    } else {
        text_lt_from(a, b, i + 1)
    }
}

/// `a` sorts before `b`.
pub open spec fn text_lt(a: Seq<char>, b: Seq<char>) -> bool {
    text_lt_from(a, b, 0)
}

/// A relative path orders before another: no path first, then by text.
pub open spec fn path_key_lt(a: Option<String>, b: Option<String>) -> bool {
    match (a, b) {
        (None, Some(_)) => true,
        (Some(x), Some(y)) => text_lt(x@, y@),
        _ => false,
    }
}

proof fn lemma_text_lt_asym(a: Seq<char>, b: Seq<char>, i: int)
    requires
        0 <= i,
        text_lt_from(a, b, i),
    ensures
        !text_lt_from(b, a, i),
    decreases a.len() - i,
{
    if i < a.len() && i < b.len() && a[i] == b[i] {
        lemma_text_lt_asym(a, b, i + 1);
    }
}

proof fn lemma_text_lt_trans(a: Seq<char>, b: Seq<char>, c: Seq<char>, i: int)
    requires
        0 <= i,
        text_lt_from(a, b, i),
        text_lt_from(b, c, i),
    ensures
        text_lt_from(a, c, i),
    decreases a.len() - i,
{
    if i < a.len() && i < b.len() && i < c.len() && a[i] == b[i] && b[i] == c[i] {
        lemma_text_lt_trans(a, b, c, i + 1);
    }
}

proof fn lemma_key_asym(a: Option<String>, b: Option<String>)
    requires
        path_key_lt(a, b),
    ensures
        !path_key_lt(b, a),
{
    if let (Some(x), Some(y)) = (a, b) {
        lemma_text_lt_asym(x@, y@, 0);
    }
}

proof fn lemma_key_trans(a: Option<String>, b: Option<String>, c: Option<String>)
    requires
        path_key_lt(a, b),
        path_key_lt(b, c),
    ensures
        path_key_lt(a, c),
{
    if let (Some(x), Some(y), Some(z)) = (a, b, c) {
        lemma_text_lt_trans(x@, y@, z@, 0);
    }
}

/// Whether `a` sorts before `b`, as `String` comparison orders them.
pub fn text_less(a: &str, b: &str) -> (r: bool)
    ensures
        r == text_lt(a@, b@),
{
    let x = chars_of(a);
    let y = chars_of(b);
    let mut i: usize = 0;
    while i < x.len() && i < y.len() && x[i] == y[i]
        invariant
            i <= x.len(),
            i <= y.len(),
            x@ == a@,
            y@ == b@,
            text_lt(a@, b@) == text_lt_from(a@, b@, i as int),
        decreases x.len() - i,
    {
        i += 1;
    }
    if i >= x.len() {
        i < y.len()
    } else if i >= y.len() {
        false
    } else {
        (x[i] as u32) < (y[i] as u32)
    }
}

/// Whether one optional relative path sorts before another.
pub fn path_key_less(a: &Option<String>, b: &Option<String>) -> (r: bool)
    ensures
        r == path_key_lt(*a, *b),
{
    match (a, b) {
        (None, Some(_)) => true,
        (Some(x), Some(y)) => text_less(x.as_str(), y.as_str()),
        _ => false,
    }
}

/// Tasks in order of their relative paths.
pub open spec fn tasks_sorted(ts: Seq<Task>) -> bool {
    forall|i: int, j: int| 0 <= i < j < ts.len() ==> !path_key_lt(ts[j].rel_path, ts[i].rel_path)
}

/// Invalid files in order of their relative paths.
pub open spec fn invalid_sorted(fs: Seq<InvalidFile>) -> bool {
    forall|i: int, j: int| 0 <= i < j < fs.len() ==> !text_lt(fs[j].rel_path@, fs[i].rel_path@)
}

impl Scan {
    /// Put the tasks and the invalid files in order of their relative paths
    /// (a task without a path first), keeping the order of equal paths.
    pub fn sort_by_path(&mut self)
        ensures
            final(self).tasks@.to_multiset() == old(self).tasks@.to_multiset(),
            final(self).invalid@.to_multiset() == old(self).invalid@.to_multiset(),
            tasks_sorted(final(self).tasks@),
            invalid_sorted(final(self).invalid@),
    {
        let mut src: Vec<Task> = Vec::new();
        std::mem::swap(&mut src, &mut self.tasks);
        let ghost orig = src@;
        let mut out: Vec<Task> = Vec::new();
        let ghost mut n: int = 0;
        proof {
            assert(orig.skip(0) =~= orig);
            assert(orig.take(0) =~= Seq::<Task>::empty());
        }
        while src.len() > 0
            invariant
                0 <= n <= orig.len(),
                src@ == orig.skip(n),
                out@.to_multiset() == orig.take(n).to_multiset(),
                tasks_sorted(out@),
            decreases src.len(),
        {
            let ghost rest = src@;
            let t = src.remove(0);
            proof {
                assert(t == orig[n]);
                assert(src@ =~= orig.skip(n + 1));
            }
            let mut p: usize = 0;
            while p < out.len() && !path_key_less(&t.rel_path, &out[p].rel_path)
                invariant
                    p <= out.len(),
                    forall|k: int| 0 <= k < p ==> !path_key_lt(t.rel_path, #[trigger] out@[k].rel_path),
                decreases out.len() - p,
            {
                p += 1;
            }
            let ghost before = out@;
            out.insert(p, t);
            proof {
                assert(out@ =~= before.take(p as int).push(t) + before.skip(p as int));
                assert forall|i: int, j: int| 0 <= i < j < out@.len() implies !path_key_lt(
                    out@[j].rel_path,
                    out@[i].rel_path,
                ) by {
                    if j < p {
                        assert(out@[i] == before[i] && out@[j] == before[j]);
                    } else if j == p {
                        assert(out@[i] == before[i]);
                    } else if i == p {
                        assert(out@[j] == before[j - 1]);
                        assert(path_key_lt(t.rel_path, before[p as int].rel_path));
                        if path_key_lt(before[j - 1].rel_path, t.rel_path) {
                            lemma_key_trans(before[j - 1].rel_path, t.rel_path, before[p as int].rel_path);
                            if j - 1 == p {
                                lemma_key_asym(before[j - 1].rel_path, before[j - 1].rel_path);
                            }
                        }
                    } else if i < p {
                        assert(out@[i] == before[i] && out@[j] == before[j - 1]);
                    } else {
                        assert(out@[i] == before[i - 1] && out@[j] == before[j - 1]);
                    }
                }
                let a = before.take(p as int);
                let b = before.skip(p as int);
                vstd::seq_lib::lemma_multiset_commutative(a, b);
                assert(a + b =~= before);
                vstd::seq_lib::lemma_multiset_commutative(a.push(t), b);
                a.to_multiset_ensures();
                orig.take(n).to_multiset_ensures();
                assert(orig.take(n + 1) =~= orig.take(n).push(orig[n]));
                assert(out@.to_multiset() =~= before.to_multiset().insert(t)) by {
                    broadcast use vstd::multiset::group_multiset_axioms;
                }
                n = n + 1;
            }
        }
        proof {
            assert(orig.take(n) =~= orig);
        }
        self.tasks = out;
        self.sort_invalid();
    }

    fn sort_invalid(&mut self)
        requires
            tasks_sorted(old(self).tasks@),
        ensures
            final(self).tasks == old(self).tasks,
            final(self).invalid@.to_multiset() == old(self).invalid@.to_multiset(),
            invalid_sorted(final(self).invalid@),
    {
        let mut src: Vec<InvalidFile> = Vec::new();
        std::mem::swap(&mut src, &mut self.invalid);
        let ghost orig = src@;
        let mut out: Vec<InvalidFile> = Vec::new();
        let ghost mut n: int = 0;
        proof {
            assert(orig.skip(0) =~= orig);
            assert(orig.take(0) =~= Seq::<InvalidFile>::empty());
        }
        while src.len() > 0
            invariant
                0 <= n <= orig.len(),
                src@ == orig.skip(n),
                out@.to_multiset() == orig.take(n).to_multiset(),
                invalid_sorted(out@),
            decreases src.len(),
        {
            let ghost rest = src@;
            let f = src.remove(0);
            proof {
                assert(f == orig[n]);
                assert(src@ =~= orig.skip(n + 1));
            }
            let mut p: usize = 0;
            while p < out.len() && !text_less(f.rel_path.as_str(), out[p].rel_path.as_str())
                invariant
                    p <= out.len(),
                    forall|k: int| 0 <= k < p ==> !text_lt(f.rel_path@, #[trigger] out@[k].rel_path@),
                decreases out.len() - p,
            {
                p += 1;
            }
            let ghost before = out@;
            out.insert(p, f);
            proof {
                assert(out@ =~= before.take(p as int).push(f) + before.skip(p as int));
                assert forall|i: int, j: int| 0 <= i < j < out@.len() implies !text_lt(
                    out@[j].rel_path@,
                    out@[i].rel_path@,
                ) by {
                    if j < p {
                        assert(out@[i] == before[i] && out@[j] == before[j]);
                        assert(!text_lt(before[j].rel_path@, before[i].rel_path@));
                    } else if j == p {
                        assert(out@[i] == before[i]);
                        assert(!text_lt(f.rel_path@, before[i].rel_path@));
                        assert(out@[j] == f);
                    } else if i == p {
                        assert(out@[i] == f);
                        assert(out@[j] == before[j - 1]);
                        assert(text_lt(f.rel_path@, before[p as int].rel_path@));
                        lemma_text_lt_asym(f.rel_path@, before[p as int].rel_path@, 0);
                        if text_lt(before[j - 1].rel_path@, f.rel_path@) {
                            lemma_text_lt_trans(before[j - 1].rel_path@, f.rel_path@, before[p as int].rel_path@, 0);
                            if j - 1 == p {
                                lemma_text_lt_asym(before[j - 1].rel_path@, before[j - 1].rel_path@, 0);
                            } else {
                                assert(!text_lt(before[j - 1].rel_path@, before[p as int].rel_path@));
                            }
                        }
                    } else if i < p {
                        assert(out@[i] == before[i] && out@[j] == before[j - 1]);
                        assert(!text_lt(before[j - 1].rel_path@, before[i].rel_path@));
                    } else {
                        assert(out@[i] == before[i - 1] && out@[j] == before[j - 1]);
                        assert(!text_lt(before[j - 1].rel_path@, before[i - 1].rel_path@));
                    }
                }
                let a = before.take(p as int);
                let b = before.skip(p as int);
                vstd::seq_lib::lemma_multiset_commutative(a, b);
                assert(a + b =~= before);
                vstd::seq_lib::lemma_multiset_commutative(a.push(f), b);
                a.to_multiset_ensures();
                orig.take(n).to_multiset_ensures();
                assert(orig.take(n + 1) =~= orig.take(n).push(orig[n]));
                assert(out@.to_multiset() =~= before.to_multiset().insert(f)) by {
                    broadcast use vstd::multiset::group_multiset_axioms;
                }
                n = n + 1;
            }
        }
        proof {
            assert(orig.take(n) =~= orig);
        }
        self.invalid = out;
    }
}

/// Index of the first task with this id.
pub open spec fn first_with_id(tasks: Seq<Task>, id: Seq<char>) -> Option<int>
    decreases tasks.len(),
{
    if tasks.len() == 0 {
        None
    } else if tasks[0].id_spec() == id {
        Some(0)
    } else {
        match first_with_id(tasks.drop_first(), id) {
            Some(i) => Some(i + 1),
            None => None,
        }
    }
}

/// How many tasks carry this id.
pub open spec fn count_with_id(tasks: Seq<Task>, id: Seq<char>) -> nat
    decreases tasks.len(),
{
    if tasks.len() == 0 {
        0
    } else {
        count_with_id(tasks.drop_last(), id) + if tasks.last().id_spec() == id {
            1nat
        } else {
            0nat
        }
    }
}

impl Scan {
    /// The first task with this id.
    pub fn find(&self, id: &str) -> (r: Option<&Task>)
        ensures
            match first_with_id(self.tasks@, id@) {
                Some(i) => r == Some(&self.tasks@[i]),
                None => r is None,
            },
    {
        let mut i: usize = 0;
        assert(self.tasks@.skip(0) =~= self.tasks@);
        while i < self.tasks.len()
            invariant
                i <= self.tasks.len(),
                first_with_id(self.tasks@, id@) == (match first_with_id(self.tasks@.skip(i as int), id@) {
                    Some(k) => Some(k + i),
                    None => None,
                }),
            decreases self.tasks.len() - i,
        {
            assert(self.tasks@.skip(i as int).drop_first() =~= self.tasks@.skip(i + 1));
            if str_eq(self.tasks[i].id().as_str(), id) {
                return Some(&self.tasks[i]);
            }
            i += 1;
        }
        None
    }
}

/// Why a task could not be picked by id.
#[derive(Debug, Clone, PartialEq, Eq)]
pub enum FindError {
    /// No task carries the id.
    NotFound,
    /// Several files carry it (a vault defect that validation reports).
    Ambiguous(usize),
}

/// Pick the one task carrying `id`: refuse when none or several do.
pub fn find_unique(tasks: &[Task], id: &str) -> (r: Result<usize, FindError>)
    ensures
        count_with_id(tasks@, id@) == 0 ==> r == Err::<usize, FindError>(FindError::NotFound),
        count_with_id(tasks@, id@) == 1 ==> (r matches Ok(i) && i < tasks.len() && tasks@[i as int].id_spec() == id@),
        count_with_id(tasks@, id@) > 1 ==> r == Err::<usize, FindError>(FindError::Ambiguous(count_with_id(tasks@, id@) as usize)),
{
    let mut n: usize = 0;
    let mut first: usize = 0;
    let mut i: usize = 0;
    while i < tasks.len()
        invariant
            i <= tasks.len(),
            n as nat == count_with_id(tasks@.take(i as int), id@),
            n <= i,
            n > 0 ==> first < i && tasks@[first as int].id_spec() == id@,
        decreases tasks.len() - i,
    {
        assert(tasks@.take(i + 1).drop_last() =~= tasks@.take(i as int));
        if str_eq(tasks[i].id().as_str(), id) {
            if n == 0 {
                first = i;
            }
            n += 1;
        }
        i += 1;
    }
    assert(tasks@.take(tasks.len() as int) =~= tasks@);
    if n == 0 {
        Err(FindError::NotFound)
    } else if n == 1 {
        Ok(first)
    } else {
        Err(FindError::Ambiguous(n))
    }
}

/// What the scanner does with a directory entry.
#[derive(Debug, Clone, Copy, PartialEq, Eq, Structural)]
pub enum EntryAction {
    /// Hidden, or a file that is not Markdown.
    Skip,
    /// A visible directory: scan inside it.
    Descend,
    /// A visible `.md` file: read and classify it.
    Read,
}

/// The action for an entry named `name`: dot-files and dot-dirs are
/// skipped, other directories are entered, and only `.md` files are read.
pub open spec fn entry_action_spec(name: Seq<char>, is_dir: bool) -> EntryAction {
    if name.len() > 0 && name[0] == '.' {
        EntryAction::Skip
    } else if is_dir {
        EntryAction::Descend
    } else if name.len() >= 3 && name.skip(name.len() - 3) == ".md"@ {
        EntryAction::Read
    } else {
        EntryAction::Skip
    }
}

pub fn entry_action(name: &str, is_dir: bool) -> (r: EntryAction)
    ensures
        r == entry_action_spec(name@, is_dir),
{
    proof {
        reveal_strlit(".md");
    }
    let c = chars_of(name);
    if c.len() > 0 && c[0] == '.' {
        return EntryAction::Skip;
    }
    if is_dir {
        return EntryAction::Descend;
    }
    let n = c.len();
    if n >= 3 && c[n - 3] == '.' && c[n - 2] == 'm' && c[n - 1] == 'd' {
        assert(c@.skip(n - 3) =~= ".md"@);
        EntryAction::Read
    } else {
        proof {
            if n >= 3 && c@.skip(n - 3) == ".md"@ {
                assert(c@.skip(n - 3)[0] == c@[n - 3]);
                assert(c@.skip(n - 3)[1] == c@[n - 2]);
                assert(c@.skip(n - 3)[2] == c@[n - 1]);
            }
        }
        EntryAction::Skip
    }
}

/// What a scanned file turns out to be.
#[derive(Debug, PartialEq)]
pub enum FileScan {
    Task(Task),
    Invalid(InvalidFile),
    /// Not a task: ignored.
    Skipped,
}

/// The name of the directory a relative path sits in, if it has one.
pub open spec fn parent_dir_name(rel: Seq<char>) -> Option<Seq<char>> {
    match last_slash(rel) {
        None => None,
        Some(i) => {
            let parent = rel.take(i);
            match last_slash(parent) {
                None => if parent.len() == 0 {
                    None
                } else {
                    Some(parent)
                },
                Some(j) => Some(parent.skip(j + 1)),
            }
        },
    }
}

/// Position of the last `/`.
pub open spec fn last_slash(s: Seq<char>) -> Option<int>
    decreases s.len(),
{
    if s.len() == 0 {
        None
    } else if s.last() == '/' {
        Some(s.len() - 1)
    } else {
        last_slash(s.drop_last())
    }
}

fn last_slash_exec(s: &Vec<char>, n: usize) -> (r: Option<usize>)
    requires
        n <= s.len(),
    ensures
        r is None <==> last_slash(s@.take(n as int)) is None,
        r matches Some(i) ==> last_slash(s@.take(n as int)) == Some(i as int) && i < n && s@[i as int] == '/',
{
    let mut k = n;
    while k > 0
        invariant
            k <= n <= s.len(),
            last_slash(s@.take(n as int)) == last_slash(s@.take(k as int)),
        decreases k,
    {
        assert(s@.take(k as int).last() == s@[k - 1]);
        if s[k - 1] == '/' {
            return Some(k - 1);
        }
        assert(s@.take(k as int).drop_last() =~= s@.take(k - 1));
        k -= 1;
    }
    None
}

/// The directory-derived group of a task at a relative path: the name of
/// the directory it sits in, none at the top level.
pub fn dir_group_of(rel: &str) -> (r: Option<String>)
    ensures
        crate::text::opt_text(r) == parent_dir_name(rel@),
{
    let c = chars_of(rel);
    let n = c.len();
    assert(c@.take(n as int) =~= c@);
    match last_slash_exec(&c, n) {
        None => None,
        Some(i) => {
            assert(c@.take(i as int) =~= c@.take(n as int).take(i as int));
            assert(last_slash(rel@) == Some(i as int));
            match last_slash_exec(&c, i) {
                None => {
                    if i == 0 {
                        None
                    } else {
                        let mut p: Vec<char> = Vec::new();
                        let mut k: usize = 0;
                        while k < i
                            invariant
                                k <= i < c.len(),
                                p@ =~= c@.take(k as int),
                            decreases i - k,
                        {
                            p.push(c[k]);
                            k += 1;
                        }
                        assert(p@ =~= rel@.take(i as int));
                        Some(string_of(&p))
                    }
                },
                Some(j) => {
                    let mut p: Vec<char> = Vec::new();
                    let mut k: usize = j + 1;
                    while k < i
                        invariant
                            j + 1 <= k <= i,
                            i < c.len(),
                            p@ =~= c@.subrange(j + 1, k as int),
                        decreases i - k,
                    {
                        p.push(c[k]);
                        k += 1;
                    }
                    assert(p@ =~= c@.take(i as int).skip(j + 1));
                    assert(last_slash(rel@.take(i as int)) == Some(j as int));
                    Some(string_of(&p))
                },
            }
        },
    }
}

/// Why a file that looks like a task is broken: its frontmatter is not
/// YAML (with the parser's message), or it lacks an `id` or a `title`.
pub open spec fn invalid_reason(content: Seq<char>) -> Seq<char> {
    match split_spec(content) {
        Some((fm, _)) => match spec_yaml_parse(fm) {
            Err(msg) => "malformed frontmatter: "@ + msg,
            Ok(YamlV::Dict(e)) => if !has_text(e, "id"@) {
                "missing required field `id`"@
            } else {
                "missing required field `title`"@
            },
            Ok(_) => Seq::empty(),
        },
        None => Seq::empty(),
    }
}

/// Classify one scanned `.md` file by its content: a task (with its path
/// and directory group set), a broken task, or nothing of interest.
pub fn classify_file(rel: &str, content: &str) -> (r: FileScan)
    ensures
        Task::parse_spec_kind(content@) == 0 ==> (r matches FileScan::Task(t) && t.wf()
            && crate::text::opt_text(t.rel_path) == Some(rel@) && crate::text::opt_text(t.dir_group)
            == parent_dir_name(rel@) && (split_spec(content@) matches Some((fm, body)) && spec_yaml_parse(fm)
            == Ok::<YamlV, Seq<char>>(YamlV::Dict(t.fm())) && t.body@ == body)),
        Task::parse_spec_kind(content@) == 1 ==> r is Skipped,
        Task::parse_spec_kind(content@) == 2 ==> (r matches FileScan::Invalid(f) && f.rel_path@ == rel@
            && f.reason@ == invalid_reason(content@)),
{
    match Task::parse(content) {
        ParseOutcome::Task(mut t) => {
            t.dir_group = dir_group_of(rel);
            t.rel_path = Some(rel.to_owned());
            FileScan::Task(t)
        },
        ParseOutcome::NotATask => FileScan::Skipped,
        ParseOutcome::Invalid(reason) => FileScan::Invalid(InvalidFile { rel_path: rel.to_owned(), reason }),
    }
}

/// A taskmd project rooted at `root`, with its configuration.
#[derive(Debug, Clone)]
pub struct Vault {
    pub root: String,
    pub config: Config,
}

/// The largest number among ids that, after `prefix`, parse as `u64`; 0 for none.
pub open spec fn max_numbered(ids: Seq<Seq<char>>, prefix: Seq<char>) -> int
    decreases ids.len(),
{
    if ids.len() == 0 {
        0
    } else {
        let m = max_numbered(ids.drop_last(), prefix);
        match numbered(ids.last(), prefix) {
            Some(v) => if v > m {
                v
            } else {
                m
            },
            None => m,
        }
    }
}

/// The number an id carries after `prefix`, if it parses as `u64`.
pub open spec fn numbered(id: Seq<char>, prefix: Seq<char>) -> Option<int> {
    if id.len() >= prefix.len() && id.take(prefix.len() as int) == prefix {
        parse_unsigned(id.skip(prefix.len() as int), u64::MAX as int)
    } else {
        None
    }
}

/// How many candidates the random and ulid strategies try.
pub const MAX_ID_ATTEMPTS: u32 = 16777216;

fn numbered_value(id: &str, prefix: &Vec<char>) -> (r: Option<u64>)
    ensures
        r matches Some(x) ==> numbered(id@, prefix@) == Some(x as int),
        r is None ==> numbered(id@, prefix@) is None,
{
    let c = chars_of(id);
    if c.len() < prefix.len() {
        return None;
    }
    let mut i: usize = 0;
    while i < prefix.len()
        invariant
            i <= prefix.len() <= c.len(),
            c@ == id@,
            forall|j: int| 0 <= j < i ==> c@[j] == prefix@[j],
        decreases prefix.len() - i,
    {
        if c[i] != prefix[i] {
            assert(c@.take(prefix@.len() as int)[i as int] != prefix@[i as int]);
            return None;
        }
        i += 1;
    }
    assert(c@.take(prefix@.len() as int) =~= prefix@);
    let mut rest: Vec<char> = Vec::new();
    let mut j = prefix.len();
    while j < c.len()
        invariant
            prefix.len() <= j <= c.len(),
            rest@ =~= c@.subrange(prefix.len() as int, j as int),
        decreases c.len() - j,
    {
        rest.push(c[j]);
        j += 1;
    }
    assert(rest@ =~= c@.skip(prefix@.len() as int));
    parse_u64(&rest)
}

impl Vault {
    /// A vault at `root` with its loaded configuration.
    pub fn open(root: &str, config: Config) -> (r: Vault)
        ensures
            r.root@ == root@,
            r.config == config,
    {
        Vault { root: root.to_owned(), config }
    }

    /// The tasks directory.
    pub fn tasks_dir(&self) -> (r: String)
        ensures
            r@ == spec_path_join(self.root@, strip_dot_slash(self.config.dir@)),
    {
        self.config.tasks_dir(self.root.as_str())
    }

    /// The next number for the sequential and prefixed strategies, formatted.
    pub open spec fn numbered_id(self, ids: Seq<Seq<char>>) -> Seq<char> {
        let prefix = if self.config.id.strategy == IdStrategy::Prefixed {
            self.config.id.prefix@
        } else {
            Seq::empty()
        };
        prefix + pad_zero(dec((max_numbered(ids, prefix) + 1) as nat), self.config.id.padding as int)
    }

    /// Allocate a fresh id per the configured strategy against the ids on
    /// disk: sequential and prefixed take one past the highest number in use
    /// (zero-padded; prefixed puts the prefix before the number with no
    /// separator); random and ulid draw candidates until one is free,
    /// bumping the ulid timestamp each time, and return the first free one.
    /// A random id is lowercase base36; a ulid is Crockford base32 opening
    /// with its timestamp. `None` exactly when [`MAX_ID_ATTEMPTS`] candidates
    /// in a row were taken, so that every call ends; a caller that must have
    /// an id calls again.
    pub fn allocate_id<E: Entropy>(&self, existing: &Vec<String>, entropy: &mut E) -> (r: Option<String>)
        requires
            (self.config.id.strategy == IdStrategy::Sequential || self.config.id.strategy == IdStrategy::Prefixed)
                ==> max_numbered(texts(existing@), if self.config.id.strategy == IdStrategy::Prefixed {
                self.config.id.prefix@
            } else {
                Seq::empty()
            }) < u64::MAX,
        ensures
            (self.config.id.strategy == IdStrategy::Random || self.config.id.strategy == IdStrategy::Ulid)
                ==> exists|c: Seq<Seq<char>>|
                #[trigger] all_taken(
                    c,
                    texts(existing@),
                    self.config.id.length as nat,
                    self.config.id.strategy,
                ) && match r {
                    None => c.len() == MAX_ID_ATTEMPTS,
                    Some(id) => c.len() < MAX_ID_ATTEMPTS && !texts(existing@).contains(id@) && (if self.config.id.strategy
                        == IdStrategy::Ulid {
                        ulid_candidate(id@, self.config.id.length as nat)
                    } else {
                        random_candidate(id@, self.config.id.length as nat)
                    }),
                },
            (self.config.id.strategy == IdStrategy::Sequential || self.config.id.strategy == IdStrategy::Prefixed)
                ==> (r matches Some(id) && id@ == self.numbered_id(texts(existing@))),
            (self.config.id.strategy == IdStrategy::Random || self.config.id.strategy == IdStrategy::Ulid)
                ==> (r matches Some(id) ==> !texts(existing@).contains(id@)),
            self.config.id.strategy == IdStrategy::Random ==> (r matches Some(id) ==> id@.len() == self.config.id.length),
            self.config.id.strategy == IdStrategy::Ulid ==> (r matches Some(id) ==> id@.len() == self.config.id.length),
            self.config.id.strategy == IdStrategy::Random ==> (r matches Some(id) ==> forall|i: int|
                0 <= i < id@.len() ==> is_base36_char(#[trigger] id@[i])),
            self.config.id.strategy == IdStrategy::Ulid ==> (r matches Some(id) ==> ulid_shaped(id@)),
    {
        let cfg = &self.config.id;
        match cfg.strategy {
            IdStrategy::Sequential | IdStrategy::Prefixed => {
                let prefix: Vec<char> = match cfg.strategy {
                    IdStrategy::Prefixed => chars_of(cfg.prefix.as_str()),
                    _ => Vec::new(),
                };
                let ghost pre = prefix@;
                let mut m: u64 = 0;
                let mut i: usize = 0;
                while i < existing.len()
                    invariant
                        i <= existing.len(),
                        m as int == max_numbered(texts(existing@.take(i as int)), pre),
                        prefix@ == pre,
                    decreases existing.len() - i,
                {
                    assert(texts(existing@.take(i + 1)).drop_last() =~= texts(existing@.take(i as int)));
                    assert(texts(existing@.take(i + 1)).last() == existing@[i as int]@);
                    match numbered_value(existing[i].as_str(), &prefix) {
                        Some(v) => {
                            if v > m {
                                m = v;
                            }
                        },
                        None => {},
                    }
                    i += 1;
                }
                assert(existing@.take(existing.len() as int) =~= existing@);
                let digits = pad_zero_chars(dec_chars(m + 1), cfg.padding);
                let mut out = string_of(&prefix);
                out.append(string_of(&digits).as_str());
                proof {
                    assert(pre == (if self.config.id.strategy == IdStrategy::Prefixed {
                        self.config.id.prefix@
                    } else {
                        Seq::<char>::empty()
                    }));
                }
                Some(out)
            },
            IdStrategy::Random => {
                let mut attempt: u32 = 0;
                let ghost mut c: Seq<Seq<char>> = Seq::empty();
                while attempt < MAX_ID_ATTEMPTS
                    invariant
                        self.config.id.strategy == IdStrategy::Random,
                        cfg == &self.config.id,
                        c.len() == attempt,
                        attempt <= MAX_ID_ATTEMPTS,
                        all_taken(c, texts(existing@), cfg.length as nat, cfg.strategy),
                    decreases MAX_ID_ATTEMPTS - attempt,
                {
                    let id = random_id(cfg.length, entropy);
                    if !contains_str(existing, id.as_str()) {
                        assert(all_taken(c, texts(existing@), cfg.length as nat, cfg.strategy));
                        return Some(id);
                    }
                    proof {
                        let c2 = c.push(id@);
                        assert forall|k: int| 0 <= k < c2.len() implies texts(existing@).contains(#[trigger] c2[k])
                            && random_candidate(c2[k], cfg.length as nat) by {
                            if k < c.len() {
                                assert(c2[k] == c[k]);
                            }
                        }
                        c = c2;
                    }
                    attempt += 1;
                }
                assert(all_taken(c, texts(existing@), self.config.id.length as nat, self.config.id.strategy));
                assert(c.len() == MAX_ID_ATTEMPTS);
                None
            },
            IdStrategy::Ulid => {
                let mut bump: u64 = 0;
                let ghost mut c: Seq<Seq<char>> = Seq::empty();
                while bump < MAX_ID_ATTEMPTS as u64
                    invariant
                        self.config.id.strategy == IdStrategy::Ulid,
                        cfg == &self.config.id,
                        c.len() == bump,
                        bump <= MAX_ID_ATTEMPTS as u64,
                        all_taken(c, texts(existing@), cfg.length as nat, cfg.strategy),
                    decreases MAX_ID_ATTEMPTS as u64 - bump,
                {
                    let now = entropy.now_ms();
                    let ms = now.wrapping_add(bump);
                    let id = ulid_id(cfg.length, ms, entropy);
                    if !contains_str(existing, id.as_str()) {
                        assert(ts_prefixed(id@, ms));
                        assert(ulid_shaped(id@));
                        assert(all_taken(c, texts(existing@), cfg.length as nat, cfg.strategy));
                        return Some(id);
                    }
                    proof {
                        let c2 = c.push(id@);
                        assert forall|k: int| 0 <= k < c2.len() implies texts(existing@).contains(#[trigger] c2[k])
                            && ulid_candidate(c2[k], cfg.length as nat) by {
                            if k < c.len() {
                                assert(c2[k] == c[k]);
                            }
                        }
                        c = c2;
                    }
                    bump += 1;
                }
                assert(all_taken(c, texts(existing@), self.config.id.length as nat, self.config.id.strategy));
                assert(c.len() == MAX_ID_ATTEMPTS);
                None
            },
        }
    }
}

/// A numbered id is never already taken by number: the number a sequential or
/// prefixed id gets is greater than the number of every existing id with
/// that prefix, and it is one past the largest such number (1 when there is
/// none).
pub proof fn law_next_number_exceeds_every_existing(ids: Seq<Seq<char>>, prefix: Seq<char>)
    ensures
        forall|k: int|
            0 <= k < ids.len() && numbered(#[trigger] ids[k], prefix) is Some ==> numbered(ids[k], prefix).unwrap()
                < max_numbered(ids, prefix) + 1,
        max_numbered(ids, prefix) == 0 || exists|k: int|
            0 <= k < ids.len() && numbered(#[trigger] ids[k], prefix) == Some(max_numbered(ids, prefix)),
        max_numbered(ids, prefix) >= 0,
    decreases ids.len(),
{
    if ids.len() > 0 {
        let p = ids.drop_last();
        law_next_number_exceeds_every_existing(p, prefix);
        assert forall|k: int| 0 <= k < p.len() implies #[trigger] p[k] == ids[k] by {}
        assert(ids.last() == ids[ids.len() - 1]);
        if max_numbered(ids, prefix) != 0 && max_numbered(ids, prefix) == max_numbered(p, prefix) {
            let k = choose|k: int| 0 <= k < p.len() && numbered(#[trigger] p[k], prefix) == Some(max_numbered(p, prefix));
            assert(ids[k] == p[k]);
        }
        assert forall|k: int|
            0 <= k < ids.len() && numbered(#[trigger] ids[k], prefix) is Some implies numbered(ids[k], prefix).unwrap()
                < max_numbered(ids, prefix) + 1 by {
            if k < p.len() {
                assert(ids[k] == p[k]);
                assert(numbered(p[k], prefix).unwrap() < max_numbered(p, prefix) + 1);
            }
        }
    }
}

/// Leading zeros do not change a digit string's value.
proof fn lemma_zeros_value(z: nat, s: Seq<char>)
    ensures
        digits_value(Seq::new(z, |i: int| '0') + s) == digits_value(s),
    decreases s.len(),
{
    let zs = Seq::new(z, |i: int| '0');
    if s.len() == 0 {
        assert(zs + s =~= zs);
        lemma_zeros_only(z);
    } else {
        lemma_zeros_value(z, s.drop_last());
        assert((zs + s).drop_last() =~= zs + s.drop_last());
        assert((zs + s).last() == s.last());
    }
}

proof fn lemma_zeros_only(z: nat)
    ensures
        digits_value(Seq::new(z, |i: int| '0')) == 0,
    decreases z,
{
    if z > 0 {
        lemma_zeros_only((z - 1) as nat);
        assert(Seq::new(z, |i: int| '0').drop_last() =~= Seq::new((z - 1) as nat, |i: int| '0'));
    }
}

/// A zero-padded decimal reads back as its number.
proof fn lemma_parse_padded(n: nat, w: int)
    requires
        n <= u64::MAX,
    ensures
        parse_unsigned(pad_zero(dec(n), w), u64::MAX as int) == Some(n as int),
{
    lemma_parse_dec(n, u64::MAX as int);
    lemma_dec_digits(n);
    lemma_dec_value(n);
    let d = dec(n);
    assert(is_digit(d[0]));
    assert(d.len() > 0 && all_digits(d) && digits_value(d) == n && d[0] != '+');
    if d.len() < w {
        let z = (w - d.len()) as nat;
        let zs = Seq::new(z, |i: int| '0');
        let p = zs + d;
        lemma_zeros_value(z, d);
        assert(all_digits(p)) by {
            assert forall|i: int| 0 <= i < p.len() implies #[trigger] is_digit(p[i]) by {
                if i >= z {
                    assert(p[i] == d[i - z]);
                    assert(is_digit(d[i - z]));
                }
            }
        }
        assert(p[0] != '+') by {
            if z > 0 {
                assert(p[0] == '0');
            } else {
                assert(p[0] == d[0]);
            }
        }
    }
}

/// A sequential or prefixed id is fresh: it carries the prefix and reads
/// back as one past the largest number in use, so its number is greater
/// than that of every existing id with the prefix and it is none of them.
pub proof fn law_numbered_id_is_fresh(v: Vault, ids: Seq<Seq<char>>)
    requires
        v.config.id.strategy == IdStrategy::Sequential || v.config.id.strategy == IdStrategy::Prefixed,
        max_numbered(ids, if v.config.id.strategy == IdStrategy::Prefixed {
            v.config.id.prefix@
        } else {
            Seq::empty()
        }) < u64::MAX,
    ensures
        ({
            let prefix = if v.config.id.strategy == IdStrategy::Prefixed {
                v.config.id.prefix@
            } else {
                Seq::<char>::empty()
            };
            let id = v.numbered_id(ids);
            &&& numbered(id, prefix) is Some
            &&& forall|k: int|
                0 <= k < ids.len() && numbered(#[trigger] ids[k], prefix) is Some ==> numbered(ids[k], prefix).unwrap()
                    < numbered(id, prefix).unwrap()
            &&& !ids.contains(id)
        }),
{
    let prefix = if v.config.id.strategy == IdStrategy::Prefixed {
        v.config.id.prefix@
    } else {
        Seq::<char>::empty()
    };
    let id = v.numbered_id(ids);
    law_next_number_exceeds_every_existing(ids, prefix);
    let n = (max_numbered(ids, prefix) + 1) as nat;
    let body = pad_zero(dec(n), v.config.id.padding as int);
    lemma_parse_padded(n, v.config.id.padding as int);
    assert(id == prefix + body);
    assert(id.take(prefix.len() as int) =~= prefix);
    assert(id.skip(prefix.len() as int) =~= body);
    assert(numbered(id, prefix) == Some(n as int));
    if ids.contains(id) {
        let k = choose|k: int| 0 <= k < ids.len() && ids[k] == id;
        assert(numbered(ids[k], prefix) is Some);
    }
}

} // verus!
