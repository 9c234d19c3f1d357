use vstd::prelude::*;

verus! {

/// Bit `b` of `x` is set.
pub open spec fn bit(x: u64, b: int) -> bool {
    (x >> (b as u64)) & 1u64 == 1u64
}

/// Bit `b` of the byte `x` is set.
pub open spec fn bit8(x: u8, b: int) -> bool {
    (x >> (b as u8)) & 1u8 == 1u8
}

/// Spin `i` of a configuration, with every position past its end taken as unset.
pub open spec fn spin_or_unset(config: Seq<bool>, i: int) -> bool {
    0 <= i < config.len() && config[i]
}

/// The configurations one spin flip below `config`: `config` with one of its
/// set bits among the first `b` cleared, lowest bit first.
pub open spec fn lower_flips(config: u64, b: int) -> Seq<u64>
    decreases b,
{
    if b <= 0 {
        Seq::empty()
    } else if bit(config, b - 1) {
        lower_flips(config, b - 1).push(config ^ (1u64 << ((b - 1) as u64)))
    } else {
        lower_flips(config, b - 1)
    }
}

proof fn lemma_mask_bit(config: u64, b: u64)
    requires
        b < 64,
    ensures
        ((1u64 << b) & config != 0) == bit(config, b as int),
        b < 63 ==> (1u64 << b) << 1u64 == 1u64 << ((b + 1) as u64),
{
    assert(((1u64 << b) & config != 0) == ((config >> b) & 1u64 == 1u64)) by (bit_vector)
        requires
            b < 64,
    ;
    assert(b < 63 ==> (1u64 << b) << 1u64 == 1u64 << ((b + 1) as u64)) by (bit_vector);
}

proof fn lemma_set_bit(acc: u64, i: u64, b: u64)
    requires
        i < 64,
        b < 64,
    ensures
        bit(acc | (1u64 << i), b as int) == (bit(acc, b as int) || b == i),
{
    assert(((acc | (1u64 << i)) >> b) & 1u64 == 1u64 <==> (((acc >> b) & 1u64 == 1u64) || b
        == i)) by (bit_vector)
        requires
            i < 64,
            b < 64,
    ;
}

proof fn lemma_zero_bits(b: u64)
    requires
        b < 64,
    ensures
        !bit(0u64, b as int),
{
    assert((0u64 >> b) & 1u64 == 0u64) by (bit_vector);
}

proof fn lemma_byte_bits(w: u64, s: u64, b: u64)
    requires
        s + 8 <= 64,
        b < 8,
    ensures
        bit8(((w >> s) & 0xffu64) as u8, b as int) == bit(w, (s + b) as int),
{
    assert((((((w >> s) & 0xffu64) as u8) >> (b as u8)) & 1u8 == 1u8) <==> (((w >> ((s + b) as u64))
        & 1u64) == 1u64)) by (bit_vector)
        requires
            s + 8 <= 64,
            b < 8,
    ;
}

/// The spins of configuration `config` of an `n_points`-site model: spin
/// `i` is bit `i` of `config`.
pub fn config_spins(config: u64, n_points: usize) -> (spins: Vec<bool>)
    requires
        n_points <= 64,
    ensures
        spins@.len() == n_points,
        forall|i: int| 0 <= i < n_points ==> #[trigger] spins@[i] == bit(config, i),
{
    let mut spins: Vec<bool> = Vec::new();
    let mut mask: u64 = 1;
    let mut b: usize = 0;
    proof {
        assert(1u64 << 0u64 == 1u64) by (bit_vector);
    }
    while b < n_points
        invariant
            b <= n_points <= 64,
            b < 64 ==> mask == 1u64 << (b as u64),
            spins@.len() == b,
            forall|i: int| 0 <= i < b ==> #[trigger] spins@[i] == bit(config, i),
        decreases n_points - b,
    {
        proof {
            lemma_mask_bit(config, b as u64);
        }
        spins.push(mask & config != 0);
        mask = mask << 1u64;
        b = b + 1;
    }
    spins
}

/// The configurations joined to `config` on the hypercube of `n_points`-site
/// configurations and lying below it: `config` with one set bit cleared,
/// lowest bit first.
pub fn lower_neighbours(config: u64, n_points: usize) -> (r: Vec<u64>)
    requires
        n_points <= 64,
    ensures
        r@ == lower_flips(config, n_points as int),
{
    let mut r: Vec<u64> = Vec::new();
    let mut mask: u64 = 1;
    let mut b: usize = 0;
    proof {
        assert(1u64 << 0u64 == 1u64) by (bit_vector);
    }
    while b < n_points
        invariant
            b <= n_points <= 64,
            b < 64 ==> mask == 1u64 << (b as u64),
            r@ == lower_flips(config, b as int),
        decreases n_points - b,
    {
        proof {
            lemma_mask_bit(config, b as u64);
        }
        if mask & config != 0 {
            r.push(config ^ mask);
        }
        mask = mask << 1u64;
        b = b + 1;
    }
    r
}

/// Every lower neighbour differs from `config` in exactly one bit, which is
/// set in `config`, and so lies below it.
pub proof fn lemma_lower_flips(config: u64, n: int, k: int)
    requires
        0 <= n <= 64,
        0 <= k < lower_flips(config, n).len(),
    ensures
        exists|b: int|
            0 <= b < n && bit(config, b) && lower_flips(config, n)[k] == config ^ (1u64 << (b as u64))
                && lower_flips(config, n)[k] < config,
    decreases n,
{
    let prev = lower_flips(config, n - 1);
    if bit(config, n - 1) && k == prev.len() {
        let b = n - 1;
        let bb = b as u64;
        assert((config >> bb) & 1u64 == 1u64 ==> config ^ (1u64 << bb) < config) by (bit_vector)
            requires
                bb < 64,
        ;
        assert(0 <= b < n && bit(config, b) && lower_flips(config, n)[k] == config ^ (1u64 << (
        b as u64)) && lower_flips(config, n)[k] < config);
    } else {
        lemma_lower_flips(config, n - 1, k);
        let b = choose|b: int|
            0 <= b < n - 1 && bit(config, b) && prev[k] == config ^ (1u64 << (b as u64)) && prev[k]
                < config;
        assert(0 <= b < n && bit(config, b) && lower_flips(config, n)[k] == config ^ (1u64 << (
        b as u64)) && lower_flips(config, n)[k] < config);
    }
}

/// Packs a spin configuration into 64-bit words, least significant bit
/// first: bit `b` of word `w` is spin `64 w + b`, and bits past the last
/// spin are clear.
pub fn config_to_u64(config: Vec<bool>) -> (words: Vec<u64>)
    ensures
        words@.len() == (config@.len() + 63) / 64,
        forall|w: int, b: int|
            0 <= w < words@.len() && 0 <= b < 64 ==> #[trigger] bit(words@[w], b) == spin_or_unset(
                config@,
                64 * w + b,
            ),
{
    let len = config.len();
    let n_words = len / 64 + if len % 64 == 0 { 0 } else { 1 };
    proof {
        assert(n_words == (len + 63) / 64);
    }
    let mut words: Vec<u64> = Vec::new();
    let mut w: usize = 0;
    while w < n_words
        invariant
            len == config@.len(),
            n_words == (len + 63) / 64,
            w <= n_words,
            words@.len() == w,
            forall|ww: int, b: int|
                0 <= ww < w && 0 <= b < 64 ==> #[trigger] bit(words@[ww], b) == spin_or_unset(
                    config@,
                    64 * ww + b,
                ),
        decreases n_words - w,
    {
        proof {
            assert(64 * w < len) by (nonlinear_arith)
                requires
                    w < (len + 63) / 64,
            ;
        }
        let start = 64 * w;
        let mut acc: u64 = 0;
        let mut i: usize = 0;
        proof {
            assert forall|b: int| 0 <= b < 64 implies !bit(acc, b) by {
                lemma_zero_bits(b as u64);
            }
        }
        while i < 64
            invariant
                len == config@.len(),
                start < len,
                i <= 64,
                forall|b: int|
                    0 <= b < 64 ==> #[trigger] bit(acc, b) == (b < i && spin_or_unset(
                        config@,
                        start + b,
                    )),
            decreases 64 - i,
        {
            if i < len - start && config[start + i] {
                proof {
                    assert forall|b: int| 0 <= b < 64 implies #[trigger] bit(
                        acc | (1u64 << (i as u64)),
                        b,
                    ) == (bit(acc, b) || b == i) by {
                        lemma_set_bit(acc, i as u64, b as u64);
                    }
                }
                acc = acc | (1u64 << (i as u64));
            }
            i = i + 1;
        }
        words.push(acc);
        w = w + 1;
    }
    words
}

/// The bytes of a packed configuration, little-endian, cut to the bytes
/// that hold a spin: bit `b` of byte `j` is spin `8 j + b`.
pub fn config_bytes(config: Vec<bool>) -> (bytes: Vec<u8>)
    ensures
        bytes@.len() == (config@.len() + 7) / 8,
        forall|j: int, b: int|
            0 <= j < bytes@.len() && 0 <= b < 8 ==> #[trigger] bit8(bytes@[j], b) == spin_or_unset(
                config@,
                8 * j + b,
            ),
{
    let len = config.len();
    let ghost cfg = config@;
    let words = config_to_u64(config);
    let n_bytes = len / 8 + if len % 8 == 0 { 0 } else { 1 };
    proof {
        assert(n_bytes == (len + 7) / 8);
    }
    let mut bytes: Vec<u8> = Vec::new();
    let mut j: usize = 0;
    while j < n_bytes
        invariant
            len == cfg.len(),
            n_bytes == (len + 7) / 8,
            words@.len() == (len + 63) / 64,
            forall|w: int, b: int|
                0 <= w < words@.len() && 0 <= b < 64 ==> #[trigger] bit(words@[w], b)
                    == spin_or_unset(cfg, 64 * w + b),
            j <= n_bytes,
            bytes@.len() == j,
            forall|jj: int, b: int|
                0 <= jj < j && 0 <= b < 8 ==> #[trigger] bit8(bytes@[jj], b) == spin_or_unset(
                    cfg,
                    8 * jj + b,
                ),
        decreases n_bytes - j,
    {
        let w = j / 8;
        let s = 8 * (j % 8);
        proof {
            assert(w < words@.len()) by (nonlinear_arith)
                requires
                    j < (len + 7) / 8,
                    w == j / 8,
                    words@.len() == (len + 63) / 64,
            ;
            assert(64 * w + s == 8 * j);
        }
        let byte = ((words[w] >> (s as u64)) & 0xffu64) as u8;
        proof {
            assert forall|b: int| 0 <= b < 8 implies bit8(byte, b) == spin_or_unset(cfg, 8 * j + b) by {
                lemma_byte_bits(words@[w as int], s as u64, b as u64);
            }
        }
        bytes.push(byte);
        j = j + 1;
    }
    bytes
}

} // verus!
