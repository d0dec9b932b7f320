//! The target machine: cores and cache sizes, and the fragment count and
//! fragment size that follow from them.
use crate::fragment::op_size;
use crate::rpn::RpnOp;
use crate::text::{decimal, decimal_string_usize, parse_usize, trim, trimmed_chars, parse_usize_chars};
use vstd::prelude::*;

verus! {

/// Cores and cache sizes of the target machine.
#[derive(Debug, Clone)]
pub struct HardwareSpec {
    /// Number of cores.
    pub cores: usize,
    /// Size of the L1 instruction cache, in bytes.
    pub l1i: usize,
    /// Size of the L2 cache, in bytes.
    pub l2: usize,
    /// Size of the L3 cache, in bytes.
    pub l3: usize,
}

/// `ceil(t / c)` as `t / c`, plus one when `c` does not divide `t`.
proof fn lemma_ceil_div(t: int, c: int)
    requires
        t >= 1,
        c >= 1,
    ensures
        (t + c - 1) / c == t / c + (if t % c != 0 { 1int } else { 0int }),
        (t / c) * c <= t,
        c * (t / c) + t % c == t,
{
    let q = t / c;
    let r = t % c;
    vstd::arithmetic::div_mod::lemma_fundamental_div_mod(t, c);
    assert(0 <= r < c) by {
        vstd::arithmetic::div_mod::lemma_mod_bound(t, c);
    }
    assert(c * q == q * c) by (nonlinear_arith);
    if r == 0 {
        assert(t + c - 1 == c * q + (c - 1));
        vstd::arithmetic::div_mod::lemma_div_multiples_vanish_fancy(q, c - 1, c);
    } else {
        assert(t + c - 1 == c * (q + 1) + (r - 1)) by (nonlinear_arith)
            requires
                t == c * q + r,
        ;
        vstd::arithmetic::div_mod::lemma_div_multiples_vanish_fancy(q + 1, r - 1, c);
    }
}

impl HardwareSpec {
    /// Instructions that fit all the cores' L1i caches together.
    pub open spec fn capacity(&self) -> nat {
        if op_size() == 0 {
            0
        } else {
            (self.l1i as nat / op_size()) * (self.cores as nat)
        }
    }

    /// Fragments needed for `total_ops` instructions: at least one, and
    /// `ceil(total_ops / capacity)` when the capacity is not zero.
    pub open spec fn min_fragments_spec(&self, total_ops: nat) -> nat {
        if total_ops == 0 || self.capacity() == 0 {
            1
        } else {
            ((total_ops + self.capacity() - 1) as nat) / self.capacity()
        }
    }

    /// A machine with the given cores and cache sizes (in bytes).
    pub fn new(cores: usize, l1i: usize, l2: usize, l3: usize) -> (h: Self)
        ensures
            h.cores == cores,
            h.l1i == l1i,
            h.l2 == l2,
            h.l3 == l3,
    {
        HardwareSpec { cores, l1i, l2, l3 }
    }

    /// A machine whose cache sizes are given in KiB.
    pub fn from_cache_kb(cores: usize, l1i_kb: usize, l2_kb: usize, l3_kb: usize) -> (h: Self)
        requires
            l1i_kb * 1024 <= usize::MAX,
            l2_kb * 1024 <= usize::MAX,
            l3_kb * 1024 <= usize::MAX,
        ensures
            h.cores == cores,
            h.l1i == l1i_kb * 1024,
            h.l2 == l2_kb * 1024,
            h.l3 == l3_kb * 1024,
    {
        HardwareSpec { cores, l1i: l1i_kb * 1024, l2: l2_kb * 1024, l3: l3_kb * 1024 }
    }

    /// Least number of fragments for `total_ops` instructions:
    /// `max(1, ceil(total_ops / (l1i / op_size * cores)))`, for every
    /// total.
    pub fn min_fragments(&self, total_ops: usize) -> (n: usize)
        requires
            total_ops == 0 || self.capacity() <= usize::MAX,
        ensures
            n == self.min_fragments_spec(total_ops as nat),
    {
        if total_ops == 0 {
            return 1;
        }
        let sz = std::mem::size_of::<RpnOp>();
        if sz == 0 {
            return 1;
        }
        let ops_per_core = self.l1i / sz;
        proof {
            assert(ops_per_core * self.cores == self.capacity());
        }
        let total_capacity = ops_per_core * self.cores;
        assert(total_capacity as nat == self.capacity());
        if total_capacity == 0 {
            return 1;
        }
        let q = total_ops / total_capacity;
        let r = total_ops % total_capacity;
        proof {
            lemma_ceil_div(total_ops as int, total_capacity as int);
        }
        if r != 0 {
            assert(q < total_ops) by (nonlinear_arith)
                requires
                    total_capacity * q + r == total_ops,
                    total_capacity >= 1,
                    r >= 1,
                    q >= 0,
            ;
            q + 1
        } else {
            q
        }
    }

    /// Fragment size threshold: the L1i size in bytes.
    pub fn fragment_threshold(&self) -> (t: usize)
        ensures
            t == self.l1i,
    {
        self.l1i
    }
}

/// The fragment count of `min_fragments` is the least count whose total
/// capacity holds all the instructions.
pub proof fn law_min_fragments_is_least(h: HardwareSpec, total_ops: nat)
    requires
        total_ops > 0,
        h.capacity() > 0,
    ensures
        h.min_fragments_spec(total_ops) * h.capacity() >= total_ops,
        (h.min_fragments_spec(total_ops) - 1) * h.capacity() < total_ops,
        h.min_fragments_spec(total_ops) >= 1,
{
    let c = h.capacity();
    let n = h.min_fragments_spec(total_ops);
    assert(n == ((total_ops + c - 1) as nat) / c);
    assert(n * c >= total_ops && (n - 1) * c < total_ops && n >= 1) by (nonlinear_arith)
        requires
            c > 0,
            total_ops > 0,
            n == ((total_ops + c - 1) as nat) / c,
    ;
}

/// Cache size in KiB used when the system does not report one: 32 KiB for
/// L1, 256 KiB for L2, 16 MiB for L3, 32 KiB otherwise.
pub open spec fn default_cache_kb_spec(level: usize) -> usize {
    if level == 0 {
        32
    } else if level == 2 {
        256
    } else if level == 3 {
        16384
    } else {
        32
    }
}

/// Cache size in KiB used when the system does not report one.
pub fn default_cache_kb(level: usize) -> (kb: usize)
    ensures
        kb == default_cache_kb_spec(level),
{
    if level == 0 {
        32
    } else if level == 2 {
        256
    } else if level == 3 {
        16384
    } else {
        32
    }
}

/// A cache `level` file of the system names `level`: its trimmed text is
/// the decimal numeral of `level`.
pub fn cache_level_matches(content: &str, level: usize) -> (b: bool)
    ensures
        b == (trim(content@) == decimal(level as nat)),
{
    let t = trimmed_chars(content);
    let d = decimal_string_usize(level);
    let n = d.as_str().unicode_len();
    if t.len() != n {
        return false;
    }
    let mut i: usize = 0;
    while i < n
        invariant
            n == d@.len(),
            t@.len() == n,
            t@ == trim(content@),
            d@ == decimal(level as nat),
            i <= n,
            forall|j: int| 0 <= j < i ==> t@[j] == d@[j],
        decreases n - i,
    {
        if t[i] != d.as_str().get_char(i) {
            return false;
        }
        i = i + 1;
    }
    assert(t@ =~= d@);
    true
}

/// Size in KiB of a cache `size` file of the system (`"32K"`): the
/// trimmed text without its final `K`, read as a `usize`.
pub open spec fn cache_size_kb_spec(content: Seq<char>) -> Option<nat> {
    let t = trim(content);
    if t.len() > 0 && t.last() == 'K' {
        parse_usize(t.drop_last())
    } else {
        None
    }
}

/// Reads a cache `size` file of the system (`"32K"`) as KiB.
pub fn parse_cache_size_kb(content: &str) -> (r: Option<usize>)
    ensures
        r matches Some(v) ==> cache_size_kb_spec(content@) == Some(v as nat),
        r is None ==> cache_size_kb_spec(content@) is None,
{
    let mut t = trimmed_chars(content);
    let len = t.len();
    if len == 0 || t[len - 1] != 'K' {
        return None;
    }
    t.pop();
    assert(t@ =~= trim(content@).drop_last());
    parse_usize_chars(t.as_slice())
}

} // verus!
