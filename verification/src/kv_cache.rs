//! Key/value cache of the attention layers: one flat buffer per layer for
//! keys and one for values, entry `(pos, kv_head)` at
//! `(pos % max_seq_len) * stride + kv_head * head_dim`, where
//! `stride = n_kv_heads * head_dim`. Positions wrap around `max_seq_len`
//! (a ring buffer). Values are held as the bit patterns of their `f32`
//! values; the layers' buffers lie one after the other.
use vstd::prelude::*;

verus! {

/// Flat key/value cache.
pub struct HashConsedKV {
    k: Vec<u32>,
    v: Vec<u32>,
    n_layers: u32,
    n_kv_heads: u32,
    head_dim: u32,
    max_seq_len: u32,
    stride: usize,
    layer_size: usize,
    current_pos: u32,
    n_total_k: usize,
    n_total_v: usize,
}

impl HashConsedKV {
    /// Key values, layer after layer.
    pub closed spec fn keys(&self) -> Seq<u32> {
        self.k@
    }

    /// Value values, layer after layer.
    pub closed spec fn vals(&self) -> Seq<u32> {
        self.v@
    }

    /// Values per entry.
    pub closed spec fn entry_len(&self) -> nat {
        self.head_dim as nat
    }

    /// Positions held before wrapping around.
    pub closed spec fn capacity(&self) -> nat {
        self.max_seq_len as nat
    }

    /// Number of layers.
    pub closed spec fn layers(&self) -> nat {
        self.n_layers as nat
    }

    /// Number of key/value heads.
    pub closed spec fn heads(&self) -> nat {
        self.n_kv_heads as nat
    }

    /// Entries stored so far (keys, values).
    pub closed spec fn stored(&self) -> (nat, nat) {
        (self.n_total_k as nat, self.n_total_v as nat)
    }

    /// Current position.
    pub closed spec fn position(&self) -> nat {
        self.current_pos as nat
    }

    /// Index of the first value of entry `(layer, pos, kv_head)`.
    pub closed spec fn start(&self, layer: u32, pos: u32, kv_head: u32) -> int {
        layer * self.layer_size + (pos % self.max_seq_len) * self.stride + kv_head * self.head_dim
    }

    /// The entry `(layer, pos, kv_head)` lies inside its layer's buffer.
    pub closed spec fn in_range(&self, layer: u32, pos: u32, kv_head: u32) -> bool {
        &&& layer < self.n_layers
        &&& self.max_seq_len > 0
        &&& (pos % self.max_seq_len) * self.stride + kv_head * self.head_dim + self.head_dim
            <= self.layer_size
    }

    /// Buffers and sizes agree.
    pub closed spec fn wf(&self) -> bool {
        &&& self.stride == self.n_kv_heads * self.head_dim
        &&& self.layer_size == self.stride * self.max_seq_len
        &&& self.k@.len() == self.n_layers * self.layer_size
        &&& self.v@.len() == self.n_layers * self.layer_size
    }

    /// An empty cache (all values `0.0`) for `n_layers` layers of
    /// `n_kv_heads` heads of `head_dim` values, over `max_seq_len`
    /// positions.
    pub fn new(n_layers: u32, n_kv_heads: u32, head_dim: u32, max_seq_len: u32) -> (c: Self)
        requires
            n_kv_heads * head_dim <= usize::MAX,
            n_kv_heads * head_dim * max_seq_len <= usize::MAX,
            n_kv_heads * head_dim * max_seq_len * n_layers <= usize::MAX,
        ensures
            c.wf(),
            c.layers() == n_layers,
            c.heads() == n_kv_heads,
            c.entry_len() == head_dim,
            c.capacity() == max_seq_len,
            c.position() == 0,
            c.stored() == (0nat, 0nat),
            forall|i: int| 0 <= i < c.keys().len() ==> c.keys()[i] == 0 && c.vals()[i] == 0,
    {
        let stride = n_kv_heads as usize * head_dim as usize;
        let layer_size = stride * max_seq_len as usize;
        let total = layer_size * n_layers as usize;
        proof {
            assert(total == n_layers * layer_size) by (nonlinear_arith)
                requires
                    total == layer_size * n_layers,
            ;
        }
        let k = zeros(total);
        let v = zeros(total);
        HashConsedKV {
            k,
            v,
            n_layers,
            n_kv_heads,
            head_dim,
            max_seq_len,
            stride,
            layer_size,
            current_pos: 0,
            n_total_k: 0,
            n_total_v: 0,
        }
    }

    /// Whether the entry `(layer, pos, kv_head)` lies inside its layer's
    /// buffer, as the stores and loads require.
    pub fn entry_in_range(&self, layer: u32, pos: u32, kv_head: u32) -> (b: bool)
        ensures
            b == self.in_range(layer, pos, kv_head),
    {
        if layer >= self.n_layers || self.max_seq_len == 0 {
            return false;
        }
        let p = (pos % self.max_seq_len) as u128;
        let st = self.stride as u128;
        let hd = self.head_dim as u128;
        let h = kv_head as u128;
        assert(p * st <= 0x1_0000_0000 * 0x1_0000_0000_0000_0000) by (nonlinear_arith)
            requires
                p < 0x1_0000_0000,
                st < 0x1_0000_0000_0000_0000,
        ;
        assert(h * hd <= 0x1_0000_0000 * 0x1_0000_0000) by (nonlinear_arith)
            requires
                h < 0x1_0000_0000,
                hd < 0x1_0000_0000,
        ;
        let need = p * st + h * hd + hd;
        need <= self.layer_size as u128
    }

    /// Every entry of an existing layer and head, at any position, lies
    /// inside its layer's buffer: the `requires` of the stores and loads.
    pub proof fn lemma_in_range(&self, layer: u32, pos: u32, kv_head: u32)
        requires
            self.wf(),
            layer < self.layers(),
            self.capacity() > 0,
            kv_head < self.heads(),
        ensures
            self.in_range(layer, pos, kv_head),
    {
        let m = self.max_seq_len as int;
        let p = (pos % self.max_seq_len) as int;
        let hd = self.head_dim as int;
        let nh = self.n_kv_heads as int;
        let h = kv_head as int;
        assert(p * (nh * hd) + h * hd + hd <= (nh * hd) * m) by (nonlinear_arith)
            requires
                0 <= p < m,
                0 <= h < nh,
                hd >= 0,
        ;
    }

    /// Caches of the same shape have the same layers, heads, entry length
    /// and capacity.
    pub proof fn lemma_same_shape(&self, other: HashConsedKV)
        requires
            same_shape(*self, other),
        ensures
            self.layers() == other.layers(),
            self.heads() == other.heads(),
            self.entry_len() == other.entry_len(),
            self.capacity() == other.capacity(),
    {
    }

    proof fn lemma_entry_inside(&self, layer: u32, pos: u32, kv_head: u32)
        requires
            self.wf(),
            self.in_range(layer, pos, kv_head),
        ensures
            0 <= self.start(layer, pos, kv_head),
            self.start(layer, pos, kv_head) + self.head_dim <= self.k@.len(),
    {
        let l = layer as int;
        let ls = self.layer_size as int;
        let nl = self.n_layers as int;
        assert(l * ls + ls <= nl * ls) by (nonlinear_arith)
            requires
                l < nl,
                ls >= 0,
        ;
        assert(0 <= l * ls) by (nonlinear_arith)
            requires
                l >= 0,
                ls >= 0,
        ;
        assert(0 <= (pos % self.max_seq_len) * self.stride + kv_head * self.head_dim) by (nonlinear_arith)
            requires
                self.max_seq_len > 0,
        ;
    }

    fn start_index(&self, layer: u32, pos: u32, kv_head: u32) -> (s: usize)
        requires
            self.wf(),
            self.in_range(layer, pos, kv_head),
        ensures
            s == self.start(layer, pos, kv_head),
            s + self.head_dim <= self.k@.len(),
    {
        proof {
            self.lemma_entry_inside(layer, pos, kv_head);
            assert(0 <= (pos % self.max_seq_len) * self.stride) by (nonlinear_arith)
                requires
                    self.max_seq_len > 0,
            ;
            assert(0 <= kv_head * self.head_dim) by (nonlinear_arith);
            assert(0 <= layer * self.layer_size) by (nonlinear_arith);
        }
        let n = self.k.len();
        let pos_idx = (pos % self.max_seq_len) as usize;
        layer as usize * self.layer_size + pos_idx * self.stride + kv_head as usize
            * self.head_dim as usize
    }

    /// Stores the key entry `(layer, pos, kv_head)`: the first `head_dim`
    /// values of `data`.
    pub fn store_k(&mut self, layer: u32, pos: u32, kv_head: u32, data: &[u32])
        requires
            old(self).wf(),
            old(self).in_range(layer, pos, kv_head),
            data@.len() >= old(self).entry_len(),
            old(self).stored().0 < usize::MAX,
        ensures
            final(self).wf(),
            same_shape(*final(self), *old(self)),
            final(self).vals() == old(self).vals(),
            final(self).position() == old(self).position(),
            final(self).stored() == (old(self).stored().0 + 1, old(self).stored().1),
            final(self).keys() == overwrite(
                old(self).keys(),
                old(self).start(layer, pos, kv_head),
                data@.subrange(0, old(self).entry_len() as int),
            ),
    {
        let s = self.start_index(layer, pos, kv_head);
        let len = self.head_dim as usize;
        copy_into(&mut self.k, s, data, len);
        self.n_total_k = self.n_total_k + 1;
    }

    /// Stores the value entry `(layer, pos, kv_head)`: the first
    /// `head_dim` values of `data`.
    pub fn store_v(&mut self, layer: u32, pos: u32, kv_head: u32, data: &[u32])
        requires
            old(self).wf(),
            old(self).in_range(layer, pos, kv_head),
            data@.len() >= old(self).entry_len(),
            old(self).stored().1 < usize::MAX,
        ensures
            final(self).wf(),
            same_shape(*final(self), *old(self)),
            final(self).keys() == old(self).keys(),
            final(self).position() == old(self).position(),
            final(self).stored() == (old(self).stored().0, old(self).stored().1 + 1),
            final(self).vals() == overwrite(
                old(self).vals(),
                old(self).start(layer, pos, kv_head),
                data@.subrange(0, old(self).entry_len() as int),
            ),
    {
        let s = self.start_index(layer, pos, kv_head);
        let len = self.head_dim as usize;
        copy_into(&mut self.v, s, data, len);
        self.n_total_v = self.n_total_v + 1;
    }

    /// The key entry `(layer, pos, kv_head)`.
    pub fn load_k(&self, layer: u32, pos: u32, kv_head: u32) -> (out: Vec<u32>)
        requires
            self.wf(),
            self.in_range(layer, pos, kv_head),
        ensures
            out@ == self.keys().subrange(
                self.start(layer, pos, kv_head),
                self.start(layer, pos, kv_head) + self.entry_len(),
            ),
    {
        let s = self.start_index(layer, pos, kv_head);
        copy_out(&self.k, s, self.head_dim as usize)
    }

    /// The value entry `(layer, pos, kv_head)`.
    pub fn load_v(&self, layer: u32, pos: u32, kv_head: u32) -> (out: Vec<u32>)
        requires
            self.wf(),
            self.in_range(layer, pos, kv_head),
        ensures
            out@ == self.vals().subrange(
                self.start(layer, pos, kv_head),
                self.start(layer, pos, kv_head) + self.entry_len(),
            ),
    {
        let s = self.start_index(layer, pos, kv_head);
        copy_out(&self.v, s, self.head_dim as usize)
    }

    /// Key statistics `(unique, total)`: nothing is deduplicated, so both
    /// are the number of key entries stored so far.
    pub fn k_stats(&self) -> (r: (usize, usize))
        ensures
            r.0 == self.stored().0,
            r.1 == self.stored().0,
    {
        (self.n_total_k, self.n_total_k)
    }

    /// Value statistics `(unique, total)`: both are the number of value
    /// entries stored so far.
    pub fn v_stats(&self) -> (r: (usize, usize))
        ensures
            r.0 == self.stored().1,
            r.1 == self.stored().1,
    {
        (self.n_total_v, self.n_total_v)
    }

    /// Size of both buffers, in bytes (4 per value).
    pub fn byte_size(&self) -> (n: usize)
        requires
            self.wf(),
            self.keys().len() * 8 <= usize::MAX,
        ensures
            n == self.keys().len() * 8,
    {
        proof {
            assert(self.stride * self.max_seq_len * 4 * self.n_layers * 2 == self.k@.len() * 8) by (nonlinear_arith)
                requires
                    self.layer_size == self.stride * self.max_seq_len,
                    self.k@.len() == self.n_layers * self.layer_size,
            ;
            assert(self.stride * self.max_seq_len * 4 <= self.k@.len() * 8 || self.n_layers == 0) by (nonlinear_arith)
                requires
                    self.layer_size == self.stride * self.max_seq_len,
                    self.k@.len() == self.n_layers * self.layer_size,
            ;
        }
        if self.n_layers == 0 {
            return 0;
        }
        let per_layer = self.layer_size * 4;
        per_layer * self.n_layers as usize * 2
    }

    /// Current position (tokens processed).
    pub fn current_pos(&self) -> (p: u32)
        ensures
            p == self.position(),
    {
        self.current_pos
    }

    /// Moves one position forward.
    pub fn advance(&mut self)
        requires
            old(self).position() < u32::MAX,
        ensures
            final(self).position() == old(self).position() + 1,
            same_shape(*final(self), *old(self)),
            final(self).keys() == old(self).keys(),
            final(self).vals() == old(self).vals(),
            final(self).stored() == old(self).stored(),
            final(self).wf() == old(self).wf(),
    {
        self.current_pos = self.current_pos + 1;
    }

    /// Moves `n` positions forward.
    pub fn advance_by(&mut self, n: u32)
        requires
            old(self).position() + n <= u32::MAX,
        ensures
            final(self).position() == old(self).position() + n,
            same_shape(*final(self), *old(self)),
            final(self).keys() == old(self).keys(),
            final(self).vals() == old(self).vals(),
            final(self).stored() == old(self).stored(),
            final(self).wf() == old(self).wf(),
    {
        self.current_pos = self.current_pos + n;
    }
}

/// The two caches have the same dimensions and entry layout.
pub closed spec fn same_shape(a: HashConsedKV, b: HashConsedKV) -> bool {
    &&& a.n_layers == b.n_layers
    &&& a.n_kv_heads == b.n_kv_heads
    &&& a.head_dim == b.head_dim
    &&& a.max_seq_len == b.max_seq_len
    &&& a.stride == b.stride
    &&& a.layer_size == b.layer_size
}

/// `s` with `data` written from index `start` on.
pub open spec fn overwrite(s: Seq<u32>, start: int, data: Seq<u32>) -> Seq<u32> {
    Seq::new(
        s.len(),
        |i: int|
            if start <= i < start + data.len() {
                data[i - start]
            } else {
                s[i]
            },
    )
}

fn zeros(n: usize) -> (v: Vec<u32>)
    ensures
        v@.len() == n,
        forall|i: int| 0 <= i < n ==> v@[i] == 0,
{
    let mut v: Vec<u32> = Vec::new();
    let mut i: usize = 0;
    while i < n
        invariant
            i <= n,
            v@.len() == i,
            forall|j: int| 0 <= j < i ==> v@[j] == 0,
        decreases n - i,
    {
        v.push(0);
        i += 1;
    }
    v
}

fn copy_into(dst: &mut Vec<u32>, start: usize, src: &[u32], len: usize)
    requires
        start + len <= old(dst)@.len(),
        len <= src@.len(),
    ensures
        final(dst)@ == overwrite(old(dst)@, start as int, src@.subrange(0, len as int)),
{
    let n = dst.len();
    let mut i: usize = 0;
    while i < len
        invariant
            start + len <= n,
            n == dst@.len(),
            len <= src@.len(),
            i <= len,
            dst@ == overwrite(old(dst)@, start as int, src@.subrange(0, i as int)),
        decreases len - i,
    {
        dst.set(start + i, src[i]);
        i += 1;
        assert(dst@ =~= overwrite(old(dst)@, start as int, src@.subrange(0, i as int)));
    }
}

fn copy_out(src: &Vec<u32>, start: usize, len: usize) -> (out: Vec<u32>)
    requires
        start + len <= src@.len(),
    ensures
        out@ == src@.subrange(start as int, start + len),
{
    let n = src.len();
    let mut out: Vec<u32> = Vec::new();
    let mut i: usize = 0;
    while i < len
        invariant
            start + len <= n,
            n == src@.len(),
            i <= len,
            out@ == src@.subrange(start as int, start + i),
        decreases len - i,
    {
        out.push(src[start + i]);
        i += 1;
        assert(out@ =~= src@.subrange(start as int, start + i));
    }
    out
}

/// Loading an entry right after storing it gives back what was stored;
/// positions `max_seq_len` apart share an entry.
pub proof fn law_load_after_store(c: HashConsedKV, after: HashConsedKV, layer: u32, pos: u32, pos2: u32, kv_head: u32, data: Seq<u32>)
    requires
        c.wf(),
        c.in_range(layer, pos, kv_head),
        data.len() == c.entry_len(),
        same_shape(after, c),
        after.keys() == overwrite(c.keys(), c.start(layer, pos, kv_head), data),
        (pos2 as int) % (c.capacity() as int) == (pos as int) % (c.capacity() as int),
    ensures
        after.keys().subrange(
            after.start(layer, pos2, kv_head),
            after.start(layer, pos2, kv_head) + after.entry_len(),
        ) == data,
{
    c.lemma_entry_inside(layer, pos, kv_head);
    assert(after.start(layer, pos2, kv_head) == c.start(layer, pos, kv_head));
    assert(after.keys().subrange(
        after.start(layer, pos2, kv_head),
        after.start(layer, pos2, kv_head) + after.entry_len(),
    ) =~= data);
}

proof fn lemma_radix_unique(a1: int, h1: int, a2: int, h2: int, n: int)
    requires
        n >= 1,
        0 <= h1 < n,
        0 <= h2 < n,
        a1 >= 0,
        a2 >= 0,
        a1 * n + h1 == a2 * n + h2,
    ensures
        a1 == a2,
        h1 == h2,
{
    if a1 < a2 {
        assert(a1 * n + n <= a2 * n) by (nonlinear_arith)
            requires
                a1 < a2,
                n >= 1,
        ;
    } else if a2 < a1 {
        assert(a2 * n + n <= a1 * n) by (nonlinear_arith)
            requires
                a2 < a1,
                n >= 1,
        ;
    }
}

/// Entries of distinct layers, ring slots or heads do not overlap.
proof fn lemma_entries_disjoint(
    c: HashConsedKV,
    l1: u32,
    p1: u32,
    h1: u32,
    l2: u32,
    p2: u32,
    h2: u32,
)
    requires
        c.wf(),
        c.capacity() > 0,
        l1 < c.layers(),
        l2 < c.layers(),
        h1 < c.heads(),
        h2 < c.heads(),
        l1 != l2 || (p1 as int) % (c.capacity() as int) != (p2 as int) % (c.capacity() as int)
            || h1 != h2,
    ensures
        c.start(l1, p1, h1) + c.entry_len() <= c.start(l2, p2, h2) || c.start(l2, p2, h2)
            + c.entry_len() <= c.start(l1, p1, h1),
{
    let m = c.max_seq_len as int;
    let nh = c.n_kv_heads as int;
    let hd = c.head_dim as int;
    let q1 = (p1 % c.max_seq_len) as int;
    let q2 = (p2 % c.max_seq_len) as int;
    let k1 = (l1 * m + q1) * nh + h1;
    let k2 = (l2 * m + q2) * nh + h2;
    assert(c.start(l1, p1, h1) == k1 * hd) by (nonlinear_arith)
        requires
            c.start(l1, p1, h1) == l1 * ((nh * hd) * m) + q1 * (nh * hd) + h1 * hd,
            k1 == (l1 * m + q1) * nh + h1,
    ;
    assert(c.start(l2, p2, h2) == k2 * hd) by (nonlinear_arith)
        requires
            c.start(l2, p2, h2) == l2 * ((nh * hd) * m) + q2 * (nh * hd) + h2 * hd,
            k2 == (l2 * m + q2) * nh + h2,
    ;
    assert(0 <= q1 < m && 0 <= q2 < m);
    assert(l1 * m + q1 >= 0 && l2 * m + q2 >= 0) by (nonlinear_arith)
        requires
            l1 >= 0,
            l2 >= 0,
            m >= 1,
            q1 >= 0,
            q2 >= 0,
    ;
    if k1 == k2 {
        lemma_radix_unique(l1 * m + q1, h1 as int, l2 * m + q2, h2 as int, nh);
        lemma_radix_unique(l1 as int, q1, l2 as int, q2, m);
        assert(false);
    }
    if k1 < k2 {
        assert(k1 * hd + hd <= k2 * hd) by (nonlinear_arith)
            requires
                k1 < k2,
                hd >= 0,
        ;
    } else {
        assert(k2 * hd + hd <= k1 * hd) by (nonlinear_arith)
            requires
                k2 < k1,
                hd >= 0,
        ;
    }
}

/// Storing an entry leaves every other entry (another layer, ring slot
/// or head) as it was.
pub proof fn law_store_keeps_other_entries(
    c: HashConsedKV,
    after: HashConsedKV,
    layer: u32,
    pos: u32,
    kv_head: u32,
    data: Seq<u32>,
    l2: u32,
    p2: u32,
    h2: u32,
)
    requires
        c.wf(),
        c.capacity() > 0,
        layer < c.layers(),
        kv_head < c.heads(),
        l2 < c.layers(),
        h2 < c.heads(),
        data.len() == c.entry_len(),
        same_shape(after, c),
        after.keys() == overwrite(c.keys(), c.start(layer, pos, kv_head), data),
        layer != l2 || (pos as int) % (c.capacity() as int) != (p2 as int) % (c.capacity() as int)
            || kv_head != h2,
    ensures
        after.keys().subrange(after.start(l2, p2, h2), after.start(l2, p2, h2) + after.entry_len())
            == c.keys().subrange(c.start(l2, p2, h2), c.start(l2, p2, h2) + c.entry_len()),
{
    c.lemma_in_range(l2, p2, h2);
    c.lemma_entry_inside(l2, p2, h2);
    lemma_entries_disjoint(c, layer, pos, kv_head, l2, p2, h2);
    assert(after.start(l2, p2, h2) == c.start(l2, p2, h2));
    assert(after.keys().subrange(after.start(l2, p2, h2), after.start(l2, p2, h2) + after.entry_len())
        =~= c.keys().subrange(c.start(l2, p2, h2), c.start(l2, p2, h2) + c.entry_len()));
}

} // verus!
