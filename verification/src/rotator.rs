//! Deterministic partitioning of the symbol universe into fixed-size batches.
//!
//! The rotator cycles through the configured symbols: each call to
//! `next_batch` returns the next window of at most `batch_size` symbols and
//! advances the cursor. When the cursor plus the batch size runs past the end
//! of the list, the returned batch is shorter (it is not wrapped around to
//! fill up), and the next call starts again at the front.

use vstd::prelude::*;

verus! {

/// One batch of the rotation: the symbols from cursor `c` up to
/// `c + batch_size`, clipped to the end of the list.
pub open spec fn batch_from(syms: Seq<Seq<char>>, bsize: int, c: int) -> Seq<Seq<char>> {
    let end = if c + bsize > syms.len() as int {
        syms.len() as int
    } else {
        c + bsize
    };
    syms.subrange(c, end)
}

/// The cursor after one rotation step from cursor `c`: the end of the batch
/// just returned, wrapped to 0 when it reached the end of the list.
pub open spec fn next_cursor(n: int, bsize: int, c: int) -> int {
    let end = if c + bsize > n {
        n
    } else {
        c + bsize
    };
    if end == n {
        0
    } else {
        end
    }
}

/// The cursor after `k` rotation steps starting from the front of the list.
pub open spec fn cursor_after(n: int, bsize: int, k: nat) -> int
    decreases k,
{
    if k == 0 {
        0
    } else {
        next_cursor(n, bsize, cursor_after(n, bsize, (k - 1) as nat))
    }
}

/// All symbols returned by the first `k` rotation steps, in order, starting
/// from the front of the list.
pub open spec fn batches_concat(syms: Seq<Seq<char>>, bsize: int, k: nat) -> Seq<Seq<char>>
    decreases k,
{
    if k == 0 {
        Seq::empty()
    } else {
        batches_concat(syms, bsize, (k - 1) as nat) + batch_from(
            syms,
            bsize,
            cursor_after(syms.len() as int, bsize, (k - 1) as nat),
        )
    }
}

/// How many batches one full rotation over `n` symbols takes: `n / bsize`,
/// rounded up.
pub open spec fn batches_per_cycle(n: int, bsize: int) -> int {
    (n + bsize - 1) / bsize
}

pub struct SymbolRotator {
    all_symbols: Vec<String>,
    batch_size: usize,
    current_idx: usize,
}

impl SymbolRotator {
    /// The symbol universe, as sequences of characters.
    pub closed spec fn symbols(&self) -> Seq<Seq<char>> {
        self.all_symbols@.map_values(|s: String| s@)
    }

    pub closed spec fn batch_size_spec(&self) -> int {
        self.batch_size as int
    }

    pub closed spec fn cursor(&self) -> int {
        self.current_idx as int
    }

    /// The cursor always points into the list (or at 0 when the list is
    /// empty).
    pub closed spec fn wf(&self) -> bool {
        if self.all_symbols@.len() == 0 {
            self.current_idx == 0
        } else {
            self.current_idx < self.all_symbols@.len()
        }
    }

    pub fn new(symbols: Vec<String>, batch_size: usize) -> (r: Self)
        ensures
            r.wf(),
            r.symbols() == symbols@.map_values(|s: String| s@),
            r.batch_size_spec() == batch_size as int,
            r.cursor() == 0,
    {
        Self { all_symbols: symbols, batch_size, current_idx: 0 }
    }

    /// Returns the next batch of the rotation and advances the cursor, or
    /// `None` when the symbol list is empty or the batch size is zero.
    pub fn next_batch(&mut self) -> (r: Option<Vec<String>>)
        requires
            old(self).wf(),
        ensures
            final(self).wf(),
            final(self).symbols() == old(self).symbols(),
            final(self).batch_size_spec() == old(self).batch_size_spec(),
            old(self).symbols().len() == 0 || old(self).batch_size_spec() == 0 ==> {
                &&& r is None
                &&& final(self).cursor() == old(self).cursor()
            },
            old(self).symbols().len() > 0 && old(self).batch_size_spec() > 0 ==> {
                &&& r is Some
                &&& r->Some_0@.map_values(|s: String| s@) == batch_from(
                    old(self).symbols(),
                    old(self).batch_size_spec(),
                    old(self).cursor(),
                )
                &&& final(self).cursor() == next_cursor(
                    old(self).symbols().len() as int,
                    old(self).batch_size_spec(),
                    old(self).cursor(),
                )
            },
    {
        let n = self.all_symbols.len();
        if n == 0 || self.batch_size == 0 {
            return None;
        }
        let start = self.current_idx;
        let end = if self.batch_size > n - start {
            n
        } else {
            start + self.batch_size
        };
        let mut batch: Vec<String> = Vec::new();
        let mut i = start;
        while i < end
            invariant
                start <= i <= end <= n,
                n == self.all_symbols@.len(),
                batch@.len() == i - start,
                forall|j: int|
                    0 <= j < batch@.len() ==> batch@[j]@ == self.all_symbols@[start + j]@,
            decreases end - i,
        {
            batch.push(self.all_symbols[i].clone());
            i += 1;
        }
        self.current_idx = end % n;
        proof {
            assert(batch@.map_values(|s: String| s@) =~= batch_from(
                self.symbols(),
                self.batch_size as int,
                start as int,
            ));
            if end == n {
                assert(end as int % n as int == 0) by (nonlinear_arith)
                    requires
                        end == n,
                        0 < n,
                ;
            } else {
                vstd::arithmetic::div_mod::lemma_small_mod(end as nat, n as nat);
            }
        }
        Some(batch)
    }
}

/// Bounds of a full cycle: with `m = batches_per_cycle(n, bsize)`, the first
/// `m - 1` batches do not reach the end of the list and `m` batches cover it.
proof fn lemma_cycle_bounds(n: int, bsize: int)
    requires
        0 < bsize,
        0 < n,
    ensures
        1 <= batches_per_cycle(n, bsize),
        (batches_per_cycle(n, bsize) - 1) * bsize < n,
        n <= batches_per_cycle(n, bsize) * bsize,
{
    let m = batches_per_cycle(n, bsize);
    vstd::arithmetic::div_mod::lemma_fundamental_div_mod(n + bsize - 1, bsize);
    assert(n + bsize - 1 == bsize * m + (n + bsize - 1) % bsize);
    vstd::arithmetic::div_mod::lemma_mod_bound(n + bsize - 1, bsize);
    assert(m * bsize >= n && (m - 1) * bsize < n && m >= 1) by (nonlinear_arith)
        requires
            0 < bsize,
            0 < n,
            n + bsize - 1 == bsize * m + (n + bsize - 1) % bsize,
            0 <= (n + bsize - 1) % bsize < bsize,
    ;
}

/// Stepping the cursor `k` times from the front, while a full cycle is not
/// yet complete, lands on `k * bsize`, and the batches seen so far are
/// exactly the front of the symbol list.
proof fn lemma_rotation_prefix(syms: Seq<Seq<char>>, bsize: int, k: nat)
    requires
        0 < bsize,
        0 < syms.len(),
        k <= batches_per_cycle(syms.len() as int, bsize),
    ensures
        k < batches_per_cycle(syms.len() as int, bsize) ==> cursor_after(
            syms.len() as int,
            bsize,
            k,
        ) == k * bsize,
        k == batches_per_cycle(syms.len() as int, bsize) ==> cursor_after(
            syms.len() as int,
            bsize,
            k,
        ) == 0,
        batches_concat(syms, bsize, k) == syms.subrange(
            0,
            if k * bsize > syms.len() as int {
                syms.len() as int
            } else {
                k * bsize
            },
        ),
    decreases k,
{
    let n = syms.len() as int;
    let m = batches_per_cycle(n, bsize);
    lemma_cycle_bounds(n, bsize);
    if k == 0 {
        assert(batches_concat(syms, bsize, 0) =~= syms.subrange(0, 0));
    } else {
        let prev = (k - 1) as nat;
        lemma_rotation_prefix(syms, bsize, prev);
        assert(prev < m);
        let c = cursor_after(n, bsize, prev);
        assert(c == prev * bsize);
        assert(prev * bsize < n) by (nonlinear_arith)
            requires
                0 < bsize,
                prev < m,
                (m - 1) * bsize < n,
        ;
        assert(k * bsize == prev * bsize + bsize) by (nonlinear_arith)
            requires
                k == prev + 1,
        ;
        if k < m {
            assert(k * bsize < n) by (nonlinear_arith)
                requires
                    0 < bsize,
                    k < m,
                    (m - 1) * bsize < n,
            ;
        } else {
            assert(k * bsize >= n) by (nonlinear_arith)
                requires
                    0 < bsize,
                    k == m,
                    m * bsize >= n,
            ;
        }
        let clip = if k * bsize > n {
            n
        } else {
            k * bsize
        };
        assert(batches_concat(syms, bsize, k) =~= syms.subrange(0, clip));
    }
}

/// One full rotation visits every symbol exactly once and returns the cursor
/// to the front: for a non-empty universe and a positive batch size, the
/// concatenation of the first `ceil(n / bsize)` batches is the symbol list
/// itself, and after them the cursor is back at 0, so the rotation repeats
/// identically.
pub proof fn lemma_full_rotation(syms: Seq<Seq<char>>, bsize: int)
    requires
        0 < bsize,
        0 < syms.len(),
    ensures
        batches_concat(syms, bsize, batches_per_cycle(syms.len() as int, bsize) as nat) == syms,
        cursor_after(
            syms.len() as int,
            bsize,
            batches_per_cycle(syms.len() as int, bsize) as nat,
        ) == 0,
{
    let n = syms.len() as int;
    let m = batches_per_cycle(n, bsize);
    lemma_cycle_bounds(n, bsize);
    lemma_rotation_prefix(syms, bsize, m as nat);
    assert(batches_concat(syms, bsize, m as nat) =~= syms.subrange(0, n));
    assert(syms.subrange(0, n) =~= syms);
}

} // verus!
