use vstd::arithmetic::power2::{
    lemma2_to64, lemma_pow2_strictly_increases, lemma_pow2_unfold, pow2,
};
use vstd::bits::lemma_usize_shl_is_mul;
use vstd::prelude::*;
use vstd::std_specs::convert::{FromSpecImpl, IntoSpec};

use crate::error::QueryError;
use crate::log2::{
    floor_log2, highest_bit, lemma_floor_log2_bounds, lemma_floor_log2_monotone,
    lemma_floor_log2_unique,
};
use crate::minimum::{lemma_range_min_cover, range_min, smallest_in, smallest_or};
use crate::order::{exact_clone, lawful, lesser};

verus! {

/// A table of the minima of all windows of a sequence whose length is a power
/// of two. Built once, it answers every range-minimum query with two lookups.
pub struct SparseTable<T: Ord + Clone> {
    /// `table[k][i]` is the minimum of the `2^k` elements from position `i` on.
    table: Vec<Vec<T>>,
    /// `row[x]` is the integer logarithm of the window length `x`.
    row: Vec<usize>,
}

impl<T: Ord + Clone> View for SparseTable<T> {
    type V = Seq<T>;

    /// The sequence that the table was built from.
    closed spec fn view(&self) -> Seq<T> {
        self.table@[0]@
    }
}

/// The entry of the logarithm table for the window length `x`.
fn log_entry(x: usize) -> (k: usize)
    ensures
        k == floor_log2(x as nat),
{
    if x != 0 {
        match highest_bit(x as u64) {
            Ok(k) => k,
            Err(_) => 0,
        }
    } else {
        0
    }
}

/// The logarithm table for the window lengths `0..=size`.
fn log_table(size: usize) -> (row: Vec<usize>)
    ensures
        row@.len() == size + 1,
        forall|x: int| 0 <= x <= size ==> #[trigger] row@[x] == floor_log2(x as nat),
{
    let mut row: Vec<usize> = Vec::new();
    row.push(log_entry(0));
    let mut x: usize = 0;
    while x < size
        invariant
            x <= size,
            row@.len() == x + 1,
            forall|y: int| 0 <= y <= x ==> #[trigger] row@[y] == floor_log2(y as nat),
        decreases size - x,
    {
        x += 1;
        row.push(log_entry(x));
    }
    row
}

impl<T: Ord + Clone> SparseTable<T> {
    /// Row `k` holds the minima of all windows of `2^k` elements, one row for
    /// each such length that fits, and the logarithm table covers every
    /// window length up to that of the sequence.
    #[verifier::type_invariant]
    spec fn well_formed(&self) -> bool {
        let n = self.table@[0]@.len();
        &&& self.table@.len() == floor_log2(n) + 1
        &&& forall|k: int|
            0 <= k < self.table@.len() ==> (#[trigger] self.table@[k])@.len() == n - pow2(
                k as nat,
            ) + 1
        &&& self.row@.len() == n + 1
        &&& forall|x: int| 0 <= x <= n ==> #[trigger] self.row@[x] == floor_log2(x as nat)
        &&& lawful::<T>() ==> forall|k: int, i: int|
            0 <= k < self.table@.len() && 0 <= i < self.table@[k]@.len()
                ==> #[trigger] self.table@[k]@[i] == range_min(
                self.table@[0]@,
                i,
                i + pow2(k as nat),
            )
    }

    /// Builds the table over `seq`, which it takes over.
    pub fn from_vec(seq: Vec<T>) -> (st: Self)
        ensures
            st@ == seq@,
    {
        let size = seq.len();
        let ghost base = seq@;
        let mut rows: Vec<Vec<T>> = Vec::new();
        rows.push(seq);
        let mut half: usize = 1;
        let ghost mut k: nat = 1;
        proof {
            lemma2_to64();
        }
        while half <= size / 2
            invariant
                size == base.len(),
                k >= 1,
                rows@.len() == k,
                half == pow2((k - 1) as nat),
                half >= 1,
                k == 1 || half <= size,
                rows@[0]@ == base,
                forall|j: int|
                    0 <= j < k ==> (#[trigger] rows@[j])@.len() == size - pow2(j as nat) + 1,
                lawful::<T>() ==> forall|j: int, i: int|
                    0 <= j < k && 0 <= i < rows@[j]@.len() ==> #[trigger] rows@[j]@[i]
                        == range_min(base, i, i + pow2(j as nat)),
            decreases size - half,
        {
            let span: usize = 2 * half;
            proof {
                lemma_pow2_unfold(k);
            }
            let prev = &rows[rows.len() - 1];
            let count: usize = prev.len() - half;
            let mut next_row: Vec<T> = Vec::new();
            let mut i: usize = 0;
            while i < count
                invariant
                    i <= count,
                    count == size - span + 1,
                    prev@.len() == count + half,
                    span == 2 * half,
                    half >= 1,
                    span == pow2(k),
                    next_row@.len() == i,
                    lawful::<T>() ==> forall|j: int|
                        0 <= j < prev@.len() ==> #[trigger] prev@[j] == range_min(
                            base,
                            j,
                            j + half,
                        ),
                    lawful::<T>() ==> forall|j: int|
                        0 <= j < i ==> #[trigger] next_row@[j] == range_min(base, j, j + span),
                decreases count - i,
            {
                let least = lesser(&prev[i], &prev[i + half]);
                let m = least.clone();
                proof {
                    if lawful::<T>() {
                        assert(cloned(*least, m));
                        lemma_range_min_cover(
                            base,
                            i as int,
                            i + half,
                            i + half,
                            i + span,
                        );
                    }
                }
                next_row.push(m);
                i += 1;
            }
            rows.push(next_row);
            half = span;
            proof {
                k = k + 1;
            }
        }
        proof {
            if k > 1 {
                lemma_pow2_unfold(k);
                lemma_floor_log2_unique(size as nat, (k - 1) as nat);
            }
        }
        let row = log_table(size);
        SparseTable { table: rows, row }
    }

    /// Builds the table over a copy of `seq`.
    pub fn new(seq: &[T]) -> (st: Self)
        ensures
            st@.len() == seq@.len(),
            forall|i: int| 0 <= i < seq@.len() ==> cloned(#[trigger] seq@[i], st@[i]),
            exact_clone::<T>() ==> st@ == seq@,
    {
        let mut owned: Vec<T> = Vec::new();
        let mut i: usize = 0;
        while i < seq.len()
            invariant
                i <= seq@.len(),
                owned@.len() == i,
                forall|j: int| 0 <= j < i ==> cloned(#[trigger] seq@[j], owned@[j]),
            decreases seq@.len() - i,
        {
            owned.push(seq[i].clone());
            i += 1;
        }
        proof {
            if exact_clone::<T>() {
                assert(owned@ =~= seq@);
            }
        }
        Self::from_vec(owned)
    }

    /// The minimum of the elements at the positions `l <= i < r`.
    ///
    /// An empty range is refused, and so is one that runs past the end of the
    /// sequence; for a range that is both, the answer names the first.
    pub fn smallest(&self, l: usize, r: usize) -> (res: Result<&T, QueryError>)
        ensures
            match res {
                Ok(m) => l < r <= self@.len() && (lawful::<T>() ==> smallest_in(
                    self@,
                    l as int,
                    r as int,
                ) == Ok::<T, QueryError>(*m)),
                Err(e) => smallest_in(self@, l as int, r as int) == Err::<T, QueryError>(e),
            },
    {
        proof {
            use_type_invariant(self);
        }
        if l >= r {
            return Err(QueryError::EmptyRange);
        }
        if r > self.table[0].len() {
            return Err(QueryError::OutOfBounds);
        }
        let row = self.row[r - l];
        proof {
            let n = self@.len();
            let len = (r - l) as nat;
            lemma_floor_log2_bounds(len);
            lemma_floor_log2_monotone(len, n);
            lemma_pow2_unfold(row as nat + 1);
            lemma_shift_is_pow2(row);
        }
        let span: usize = 1usize << row;
        let m = lesser(&self.table[row][l], &self.table[row][r - span]);
        proof {
            if lawful::<T>() {
                lemma_range_min_cover(self@, l as int, r - span, l + span, r as int);
            }
        }
        Ok(m)
    }

    /// The minimum of the elements at the positions `l <= i < r` that exist,
    /// or a copy of `default` where the range is empty or begins past the end
    /// of the sequence.
    pub fn smallest_with_default(&self, l: usize, r: usize, default: &T) -> (res: T)
        ensures
            l >= r || l >= self@.len() ==> cloned(*default, res),
            lawful::<T>() ==> res == smallest_or(self@, l as int, r as int, *default),
    {
        proof {
            use_type_invariant(self);
        }
        let n = self.table[0].len();
        if l >= r || l >= n {
            let copy = default.clone();
            assert(cloned(*default, copy));
            return copy;
        }
        let end = if r < n { r } else { n };
        match self.smallest(l, end) {
            Ok(m) => {
                let copy = m.clone();
                assert(cloned(*m, copy));
                copy
            },
            Err(_) => default.clone(),
        }
    }
}

impl<S: Into<Vec<T>>, T: Ord + Clone> From<S> for SparseTable<T> {
    /// Builds the table over the sequence that `seq` converts into.
    fn from(seq: S) -> (st: Self)
        ensures
            exists|owned: Vec<T>| call_ensures(S::into, (seq,), owned) && st@ == owned@,
            S::obeys_into_spec() ==> st@ == S::into_spec(seq)@,
    {
        let owned: Vec<T> = seq.into();
        SparseTable::from_vec(owned)
    }
}

impl<S: Into<Vec<T>>, T: Ord + Clone> FromSpecImpl<S> for SparseTable<T> {
    open spec fn obeys_from_spec() -> bool {
        false
    }

    open spec fn from_spec(seq: S) -> Self {
        arbitrary()
    }
}

/// A power of two that fits in a `usize` is 1 shifted left by its exponent.
proof fn lemma_shift_is_pow2(k: usize)
    requires
        pow2(k as nat) <= usize::MAX,
    ensures
        k < usize::BITS,
        1usize << k == pow2(k as nat),
{
    lemma2_to64();
    if k > usize::BITS {
        lemma_pow2_strictly_increases(usize::BITS as nat, k as nat);
    }
    lemma_usize_shl_is_mul(1, k);
}

} // verus!
