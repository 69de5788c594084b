//! Per-pixel work schedule and the buffer that gathers its results.
//!
//! A render submits one task per pixel, in row-major order, and receives one
//! result per task in whatever order the workers finish. Each result names
//! its own pixel; the buffer accepts it only for an in-range pixel that has
//! not been written yet, and reports the image complete once every pixel has
//! been written exactly once.

use vstd::prelude::*;

verus! {

/// Row-major position of pixel `(row, col)` in an image `width` pixels wide.
pub open spec fn cell_index(row: int, col: int, width: int) -> int {
    row * width + col
}

/// The tasks of a `width` by `height` render: every pixel once, row 0 first.
pub open spec fn tasks_spec(width: nat, height: nat) -> Seq<(usize, usize)> {
    Seq::new(width * height, |k: int| ((k / width as int) as usize, (k % width as int) as usize))
}

/// Number of `true` entries of `s`.
pub open spec fn count_written(s: Seq<bool>) -> nat
    decreases s.len(),
{
    if s.len() == 0 {
        0
    } else {
        count_written(s.drop_last()) + if s.last() {
            1nat
        } else {
            0nat
        }
    }
}

/// Lists the pixel tasks of a `width` by `height` render in row-major order.
pub fn pixel_tasks(width: usize, height: usize) -> (r: Vec<(usize, usize)>)
    requires
        width * height <= usize::MAX,
    ensures
        r@ == tasks_spec(width as nat, height as nat),
{
    let mut out: Vec<(usize, usize)> = Vec::new();
    let mut row: usize = 0;
    while row < height
        invariant
            row <= height,
            width * height <= usize::MAX,
            out@.len() == row * width,
            forall|k: int|
                0 <= k < row * width ==> #[trigger] out@[k] == ((k / width as int) as usize, (k
                    % width as int) as usize),
        decreases height - row,
    {
        let mut col: usize = 0;
        while col < width
            invariant
                row < height,
                col <= width,
                width * height <= usize::MAX,
                out@.len() == row * width + col,
                forall|k: int|
                    0 <= k < row * width + col ==> #[trigger] out@[k] == ((k / width as int) as usize, (k
                        % width as int) as usize),
            decreases width - col,
        {
            proof {
                lemma_row_major(row as int, col as int, width as int);
            }
            out.push((row, col));
            col = col + 1;
        }
        proof {
            assert((row + 1) * width == row * width + width) by (nonlinear_arith);
        }
        row = row + 1;
    }
    proof {
        vstd::arithmetic::mul::lemma_mul_is_commutative(width as int, height as int);
        assert(out@ =~= tasks_spec(width as nat, height as nat));
    }
    out
}

proof fn lemma_row_major(row: int, col: int, width: int)
    requires
        0 <= row,
        0 <= col < width,
    ensures
        (row * width + col) / width == row,
        (row * width + col) % width == col,
{
    vstd::arithmetic::div_mod::lemma_fundamental_div_mod_converse(
        row * width + col,
        width,
        row,
        col,
    );
}

/// Every pixel of the image appears among the tasks, at its row-major
/// position, and no two tasks name the same pixel.
pub proof fn lemma_tasks_cover_each_pixel_once(width: nat, height: nat)
    requires
        width * height <= usize::MAX,
    ensures
        forall|row: int, col: int|
            0 <= row < height && 0 <= col < width ==> #[trigger] tasks_spec(width, height)[
                cell_index(row, col, width as int)] == (row as usize, col as usize),
        forall|k1: int, k2: int|
            0 <= k1 < k2 < width * height ==> #[trigger] tasks_spec(width, height)[k1]
                != #[trigger] tasks_spec(width, height)[k2],
{
    assert forall|row: int, col: int|
        0 <= row < height && 0 <= col < width implies #[trigger] tasks_spec(width, height)[
        cell_index(row, col, width as int)] == (row as usize, col as usize) by {
        lemma_row_major(row, col, width as int);
        assert(row * width + col < width * height) by (nonlinear_arith)
            requires
                row < height,
                col < width,
                0 <= row,
                0 <= col,
        ;
        assert(0 <= row * width) by (nonlinear_arith)
            requires
                0 <= row,
        ;
    }
    assert forall|k1: int, k2: int|
        0 <= k1 < k2 < width * height implies #[trigger] tasks_spec(width, height)[k1]
        != #[trigger] tasks_spec(width, height)[k2] by {
        let w = width as int;
        if w == 0 {
            assert(width * height == 0) by (nonlinear_arith)
                requires
                    width == 0,
            ;
        }
        vstd::arithmetic::div_mod::lemma_fundamental_div_mod(k1, w);
        vstd::arithmetic::div_mod::lemma_fundamental_div_mod(k2, w);
        vstd::arithmetic::div_mod::lemma_div_pos_is_pos(k1, w);
        vstd::arithmetic::div_mod::lemma_div_pos_is_pos(k2, w);
        vstd::arithmetic::div_mod::lemma_mod_bound(k1, w);
        vstd::arithmetic::div_mod::lemma_mod_bound(k2, w);
        assert(k1 / w <= k1 && k2 / w <= k2) by {
            vstd::arithmetic::div_mod::lemma_div_is_ordered_by_denominator(k1, 1, w);
            vstd::arithmetic::div_mod::lemma_div_is_ordered_by_denominator(k2, 1, w);
        }
    }
}

proof fn lemma_count_update(s: Seq<bool>, k: int)
    requires
        0 <= k < s.len(),
        !s[k],
    ensures
        count_written(s.update(k, true)) == count_written(s) + 1,
    decreases s.len(),
{
    let t = s.update(k, true);
    if k == s.len() - 1 {
        assert(t.drop_last() =~= s.drop_last());
    } else {
        assert(t.drop_last() =~= s.drop_last().update(k, true));
        lemma_count_update(s.drop_last(), k);
    }
}

proof fn lemma_count_full(s: Seq<bool>)
    ensures
        count_written(s) <= s.len(),
        count_written(s) == s.len() <==> forall|k: int| 0 <= k < s.len() ==> #[trigger] s[k],
    decreases s.len(),
{
    if s.len() > 0 {
        lemma_count_full(s.drop_last());
        if count_written(s) == s.len() {
            assert forall|k: int| 0 <= k < s.len() implies #[trigger] s[k] by {
                if k < s.len() - 1 {
                    assert(s.drop_last()[k] == s[k]);
                }
            }
        }
        if forall|k: int| 0 <= k < s.len() ==> #[trigger] s[k] {
            assert forall|k: int| 0 <= k < s.drop_last().len() implies #[trigger] s.drop_last()[k] by {
                assert(s[k]);
            }
        }
    }
}

/// Why a result could not be stored.
#[derive(Debug, Clone, Copy, PartialEq, Eq, Structural)]
pub enum StoreError {
    /// The pixel lies outside the image.
    OutOfBounds,
    /// The pixel already holds a result.
    AlreadyWritten,
}

/// The image being assembled: one cell per pixel, each written at most once.
pub struct PixelBuffer<T> {
    width: usize,
    height: usize,
    cells: Vec<T>,
    written: Vec<bool>,
    count: usize,
}

impl<T: Copy> PixelBuffer<T> {
    pub closed spec fn width_spec(&self) -> nat {
        self.width as nat
    }

    pub closed spec fn height_spec(&self) -> nat {
        self.height as nat
    }

    /// The buffer's contents in row-major order: `None` for a pixel not yet
    /// written.
    pub closed spec fn view(&self) -> Seq<Option<T>> {
        Seq::new(
            self.written@.len(),
            |k: int|
                if self.written@[k] {
                    Some(self.cells@[k])
                } else {
                    None
                },
        )
    }

    pub closed spec fn wf(&self) -> bool {
        &&& self.width * self.height <= usize::MAX
        &&& self.cells@.len() == self.width * self.height
        &&& self.written@.len() == self.width * self.height
        &&& self.count == count_written(self.written@)
    }

    /// Every pixel holds a result.
    pub open spec fn complete_spec(&self) -> bool {
        forall|k: int| 0 <= k < self.view().len() ==> #[trigger] self.view()[k] is Some
    }

    /// A `width` by `height` buffer with every pixel unwritten, its cells
    /// filled with `fill`.
    pub fn new(width: usize, height: usize, fill: T) -> (r: Self)
        requires
            width * height <= usize::MAX,
        ensures
            r.wf(),
            r.width_spec() == width,
            r.height_spec() == height,
            r.view() == Seq::new((width * height) as nat, |k: int| None::<T>),
    {
        let n = width * height;
        let mut cells: Vec<T> = Vec::new();
        let mut written: Vec<bool> = Vec::new();
        let mut i: usize = 0;
        while i < n
            invariant
                i <= n,
                cells@.len() == i,
                written@.len() == i,
                forall|k: int| 0 <= k < i ==> !(#[trigger] written@[k]),
                count_written(written@) == 0,
            decreases n - i,
        {
            cells.push(fill);
            proof {
                assert(written@.push(false).drop_last() =~= written@);
            }
            written.push(false);
            i = i + 1;
        }
        let r = PixelBuffer { width, height, cells, written, count: 0 };
        assert(r.view() =~= Seq::new((width * height) as nat, |k: int| None::<T>));
        r
    }

    pub fn width(&self) -> (r: usize)
        ensures
            r == self.width_spec(),
    {
        self.width
    }

    pub fn height(&self) -> (r: usize)
        ensures
            r == self.height_spec(),
    {
        self.height
    }

    /// Stores `value` as the result of pixel `(row, col)`, if that pixel is in
    /// the image and not yet written.
    pub fn store(&mut self, row: usize, col: usize, value: T) -> (r: Result<(), StoreError>)
        requires
            old(self).wf(),
        ensures
            final(self).wf(),
            final(self).width_spec() == old(self).width_spec(),
            final(self).height_spec() == old(self).height_spec(),
            row >= old(self).height_spec() || col >= old(self).width_spec() ==> r == Err::<
                (),
                StoreError,
            >(StoreError::OutOfBounds) && final(self).view() == old(self).view(),
            row < old(self).height_spec() && col < old(self).width_spec() ==> {
                let k = cell_index(row as int, col as int, old(self).width_spec() as int);
                if old(self).view()[k] is Some {
                    r == Err::<(), StoreError>(StoreError::AlreadyWritten) && final(self).view()
                        == old(self).view()
                } else {
                    r == Ok::<(), StoreError>(()) && final(self).view() == old(self).view().update(
                        k,
                        Some(value),
                    )
                }
            },
    {
        if row >= self.height || col >= self.width {
            return Err(StoreError::OutOfBounds);
        }
        proof {
            assert(row * self.width + col < self.width * self.height) by (nonlinear_arith)
                requires
                    row < self.height,
                    col < self.width,
            ;
        }
        let k = row * self.width + col;
        if self.written[k] {
            return Err(StoreError::AlreadyWritten);
        }
        let ghost before = self.view();
        proof {
            lemma_count_update(self.written@, k as int);
            lemma_count_full(self.written@.update(k as int, true));
        }
        self.cells.set(k, value);
        self.written.set(k, true);
        self.count = self.count + 1;
        assert(self.view() =~= before.update(k as int, Some(value)));
        Ok(())
    }

    /// The result stored for pixel `(row, col)`, if it has been written.
    pub fn get(&self, row: usize, col: usize) -> (r: Option<T>)
        requires
            self.wf(),
            row < self.height_spec(),
            col < self.width_spec(),
        ensures
            r == self.view()[cell_index(row as int, col as int, self.width_spec() as int)],
    {
        proof {
            assert(row * self.width + col < self.width * self.height) by (nonlinear_arith)
                requires
                    row < self.height,
                    col < self.width,
            ;
        }
        let k = row * self.width + col;
        if self.written[k] {
            Some(self.cells[k])
        } else {
            None
        }
    }

    /// Number of pixels written so far.
    pub fn written_count(&self) -> (r: usize)
        requires
            self.wf(),
        ensures
            r == self.view().filter(|c: Option<T>| c is Some).len(),
    {
        proof {
            lemma_count_matches_filter(self.written@, self.cells@);
        }
        self.count
    }

    /// Whether every pixel has been written.
    pub fn is_complete(&self) -> (r: bool)
        requires
            self.wf(),
        ensures
            r == self.complete_spec(),
    {
        proof {
            lemma_count_full(self.written@);
            if self.complete_spec() {
                assert forall|k: int| 0 <= k < self.written@.len() implies #[trigger] self.written@[k] by {
                    assert(self.view()[k] is Some);
                }
            }
        }
        self.count == self.written.len()
    }

    /// The finished image in row-major order, once every pixel is written;
    /// `None` while any pixel is missing.
    pub fn finish(self) -> (r: Option<Vec<T>>)
        requires
            self.wf(),
        ensures
            self.complete_spec() <==> r is Some,
            r matches Some(cells) ==> cells@.len() == self.view().len() && forall|k: int|
                0 <= k < cells@.len() ==> Some(#[trigger] cells@[k]) == self.view()[k],
    {
        if self.is_complete() {
            Some(self.cells)
        } else {
            None
        }
    }
}

proof fn lemma_count_matches_filter<T>(written: Seq<bool>, cells: Seq<T>)
    requires
        written.len() == cells.len(),
    ensures
        count_written(written) == Seq::new(
            written.len(),
            |k: int|
                if written[k] {
                    Some(cells[k])
                } else {
                    None
                },
        ).filter(|c: Option<T>| c is Some).len(),
    decreases written.len(),
{
    let v = Seq::new(
        written.len(),
        |k: int|
            if written[k] {
                Some(cells[k])
            } else {
                None
            },
    );
    if written.len() > 0 {
        let w2 = written.drop_last();
        let c2 = cells.drop_last();
        lemma_count_matches_filter(w2, c2);
        let v2 = Seq::new(
            w2.len(),
            |k: int|
                if w2[k] {
                    Some(c2[k])
                } else {
                    None
                },
        );
        assert(v.drop_last() =~= v2);
        assert(v =~= v2.push(v.last()));
        v2.lemma_filter_push(v.last(), |c: Option<T>| c is Some);
    }
}

/// Position of pixel `(m.0, m.1)` of a result `m` in an image `width` wide.
pub open spec fn result_index<T>(m: (usize, usize, T), width: nat) -> int {
    cell_index(m.0 as int, m.1 as int, width as int)
}

/// Which cells of a buffer's contents hold a result.
pub open spec fn filled<T>(v: Seq<Option<T>>) -> Seq<bool> {
    Seq::new(v.len(), |k: int| v[k] is Some)
}

/// The contents after each of `results` is written into its pixel, in order,
/// starting from `start`.
pub open spec fn store_all<T>(start: Seq<Option<T>>, width: nat, results: Seq<(usize, usize, T)>) -> Seq<
    Option<T>,
>
    decreases results.len(),
{
    if results.len() == 0 {
        start
    } else {
        store_all(start, width, results.drop_last()).update(
            result_index(results.last(), width),
            Some(results.last().2),
        )
    }
}

/// Results that name each pixel of a `width` by `height` image exactly once.
pub open spec fn one_per_pixel<T>(width: nat, height: nat, results: Seq<(usize, usize, T)>) -> bool {
    &&& results.len() == width * height
    &&& forall|i: int| 0 <= i < results.len() ==> #[trigger] results[i].0 < height && results[i].1 < width
    &&& forall|i1: int, i2: int|
        0 <= i1 < i2 < results.len() ==> (#[trigger] results[i1].0, results[i1].1) != (
        #[trigger] results[i2].0,
        results[i2].1,
    )
}

/// Results that arrive one per pixel, in any order, each find their pixel
/// empty when stored (so every store succeeds), and together leave a complete
/// image in which each pixel holds the result addressed to it.
pub proof fn lemma_results_in_any_order_complete<T>(
    width: nat,
    height: nat,
    results: Seq<(usize, usize, T)>,
)
    requires
        one_per_pixel(width, height, results),
    ensures
        ({
            let start = Seq::new(width * height, |k: int| None::<T>);
            let done = store_all(start, width, results);
            &&& forall|n: int|
                0 <= n < results.len() ==> (#[trigger] store_all(start, width, results.take(n)))[
                    result_index(results[n], width)] is None
            &&& done.len() == width * height
            &&& forall|k: int| 0 <= k < done.len() ==> #[trigger] done[k] is Some
            &&& forall|i: int|
                0 <= i < results.len() ==> done[result_index(#[trigger] results[i], width)] == Some(
                    results[i].2,
                )
        }),
{
    let start = Seq::new(width * height, |k: int| None::<T>);
    let n_all = results.len() as int;
    assert forall|n: int| 0 <= n < results.len() implies (#[trigger] store_all(
        start,
        width,
        results.take(n),
    ))[result_index(results[n], width)] is None by {
        lemma_store_prefix(width, height, results, n);
        lemma_store_prefix_fresh(width, height, results, n);
    }
    lemma_store_prefix(width, height, results, n_all);
    assert(results.take(n_all) =~= results);
    let done = store_all(start, width, results);
    lemma_count_full(filled(done));
    assert forall|k: int| 0 <= k < done.len() implies #[trigger] done[k] is Some by {
        assert(filled(done)[k]);
    }
}

proof fn lemma_index_in_range<T>(width: nat, height: nat, m: (usize, usize, T))
    requires
        m.0 < height,
        m.1 < width,
    ensures
        0 <= result_index(m, width) < width * height,
{
    let (r, c) = (m.0 as int, m.1 as int);
    assert(0 <= r * width + c < width * height) by (nonlinear_arith)
        requires
            0 <= r < height,
            0 <= c < width,
    ;
}

proof fn lemma_store_prefix_fresh<T>(width: nat, height: nat, results: Seq<(usize, usize, T)>, n: int)
    requires
        one_per_pixel(width, height, results),
        0 <= n < results.len(),
        ({
            let a = store_all(Seq::new(width * height, |k: int| None::<T>), width, results.take(n));
            forall|j: int|
                0 <= j < a.len() && (#[trigger] a[j]) is Some ==> exists|i: int|
                    0 <= i < n && result_index(#[trigger] results[i], width) == j
        }),
        store_all(Seq::new(width * height, |k: int| None::<T>), width, results.take(n)).len()
            == width * height,
    ensures
        store_all(Seq::new(width * height, |k: int| None::<T>), width, results.take(n))[result_index(
            results[n],
            width,
        )] is None,
{
    let a = store_all(Seq::new(width * height, |k: int| None::<T>), width, results.take(n));
    let j = result_index(results[n], width);
    assert(results[n].0 < height && results[n].1 < width);
    lemma_index_in_range(width, height, results[n]);
    if a[j] is Some {
        let i = choose|i: int| 0 <= i < n && result_index(#[trigger] results[i], width) == j;
        assert(results[i].0 < height && results[i].1 < width);
        lemma_row_major(results[i].0 as int, results[i].1 as int, width as int);
        lemma_row_major(results[n].0 as int, results[n].1 as int, width as int);
        assert((results[i].0, results[i].1) != (results[n].0, results[n].1));
    }
}

proof fn lemma_store_prefix<T>(width: nat, height: nat, results: Seq<(usize, usize, T)>, n: int)
    requires
        one_per_pixel(width, height, results),
        0 <= n <= results.len(),
    ensures
        ({
            let a = store_all(Seq::new(width * height, |k: int| None::<T>), width, results.take(n));
            &&& a.len() == width * height
            &&& forall|j: int|
                0 <= j < a.len() && (#[trigger] a[j]) is Some ==> exists|i: int|
                    0 <= i < n && result_index(#[trigger] results[i], width) == j
            &&& forall|i: int|
                0 <= i < n ==> a[result_index(#[trigger] results[i], width)] == Some(results[i].2)
            &&& count_written(filled(a)) == n
        }),
    decreases n,
{
    let start = Seq::new(width * height, |k: int| None::<T>);
    let a = store_all(start, width, results.take(n));
    if n == 0 {
        assert(results.take(0) =~= Seq::<(usize, usize, T)>::empty());
        assert(filled(start) =~= Seq::new(width * height, |k: int| false));
        lemma_count_none(width * height);
    } else {
        lemma_store_prefix(width, height, results, n - 1);
        lemma_store_prefix_fresh(width, height, results, n - 1);
        let p = store_all(start, width, results.take(n - 1));
        assert(results.take(n).drop_last() =~= results.take(n - 1));
        assert(results.take(n).last() == results[n - 1]);
        let m = results[n - 1];
        let j = result_index(m, width);
        assert(m.0 < height && m.1 < width);
        lemma_index_in_range(width, height, m);
        assert(a == p.update(j, Some(m.2)));
        assert(filled(a) =~= filled(p).update(j, true));
        lemma_count_update(filled(p), j);
        assert forall|jj: int| 0 <= jj < a.len() && (#[trigger] a[jj]) is Some implies exists|i: int|
            0 <= i < n && result_index(#[trigger] results[i], width) == jj by {
            if jj != j {
                assert(p[jj] is Some);
                let i = choose|i: int| 0 <= i < n - 1 && result_index(#[trigger] results[i], width) == jj;
                assert(0 <= i < n && result_index(results[i], width) == jj);
            } else {
                assert(result_index(results[n - 1], width) == jj);
            }
        }
        assert forall|i: int| 0 <= i < n implies a[result_index(#[trigger] results[i], width)] == Some(
            results[i].2,
        ) by {
            if i < n - 1 {
                assert(results[i].0 < height && results[i].1 < width);
                lemma_index_in_range(width, height, results[i]);
                lemma_row_major(results[i].0 as int, results[i].1 as int, width as int);
                lemma_row_major(m.0 as int, m.1 as int, width as int);
                assert((results[i].0, results[i].1) != (m.0, m.1));
            }
        }
    }
}

proof fn lemma_count_none(n: nat)
    ensures
        count_written(Seq::new(n, |k: int| false)) == 0,
    decreases n,
{
    if n > 0 {
        assert(Seq::new(n, |k: int| false).drop_last() =~= Seq::new((n - 1) as nat, |k: int| false));
        lemma_count_none((n - 1) as nat);
    }
}

} // verus!
