use vstd::prelude::*;
use vstd::relations::sorted_by;
use vstd::seq_lib::group_to_multiset_ensures;

verus! {

/// The order on grey levels.
pub open spec fn grey_leq() -> spec_fn(u8, u8) -> bool {
    |a: u8, b: u8| a <= b
}

/// Swapping two entries of a sequence keeps its multiset of values.
proof fn lemma_swap_keeps_multiset(s: Seq<u8>, i: int, j: int)
    requires
        0 <= i < s.len(),
        0 <= j < s.len(),
    ensures
        s.update(i, s[j]).update(j, s[i]).to_multiset() == s.to_multiset(),
{
    broadcast use group_to_multiset_ensures;
    broadcast use vstd::multiset::group_multiset_axioms;

    let t = s.update(i, s[j]);
    assert(t[j] == s[j]);
    assert(s.to_multiset().insert(s[j]).remove(s[i]).insert(s[i]).remove(s[j])
        =~= s.to_multiset());
}

/// Sorts grey levels in place into ascending order.
pub fn sort_pixels(v: &mut Vec<u8>)
    ensures
        final(v)@.to_multiset() == old(v)@.to_multiset(),
        sorted_by(final(v)@, grey_leq()),
{
    let n = v.len();
    let mut i: usize = 1;
    if n == 0 {
        return ;
    }
    while i < n
        invariant
            1 <= i <= n,
            n == v@.len(),
            v@.to_multiset() == old(v)@.to_multiset(),
            forall|a: int, b: int| 0 <= a < b < i ==> v@[a] <= v@[b],
        decreases n - i,
    {
        let mut j: usize = i;
        while j > 0 && v[j - 1] > v[j]
            invariant
                0 <= j <= i < n,
                n == v@.len(),
                v@.to_multiset() == old(v)@.to_multiset(),
                forall|a: int, b: int| 0 <= a < b <= i && a != j && b != j ==> v@[a] <= v@[b],
                forall|b: int| j < b <= i ==> v@[j as int] <= v@[b],
            decreases j,
        {
            let lo = v[j - 1];
            let hi = v[j];
            proof {
                lemma_swap_keeps_multiset(v@, j - 1, j as int);
            }
            v.set(j - 1, hi);
            v.set(j, lo);
            j = j - 1;
        }
        i = i + 1;
    }
}


/// The grey levels of a matrix of pixels, `m[x][y]` being the pixel in column `x` and row `y`.
pub open spec fn grid(mat: Vec<Vec<u8>>) -> Seq<Seq<u8>> {
    mat@.map_values(|row: Vec<u8>| row@)
}

/// The pixels of the first `k` columns of the `w`-by-`w` window whose corner is `(x, y)`,
/// column after column, each column from row `y` to row `y + w - 1`.
pub open spec fn window_columns(g: Seq<Seq<u8>>, x: int, y: int, w: int, k: int) -> Seq<u8>
    decreases k,
{
    if k <= 0 {
        Seq::empty()
    } else {
        window_columns(g, x, y, w, k - 1) + g[x + k - 1].subrange(y, y + w)
    }
}

/// The pixels of the `w`-by-`w` window whose corner is `(x, y)`, in the order in which the
/// filters read them.
pub open spec fn window(g: Seq<Seq<u8>>, x: int, y: int, w: int) -> Seq<u8> {
    window_columns(g, x, y, w, w)
}

/// The `w`-by-`w` window whose corner is `(x, y)` lies inside the matrix.
pub open spec fn window_fits(g: Seq<Seq<u8>>, x: int, y: int, w: int) -> bool {
    &&& 0 <= x
    &&& 0 <= y
    &&& 0 <= w
    &&& x + w <= g.len()
    &&& forall|c: int| x <= c < x + w ==> y + w <= #[trigger] g[c].len()
}

/// The median of a non-empty sequence of grey levels: the middle element once sorted, the
/// lower of the two middle elements when the length is even.
pub open spec fn median(s: Seq<u8>) -> u8 {
    s.sort_by(grey_leq())[(s.len() - 1) / 2]
}

proof fn lemma_window_columns_len(g: Seq<Seq<u8>>, x: int, y: int, w: int, k: int)
    requires
        window_fits(g, x, y, w),
        0 <= k <= w,
    ensures
        window_columns(g, x, y, w, k).len() == k * w,
    decreases k,
{
    if k > 0 {
        lemma_window_columns_len(g, x, y, w, k - 1);
        assert(x <= x + k - 1 < x + w);
        assert(y + w <= g[x + k - 1].len());
        assert(g[x + k - 1].subrange(y, y + w).len() == w);
        assert((k - 1) * w + w == k * w) by (nonlinear_arith);
        assert(window_columns(g, x, y, w, k) == window_columns(g, x, y, w, k - 1) + g[x + k
            - 1].subrange(y, y + w));
    } else {
        assert(k * w == 0) by (nonlinear_arith)
            requires
                k == 0,
        ;
    }
}

/// The length of a window is the square of its side.
pub proof fn lemma_window_len(g: Seq<Seq<u8>>, x: int, y: int, w: int)
    requires
        window_fits(g, x, y, w),
    ensures
        window(g, x, y, w).len() == w * w,
{
    lemma_window_columns_len(g, x, y, w, w);
}

/// Collects the pixels of a window, column after column.
fn collect_window(x: u32, y: u32, w: u32, mat_img: &Vec<Vec<u8>>) -> (v: Vec<u8>)
    requires
        x + w <= u32::MAX,
        y + w <= u32::MAX,
        window_fits(grid(*mat_img), x as int, y as int, w as int),
    ensures
        v@ == window(grid(*mat_img), x as int, y as int, w as int),
{
    let ghost g = grid(*mat_img);
    let mut vec: Vec<u8> = Vec::new();
    for x_cur in x..(x + w)
        invariant
            x + w <= u32::MAX,
            y + w <= u32::MAX,
            g == grid(*mat_img),
            window_fits(g, x as int, y as int, w as int),
            vec@ == window_columns(g, x as int, y as int, w as int, x_cur - x),
    {
        let ghost before = vec@;
        assert(y + w <= g[x_cur as int].len());
        for y_cur in y..(y + w)
            invariant
                x <= x_cur < x + w,
                y + w <= u32::MAX,
                window_fits(g, x as int, y as int, w as int),
                g == grid(*mat_img),
                y + w <= g[x_cur as int].len(),
                vec@ == before + g[x_cur as int].subrange(y as int, y_cur as int),
        {
            let x_test = x_cur as usize;
            let y_test = y_cur as usize;
            assert(mat_img@[x_test as int]@ == g[x_cur as int]);
            vec.push(mat_img[x_test][y_test]);
            assert(g[x_cur as int].subrange(y as int, y_cur + 1) =~= g[x_cur as int].subrange(
                y as int,
                y_cur as int,
            ).push(g[x_cur as int][y_cur as int]));
        }
        assert(vec@ =~= window_columns(g, x as int, y as int, w as int, x_cur - x + 1));
    }
    vec
}

/// The median grey level of the `w`-by-`w` window whose corner is `(x, y)`.
pub fn parse_matrice(x: u32, y: u32, w: u32, mat_img: Vec<Vec<u8>>) -> (m: u8)
    requires
        1 <= w,
        x + w <= u32::MAX,
        y + w <= u32::MAX,
        window_fits(grid(mat_img), x as int, y as int, w as int),
    ensures
        m == median(window(grid(mat_img), x as int, y as int, w as int)),
{
    let ghost g = grid(mat_img);
    let mut vec = collect_window(x, y, w, &mat_img);
    let ghost unsorted = vec@;
    proof {
        lemma_window_len(g, x as int, y as int, w as int);
        assert(1 <= (w as int) * (w as int)) by (nonlinear_arith)
            requires 1 <= w;
    }
    sort_pixels(&mut vec);
    proof {
        broadcast use group_to_multiset_ensures;
        assert(vstd::relations::total_ordering(grey_leq()));
        assert(vec@.to_multiset().len() == unsorted.to_multiset().len());
        assert(vec@.len() == unsorted.len());
        unsorted.lemma_sort_by_ensures(grey_leq());
        vstd::seq_lib::lemma_sorted_unique(vec@, unsorted.sort_by(grey_leq()), grey_leq());
    }
    vec[(vec.len() - 1) / 2]
}


/// Adds one grey level to a running total.
pub open spec fn add_grey() -> spec_fn(int, u8) -> int {
    |acc: int, v: u8| acc + v
}

/// The sum of a sequence of grey levels.
pub open spec fn total(s: Seq<u8>) -> int {
    s.fold_left(0int, add_grey())
}

/// The mean grey level of a non-empty sequence, rounded down.
pub open spec fn mean(s: Seq<u8>) -> int {
    total(s) / (s.len() as int)
}

/// Summing a prefix gives at most the whole sum, and at most 255 per element.
pub proof fn lemma_total_bounds(s: Seq<u8>, i: int)
    requires
        0 <= i <= s.len(),
    ensures
        0 <= total(s.take(i)) <= total(s),
        total(s) <= 255 * s.len(),
    decreases s.len(),
{
    if s.len() > 0 {
        let t = s.drop_last();
        assert(s.take(s.len() as int) =~= s);
        if i < s.len() {
            assert(s.take(i) =~= t.take(i));
            lemma_total_bounds(t, i);
        } else {
            lemma_total_bounds(t, t.len() as int);
            assert(t.take(t.len() as int) =~= t);
        }
    } else {
        assert(s.take(i) =~= s);
    }
}

/// The sum of grey levels does not depend on their order.
pub proof fn lemma_total_permutation(s1: Seq<u8>, s2: Seq<u8>)
    requires
        s1.to_multiset() == s2.to_multiset(),
    ensures
        total(s1) == total(s2),
{
    let f = add_grey();
    assert(vstd::seq_lib::commutative_foldl(f));
    vstd::seq_lib::lemma_fold_left_permutation(s1, s2, f, 0int);
}

/// The mean grey level of the `w`-by-`w` window whose corner is `(x, y)`, rounded down.
pub fn parse_matrice_c(x: u32, y: u32, w: u32, mat_img: Vec<Vec<u8>>) -> (m: u8)
    requires
        1 <= w,
        x + w <= u32::MAX,
        y + w <= u32::MAX,
        w * w <= u32::MAX,
        window_fits(grid(mat_img), x as int, y as int, w as int),
        total(window(grid(mat_img), x as int, y as int, w as int)) <= u32::MAX,
    ensures
        m == mean(window(grid(mat_img), x as int, y as int, w as int)),
{
    let ghost g = grid(mat_img);
    let mut vec = collect_window(x, y, w, &mat_img);
    let ghost unsorted = vec@;
    proof {
        lemma_window_len(g, x as int, y as int, w as int);
    }
    sort_pixels(&mut vec);
    proof {
        broadcast use group_to_multiset_ensures;
        assert(vec@.to_multiset().len() == unsorted.to_multiset().len());
        lemma_total_permutation(vec@, unsorted);
    }
    let mut sum = 0 as u32;
    let mut len = 0 as u32;
    for i_cur in 0..vec.len()
        invariant
            vec@.len() == w * w,
            w * w <= u32::MAX,
            total(vec@) <= u32::MAX,
            len == i_cur,
            sum == total(vec@.take(i_cur as int)),
    {
        proof {
            lemma_total_bounds(vec@, i_cur + 1);
            assert(vec@.take(i_cur + 1).drop_last() =~= vec@.take(i_cur as int));
        }
        len = len + 1;
        let i = vec[i_cur] as u32;
        sum = (sum + i);
    }
    proof {
        assert(vec@.take(vec@.len() as int) =~= vec@);
        lemma_total_bounds(vec@, 0);
        assert(1 <= (w as int) * (w as int)) by (nonlinear_arith)
            requires
                1 <= w,
        ;
        assert(sum / len <= 255) by (nonlinear_arith)
            requires
                sum <= 255 * len,
                1 <= len,
        ;
    }
    return (sum / len) as u8;
}


/// Adds the square of one grey level to a running total.
pub open spec fn add_square() -> spec_fn(int, u8) -> int {
    |acc: int, v: u8| acc + v * v
}

/// The sum, over the columns of a matrix, of the fold of each column by `f` from 0.
pub open spec fn grid_fold(g: Seq<Seq<u8>>, f: spec_fn(int, u8) -> int) -> int
    decreases g.len(),
{
    if g.len() == 0 {
        0
    } else {
        grid_fold(g.drop_last(), f) + g.last().fold_left(0int, f)
    }
}

/// The sum of all grey levels of a matrix.
pub open spec fn grid_total(g: Seq<Seq<u8>>) -> int {
    grid_fold(g, add_grey())
}

/// The sum of the squares of all grey levels of a matrix.
pub open spec fn grid_power(g: Seq<Seq<u8>>) -> int {
    grid_fold(g, add_square())
}

/// A fold whose step never decreases the accumulator.
pub open spec fn growing(f: spec_fn(int, u8) -> int) -> bool {
    forall|acc: int, v: u8| #[trigger] f(acc, v) >= acc
}

/// A growing fold of a prefix is at most that of the whole sequence, and not negative.
proof fn lemma_fold_prefix(s: Seq<u8>, f: spec_fn(int, u8) -> int, i: int)
    requires
        growing(f),
        0 <= i <= s.len(),
    ensures
        0 <= s.take(i).fold_left(0int, f) <= s.fold_left(0int, f),
        i < s.len() ==> s.take(i + 1).fold_left(0int, f) == f(s.take(i).fold_left(0int, f), s[i]),
    decreases s.len(),
{
    if i < s.len() {
        assert(s.take(i + 1).drop_last() =~= s.take(i));
    }
    if s.len() > 0 {
        let t = s.drop_last();
        assert(s.take(s.len() as int) =~= s);
        assert(f(t.fold_left(0int, f), s.last()) >= t.fold_left(0int, f));
        if i < s.len() {
            assert(s.take(i) =~= t.take(i));
            lemma_fold_prefix(t, f, i);
        } else {
            lemma_fold_prefix(t, f, t.len() as int);
            assert(t.take(t.len() as int) =~= t);
        }
    } else {
        assert(s.take(i) =~= s);
    }
}

/// The fold over the first columns of a matrix is at most that over all of them.
proof fn lemma_grid_fold_prefix(g: Seq<Seq<u8>>, f: spec_fn(int, u8) -> int, k: int)
    requires
        growing(f),
        0 <= k <= g.len(),
    ensures
        0 <= grid_fold(g.take(k), f) <= grid_fold(g, f),
        k < g.len() ==> grid_fold(g.take(k + 1), f) == grid_fold(g.take(k), f) + g[k].fold_left(
            0int,
            f,
        ),
    decreases g.len(),
{
    if k < g.len() {
        assert(g.take(k + 1).drop_last() =~= g.take(k));
    }
    if g.len() > 0 {
        let t = g.drop_last();
        assert(g.take(g.len() as int) =~= g);
        lemma_fold_prefix(g.last(), f, g.last().len() as int);
        assert(g.last().take(g.last().len() as int) =~= g.last());
        if k < g.len() {
            assert(g.take(k) =~= t.take(k));
            lemma_grid_fold_prefix(t, f, k);
        } else {
            lemma_grid_fold_prefix(t, f, t.len() as int);
            assert(t.take(t.len() as int) =~= t);
        }
    } else {
        assert(g.take(k) =~= g);
    }
}

/// The fold of one column by `f` (the sum, or the sum of squares), in `u32`.
fn fold_column(row: &Vec<u8>, squares: bool, bound: Ghost<int>) -> (r: u32)
    requires
        row@.fold_left(0int, if squares { add_square() } else { add_grey() }) <= bound@,
        bound@ <= u32::MAX,
    ensures
        r == row@.fold_left(0int, if squares { add_square() } else { add_grey() }),
{
    let ghost f = if squares { add_square() } else { add_grey() };
    let mut acc: u32 = 0;
    for i in 0..row.len()
        invariant
            f == (if squares { add_square() } else { add_grey() }),
            row@.fold_left(0int, f) <= bound@,
            bound@ <= u32::MAX,
            acc == row@.take(i as int).fold_left(0int, f),
    {
        proof {
            assert(growing(f));
            lemma_fold_prefix(row@, f, i + 1);
            lemma_fold_prefix(row@, f, i as int);
        }
        let val = row[i];
        if squares {
            acc = acc + (val as u32) * (val as u32);
        } else {
            acc = acc + val as u32;
        }
    }
    proof {
        assert(row@.take(row@.len() as int) =~= row@);
    }
    acc
}

/// The sum of all grey levels of the matrix, the numerator of the average grey level.
pub fn pixel_sum(mat_img: &Vec<Vec<u8>>) -> (sum: u32)
    requires
        grid_total(grid(*mat_img)) <= u32::MAX,
    ensures
        sum == grid_total(grid(*mat_img)),
{
    let ghost g = grid(*mat_img);
    let mut sum: u32 = 0;
    for x in 0..mat_img.len()
        invariant
            g == grid(*mat_img),
            grid_total(g) <= u32::MAX,
            sum == grid_total(g.take(x as int)),
    {
        proof {
            assert(growing(add_grey()));
            lemma_grid_fold_prefix(g, add_grey(), x + 1);
            lemma_grid_fold_prefix(g, add_grey(), x as int);
            assert(mat_img@[x as int]@ == g[x as int]);
        }
        let row_sum = fold_column(&mat_img[x], false, Ghost(grid_total(g)));
        sum = sum + row_sum;
    }
    proof {
        assert(g.take(g.len() as int) =~= g);
    }
    sum
}

/// The powers of two images, the numerator and denominator of their signal-to-noise
/// ratio: the sums of the squares of the grey levels of `mat_img_a`, and of the same number
/// of columns of `mat_img_b`.
pub fn snr_powers(mat_img_a: &Vec<Vec<u8>>, mat_img_b: &Vec<Vec<u8>>) -> (powers: (u32, u32))
    requires
        mat_img_a@.len() <= mat_img_b@.len(),
        grid_power(grid(*mat_img_a)) <= u32::MAX,
        grid_power(grid(*mat_img_b).take(mat_img_a@.len() as int)) <= u32::MAX,
    ensures
        powers.0 == grid_power(grid(*mat_img_a)),
        powers.1 == grid_power(grid(*mat_img_b).take(mat_img_a@.len() as int)),
{
    let ghost ga = grid(*mat_img_a);
    let ghost gb = grid(*mat_img_b).take(mat_img_a@.len() as int);
    let mut p_signal: u32 = 0;
    let mut p_noise: u32 = 0;
    for x in 0..mat_img_a.len()
        invariant
            ga == grid(*mat_img_a),
            gb == grid(*mat_img_b).take(mat_img_a@.len() as int),
            mat_img_a@.len() <= mat_img_b@.len(),
            grid_power(ga) <= u32::MAX,
            grid_power(gb) <= u32::MAX,
            p_signal == grid_power(ga.take(x as int)),
            p_noise == grid_power(gb.take(x as int)),
    {
        proof {
            assert(growing(add_square()));
            lemma_grid_fold_prefix(ga, add_square(), x + 1);
            lemma_grid_fold_prefix(gb, add_square(), x + 1);
            lemma_grid_fold_prefix(ga, add_square(), x as int);
            lemma_grid_fold_prefix(gb, add_square(), x as int);
            assert(mat_img_a@[x as int]@ == ga[x as int]);
            assert(mat_img_b@[x as int]@ == gb[x as int]);
        }
        p_signal = p_signal + fold_column(&mat_img_a[x], true, Ghost(grid_power(ga)));
        p_noise = p_noise + fold_column(&mat_img_b[x], true, Ghost(grid_power(gb)));
    }
    proof {
        assert(ga.take(ga.len() as int) =~= ga);
        assert(gb.take(gb.len() as int) =~= gb);
    }
    (p_signal, p_noise)
}


/// The median of a non-empty sequence of grey levels is one of its elements.
pub proof fn lemma_median_is_member(s: Seq<u8>)
    requires
        1 <= s.len(),
    ensures
        s.contains(median(s)),
{
    broadcast use group_to_multiset_ensures;

    assert(vstd::relations::total_ordering(grey_leq()));
    s.lemma_sort_by_ensures(grey_leq());
    let sorted = s.sort_by(grey_leq());
    assert(sorted.to_multiset().len() == s.to_multiset().len());
    let k = (s.len() - 1) / 2;
    assert(sorted[k] == median(s));
    assert(sorted.contains(sorted[k]));
    assert(s.to_multiset().count(sorted[k]) > 0);
}

/// Bounds on the elements bound the total.
proof fn lemma_total_between(s: Seq<u8>, lo: u8, hi: u8)
    requires
        forall|i: int| 0 <= i < s.len() ==> lo <= #[trigger] s[i] <= hi,
    ensures
        lo * s.len() <= total(s) <= hi * s.len(),
    decreases s.len(),
{
    if s.len() > 0 {
        let t = s.drop_last();
        lemma_total_between(t, lo, hi);
        assert(s.last() == s[s.len() - 1]);
        assert(lo * s.len() == lo * t.len() + lo) by (nonlinear_arith)
            requires
                s.len() == t.len() + 1,
        ;
        assert(hi * s.len() == hi * t.len() + hi) by (nonlinear_arith)
            requires
                s.len() == t.len() + 1,
        ;
    }
}

/// The mean of a non-empty sequence of grey levels lies between any bounds of its elements:
/// averaging never leaves the range of the averaged pixels.
pub proof fn lemma_mean_between(s: Seq<u8>, lo: u8, hi: u8)
    requires
        1 <= s.len(),
        forall|i: int| 0 <= i < s.len() ==> lo <= #[trigger] s[i] <= hi,
    ensures
        lo <= mean(s) <= hi,
{
    lemma_total_between(s, lo, hi);
    let n = s.len() as int;
    let t = total(s);
    assert(lo <= t / n <= hi) by (nonlinear_arith)
        requires
            1 <= n,
            lo * n <= t <= hi * n,
    {
        vstd::arithmetic::div_mod::lemma_div_is_ordered(lo * n, t, n);
        vstd::arithmetic::div_mod::lemma_div_is_ordered(t, hi * n, n);
        vstd::arithmetic::div_mod::lemma_div_multiples_vanish(lo as int, n);
        vstd::arithmetic::div_mod::lemma_div_multiples_vanish(hi as int, n);
    }
}


/// The fold by `f` of the first `rows` columns, or `u32::MAX + 1` when it is larger.
fn capped_grid_fold(mat_img: &Vec<Vec<u8>>, rows: usize, squares: bool) -> (r: u64)
    requires
        rows <= mat_img@.len(),
    ensures
        r == if grid_fold(grid(*mat_img).take(rows as int), if squares { add_square() } else { add_grey() })
            <= u32::MAX {
            grid_fold(grid(*mat_img).take(rows as int), if squares { add_square() } else { add_grey() })
        } else {
            u32::MAX + 1
        },
{
    let ghost f = if squares { add_square() } else { add_grey() };
    let ghost g = grid(*mat_img).take(rows as int);
    let mut acc: u64 = 0;
    let mut x: usize = 0;
    while x < rows
        invariant
            f == (if squares { add_square() } else { add_grey() }),
            g == grid(*mat_img).take(rows as int),
            rows <= mat_img@.len(),
            x <= rows,
            acc == grid_fold(g.take(x as int), f),
            acc <= u32::MAX,
        decreases rows - x,
    {
        proof {
            assert(growing(f));
            lemma_grid_fold_prefix(g, f, x + 1);
            assert(mat_img@[x as int]@ == g[x as int]);
        }
        let row = &mat_img[x];
        let ghost row_fold = g[x as int].fold_left(0int, f);
        let mut i: usize = 0;
        while i < row.len()
            invariant
                f == (if squares { add_square() } else { add_grey() }),
                g == grid(*mat_img).take(rows as int),
                rows <= mat_img@.len(),
                x < rows,
                row@ == g[x as int],
                i <= row@.len(),
                acc == grid_fold(g.take(x as int), f) + row@.take(i as int).fold_left(0int, f),
                acc <= u32::MAX,
            decreases row@.len() - i,
        {
            proof {
                assert(growing(f));
                lemma_fold_prefix(row@, f, i as int);
            }
            let val = row[i] as u64;
            if squares {
                assert(val * val <= 65025) by (nonlinear_arith)
                    requires
                        val <= 255,
                ;
                acc = acc + val * val;
            } else {
                acc = acc + val;
            }
            if acc > 0xffff_ffff {
                proof {
                    assert(growing(f));
                    lemma_fold_prefix(row@, f, i + 1);
                    lemma_fold_prefix(row@, f, row@.len() as int);
                    lemma_grid_fold_prefix(g, f, x + 1);
                    lemma_grid_fold_prefix(g, f, x as int);
                    assert(g.take(g.len() as int) =~= g);
                    assert(row@.take(row@.len() as int) =~= row@);
                }
                return 0x1_0000_0000;
            }
            i = i + 1;
        }
        proof {
            assert(row@.take(row@.len() as int) =~= row@);
            assert(growing(f));
            lemma_grid_fold_prefix(g, f, x as int);
        }
        x = x + 1;
    }
    proof {
        assert(g.take(g.len() as int) =~= g);
    }
    acc
}

/// Whether `pixel_sum` can add up the matrix in `u32`.
pub fn pixel_sum_fits(mat_img: &Vec<Vec<u8>>) -> (fits: bool)
    ensures
        fits == (grid_total(grid(*mat_img)) <= u32::MAX),
{
    let total = capped_grid_fold(mat_img, mat_img.len(), false);
    proof {
        assert(grid(*mat_img).take(mat_img@.len() as int) =~= grid(*mat_img));
    }
    total <= 0xffff_ffff
}

/// Whether `snr_powers` can compute both powers in `u32`.
pub fn snr_powers_fit(mat_img_a: &Vec<Vec<u8>>, mat_img_b: &Vec<Vec<u8>>) -> (fits: bool)
    ensures
        fits == (mat_img_a@.len() <= mat_img_b@.len() && grid_power(grid(*mat_img_a)) <= u32::MAX
            && grid_power(grid(*mat_img_b).take(mat_img_a@.len() as int)) <= u32::MAX),
{
    if mat_img_a.len() > mat_img_b.len() {
        return false;
    }
    let a = capped_grid_fold(mat_img_a, mat_img_a.len(), true);
    let b = capped_grid_fold(mat_img_b, mat_img_a.len(), true);
    proof {
        assert(grid(*mat_img_a).take(mat_img_a@.len() as int) =~= grid(*mat_img_a));
    }
    a <= 0xffff_ffff && b <= 0xffff_ffff
}


/// The matrix has at least `cols` columns, each of the first `cols` with at least `rows` rows.
pub open spec fn covers(g: Seq<Seq<u8>>, cols: int, rows: int) -> bool {
    &&& cols <= g.len()
    &&& forall|c: int| 0 <= c < cols ==> rows <= #[trigger] g[c].len()
}

/// Whether the matrix has at least `cols` columns, each of the first `cols` with at least
/// `rows` rows.
pub fn covers_exec(mat_img: &Vec<Vec<u8>>, cols: usize, rows: usize) -> (c: bool)
    ensures
        c == covers(grid(*mat_img), cols as int, rows as int),
{
    if cols > mat_img.len() {
        return false;
    }
    let mut x: usize = 0;
    while x < cols
        invariant
            cols <= mat_img@.len(),
            x <= cols,
            forall|c: int| 0 <= c < x ==> rows <= #[trigger] grid(*mat_img)[c].len(),
        decreases cols - x,
    {
        if mat_img[x].len() < rows {
            assert(grid(*mat_img)[x as int].len() < rows);
            return false;
        }
        x = x + 1;
    }
    true
}


/// The sum of the grey levels of the `w`-by-`w` window whose corner is `(x, y)`, in `u64`.
pub(crate) fn window_total(x: u32, y: u32, w: u32, mat_img: &Vec<Vec<u8>>) -> (t: u64)
    requires
        x + w <= u32::MAX,
        y + w <= u32::MAX,
        w * w <= u32::MAX,
        window_fits(grid(*mat_img), x as int, y as int, w as int),
    ensures
        t == total(window(grid(*mat_img), x as int, y as int, w as int)),
{
    let v = collect_window(x, y, w, mat_img);
    proof {
        lemma_window_len(grid(*mat_img), x as int, y as int, w as int);
        lemma_total_bounds(v@, v@.len() as int);
    }
    let mut acc: u64 = 0;
    for i in 0..v.len()
        invariant
            v@.len() == w * w,
            w * w <= u32::MAX,
            total(v@) <= 255 * v@.len(),
            acc == total(v@.take(i as int)),
    {
        proof {
            lemma_total_bounds(v@, i + 1);
            assert(v@.take(i + 1).drop_last() =~= v@.take(i as int));
        }
        acc = acc + v[i] as u64;
    }
    proof {
        assert(v@.take(v@.len() as int) =~= v@);
    }
    acc
}


/// Counts one more element when it is at most `v`.
pub open spec fn add_le(v: u8) -> spec_fn(int, u8) -> int {
    |acc: int, e: u8| acc + if e <= v { 1int } else { 0int }
}

/// The number of elements of `s` that are at most `v`.
pub open spec fn count_le(s: Seq<u8>, v: u8) -> int {
    s.fold_left(0int, add_le(v))
}

proof fn lemma_count_le_permutation(s1: Seq<u8>, s2: Seq<u8>, v: u8)
    requires
        s1.to_multiset() == s2.to_multiset(),
    ensures
        count_le(s1, v) == count_le(s2, v),
{
    let f = add_le(v);
    assert(vstd::seq_lib::commutative_foldl(f));
    vstd::seq_lib::lemma_fold_left_permutation(s1, s2, f, 0int);
}

proof fn lemma_count_le_len(s: Seq<u8>, v: u8)
    ensures
        0 <= count_le(s, v) <= s.len(),
        (forall|i: int| 0 <= i < s.len() ==> #[trigger] s[i] <= v) ==> count_le(s, v) == s.len(),
    decreases s.len(),
{
    if s.len() > 0 {
        lemma_count_le_len(s.drop_last(), v);
        if forall|i: int| 0 <= i < s.len() ==> #[trigger] s[i] <= v {
            assert forall|i: int| 0 <= i < s.drop_last().len() implies #[trigger] s.drop_last()[i]
                <= v by {
                assert(s[i] <= v);
            }
            assert(s[s.len() - 1] <= v);
        }
    }
}

proof fn lemma_count_le_pointwise(s1: Seq<u8>, s2: Seq<u8>, v: u8)
    requires
        s1.len() == s2.len(),
        forall|i: int| 0 <= i < s1.len() ==> s1[i] <= #[trigger] s2[i],
    ensures
        count_le(s1, v) >= count_le(s2, v),
    decreases s1.len(),
{
    if s1.len() > 0 {
        let n = s1.len() - 1;
        assert(s1[n] <= s2[n]);
        assert forall|i: int| 0 <= i < s1.drop_last().len() implies s1.drop_last()[i]
            <= #[trigger] s2.drop_last()[i] by {
            assert(s1[i] <= s2[i]);
        }
        lemma_count_le_pointwise(s1.drop_last(), s2.drop_last(), v);
    }
}

proof fn lemma_count_le_sorted(t: Seq<u8>, v: u8, k: int)
    requires
        sorted_by(t, grey_leq()),
        0 <= k < t.len(),
    ensures
        t[k] <= v ==> count_le(t, v) >= k + 1,
        v < t[k] ==> count_le(t, v) <= k,
    decreases t.len(),
{
    let n = t.len() - 1;
    let d = t.drop_last();
    assert(sorted_by(d, grey_leq())) by {
        assert forall|i: int, j: int| 0 <= i < j < d.len() implies #[trigger] grey_leq()(
            d[i],
            d[j],
        ) by {
            assert(grey_leq()(t[i], t[j]));
        }
    }
    lemma_count_le_len(d, v);
    if k < n {
        assert(grey_leq()(t[k], t[n]));
        assert(d[k] == t[k]);
        lemma_count_le_sorted(d, v, k);
    } else {
        if t[k] <= v {
            assert forall|i: int| 0 <= i < d.len() implies #[trigger] d[i] <= v by {
                assert(grey_leq()(t[i], t[k]));
            }
        }
    }
}

/// The median is monotone: raising some grey levels of a sequence, and lowering none, never
/// lowers its median.
pub proof fn lemma_median_monotone(s1: Seq<u8>, s2: Seq<u8>)
    requires
        1 <= s1.len(),
        s1.len() == s2.len(),
        forall|i: int| 0 <= i < s1.len() ==> s1[i] <= #[trigger] s2[i],
    ensures
        median(s1) <= median(s2),
{
    broadcast use group_to_multiset_ensures;

    assert(vstd::relations::total_ordering(grey_leq()));
    s1.lemma_sort_by_ensures(grey_leq());
    s2.lemma_sort_by_ensures(grey_leq());
    let t1 = s1.sort_by(grey_leq());
    let t2 = s2.sort_by(grey_leq());
    assert(t1.to_multiset().len() == s1.to_multiset().len());
    assert(t2.to_multiset().len() == s2.to_multiset().len());
    let k = (s1.len() - 1) / 2;
    let v = t2[k];
    lemma_count_le_sorted(t2, v, k);
    lemma_count_le_permutation(s2, t2, v);
    lemma_count_le_pointwise(s1, s2, v);
    lemma_count_le_permutation(s1, t1, v);
    lemma_count_le_sorted(t1, v, k);
}

/// The median of a non-empty sequence whose elements all equal `v` is `v`.
pub proof fn lemma_median_constant(s: Seq<u8>, v: u8)
    requires
        1 <= s.len(),
        forall|i: int| 0 <= i < s.len() ==> #[trigger] s[i] == v,
    ensures
        median(s) == v,
{
    lemma_median_is_member(s);
}

/// Windows of two matrices compare element by element as the matrices do on the window.
proof fn lemma_window_columns_le(g1: Seq<Seq<u8>>, g2: Seq<Seq<u8>>, x: int, y: int, w: int, k: int)
    requires
        window_fits(g1, x, y, w),
        window_fits(g2, x, y, w),
        0 <= k <= w,
        forall|c: int, r: int|
            x <= c < x + w && y <= r < y + w ==> #[trigger] g1[c][r] <= g2[c][r],
    ensures
        window_columns(g1, x, y, w, k).len() == window_columns(g2, x, y, w, k).len(),
        forall|i: int|
            0 <= i < window_columns(g1, x, y, w, k).len() ==> #[trigger] window_columns(
                g1,
                x,
                y,
                w,
                k,
            )[i] <= window_columns(g2, x, y, w, k)[i],
    decreases k,
{
    lemma_window_columns_len(g1, x, y, w, k);
    lemma_window_columns_len(g2, x, y, w, k);
    if k > 0 {
        lemma_window_columns_le(g1, g2, x, y, w, k - 1);
        let a1 = window_columns(g1, x, y, w, k - 1);
        let a2 = window_columns(g2, x, y, w, k - 1);
        let c = x + k - 1;
        assert(y + w <= g1[c].len());
        assert(y + w <= g2[c].len());
        let b1 = g1[c].subrange(y, y + w);
        let b2 = g2[c].subrange(y, y + w);
        assert(window_columns(g1, x, y, w, k) == a1 + b1);
        assert(window_columns(g2, x, y, w, k) == a2 + b2);
        assert forall|i: int| 0 <= i < (a1 + b1).len() implies #[trigger] (a1 + b1)[i] <= (a2
            + b2)[i] by {
            if i >= a1.len() {
                assert(g1[c][y + i - a1.len()] <= g2[c][y + i - a1.len()]);
            }
        }
    }
}

/// Elements of a window whose pixels all equal `v` all equal `v`.
proof fn lemma_window_columns_constant(g: Seq<Seq<u8>>, x: int, y: int, w: int, k: int, v: u8)
    requires
        window_fits(g, x, y, w),
        0 <= k <= w,
        forall|c: int, r: int| x <= c < x + w && y <= r < y + w ==> #[trigger] g[c][r] == v,
    ensures
        forall|i: int|
            0 <= i < window_columns(g, x, y, w, k).len() ==> #[trigger] window_columns(
                g,
                x,
                y,
                w,
                k,
            )[i] == v,
    decreases k,
{
    if k > 0 {
        lemma_window_columns_constant(g, x, y, w, k - 1, v);
        let a = window_columns(g, x, y, w, k - 1);
        let c = x + k - 1;
        assert(y + w <= g[c].len());
        let b = g[c].subrange(y, y + w);
        assert(window_columns(g, x, y, w, k) == a + b);
        assert forall|i: int| 0 <= i < (a + b).len() implies #[trigger] (a + b)[i] == v by {
            if i >= a.len() {
                assert(g[c][y + i - a.len()] == v);
            }
        }
    }
}

/// A window of pixels that all equal `v` has median `v`.
pub proof fn lemma_window_median_constant(g: Seq<Seq<u8>>, x: int, y: int, w: int, v: u8)
    requires
        window_fits(g, x, y, w),
        1 <= w,
        forall|c: int, r: int| x <= c < x + w && y <= r < y + w ==> #[trigger] g[c][r] == v,
    ensures
        median(window(g, x, y, w)) == v,
{
    lemma_window_len(g, x, y, w);
    assert(1 <= w * w) by (nonlinear_arith)
        requires
            1 <= w,
    ;
    lemma_window_columns_constant(g, x, y, w, w, v);
    lemma_median_constant(window(g, x, y, w), v);
}

/// `parse_matrice` is monotone in the matrix: where no pixel of the window is darker in the
/// second matrix than in the first, its median is not darker either.
pub proof fn lemma_window_median_monotone(g1: Seq<Seq<u8>>, g2: Seq<Seq<u8>>, x: int, y: int, w: int)
    requires
        window_fits(g1, x, y, w),
        window_fits(g2, x, y, w),
        1 <= w,
        forall|c: int, r: int|
            x <= c < x + w && y <= r < y + w ==> #[trigger] g1[c][r] <= g2[c][r],
    ensures
        median(window(g1, x, y, w)) <= median(window(g2, x, y, w)),
{
    lemma_window_len(g1, x, y, w);
    assert(1 <= w * w) by (nonlinear_arith)
        requires
            1 <= w,
    ;
    lemma_window_columns_le(g1, g2, x, y, w, w);
    lemma_median_monotone(window(g1, x, y, w), window(g2, x, y, w));
}

} // verus!
