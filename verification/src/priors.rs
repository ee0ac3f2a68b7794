use crate::accuracy;
use crate::binary32;
use crate::binary32::Binary32;
use crate::rearrangement;
use crate::rounding;
use crate::tensor::Matrix;
use vstd::arithmetic::power2::*;
use vstd::prelude::*;

verus! {

/// Width of the network's input, in pixels.
pub const INPUT_WIDTH: i32 = 320;

/// Height of the network's input, in pixels.
pub const INPUT_HEIGHT: i32 = 320;

/// How far apart the cells of each feature map lie, in pixels.
pub const STEPS: [i32; 3] = [8, 16, 32];

/// The sizes of the boxes around each cell of a feature map, in pixels. A last size of 0 is none.
pub const MIN_SIZES: [[i32; 3]; 3] = [[10, 16, 24], [32, 48, 0], [64, 96, 0]];

/// How many cells of a step cover an input length: the length divided by the step, rounded up.
pub open spec fn cells(input: int, level: int) -> int {
    binary32::ceiling(
        binary32::quotient(binary32::of_int(input), binary32::of_int(STEPS[level] as int)),
    )
}

/// How many cells there are where the number of them may be negative.
pub open spec fn count(cells: int) -> nat {
    if cells < 0 {
        0
    } else {
        cells as nat
    }
}

/// How many boxes stand around each cell of a feature map.
pub open spec fn sizes(level: int) -> nat {
    if MIN_SIZES[level][2] == 0 {
        2
    } else {
        3
    }
}

/// One half.
pub open spec fn half() -> Binary32 {
    Binary32 { bits: 0x3f00_0000 }
}

/// The middle of a cell, as a fraction of the input length.
pub open spec fn center(input: int, level: int, cell: int) -> Binary32 {
    binary32::quotient(
        binary32::product(
            binary32::sum(binary32::of_int(cell), half()),
            binary32::of_int(STEPS[level] as int),
        ),
        binary32::of_int(input),
    )
}

/// The size of a box, as a fraction of the input length.
pub open spec fn extent(input: int, level: int, size: int) -> Binary32 {
    binary32::quotient(binary32::of_int(MIN_SIZES[level][size] as int), binary32::of_int(input))
}

/// A prior box: its center and its size, across and down.
pub open spec fn prior(input_w: int, input_h: int, level: int, i: int, j: int, size: int) -> Seq<u32> {
    seq![
        center(input_w, level, j).bits,
        center(input_h, level, i).bits,
        extent(input_w, level, size).bits,
        extent(input_h, level, size).bits,
    ]
}

/// How many prior boxes a feature map has.
pub open spec fn level_count(input_w: int, input_h: int, level: int) -> nat {
    count(cells(input_h, level)) * count(cells(input_w, level)) * sizes(level)
}

/// The prior boxes of a feature map: row by row, in each row from the left, and at each cell from
/// the smallest box.
pub open spec fn level_priors(input_w: int, input_h: int, level: int) -> Seq<Seq<u32>> {
    let across = count(cells(input_w, level));
    let n = sizes(level);
    Seq::new(
        level_count(input_w, input_h, level),
        |r: int|
            prior(
                input_w,
                input_h,
                level,
                (r / (n as int)) / (across as int),
                (r / (n as int)) % (across as int),
                r % (n as int),
            ),
    )
}

/// How many prior boxes the feature maps before a level have.
pub open spec fn count_before(input_w: int, input_h: int, level: nat) -> nat
    decreases level,
{
    if level == 0 {
        0
    } else {
        count_before(input_w, input_h, (level - 1) as nat) + level_count(input_w, input_h, level - 1)
    }
}

/// The prior boxes of the feature maps before a level, the finest first.
pub open spec fn priors_before(input_w: int, input_h: int, level: nat) -> Seq<Seq<u32>>
    decreases level,
{
    if level == 0 {
        Seq::empty()
    } else {
        priors_before(input_w, input_h, (level - 1) as nat) + level_priors(input_w, input_h, level - 1)
    }
}

/// How many prior boxes there are.
pub open spec fn prior_count(input_w: int, input_h: int) -> nat {
    count_before(input_w, input_h, 3)
}

/// All prior boxes.
pub open spec fn priors(input_w: int, input_h: int) -> Seq<Seq<u32>> {
    priors_before(input_w, input_h, 3)
}

/// The flat values are the rows one after another.
spec fn flattens(flat: Seq<u32>, rows: Seq<Seq<u32>>) -> bool {
    &&& flat.len() == 4 * rows.len()
    &&& forall|r: int, c: int|
        0 <= r < rows.len() && 0 <= c < 4 ==> #[trigger] rows[r][c] == flat[4 * r + c]
    &&& forall|r: int| 0 <= r < rows.len() ==> (#[trigger] rows[r]).len() == 4
}

/// Where the boxes of cell `(i, j)` start within a feature map.
proof fn lemma_place(i: int, j: int, k: int, across: int, n: int, down: int)
    requires
        0 <= i < down,
        0 <= j < across,
        0 <= k < n,
    ensures
        ((i * across + j) * n + k) / n == i * across + j,
        ((i * across + j) * n + k) % n == k,
        (i * across + j) / across == i,
        (i * across + j) % across == j,
        0 <= (i * across + j) * n + k < down * across * n,
{
    let cell = i * across + j;
    vstd::arithmetic::div_mod::lemma_fundamental_div_mod_converse(cell * n + k, n, cell, k);
    vstd::arithmetic::div_mod::lemma_fundamental_div_mod_converse(cell, across, i, j);
    assert(0 <= cell && cell + 1 <= down * across) by (nonlinear_arith)
        requires
            0 <= i < down,
            0 <= j < across,
            cell == i * across + j,
    ;
    let all = down * across;
    assert(0 <= cell * n && cell * n + n <= all * n) by (nonlinear_arith)
        requires
            0 <= cell,
            cell + 1 <= all,
            n > 0,
    ;
}

proof fn lemma_priors_before_len(input_w: int, input_h: int, level: nat)
    ensures
        priors_before(input_w, input_h, level).len() == count_before(input_w, input_h, level),
    decreases level,
{
    if level > 0 {
        lemma_priors_before_len(input_w, input_h, (level - 1) as nat);
    }
}

/// Puts one more row of four behind the others.
fn push_row(flat: &mut Vec<u32>, a: Binary32, b: Binary32, c: Binary32, d: Binary32, Ghost(rows): Ghost<Seq<Seq<u32>>>)
    requires
        flattens(old(flat)@, rows),
    ensures
        flattens(final(flat)@, rows.push(seq![a.bits, b.bits, c.bits, d.bits])),
{
    let ghost before = flat@;
    flat.push(a.bits);
    flat.push(b.bits);
    flat.push(c.bits);
    flat.push(d.bits);
    proof {
        let next = rows.push(seq![a.bits, b.bits, c.bits, d.bits]);
        assert forall|r: int, c: int| 0 <= r < next.len() && 0 <= c < 4 implies #[trigger] next[r][c]
            == flat@[4 * r + c] by {
            if r < rows.len() {
                assert(rows[r][c] == before[4 * r + c]);
            }
        }
        assert forall|r: int| 0 <= r < next.len() implies (#[trigger] next[r]).len() == 4 by {
            if r < rows.len() {
                assert(rows[r].len() == 4);
            }
        }
    }
}

/// One feature map's prior boxes, put behind those that are already there.
#[verifier::spinoff_prover]
fn push_level(flat: &mut Vec<u32>, level: usize, input_w: i32, input_h: i32, Ghost(rows): Ghost<Seq<Seq<u32>>>)
    requires
        level < 3,
        flattens(old(flat)@, rows),
    ensures
        flattens(final(flat)@, rows + level_priors(input_w as int, input_h as int, level as int)),
{
    let step: i32 = STEPS[level];
    let min_sizes = MIN_SIZES[level];
    let width = Binary32::from_i32(input_w);
    let height = Binary32::from_i32(input_h);
    let pitch = Binary32::from_i32(step);
    let one_half = Binary32::from_bits(0x3f00_0000);
    let fm_h: i32 = height.over(pitch).ceil_to_i32();
    let fm_w: i32 = width.over(pitch).ceil_to_i32();
    let num_sizes: usize = if min_sizes[2] == 0 {
        2
    } else {
        3
    };
    let ghost (w, h, l) = (input_w as int, input_h as int, level as int);
    let ghost all = level_priors(w, h, l);
    let ghost across = count(cells(w, l)) as int;
    let ghost down = count(cells(h, l)) as int;
    let ghost n = sizes(l) as int;
    assert(rows + all.take(0) =~= rows);
    let mut i: i32 = 0;
    assert(0 * across * n == 0) by (nonlinear_arith);
    while i < fm_h
        invariant
            0 <= i,
            i <= down,
            level < 3,
            l == level,
            w == input_w,
            h == input_h,
            fm_h == cells(h, l),
            fm_w == cells(w, l),
            down == count(fm_h as int),
            across == count(fm_w as int),
            n == sizes(l) == num_sizes,
            all == level_priors(w, h, l),
            min_sizes == MIN_SIZES[l],
            width == binary32::of_int(w),
            height == binary32::of_int(h),
            pitch == binary32::of_int(STEPS[l] as int),
            one_half == half(),
            i * across * n <= all.len(),
            flattens(flat@, rows + all.take(i * across * n)),
        decreases fm_h - i,
    {
        let mut j: i32 = 0;
        assert((i * across + 0) * n == i * across * n) by (nonlinear_arith);
        while j < fm_w
            invariant
                0 <= i < fm_h,
                0 <= j,
                j <= across,
                level < 3,
                l == level,
                w == input_w,
                h == input_h,
                fm_h == cells(h, l),
                fm_w == cells(w, l),
                down == count(fm_h as int),
                across == count(fm_w as int),
                n == sizes(l) == num_sizes,
                all == level_priors(w, h, l),
                min_sizes == MIN_SIZES[l],
                width == binary32::of_int(w),
                height == binary32::of_int(h),
                pitch == binary32::of_int(STEPS[l] as int),
                one_half == half(),
                0 <= (i * across + j) * n <= all.len(),
                flattens(flat@, rows + all.take((i * across + j) * n)),
            decreases fm_w - j,
        {
            let cx = Binary32::from_i32(j).plus(one_half).times(pitch).over(width);
            let cy = Binary32::from_i32(i).plus(one_half).times(pitch).over(height);
            let mut k: usize = 0;
            while k < num_sizes
                invariant
                    0 <= i < fm_h,
                    0 <= j < fm_w,
                    k <= num_sizes,
                    level < 3,
                    l == level,
                    w == input_w,
                    h == input_h,
                    fm_h == cells(h, l),
                    fm_w == cells(w, l),
                    down == count(fm_h as int),
                    across == count(fm_w as int),
                    n == sizes(l) == num_sizes,
                    all == level_priors(w, h, l),
                    min_sizes == MIN_SIZES[l],
                    width == binary32::of_int(w),
                    height == binary32::of_int(h),
                    cx == center(w, l, j as int),
                    cy == center(h, l, i as int),
                    0 <= (i * across + j) * n + k <= all.len(),
                    flattens(flat@, rows + all.take((i * across + j) * n + k)),
                decreases num_sizes - k,
            {
                let ghost place = (i * across + j) * n + k;
                proof {
                    lemma_place(i as int, j as int, k as int, across, n, down);
                    assert(all[place] == prior(w, h, l, i as int, j as int, k as int));
                    assert(all.take(place + 1) =~= all.take(place).push(all[place]));
                }
                let s_kx = Binary32::from_i32(min_sizes[k]).over(width);
                let s_ky = Binary32::from_i32(min_sizes[k]).over(height);
                push_row(flat, cx, cy, s_kx, s_ky, Ghost(rows + all.take(place)));
                assert((rows + all.take(place)).push(all[place]) =~= rows + all.take(place + 1));
                k = k + 1;
            }
            proof {
                lemma_place(i as int, j as int, 0, across, n, down);
                let ii = i as int;
                let jj = j as int;
                assert((ii * across + jj) * n + n == (ii * across + (jj + 1)) * n) by (nonlinear_arith);
            }
            j = j + 1;
        }
        proof {
            let ii = i as int;
            assert((ii * across + across) * n == (ii + 1) * across * n) by (nonlinear_arith);
        }
        i = i + 1;
    }
    proof {
        assert(i * across * n == all.len());
        assert(all.take(all.len() as int) =~= all);
    }
}

/// The prior boxes of the network for an input of the given size, one to a row: the center and
/// the size of each, as fractions of the input.
pub fn generate_priors(input_w: i32, input_h: i32) -> (r: Matrix)
    requires
        4 * prior_count(input_w as int, input_h as int) <= isize::MAX,
    ensures
        r@ == priors(input_w as int, input_h as int),
        r@.len() == prior_count(input_w as int, input_h as int),
        r.columns() == 4,
{
    let mut flat: Vec<u32> = Vec::new();
    let ghost (w, h) = (input_w as int, input_h as int);
    let mut level: usize = 0;
    while level < 3
        invariant
            level <= 3,
            w == input_w,
            h == input_h,
            flattens(flat@, priors_before(w, h, level as nat)),
        decreases 3 - level,
    {
        push_level(&mut flat, level, input_w, input_h, Ghost(priors_before(w, h, level as nat)));
        level = level + 1;
    }
    let ghost rows = priors(w, h);
    proof {
        lemma_priors_before_len(w, h, 3);
    }
    let number: usize = flat.len() / 4;
    let ghost values = flat@;
    match Matrix::from_rows(number, 4, flat) {
        Some(m) => {
            proof {
                assert(m@ =~~= rows) by {
                    assert forall|r: int| 0 <= r < rows.len() implies (#[trigger] m@[r]) =~= rows[r] by {
                        assert(rows[r].len() == 4);
                        assert forall|c: int| 0 <= c < 4 implies m@[r][c] == rows[r][c] by {
                            assert(rows[r][c] == values[4 * r + c]);
                        }
                    }
                }
            }
            m
        },
        None => {
            assert(false);
            vstd::pervasive::unreached()
        },
    }
}

/// The steps are powers of two.
proof fn lemma_steps(level: int) -> (t: nat)
    requires
        0 <= level < 3,
    ensures
        3 <= t <= 5,
        STEPS[level] == pow2(t),
{
    lemma2_to64();
    if level == 0 {
        3
    } else if level == 1 {
        4
    } else {
        5
    }
}

/// The cells cover the input: there are as many as the input is long in steps, rounded up.
#[verifier::spinoff_prover]
pub proof fn cells_cover_the_input(input: int, level: int)
    requires
        0 <= input <= 0x100_0000,
        0 <= level < 3,
    ensures
        cells(input, level) == (input + STEPS[level] - 1) / (STEPS[level] as int),
{
    reveal(binary32::quotient);
    reveal(binary32::ceiling);
    let t = lemma_steps(level);
    let step = STEPS[level] as int;
    binary32::short_integers_are_exact(input);
    binary32::short_integers_are_exact(step);
    lemma_pow2_pos(149);
    lemma_pow2_pos((149 - t) as nat);
    lemma_pow2_adds((149 - t) as nat, t);
    let (unit, u) = (pow2(149) as int, pow2((149 - t) as nat) as int);
    assert(step * unit > 0) by (nonlinear_arith)
        requires
            step > 0,
            unit > 0,
    ;
    let (a, b) = (binary32::of_int(input), binary32::of_int(step));
    let q = b.size();
    let ratio = binary32::quotient(a, b);
    let n = (if input == 0x100_0000 { 0x80_0000 } else { input }) as nat;
    let k = (if input == 0x100_0000 { 150 - t } else { 149 - t }) as nat;
    lemma_pow2_unfold((150 - t) as nat);
    assert(n * pow2(k) == input * u) by (nonlinear_arith)
        requires
            input == 0x100_0000 ==> n == 0x80_0000 && pow2(k) == 2 * u,
            input != 0x100_0000 ==> n == input && pow2(k) == u,
    ;
    let nk = n * pow2(k);
    assert(a.size() * unit == nk * q) by (nonlinear_arith)
        requires
            a.size() == input * unit,
            q == step * unit,
            nk == input * u,
            unit == u * step,
    ;
    binary32::short_multiples_are_exact(false, n, k, q);
    binary32::lemma_parts(a);
    binary32::lemma_parts(b);
    assert(!ratio.is_nan() && ratio.value() == input * u) by {
        if input == 0 {
            assert(0 * unit == 0 && 0 * u == 0) by (nonlinear_arith);
        } else {
            assert(input * unit > 0) by (nonlinear_arith)
                requires
                    input > 0,
                    unit > 0,
            ;
        }
    }
    // The ceiling of input * u / (u * step).
    let w = (-input) / step;
    let rest = (-input) % step;
    vstd::arithmetic::div_mod::lemma_fundamental_div_mod(-input, step);
    assert(-(input * u) == w * unit + rest * u) by (nonlinear_arith)
        requires
            -input == step * w + rest,
            unit == u * step,
    ;
    assert(0 <= rest * u < unit) by (nonlinear_arith)
        requires
            0 <= rest < step,
            unit == u * step,
            u > 0,
    ;
    vstd::arithmetic::div_mod::lemma_fundamental_div_mod_converse(-(input * u), unit, w, rest * u);
    assert(input + step - 1 == step * (-w) + (step - 1 - rest)) by (nonlinear_arith)
        requires
            -input == step * w + rest,
    ;
    assert(step * (-w) == (-w) * step) by (nonlinear_arith);
    vstd::arithmetic::div_mod::lemma_fundamental_div_mod_converse(input + step - 1, step, -w, step - 1 - rest);
    assert(-w <= input + step) by (nonlinear_arith)
        requires
            -input == step * w + rest,
            0 <= rest < step,
            step >= 1,
            input >= 0,
    ;
    assert(-w >= 0) by (nonlinear_arith)
        requires
            -input == step * w + rest,
            0 <= rest < step,
            input >= 0,
    ;
}

proof fn lemma_half()
    ensures
        half().size() == pow2(148),
        !half().negative(),
        half().magnitude() < rounding::INFINITY_BITS,
{
    lemma2_to64();
    lemma_pow2_adds(23, 125);
    assert(half().scale() == 125);
    assert(half().significand() == 0x80_0000);
}

/// The middle of each cell is the number nearest to the exact fraction: half a step more than the
/// steps before it, of the input.
#[verifier::spinoff_prover]
pub proof fn centers_are_nearest(input: int, level: int, cell: int)
    requires
        0 < input <= 0x100_0000,
        0 <= level < 3,
        0 <= cell < 0x80_0000,
    ensures
        center(input, level, cell) == binary32::with_sign(
            false,
            rounding::nearest_ratio(((2 * cell + 1) * STEPS[level] * pow2(148)) as nat, input as nat),
        ),
{
    reveal(binary32::sum);
    reveal(binary32::product);
    let t = lemma_steps(level);
    let step = STEPS[level] as int;
    let n = (2 * cell + 1) as nat;
    binary32::short_integers_are_exact(cell);
    binary32::short_integers_are_exact(step);
    lemma_half();
    lemma_pow2_pos(149);
    lemma_pow2_pos(148);
    lemma_pow2_unfold(149);
    let (unit, u) = (pow2(149), pow2(148));
    // The sum with one half.
    let middle = binary32::sum(binary32::of_int(cell), half());
    assert(cell * unit + u == n * u && n * u > 0) by (nonlinear_arith)
        requires
            unit == 2 * u,
            n == 2 * cell + 1,
            u > 0,
            cell >= 0,
    ;
    assert((n * u) * 1 == n * u) by (nonlinear_arith);
    binary32::short_multiples_are_exact(false, n, 148, 1);
    assert(middle.size() == n * u && !middle.negative());
    // Its product with the step.
    let place = binary32::product(middle, binary32::of_int(step));
    let k = (148 + t) as nat;
    lemma_pow2_adds(148, t);
    let nk = n * pow2(k);
    assert((n * u) * (step * unit) == nk * unit) by (nonlinear_arith)
        requires
            nk == n * (u * step),
    ;
    binary32::short_multiples_are_exact(false, n, k, unit);
    assert(place.size() == nk && !place.negative());
    binary32::short_quotients_are_nearest(place, nk, input);
    assert((2 * cell + 1) * step * u == nk) by (nonlinear_arith)
        requires
            nk == n * (u * step),
            n == 2 * cell + 1,
    ;
}

/// The size of each box is the number nearest to the exact fraction of the input.
pub proof fn extents_are_nearest(input: int, level: int, size: int)
    requires
        0 < input <= 0x100_0000,
        0 <= level < 3,
        0 <= size < 3,
    ensures
        extent(input, level, size) == binary32::with_sign(
            false,
            rounding::nearest_ratio((MIN_SIZES[level][size] * pow2(149)) as nat, input as nat),
        ),
{
    let v = MIN_SIZES[level][size] as int;
    assert(0 <= v <= 96);
    binary32::short_integers_are_exact(v);
    binary32::short_quotients_are_nearest(binary32::of_int(v), (v * pow2(149)) as nat, input);
}

/// An input of at most 16384 pixels a side has few enough prior boxes.
#[verifier::spinoff_prover]
pub proof fn moderate_inputs_have_room(input_w: int, input_h: int)
    requires
        0 <= input_w <= 0x4000,
        0 <= input_h <= 0x4000,
    ensures
        4 * prior_count(input_w, input_h) <= isize::MAX,
{
    reveal_with_fuel(count_before, 4);
    assert forall|level: int| 0 <= level < 3 implies #[trigger] level_count(input_w, input_h, level) <= 0xc0_0000 by {
        cells_cover_the_input(input_w, level);
        cells_cover_the_input(input_h, level);
        let t = lemma_steps(level);
        let (down, across, n) = (
            count(cells(input_h, level)),
            count(cells(input_w, level)),
            sizes(level),
        );
        assert(STEPS[level] >= 8);
        assert(down <= 0x800 && across <= 0x800) by {
            let step = STEPS[level] as int;
            assert((input_h + step - 1) / step <= 0x800 && (input_w + step - 1) / step <= 0x800) by (nonlinear_arith)
                requires
                    0 <= input_h <= 0x4000,
                    0 <= input_w <= 0x4000,
                    step >= 8,
            ;
        }
        assert(down * across * n <= 0x800 * 0x800 * 3) by (nonlinear_arith)
            requires
                down <= 0x800,
                across <= 0x800,
                n <= 3,
        ;
    }
    assert(level_count(input_w, input_h, 0) <= 0xc0_0000);
    assert(level_count(input_w, input_h, 1) <= 0xc0_0000);
    assert(level_count(input_w, input_h, 2) <= 0xc0_0000);
}

/// An input without pixels has no prior boxes.
#[verifier::spinoff_prover]
pub proof fn no_priors_without_pixels(input_w: int, input_h: int)
    requires
        input_w <= 0 || input_h <= 0,
    ensures
        priors(input_w, input_h).len() == 0,
        prior_count(input_w, input_h) == 0,
{
    assert forall|input: int, level: int| input <= 0 && 0 <= level < 3 implies #[trigger] cells(input, level) <= 0 by {
        if input == 0 {
            cells_cover_the_input(0, level);
            let step = STEPS[level] as int;
            assert((step - 1) / step == 0) by (nonlinear_arith)
                requires
                    step > 0,
            ;
        } else {
            let t = lemma_steps(level);
            let step = STEPS[level] as int;
            let (a, b) = (binary32::of_int(input), binary32::of_int(step));
            binary32::integers_keep_their_sign(input);
            binary32::short_integers_are_exact(step);
            binary32::lemma_parts(b);
            lemma_pow2_pos(149);
            let unit = binary32::one_in_units() as int;
            assert(step * unit > 0) by (nonlinear_arith)
                requires
                    step > 0,
                    unit > 0,
            ;
            binary32::quotients_keep_the_sign(a, b);
            binary32::negative_ceilings(binary32::quotient(a, b));
        }
    }
    reveal_with_fuel(count_before, 4);
    lemma_priors_before_len(input_w, input_h, 3);
    assert forall|level: int| 0 <= level < 3 implies #[trigger] level_count(input_w, input_h, level) == 0 by {
        let (a, b, n) = (count(cells(input_h, level)), count(cells(input_w, level)), sizes(level));
        assert(a * b * n == 0) by (nonlinear_arith)
            requires
                a == 0 || b == 0,
        ;
    }
    assert(level_count(input_w, input_h, 0) == 0);
    assert(level_count(input_w, input_h, 1) == 0);
    assert(level_count(input_w, input_h, 2) == 0);
}

/// How many prior boxes an input has: three to each cell of the finest feature map, and two to each
/// cell of the others. It has none only where it has no pixels.
pub proof fn priors_by_cells(input_w: int, input_h: int)
    requires
        0 < input_w <= 0x100_0000,
        0 < input_h <= 0x100_0000,
    ensures
        prior_count(input_w, input_h) == 3 * (((input_h + 7) / 8) * ((input_w + 7) / 8)) + 2 * (((input_h + 15) / 16)
            * ((input_w + 15) / 16)) + 2 * (((input_h + 31) / 32) * ((input_w + 31) / 32)),
        prior_count(input_w, input_h) > 0,
{
    reveal_with_fuel(count_before, 4);
    assert forall|level: int| 0 <= level < 3 implies #[trigger] level_count(input_w, input_h, level) == sizes(level)
        * (cells(input_h, level) * cells(input_w, level)) && cells(input_h, level) > 0 && cells(input_w, level) > 0 by {
        cells_cover_the_input(input_w, level);
        cells_cover_the_input(input_h, level);
        let t = lemma_steps(level);
        let step = STEPS[level] as int;
        let (a, b, n) = (cells(input_h, level), cells(input_w, level), sizes(level) as int);
        assert(a > 0 && b > 0) by (nonlinear_arith)
            requires
                a == (input_h + step - 1) / step,
                b == (input_w + step - 1) / step,
                input_h > 0,
                input_w > 0,
                step > 0,
        ;
        assert(a * b * n == n * (a * b)) by (nonlinear_arith);
    }
    cells_cover_the_input(input_w, 0);
    cells_cover_the_input(input_h, 0);
    cells_cover_the_input(input_w, 1);
    cells_cover_the_input(input_h, 1);
    cells_cover_the_input(input_w, 2);
    cells_cover_the_input(input_h, 2);
    let (finest, middle, coarsest) = (
        level_count(input_w, input_h, 0),
        level_count(input_w, input_h, 1),
        level_count(input_w, input_h, 2),
    );
    let (a, b) = (cells(input_h, 0), cells(input_w, 0));
    assert(a * b > 0) by (nonlinear_arith)
        requires
            a > 0,
            b > 0,
    ;
    assert(prior_count(input_w, input_h) == finest + middle + coarsest);
}

/// A prior box with across and down exchanged.
pub open spec fn exchanged(row: Seq<u32>) -> Seq<u32> {
    seq![row[1], row[0], row[3], row[2]]
}

/// The cell and the box at a place of a feature map.
proof fn lemma_at_place(r: int, across: int, n: int, down: int)
    requires
        0 <= r < down * across * n,
        0 <= down,
        0 <= across,
        0 < n,
    ensures
        0 <= (r / n) / across < down,
        0 <= (r / n) % across < across,
        0 <= r % n < n,
        r == ((r / n) / across * across + (r / n) % across) * n + r % n,
{
    let (cell, k) = (r / n, r % n);
    vstd::arithmetic::div_mod::lemma_fundamental_div_mod(r, n);
    let all = down * across;
    assert(0 <= cell < all) by (nonlinear_arith)
        requires
            r == n * cell + k,
            0 <= k < n,
            0 <= r < all * n,
            0 < n,
    ;
    assert(across > 0) by (nonlinear_arith)
        requires
            0 < down * across,
            0 <= across,
    ;
    let (i, j) = (cell / across, cell % across);
    vstd::arithmetic::div_mod::lemma_fundamental_div_mod(cell, across);
    assert(0 <= i < down) by (nonlinear_arith)
        requires
            cell == across * i + j,
            0 <= j < across,
            0 <= cell < down * across,
    ;
    assert(across * i == i * across && n * cell == cell * n) by (nonlinear_arith);
}

/// Where the box at a place of a feature map stands once across and down are exchanged.
spec fn exchanged_place(r: int, across: int, n: int, down: int) -> int {
    ((r / n) % across * down + (r / n) / across) * n + r % n
}

proof fn lemma_exchanged_level(input_w: int, input_h: int, level: int)
    requires
        0 <= level < 3,
    ensures
        level_priors(input_w, input_h, level).map_values(|row: Seq<u32>| exchanged(row)).to_multiset()
            == level_priors(input_h, input_w, level).to_multiset(),
{
    let across = count(cells(input_w, level)) as int;
    let down = count(cells(input_h, level)) as int;
    let n = sizes(level) as int;
    let s = level_priors(input_w, input_h, level).map_values(|row: Seq<u32>| exchanged(row));
    let t = level_priors(input_h, input_w, level);
    assert(down * across * n == across * down * n) by (nonlinear_arith);
    let order = Seq::new(s.len(), |r: int| exchanged_place(r, across, n, down));
    assert forall|r: int| 0 <= r < s.len() implies 0 <= #[trigger] order[r] < s.len() && s[r] == t[order[r]] by {
        lemma_at_place(r, across, n, down);
        let (i, j, k) = ((r / n) / across, (r / n) % across, r % n);
        lemma_place(j, i, k, down, n, across);
        assert(s[r] =~= prior(input_h, input_w, level, j, i, k));
    }
    assert forall|a: int, b: int| 0 <= a < s.len() && 0 <= b < s.len() && a != b implies order[a] != order[b] by {
        lemma_at_place(a, across, n, down);
        lemma_at_place(b, across, n, down);
        lemma_place((a / n) % across, (a / n) / across, a % n, down, n, across);
        lemma_place((b / n) % across, (b / n) / across, b % n, down, n, across);
    }
    rearrangement::reordered_items_are_the_same(s, t, order);
}

proof fn lemma_exchanged_before(input_w: int, input_h: int, level: nat)
    requires
        level <= 3,
    ensures
        priors_before(input_w, input_h, level).map_values(|row: Seq<u32>| exchanged(row)).to_multiset()
            == priors_before(input_h, input_w, level).to_multiset(),
    decreases level,
{
    let f = |row: Seq<u32>| exchanged(row);
    if level == 0 {
        assert(priors_before(input_w, input_h, 0).map_values(f) =~= priors_before(input_h, input_w, 0));
    } else {
        let l = (level - 1) as nat;
        lemma_exchanged_before(input_w, input_h, l);
        lemma_exchanged_level(input_w, input_h, l as int);
        let (a, b) = (priors_before(input_w, input_h, l), level_priors(input_w, input_h, l as int));
        let (c, d) = (priors_before(input_h, input_w, l), level_priors(input_h, input_w, l as int));
        assert((a + b).map_values(f) =~= a.map_values(f) + b.map_values(f));
        vstd::seq_lib::lemma_multiset_commutative(a.map_values(f), b.map_values(f));
        vstd::seq_lib::lemma_multiset_commutative(c, d);
    }
}

/// An input with its sides exchanged has the same prior boxes with across and down exchanged, each
/// as often, though in another order.
pub proof fn exchanging_the_sides_exchanges_the_columns(input_w: int, input_h: int)
    ensures
        priors(input_h, input_w).len() == priors(input_w, input_h).len(),
        priors(input_h, input_w).to_multiset() == priors(input_w, input_h).map_values(
            |row: Seq<u32>| exchanged(row),
        ).to_multiset(),
{
    lemma_exchanged_before(input_w, input_h, 3);
    vstd::seq_lib::to_multiset_len(priors(input_h, input_w));
    vstd::seq_lib::to_multiset_len(priors(input_w, input_h).map_values(|row: Seq<u32>| exchanged(row)));
}

/// How many steps of a length it takes to cover another one.
pub open spec fn steps_over(length: int, step: int) -> int {
    (length + step - 1) / step
}

/// The step of a feature map, in pixels.
pub open spec fn pixels_apart(level: int) -> int {
    if level == 0 {
        8
    } else if level == 1 {
        16
    } else {
        32
    }
}

/// The sizes of the boxes of a feature map, in pixels.
pub open spec fn pixels_wide(level: int) -> Seq<int> {
    if level == 0 {
        seq![10, 16, 24]
    } else if level == 1 {
        seq![32, 48]
    } else {
        seq![64, 96]
    }
}

/// How many cells a feature map has.
pub open spec fn cells_of(input_w: int, input_h: int, level: int) -> int {
    steps_over(input_h, pixels_apart(level)) * steps_over(input_w, pixels_apart(level))
}

/// Where the boxes of a feature map start among all.
pub open spec fn level_start(input_w: int, input_h: int, level: int) -> int {
    if level == 0 {
        0
    } else if level == 1 {
        3 * cells_of(input_w, input_h, 0)
    } else {
        3 * cells_of(input_w, input_h, 0) + 2 * cells_of(input_w, input_h, 1)
    }
}

/// A number is a fraction of a length, up to a part in sixteen million.
pub open spec fn is_fraction(bits: u32, part: real, length: int) -> bool {
    let x = accuracy::real_of(Binary32 { bits });
    &&& accuracy::is_finite(Binary32 { bits })
    &&& accuracy::size(x - part / (length as real)) <= (part / (length as real)) * accuracy::roundoff()
        + accuracy::underflow()
}

proof fn lemma_fraction(bits: u32, n: nat, half_units: bool, input: int)
    requires
        0 < input <= 0x100_0000,
        n <= 0x1000_0000_0000,
        bits == binary32::with_sign(
            false,
            rounding::nearest_ratio(
                n * (if half_units {
                    pow2(148)
                } else {
                    pow2(149)
                }),
                input as nat,
            ),
        ).bits,
    ensures
        is_fraction(
            bits,
            if half_units {
                (n as real) / (2 as real)
            } else {
                n as real
            },
            input,
        ),
{
    lemma_pow2_unfold(149);
    lemma_pow2_pos(148);
    accuracy::underflow_is_negligible();
    let u = pow2(149);
    let c = if half_units {
        pow2(148)
    } else {
        pow2(149)
    };
    let part = if half_units {
        (n as real) / (2 as real)
    } else {
        n as real
    };
    let q = input as nat;
    let (qr, ur, cr, nr) = (q as real, u as real, c as real, n as real);
    let exact = part / qr;
    assert((q * u) as real == (q as real) * (u as real)) by (nonlinear_arith);
    assert((n * c) as real == (n as real) * (c as real)) by (nonlinear_arith);
    assert(part * ur == nr * cr) by (nonlinear_arith)
        requires
            part == nr && cr == ur || part == nr / (2 as real) && ur == 2 as real * cr,
    ;
    assert(exact * (qr * ur) == nr * cr && exact >= 0 as real && exact <= part) by (nonlinear_arith)
        requires
            exact == part / qr,
            part * ur == nr * cr,
            qr >= 1 as real,
            part >= 0 as real,
    ;
    accuracy::nearest_ratios_are_accurate(n * c, q, exact);
}

/// The prior boxes come map by map, the finest first; in each row by row, and in each row cell by cell;
/// and at each cell from the smallest box. Each stands in the middle of its cell and has its size, as
/// fractions of the input's sides.
#[verifier::spinoff_prover]
pub proof fn priors_stand_in_order(input_w: int, input_h: int, level: int, i: int, j: int, k: int)
    requires
        0 < input_w <= 0x100_0000,
        0 < input_h <= 0x100_0000,
        0 <= level < 3,
        0 <= i < steps_over(input_h, pixels_apart(level)),
        0 <= j < steps_over(input_w, pixels_apart(level)),
        0 <= k < pixels_wide(level).len(),
    ensures
        ({
            let place = level_start(input_w, input_h, level) + (i * steps_over(input_w, pixels_apart(level)) + j)
                * pixels_wide(level).len() + k;
            let row = priors(input_w, input_h)[place];
            let step = pixels_apart(level);
            &&& 0 <= place < priors(input_w, input_h).len()
            &&& row.len() == 4
            &&& is_fraction(row[0], (((2 * j + 1) * step) as real) / (2 as real), input_w)
            &&& is_fraction(row[1], (((2 * i + 1) * step) as real) / (2 as real), input_h)
            &&& is_fraction(row[2], pixels_wide(level)[k] as real, input_w)
            &&& is_fraction(row[3], pixels_wide(level)[k] as real, input_h)
        }),
{
    reveal_with_fuel(priors_before, 4);
    reveal_with_fuel(count_before, 4);
    cells_cover_the_input(input_w, 0);
    cells_cover_the_input(input_h, 0);
    cells_cover_the_input(input_w, 1);
    cells_cover_the_input(input_h, 1);
    cells_cover_the_input(input_w, 2);
    cells_cover_the_input(input_h, 2);
    lemma_cells_not_negative(input_w, input_h);
    let (w, h, n) = (cells(input_w, level), cells(input_h, level), sizes(level) as int);
    let step = pixels_apart(level);
    assert(step == STEPS[level] && n == pixels_wide(level).len());
    lemma_place(i, j, k, w, n, h);
    let inner = (i * w + j) * n + k;
    let all = level_priors(input_w, input_h, level);
    lemma_priors_before_len(input_w, input_h, 0);
    lemma_priors_before_len(input_w, input_h, 1);
    lemma_priors_before_len(input_w, input_h, 2);
    lemma_priors_before_len(input_w, input_h, 3);
    lemma_level_counts(input_w, input_h);
    assert(level_start(input_w, input_h, level) == count_before(input_w, input_h, level as nat));
    let place = level_start(input_w, input_h, level) + inner;
    let row = priors(input_w, input_h)[place];
    assert(row == all[inner]);
    assert(row == prior(input_w, input_h, level, i, j, k));
    lemma_few_cells(input_w, level);
    lemma_few_cells(input_h, level);
    centers_are_nearest(input_w, level, j);
    centers_are_nearest(input_h, level, i);
    extents_are_nearest(input_w, level, k);
    extents_are_nearest(input_h, level, k);
    let (a, b) = ((2 * j + 1) * step, (2 * i + 1) * step);
    assert(0 <= a <= 0x1000_0000_0000 && 0 <= b <= 0x1000_0000_0000) by (nonlinear_arith)
        requires
            a == (2 * j + 1) * step,
            b == (2 * i + 1) * step,
            0 <= j < 0x80_0000,
            0 <= i < 0x80_0000,
            8 <= step <= 32,
    ;
    lemma_fraction(row[0], a as nat, true, input_w);
    lemma_fraction(row[1], b as nat, true, input_h);
    let wide = pixels_wide(level)[k];
    assert(wide == MIN_SIZES[level][k] && 0 <= wide <= 96);
    lemma_fraction(row[2], wide as nat, false, input_w);
    lemma_fraction(row[3], wide as nat, false, input_h);
}

proof fn lemma_cells_not_negative(input_w: int, input_h: int)
    requires
        0 < input_w <= 0x100_0000,
        0 < input_h <= 0x100_0000,
    ensures
        forall|level: int| 0 <= level < 3 ==> #[trigger] cells(input_w, level) > 0,
        forall|level: int| 0 <= level < 3 ==> #[trigger] cells(input_h, level) > 0,
{
    assert forall|level: int| 0 <= level < 3 implies #[trigger] cells(input_w, level) > 0 by {
        lemma_few_cells(input_w, level);
    }
    assert forall|level: int| 0 <= level < 3 implies #[trigger] cells(input_h, level) > 0 by {
        lemma_few_cells(input_h, level);
    }
}

proof fn lemma_few_cells(input: int, level: int)
    requires
        0 < input <= 0x100_0000,
        0 <= level < 3,
    ensures
        0 < cells(input, level) < 0x80_0000,
        cells(input, level) == steps_over(input, pixels_apart(level)),
{
    cells_cover_the_input(input, level);
    let (step, n) = (pixels_apart(level), cells(input, level));
    assert(step == STEPS[level]);
    assert(0 < n < 0x80_0000) by (nonlinear_arith)
        requires
            n == (input + step - 1) / step,
            0 < input <= 0x100_0000,
            8 <= step <= 32,
    ;
}

proof fn lemma_level_counts(input_w: int, input_h: int)
    requires
        0 < input_w <= 0x100_0000,
        0 < input_h <= 0x100_0000,
    ensures
        level_count(input_w, input_h, 0) == 3 * cells_of(input_w, input_h, 0),
        level_count(input_w, input_h, 1) == 2 * cells_of(input_w, input_h, 1),
{
    lemma_few_cells(input_w, 0);
    lemma_few_cells(input_h, 0);
    lemma_few_cells(input_w, 1);
    lemma_few_cells(input_h, 1);
    let (a, b, c, d) = (cells(input_h, 0), cells(input_w, 0), cells(input_h, 1), cells(input_w, 1));
    assert(a * b * 3 == 3 * (a * b) && c * d * 2 == 2 * (c * d)) by (nonlinear_arith);
}

} // verus!
