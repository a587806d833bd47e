//! Preparing an exploration of a model's parameters: drawing parameter
//! values, and laying out which value of each input every configuration of
//! an exhaustive exploration takes.

use vstd::prelude::*;
use vstd::arithmetic::div_mod::{lemma_fundamental_div_mod_converse, lemma_mod_bound};
use rand::distributions::{Distribution, Uniform};

verus! {

/// How often in a row each value of input `j` is repeated: the number of
/// configurations divided by the size of each input up to `j`, one after
/// the other.
pub open spec fn repeats(configurations: nat, sizes: Seq<usize>, j: int) -> nat
    decreases j + 1,
{
    if j < 0 || j >= sizes.len() {
        configurations
    } else {
        repeats(configurations, sizes, j - 1) / (sizes[j] as nat)
    }
}

/// The row of input `j`: every index of the input repeated `repeats` times,
/// the indexes in a cycle, for as many cycles as the row takes.
pub open spec fn index_row(configurations: nat, sizes: Seq<usize>, j: int) -> Seq<usize> {
    let each = repeats(configurations, sizes, j);
    Seq::new(
        configurations * each,
        |k: int|
            if each > 0 {
                ((k / each as int) % (sizes[j] as int)) as usize
            } else {
                0usize
            },
    )
}

/// One row of indexes: each index `repeat` times, in a cycle over `size`
/// indexes, `configurations` runs long.
fn cycle(configurations: usize, size: usize, repeat: usize) -> (row: Vec<usize>)
    requires
        size > 0,
    ensures
        row@.len() == configurations * repeat,
        forall|k: int|
            0 <= k < row@.len() ==> #[trigger] row@[k] == (k / repeat as int) % (size as int),
{
    let mut row: Vec<usize> = Vec::new();
    let mut index: usize = 0;
    let mut run: usize = 0;
    proof {
        assert(0 * repeat == 0) by (nonlinear_arith);
    }
    while run < configurations
        invariant
            size > 0,
            run <= configurations,
            index == run % size,
            row@.len() == run * repeat,
            forall|k: int|
                0 <= k < row@.len() ==> #[trigger] row@[k] == (k / repeat as int) % (size as int),
        decreases configurations - run,
    {
        let mut copy: usize = 0;
        while copy < repeat
            invariant
                size > 0,
                run < configurations,
                copy <= repeat,
                index == run % size,
                row@.len() == run * repeat + copy,
                forall|k: int|
                    0 <= k < row@.len() ==> #[trigger] row@[k] == (k / repeat as int) % (
                    size as int),
            decreases repeat - copy,
        {
            proof {
                let k = run * repeat + copy;
                lemma_fundamental_div_mod_converse(k, repeat as int, run as int, copy as int);
            }
            row.push(index);
            copy += 1;
        }
        proof {
            assert((run + 1) * repeat == run * repeat + repeat) by (nonlinear_arith);
            lemma_mod_bound(run as int, size as int);
            lemma_next_in_cycle(run as int, size as int);
        }
        index = (index + 1) % size;
        run += 1;
    }
    row
}

/// The index after `run % size` in the cycle is `(run + 1) % size`.
proof fn lemma_next_in_cycle(run: int, size: int)
    requires
        run >= 0,
        size > 0,
    ensures
        (run % size + 1) % size == (run + 1) % size,
{
    vstd::arithmetic::div_mod::lemma_add_mod_noop(run, 1, size);
    vstd::arithmetic::div_mod::lemma_mod_twice(run, size);
    if size > 1 {
        vstd::arithmetic::div_mod::lemma_small_mod(1, size as nat);
    } else {
        lemma_mod_bound(run + 1, size);
        lemma_mod_bound(run % size + 1, size);
    }
}

/// The table of an exhaustive exploration of inputs of the given sizes:
/// one row for each input, saying which of its values each configuration
/// takes. The values of an input change the slower the earlier the input
/// stands.
pub fn build_configurations(configurations: usize, sizes: &Vec<usize>) -> (table: Vec<Vec<usize>>)
    requires
        forall|j: int| 0 <= j < sizes@.len() ==> #[trigger] sizes@[j] > 0,
    ensures
        table@.len() == sizes@.len(),
        forall|j: int|
            0 <= j < table@.len() ==> (#[trigger] table@[j])@ == index_row(
                configurations as nat,
                sizes@,
                j,
            ),
{
    let mut table: Vec<Vec<usize>> = Vec::new();
    let mut repeat = configurations;
    let mut j: usize = 0;
    while j < sizes.len()
        invariant
            j <= sizes@.len(),
            table@.len() == j,
            repeat == repeats(configurations as nat, sizes@, j - 1),
            forall|i: int| 0 <= i < sizes@.len() ==> #[trigger] sizes@[i] > 0,
            forall|i: int|
                0 <= i < table@.len() ==> (#[trigger] table@[i])@ == index_row(
                    configurations as nat,
                    sizes@,
                    i,
                ),
        decreases sizes@.len() - j,
    {
        let size = sizes[j];
        repeat = repeat / size;
        let row = cycle(configurations, size, repeat);
        proof {
            assert(repeat == repeats(configurations as nat, sizes@, j as int));
            assert(row@ =~= index_row(configurations as nat, sizes@, j as int));
        }
        table.push(row);
        j += 1;
    }
    table
}

/// The half-open range that parameter values between `min` and `max` are
/// drawn from: the bounds in order, and widened by one where they are equal.
pub open spec fn param_range(min: i64, max: i64) -> (int, int) {
    if min > max {
        (max as int, min as int)
    } else if min == max {
        (min as int, max + 1)
    } else {
        (min as int, max as int)
    }
}

/// Draws one value with `rand`: `Uniform::from(low..high)`, sampled from
/// `thread_rng()`. `Uniform::new` panics where `low >= high`; of a sample
/// the crate says that it lies in the half-open range `[low, high)`, and
/// nothing else is claimed here.
#[verifier::external_body]
fn draw(low: i64, high: i64) -> (value: i64)
    requires
        low < high,
    ensures
        low <= value < high,
{
    Uniform::from(low..high).sample(&mut rand::thread_rng())
}

/// Draws `samples` parameter values, each from the range that `min` and
/// `max` span, whichever of the two is the larger; equal bounds give that
/// one value.
pub fn gen_param(min: i64, max: i64, samples: usize) -> (values: Vec<i64>)
    requires
        min == max ==> max < i64::MAX,
    ensures
        values@.len() == samples,
        forall|i: int|
            0 <= i < values@.len() ==> param_range(min, max).0 <= #[trigger] values@[i]
                < param_range(min, max).1,
{
    let (low, high) = if min > max {
        (max, min)
    } else if min == max {
        (min, max + 1)
    } else {
        (min, max)
    };
    let mut values: Vec<i64> = Vec::new();
    let mut i: usize = 0;
    while i < samples
        invariant
            i <= samples,
            low < high,
            low == param_range(min, max).0,
            high == param_range(min, max).1,
            values@.len() == i,
            forall|j: int| 0 <= j < values@.len() ==> low <= #[trigger] values@[j] < high,
        decreases samples - i,
    {
        values.push(draw(low, high));
        i += 1;
    }
    values
}

} // verus!
