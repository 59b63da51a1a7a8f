//! Specialising the device kernel to a lattice, and the geometry of its launches.
use vstd::arithmetic::div_mod::lemma_fundamental_div_mod;
use vstd::arithmetic::power2::{is_pow2, pow2};
use vstd::prelude::*;

use crate::error::D3q19Error;
use crate::fill::{
    filled, is_value, law_definitions_are_filled, law_filled_text_has_no_placeholder,
    law_lines_are_filled, law_plain_end_is_kept, lemma_contained_after, lemma_contained_before,
};
use crate::lattice::{
    cube, exact_log2, is_power_of_two, lattice_cells, law_logarithm_undoes_power,
    lemma_pow2_of_log2, log2, CX, CY, CZ,
};
use crate::template::{
    definitions, integers_text, kernel_template, kernel_template_text,
    law_kernel_has_its_entry, law_kernel_has_the_directions, law_kernel_has_the_weights,
    lemma_kernel_parts, lemma_kernel_template, lemma_names, lemma_parameter_lines, placeholders,
    weight_text,
    KERNEL_COLLIDE, KERNEL_ENTRY, KERNEL_PARAMETERS, KERNEL_PULL, KERNEL_TABLES,
};
use crate::text::{
    contains_text, decimal, decimal_text, is_digit, lemma_decimal_digits, replace_all, replaced,
};

verus! {

/// The values of the placeholders, in their order: the edge, its mask, its
/// logarithm and that of a plane, the number of cells and the block size.
pub open spec fn kernel_values(n: nat, block: nat) -> Seq<Seq<char>> {
    seq![
        decimal(n),
        decimal((n - 1) as nat),
        decimal(log2(n)),
        decimal(2 * log2(n)),
        decimal(cube(n)),
        decimal(block),
    ]
}

/// The kernel text for a lattice of edge `n` and blocks of `block` threads.
pub open spec fn specialized(n: nat, block: nat) -> Seq<char> {
    filled(kernel_template(), placeholders(), kernel_values(n, block))
}

/// Why no kernel is made for a lattice of edge `n`.
pub open spec fn kernel_error(n: nat) -> Option<D3q19Error> {
    if !is_pow2(n as int) {
        Some(D3q19Error::NotPowerOfTwo)
    } else if cube(n) > usize::MAX {
        Some(D3q19Error::LatticeOverflow)
    } else if cube(n) > u32::MAX {
        Some(D3q19Error::TooManyCells)
    } else {
        None
    }
}

/// Fills the placeholders of a kernel text for a lattice of edge `n` and blocks of
/// `block` threads.
pub fn specialize(template: &str, n: usize, block: u32) -> (r: Result<String, D3q19Error>)
    ensures
        match r {
            Ok(s) => {
                &&& kernel_error(n as nat) is None
                &&& s@ == filled(template@, placeholders(), kernel_values(n as nat, block as nat))
            },
            Err(e) => kernel_error(n as nat) == Some(e),
        },
{
    if !is_power_of_two(n) {
        return Err(D3q19Error::NotPowerOfTwo);
    }
    proof {
        reveal(is_pow2);
        reveal_strlit("{{N}}");
        reveal_strlit("{{MASK}}");
        reveal_strlit("{{LOG2_N}}");
        reveal_strlit("{{LOG2_PLANE}}");
        reveal_strlit("{{CELLS}}");
        reveal_strlit("{{BLOCK}}");
    }
    let log2_n = exact_log2(n);
    let cells = match lattice_cells(n) {
        Some(cells) => cells,
        None => {
            return Err(D3q19Error::LatticeOverflow);
        },
    };
    if cells as u64 > u32::MAX as u64 {
        return Err(D3q19Error::TooManyCells);
    }
    let source = replace_all(template, "{{N}}", decimal_text(n as u64).as_str());
    let source = replace_all(source.as_str(), "{{MASK}}", decimal_text((n - 1) as u64).as_str());
    let source = replace_all(source.as_str(), "{{LOG2_N}}", decimal_text(log2_n as u64).as_str());
    let source = replace_all(
        source.as_str(),
        "{{LOG2_PLANE}}",
        decimal_text((2 * log2_n) as u64).as_str(),
    );
    let source = replace_all(source.as_str(), "{{CELLS}}", decimal_text(cells as u64).as_str());
    let source = replace_all(source.as_str(), "{{BLOCK}}", decimal_text(block as u64).as_str());
    proof {
        lemma_six_filled(template@, kernel_values(n as nat, block as nat));
    }
    Ok(source)
}

/// Makes the kernel text for a lattice of edge `n` and blocks of `block` threads.
pub fn specialized_kernel(n: usize, block: u32) -> (r: Result<String, D3q19Error>)
    ensures
        match r {
            Ok(s) => {
                &&& kernel_error(n as nat) is None
                &&& s@ == specialized(n as nat, block as nat)
                &&& contains_text(s@, "#define LBM_N "@ + decimal(n as nat) + "\n"@)
                &&& contains_text(s@, "#define LBM_CELLS "@ + decimal((n * n * n) as nat) + "\n"@)
                &&& contains_text(s@, "#define LBM_BLOCK "@ + decimal(block as nat) + "\n"@)
            },
            Err(e) => kernel_error(n as nat) == Some(e),
        },
{
    proof {
        if is_pow2(n as int) {
            lemma_pow2_of_log2(n as nat);
            law_specialized_text_states_its_numbers(log2(n as nat), block as nat);
        }
    }
    specialize(kernel_template_text().as_str(), n, block)
}

/// Filling the six placeholders is six replacements.
proof fn lemma_six_filled(s: Seq<char>, v: Seq<Seq<char>>)
    requires
        v.len() == 6,
    ensures
        filled(s, placeholders(), v) == replaced(
            replaced(
                replaced(
                    replaced(
                        replaced(
                            replaced(s, "{{N}}"@, v[0]),
                            "{{MASK}}"@,
                            v[1],
                        ),
                        "{{LOG2_N}}"@,
                        v[2],
                    ),
                    "{{LOG2_PLANE}}"@,
                    v[3],
                ),
                "{{CELLS}}"@,
                v[4],
            ),
            "{{BLOCK}}"@,
            v[5],
        ),
{
    reveal_with_fuel(filled, 7);
}

proof fn lemma_values(n: nat, block: nat)
    ensures
        forall|k: int| 0 <= k < 6 ==> is_value(#[trigger] kernel_values(n, block)[k]),
{
    let v = kernel_values(n, block);
    lemma_numeral_is_value(n);
    lemma_numeral_is_value((n - 1) as nat);
    lemma_numeral_is_value(log2(n));
    lemma_numeral_is_value(2 * log2(n));
    lemma_numeral_is_value(cube(n));
    lemma_numeral_is_value(block);
}

proof fn lemma_numeral_is_value(n: nat)
    ensures
        is_value(decimal(n)),
{
    lemma_decimal_digits(n);
    let d = decimal(n);
    assert forall|j: int| 0 <= j < d.len() implies #[trigger] d[j] != '{' by {
        assert(is_digit(d[j]));
    }
}

/// A specialised kernel holds no placeholder: whatever the lattice and the block,
/// no pair of braces is left in it, and so none of the placeholders.
pub proof fn law_specialization_is_complete(n: nat, block: nat)
    ensures
        forall|k: int|
            0 <= k < placeholders().len() ==> !contains_text(
                specialized(n, block),
                #[trigger] placeholders()[k],
            ),
        !contains_text(specialized(n, block), seq!['{', '{']),
{
    lemma_names();
    lemma_kernel_template();
    lemma_values(n, block);
    law_filled_text_has_no_placeholder(
        kernel_template(),
        placeholders(),
        kernel_values(n, block),
    );
    let r = specialized(n, block);
    let open = seq!['{', '{'];
    if contains_text(r, open) {
        let i = choose|i: int| 0 <= i <= r.len() && open.is_prefix_of(#[trigger] r.skip(i));
        let start = r.skip(i).subrange(0, 2);
        assert(open == start);
        assert(start[0] == r[i] && start[1] == r[i + 1]);
        assert(crate::fill::opens(r, i));
    }
}

/// Specialisation touches the parameters alone: the rest of the kernel text stands as it
/// is behind them.
pub proof fn law_specialization_keeps_the_rest(n: nat, block: nat)
    ensures
        specialized(n, block) == filled(
            KERNEL_PARAMETERS@,
            placeholders(),
            kernel_values(n, block),
        ) + KERNEL_TABLES@ + KERNEL_PULL@ + KERNEL_COLLIDE@,
{
    lemma_names();
    lemma_kernel_parts();
    lemma_values(n, block);
    let (tokens, values) = (placeholders(), kernel_values(n, block));
    let first = KERNEL_PARAMETERS@ + KERNEL_TABLES@;
    let second = first + KERNEL_PULL@;
    law_plain_end_is_kept(KERNEL_PARAMETERS@, KERNEL_TABLES@, tokens, values);
    law_plain_end_is_kept(first, KERNEL_PULL@, tokens, values);
    law_plain_end_is_kept(second, KERNEL_COLLIDE@, tokens, values);
}

/// What stands in a part of the kernel text behind its parameters stands in a specialised
/// kernel.
proof fn lemma_rest_stands(n: nat, block: nat, part: Seq<char>)
    requires
        contains_text(KERNEL_TABLES@, part) || contains_text(KERNEL_PULL@, part),
    ensures
        contains_text(specialized(n, block), part),
{
    law_specialization_keeps_the_rest(n, block);
    let head = filled(KERNEL_PARAMETERS@, placeholders(), kernel_values(n, block));
    if contains_text(KERNEL_TABLES@, part) {
        lemma_contained_after(head, KERNEL_TABLES@, part);
        lemma_contained_before(head + KERNEL_TABLES@, KERNEL_PULL@, part);
    } else {
        lemma_contained_after(head + KERNEL_TABLES@, KERNEL_PULL@, part);
    }
    lemma_contained_before(head + KERNEL_TABLES@ + KERNEL_PULL@, KERNEL_COLLIDE@, part);
}

/// A specialised kernel has the directions and the weights of the lattice, and is defined
/// under its name.
pub proof fn law_specialization_has_the_lattice(n: nat, block: nat)
    ensures
        contains_text(
            specialized(n, block),
            "lbm_cx[LBM_Q] = {\n    "@ + integers_text(CX@) + "};"@,
        ),
        contains_text(
            specialized(n, block),
            "lbm_cy[LBM_Q] = {\n    "@ + integers_text(CY@) + "};"@,
        ),
        contains_text(
            specialized(n, block),
            "lbm_cz[LBM_Q] = {\n    "@ + integers_text(CZ@) + "};"@,
        ),
        contains_text(specialized(n, block), weight_text()),
        contains_text(specialized(n, block), "void "@ + KERNEL_ENTRY@ + "("@),
{
    law_kernel_has_the_directions();
    law_kernel_has_the_weights(0);
    law_kernel_has_its_entry();
    lemma_rest_stands(n, block, "lbm_cx[LBM_Q] = {\n    "@ + integers_text(CX@) + "};"@);
    lemma_rest_stands(n, block, "lbm_cy[LBM_Q] = {\n    "@ + integers_text(CY@) + "};"@);
    lemma_rest_stands(n, block, "lbm_cz[LBM_Q] = {\n    "@ + integers_text(CZ@) + "};"@);
    lemma_rest_stands(n, block, weight_text());
    lemma_rest_stands(n, block, "void "@ + KERNEL_ENTRY@ + "("@);
}

/// A specialised kernel defines each of its parameters as the value that the
/// lattice and the block give it.
pub proof fn law_specialization_defines_parameters(n: nat, block: nat, k: int)
    requires
        0 <= k < 6,
    ensures
        contains_text(specialized(n, block), definitions()[k] + kernel_values(n, block)[k]),
{
    lemma_names();
    lemma_kernel_template();
    lemma_values(n, block);
    assert(contains_text(kernel_template(), definitions()[k] + placeholders()[k]));
    law_definitions_are_filled(
        kernel_template(),
        placeholders(),
        kernel_values(n, block),
        definitions()[k],
        k,
    );
}

/// The shape of a kernel launch.
#[derive(Clone, Copy, Debug, PartialEq, Eq)]
pub struct LaunchConfig {
    pub grid_dim: (u32, u32, u32),
    pub block_dim: (u32, u32, u32),
    pub shared_mem_bytes: u32,
}

/// The number of blocks of `block` threads that `cells` threads take.
pub open spec fn blocks_for(cells: nat, block: nat) -> nat {
    (cells + block - 1) as nat / block
}

/// The launch that gives each of `cells` cells a thread, in blocks of `block`.
/// The number of blocks is kept in the low 32 bits.
pub fn launch_config(cells: u64, block: u32) -> (r: LaunchConfig)
    requires
        block > 0,
        cells + block <= u64::MAX,
    ensures
        r.grid_dim.0 == blocks_for(cells as nat, block as nat) % 0x1_0000_0000,
        r.grid_dim.0 == (cells + block - 1) / (block as int) % 0x1_0000_0000,
        r.grid_dim.1 == 1,
        r.grid_dim.2 == 1,
        r.block_dim == (block, 1u32, 1u32),
        r.shared_mem_bytes == 0,
{
    let blocks: u64 = (cells + block as u64 - 1) / block as u64;
    let grid: u32 = #[verifier::truncate] (blocks as u32);
    assert(grid == blocks % 0x1_0000_0000) by (bit_vector)
        requires
            grid == blocks as u32,
    ;
    LaunchConfig { grid_dim: (grid, 1, 1), block_dim: (block, 1, 1), shared_mem_bytes: 0 }
}

/// A launch over a lattice that a kernel can be made for covers every cell exactly
/// once and starts no block without a cell.
pub proof fn law_launch_covers_cells(n: nat, block: nat, cell: nat)
    requires
        block > 0,
        kernel_error(n) is None,
        cell < cube(n),
    ensures
        blocks_for(cube(n), block) <= u32::MAX,
        cell / block < blocks_for(cube(n), block),
        cell % block < block,
        cell == (cell / block) * block + cell % block,
        (blocks_for(cube(n), block) - 1) * block < cube(n),
        cube(n) <= blocks_for(cube(n), block) * block,
{
    let cells = cube(n) as int;
    let b = block as int;
    let g = blocks_for(cube(n), block) as int;
    lemma_fundamental_div_mod(cells + b - 1, b);
    lemma_fundamental_div_mod(cell as int, b);
    let c = cell as int / b;
    assert((g - 1) * b < cells && cells <= g * b) by (nonlinear_arith)
        requires
            cells + b - 1 == b * g + (cells + b - 1) % b,
            0 <= (cells + b - 1) % b < b,
            b > 0,
    ;
    assert(c < g) by (nonlinear_arith)
        requires
            cell == b * c + cell as int % b,
            cell as int % b >= 0,
            cell < cells,
            cells <= g * b,
            b > 0,
    ;
    assert(c * b == b * c) by (nonlinear_arith);
    assert(g <= cells) by (nonlinear_arith)
        requires
            (g - 1) * b < cells,
            b >= 1,
            cells >= 1,
    ;
}

/// Specialising a text puts six numbers into it, each for a name of its own: the edge, the
/// edge less one, the exponent `e` of the edge and twice that, the cube of the edge, and the
/// block size.
pub proof fn law_specializing_puts_six_numbers(s: Seq<char>, e: nat, block: nat)
    ensures
        ({
            let n = pow2(e);
            let s1 = replaced(s, "{{N}}"@, decimal(n));
            let s2 = replaced(s1, "{{MASK}}"@, decimal((n - 1) as nat));
            let s3 = replaced(s2, "{{LOG2_N}}"@, decimal(e));
            let s4 = replaced(s3, "{{LOG2_PLANE}}"@, decimal(e + e));
            let s5 = replaced(s4, "{{CELLS}}"@, decimal(n * n * n));
            filled(s, placeholders(), kernel_values(n, block)) == replaced(
                s5,
                "{{BLOCK}}"@,
                decimal(block),
            )
        }),
{
    law_logarithm_undoes_power(e);
    lemma_six_filled(s, kernel_values(pow2(e), block));
}

/// A specialised kernel states its numbers, each on a line of its own: the edge `2^e`, the
/// edge less one, the exponent and twice that, the cube of the edge, and the block size.
pub proof fn law_specialized_text_states_its_numbers(e: nat, block: nat)
    ensures
        contains_text(specialized(pow2(e), block), "#define LBM_N "@ + decimal(pow2(e)) + "\n"@),
        contains_text(
            specialized(pow2(e), block),
            "#define LBM_MASK "@ + decimal((pow2(e) - 1) as nat) + "\n"@,
        ),
        contains_text(specialized(pow2(e), block), "#define LBM_LOG2_N "@ + decimal(e) + "\n"@),
        contains_text(
            specialized(pow2(e), block),
            "#define LBM_LOG2_PLANE "@ + decimal(e + e) + "\n"@,
        ),
        contains_text(
            specialized(pow2(e), block),
            "#define LBM_CELLS "@ + decimal(pow2(e) * pow2(e) * pow2(e)) + "\n"@,
        ),
        contains_text(specialized(pow2(e), block), "#define LBM_BLOCK "@ + decimal(block) + "\n"@),
{
    law_logarithm_undoes_power(e);
    lemma_line(pow2(e), block, 0);
    lemma_line(pow2(e), block, 1);
    lemma_line(pow2(e), block, 2);
    lemma_line(pow2(e), block, 3);
    lemma_line(pow2(e), block, 4);
    lemma_line(pow2(e), block, 5);
}

proof fn lemma_line(n: nat, block: nat, k: int)
    requires
        0 <= k < 6,
    ensures
        contains_text(
            specialized(n, block),
            definitions()[k] + kernel_values(n, block)[k] + "\n"@,
        ),
{
    lemma_names();
    lemma_parameter_lines();
    lemma_values(n, block);
    reveal_strlit("\n");
    assert(contains_text(kernel_template(), definitions()[k] + placeholders()[k] + "\n"@));
    law_lines_are_filled(
        kernel_template(),
        placeholders(),
        kernel_values(n, block),
        definitions()[k],
        "\n"@,
        k,
    );
}

/// A kernel is made exactly for an edge that is a power of two whose cube can be numbered in
/// 32 bits. Of other edges, one that is no power of two is told so; of the powers of two, a
/// cube that the machine cannot hold comes before one that the kernel cannot.
pub proof fn law_kernels_are_made_for_small_powers_of_two(n: nat)
    ensures
        kernel_error(n) is None <==> is_pow2(n as int) && n * n * n <= 0xffff_ffff && n * n * n
            <= usize::MAX,
        kernel_error(n) == Some(D3q19Error::NotPowerOfTwo) <==> !is_pow2(n as int),
        kernel_error(n) == Some(D3q19Error::LatticeOverflow) <==> is_pow2(n as int) && n * n * n
            > usize::MAX,
        kernel_error(n) == Some(D3q19Error::TooManyCells) <==> is_pow2(n as int) && n * n * n
            <= usize::MAX && n * n * n > 0xffff_ffff,
{
}

/// The blocks of a launch are the fewest that give each cell a thread.
pub proof fn law_blocks_are_the_fewest(cells: nat, block: nat, g: nat)
    requires
        block > 0,
    ensures
        g * block >= cells <==> g >= blocks_for(cells, block),
{
    let (c, b, h) = (cells as int, block as int, blocks_for(cells, block) as int);
    lemma_fundamental_div_mod(c + b - 1, b);
    let (k, m) = (g as int, (c + b - 1) % b);
    if k >= h {
        assert(k * b >= c) by (nonlinear_arith)
            requires
                c + b - 1 == b * h + m,
                0 <= m < b,
                k >= h,
                b > 0,
        ;
    } else {
        assert(k * b < c) by (nonlinear_arith)
            requires
                c + b - 1 == b * h + m,
                0 <= m < b,
                k + 1 <= h,
                b > 0,
        ;
    }
}

} // verus!
