//! The text of the device kernel: a fused pull-stream and BGK collision step whose
//! lattice parameters are left open as placeholders.
use vstd::prelude::*;

use crate::fill::{
    differ, is_definition, is_placeholder, lemma_contained_before, opens, opens_only, plain,
};
use crate::lattice::{weight_den, CX, CY, CZ};
use crate::text::{contains_text, decimal};

verus! {

/// The compile-time parameters of the kernel, as placeholders.
pub const KERNEL_PARAMETERS: &'static str = "#define LBM_N {{N}}
#define LBM_MASK {{MASK}}
#define LBM_LOG2_N {{LOG2_N}}
#define LBM_LOG2_PLANE {{LOG2_PLANE}}
#define LBM_CELLS {{CELLS}}
#define LBM_BLOCK {{BLOCK}}
#define LBM_Q 19

static_assert(LBM_CELLS == LBM_N * LBM_N * LBM_N, \"cells must be the cube of the edge\");
";

/// Each pair of braces in the parameters opens one of the placeholders, and each
/// placeholder stands in a definition of its own.
proof fn lemma_parameters()
    ensures
        KERNEL_PARAMETERS@.len() > 0,
        KERNEL_PARAMETERS@.last() != '{',
        opens_only(KERNEL_PARAMETERS@, placeholders()),
        forall|k: int|
            0 <= k < 6 ==> contains_text(
                KERNEL_PARAMETERS@,
                #[trigger] definitions()[k] + placeholders()[k],
            ),
{
    reveal_strlit("#define LBM_N {{N}}
#define LBM_MASK {{MASK}}
#define LBM_LOG2_N {{LOG2_N}}
#define LBM_LOG2_PLANE {{LOG2_PLANE}}
#define LBM_CELLS {{CELLS}}
#define LBM_BLOCK {{BLOCK}}
#define LBM_Q 19

static_assert(LBM_CELLS == LBM_N * LBM_N * LBM_N, \"cells must be the cube of the edge\");
");
    reveal_strlit("{{N}}");
    reveal_strlit("{{MASK}}");
    reveal_strlit("{{LOG2_N}}");
    reveal_strlit("{{LOG2_PLANE}}");
    reveal_strlit("{{CELLS}}");
    reveal_strlit("{{BLOCK}}");
    reveal_strlit("#define LBM_N ");
    reveal_strlit("#define LBM_MASK ");
    reveal_strlit("#define LBM_LOG2_N ");
    reveal_strlit("#define LBM_LOG2_PLANE ");
    reveal_strlit("#define LBM_CELLS ");
    reveal_strlit("#define LBM_BLOCK ");
    let s = KERNEL_PARAMETERS@;
    lemma_stands(s, definitions()[0] + placeholders()[0], 0);
    lemma_stands(s, definitions()[1] + placeholders()[1], 20);
    lemma_stands(s, definitions()[2] + placeholders()[2], 46);
    lemma_stands(s, definitions()[3] + placeholders()[3], 76);
    lemma_stands(s, definitions()[4] + placeholders()[4], 114);
    lemma_stands(s, definitions()[5] + placeholders()[5], 142);
    lemma_stands(s, placeholders()[0], 14);
    lemma_stands(s, placeholders()[1], 37);
    lemma_stands(s, placeholders()[2], 65);
    lemma_stands(s, placeholders()[3], 99);
    lemma_stands(s, placeholders()[4], 132);
    lemma_stands(s, placeholders()[5], 160);
    assert forall|i: int| #[trigger] opens(s, i) implies exists|k: int|
        0 <= k < placeholders().len() && #[trigger] placeholders()[k].is_prefix_of(s.skip(i)) by {
        assert(i == 14 || i == 37 || i == 65 || i == 99 || i == 132 || i == 160);
    }
}

/// The directions and weights of the kernel.
pub const KERNEL_TABLES: &'static str = "
__device__ constexpr int lbm_cx[LBM_Q] = {
    0, 1, -1, 0, 0, 0, 0, 1, -1, 1, -1, 1, -1, 1, -1, 0, 0, 0, 0};
__device__ constexpr int lbm_cy[LBM_Q] = {
    0, 0, 0, 1, -1, 0, 0, 1, 1, -1, -1, 0, 0, 0, 0, 1, -1, 1, -1};
__device__ constexpr int lbm_cz[LBM_Q] = {
    0, 0, 0, 0, 0, 1, -1, 0, 0, 0, 0, 1, 1, -1, -1, 1, 1, -1, -1};

__device__ constexpr float lbm_weight(int q) {
    return q == 0 ? 1.0f / 3.0f : (q <= 6 ? 1.0f / 18.0f : 1.0f / 36.0f);
}
";

proof fn lemma_tables_plain()
    ensures
        plain(KERNEL_TABLES@),
{
    reveal_strlit("
__device__ constexpr int lbm_cx[LBM_Q] = {
    0, 1, -1, 0, 0, 0, 0, 1, -1, 1, -1, 1, -1, 1, -1, 0, 0, 0, 0};
__device__ constexpr int lbm_cy[LBM_Q] = {
    0, 0, 0, 1, -1, 0, 0, 1, 1, -1, -1, 0, 0, 0, 0, 1, -1, 1, -1};
__device__ constexpr int lbm_cz[LBM_Q] = {
    0, 0, 0, 0, 0, 1, -1, 0, 0, 0, 0, 1, 1, -1, -1, 1, 1, -1, -1};

__device__ constexpr float lbm_weight(int q) {
    return q == 0 ? 1.0f / 3.0f : (q <= 6 ? 1.0f / 18.0f : 1.0f / 36.0f);
}
");
}

/// An integer as text.
pub open spec fn integer_text(v: int) -> Seq<char> {
    if v < 0 {
        "-"@ + decimal((-v) as nat)
    } else {
        decimal(v as nat)
    }
}

/// Some integers as text, with a comma and a blank between them.
pub open spec fn integers_text(values: Seq<i32>) -> Seq<char>
    decreases values.len(),
{
    if values.len() == 0 {
        Seq::empty()
    } else if values.len() == 1 {
        integer_text(values[0] as int)
    } else {
        integers_text(values.drop_last()) + ", "@ + integer_text(values.last() as int)
    }
}

/// The directions in the kernel are those of the lattice, component by component.
pub proof fn law_kernel_has_the_directions()
    ensures
        contains_text(
            KERNEL_TABLES@,
            "lbm_cx[LBM_Q] = {\n    "@ + integers_text(CX@) + "};"@,
        ),
        contains_text(
            KERNEL_TABLES@,
            "lbm_cy[LBM_Q] = {\n    "@ + integers_text(CY@) + "};"@,
        ),
        contains_text(
            KERNEL_TABLES@,
            "lbm_cz[LBM_Q] = {\n    "@ + integers_text(CZ@) + "};"@,
        ),
{
    reveal_strlit("
__device__ constexpr int lbm_cx[LBM_Q] = {
    0, 1, -1, 0, 0, 0, 0, 1, -1, 1, -1, 1, -1, 1, -1, 0, 0, 0, 0};
__device__ constexpr int lbm_cy[LBM_Q] = {
    0, 0, 0, 1, -1, 0, 0, 1, 1, -1, -1, 0, 0, 0, 0, 1, -1, 1, -1};
__device__ constexpr int lbm_cz[LBM_Q] = {
    0, 0, 0, 0, 0, 1, -1, 0, 0, 0, 0, 1, 1, -1, -1, 1, 1, -1, -1};

__device__ constexpr float lbm_weight(int q) {
    return q == 0 ? 1.0f / 3.0f : (q <= 6 ? 1.0f / 18.0f : 1.0f / 36.0f);
}
");
    reveal_strlit("0, 1, -1, 0, 0, 0, 0, 1, -1, 1, -1, 1, -1, 1, -1, 0, 0, 0, 0");
    reveal_strlit("0, 0, 0, 1, -1, 0, 0, 1, 1, -1, -1, 0, 0, 0, 0, 1, -1, 1, -1");
    reveal_strlit("0, 0, 0, 0, 0, 1, -1, 0, 0, 0, 0, 1, 1, -1, -1, 1, 1, -1, -1");
    reveal_strlit("lbm_cx[LBM_Q] = {\n    ");
    reveal_strlit("lbm_cy[LBM_Q] = {\n    ");
    reveal_strlit("lbm_cz[LBM_Q] = {\n    ");
    reveal_strlit("};");
    lemma_x_text();
    lemma_y_text();
    lemma_z_text();
    let s = KERNEL_TABLES@;
    lemma_stands(s, "lbm_cx[LBM_Q] = {\n    "@ + integers_text(CX@) + "};"@, 26);
    lemma_stands(s, "lbm_cy[LBM_Q] = {\n    "@ + integers_text(CY@) + "};"@, 136);
    lemma_stands(s, "lbm_cz[LBM_Q] = {\n    "@ + integers_text(CZ@) + "};"@, 246);
}

#[verifier::spinoff_prover]
#[verifier::rlimit(30)]
proof fn lemma_x_text()
    ensures
        integers_text(CX@) == "0, 1, -1, 0, 0, 0, 0, 1, -1, 1, -1, 1, -1, 1, -1, 0, 0, 0, 0"@,
{
    reveal_strlit("0, 1, -1, 0, 0, 0, 0, 1, -1, 1, -1, 1, -1, 1, -1, 0, 0, 0, 0");
    reveal_strlit("-");
    reveal_strlit(", ");
    reveal_with_fuel(integers_text, 20);
    assert(integers_text(CX@) =~= "0, 1, -1, 0, 0, 0, 0, 1, -1, 1, -1, 1, -1, 1, -1, 0, 0, 0, 0"@);
}

#[verifier::spinoff_prover]
#[verifier::rlimit(30)]
proof fn lemma_y_text()
    ensures
        integers_text(CY@) == "0, 0, 0, 1, -1, 0, 0, 1, 1, -1, -1, 0, 0, 0, 0, 1, -1, 1, -1"@,
{
    reveal_strlit("0, 0, 0, 1, -1, 0, 0, 1, 1, -1, -1, 0, 0, 0, 0, 1, -1, 1, -1");
    reveal_strlit("-");
    reveal_strlit(", ");
    reveal_with_fuel(integers_text, 20);
    assert(integers_text(CY@) =~= "0, 0, 0, 1, -1, 0, 0, 1, 1, -1, -1, 0, 0, 0, 0, 1, -1, 1, -1"@);
}

#[verifier::spinoff_prover]
#[verifier::rlimit(30)]
proof fn lemma_z_text()
    ensures
        integers_text(CZ@) == "0, 0, 0, 0, 0, 1, -1, 0, 0, 0, 0, 1, 1, -1, -1, 1, 1, -1, -1"@,
{
    reveal_strlit("0, 0, 0, 0, 0, 1, -1, 0, 0, 0, 0, 1, 1, -1, -1, 1, 1, -1, -1");
    reveal_strlit("-");
    reveal_strlit(", ");
    reveal_with_fuel(integers_text, 20);
    assert(integers_text(CZ@) =~= "0, 0, 0, 0, 0, 1, -1, 0, 0, 0, 0, 1, 1, -1, -1, 1, 1, -1, -1"@);
}

/// The weight of a direction in the kernel: one over the denominator of its class.
pub open spec fn weight_text() -> Seq<char> {
    "return q == 0 ? 1.0f / "@ + decimal(weight_den(0) as nat) + ".0f : (q <= 6 ? 1.0f / "@
        + decimal(weight_den(1) as nat) + ".0f : 1.0f / "@ + decimal(weight_den(7) as nat)
        + ".0f);"@
}

/// The weights in the kernel are those of the lattice, class by class: of the rest
/// direction, of the faces and of the edges.
pub proof fn law_kernel_has_the_weights(q: int)
    requires
        0 <= q < 19,
    ensures
        contains_text(KERNEL_TABLES@, weight_text()),
        weight_den(q) == if q == 0 {
            weight_den(0)
        } else if q <= 6 {
            weight_den(1)
        } else {
            weight_den(7)
        },
{
    reveal_strlit("
__device__ constexpr int lbm_cx[LBM_Q] = {
    0, 1, -1, 0, 0, 0, 0, 1, -1, 1, -1, 1, -1, 1, -1, 0, 0, 0, 0};
__device__ constexpr int lbm_cy[LBM_Q] = {
    0, 0, 0, 1, -1, 0, 0, 1, 1, -1, -1, 0, 0, 0, 0, 1, -1, 1, -1};
__device__ constexpr int lbm_cz[LBM_Q] = {
    0, 0, 0, 0, 0, 1, -1, 0, 0, 0, 0, 1, 1, -1, -1, 1, 1, -1, -1};

__device__ constexpr float lbm_weight(int q) {
    return q == 0 ? 1.0f / 3.0f : (q <= 6 ? 1.0f / 18.0f : 1.0f / 36.0f);
}
");
    reveal_strlit("return q == 0 ? 1.0f / ");
    reveal_strlit(".0f : (q <= 6 ? 1.0f / ");
    reveal_strlit(".0f : 1.0f / ");
    reveal_strlit(".0f);");
    reveal_with_fuel(decimal, 2);
    lemma_stands(KERNEL_TABLES@, weight_text(), 383);
}

/// The periodic pull of the kernel: it gathers the populations and their moments.
pub const KERNEL_PULL: &'static str = "
extern \"C\" __global__ __launch_bounds__(LBM_BLOCK) void cuda_lbm_step(
    const float* __restrict__ input, float* __restrict__ output, const float omega) {
    const unsigned int cell = blockIdx.x * LBM_BLOCK + threadIdx.x;
    if (cell >= LBM_CELLS) return;
    const unsigned int x = cell >> LBM_LOG2_PLANE;
    const unsigned int y = (cell >> LBM_LOG2_N) & LBM_MASK;
    const unsigned int z = cell & LBM_MASK;

    float f[LBM_Q];
    float rho = 0.0f, mx = 0.0f, my = 0.0f, mz = 0.0f;
#pragma unroll
    for (int q = 0; q < LBM_Q; ++q) {
        const unsigned int sx = (x - lbm_cx[q]) & LBM_MASK;
        const unsigned int sy = (y - lbm_cy[q]) & LBM_MASK;
        const unsigned int sz = (z - lbm_cz[q]) & LBM_MASK;
        const unsigned int source = (sx << LBM_LOG2_PLANE) | (sy << LBM_LOG2_N) | sz;
        const float fq = input[(unsigned long long)q * LBM_CELLS + source];
        f[q] = fq;
        rho += fq;
        mx += lbm_cx[q] * fq;
        my += lbm_cy[q] * fq;
        mz += lbm_cz[q] * fq;
    }
";

proof fn lemma_pull_plain()
    ensures
        plain(KERNEL_PULL@),
{
    reveal_strlit("
extern \"C\" __global__ __launch_bounds__(LBM_BLOCK) void cuda_lbm_step(
    const float* __restrict__ input, float* __restrict__ output, const float omega) {
    const unsigned int cell = blockIdx.x * LBM_BLOCK + threadIdx.x;
    if (cell >= LBM_CELLS) return;
    const unsigned int x = cell >> LBM_LOG2_PLANE;
    const unsigned int y = (cell >> LBM_LOG2_N) & LBM_MASK;
    const unsigned int z = cell & LBM_MASK;

    float f[LBM_Q];
    float rho = 0.0f, mx = 0.0f, my = 0.0f, mz = 0.0f;
#pragma unroll
    for (int q = 0; q < LBM_Q; ++q) {
        const unsigned int sx = (x - lbm_cx[q]) & LBM_MASK;
        const unsigned int sy = (y - lbm_cy[q]) & LBM_MASK;
        const unsigned int sz = (z - lbm_cz[q]) & LBM_MASK;
        const unsigned int source = (sx << LBM_LOG2_PLANE) | (sy << LBM_LOG2_N) | sz;
        const float fq = input[(unsigned long long)q * LBM_CELLS + source];
        f[q] = fq;
        rho += fq;
        mx += lbm_cx[q] * fq;
        my += lbm_cy[q] * fq;
        mz += lbm_cz[q] * fq;
    }
");
}

/// The name under which the kernel is found in the compiled module.
pub const KERNEL_ENTRY: &'static str = "cuda_lbm_step";

/// The kernel is defined under its name.
pub proof fn law_kernel_has_its_entry()
    ensures
        contains_text(KERNEL_PULL@, "void "@ + KERNEL_ENTRY@ + "("@),
{
    reveal_strlit("
extern \"C\" __global__ __launch_bounds__(LBM_BLOCK) void cuda_lbm_step(
    const float* __restrict__ input, float* __restrict__ output, const float omega) {
    const unsigned int cell = blockIdx.x * LBM_BLOCK + threadIdx.x;
    if (cell >= LBM_CELLS) return;
    const unsigned int x = cell >> LBM_LOG2_PLANE;
    const unsigned int y = (cell >> LBM_LOG2_N) & LBM_MASK;
    const unsigned int z = cell & LBM_MASK;

    float f[LBM_Q];
    float rho = 0.0f, mx = 0.0f, my = 0.0f, mz = 0.0f;
#pragma unroll
    for (int q = 0; q < LBM_Q; ++q) {
        const unsigned int sx = (x - lbm_cx[q]) & LBM_MASK;
        const unsigned int sy = (y - lbm_cy[q]) & LBM_MASK;
        const unsigned int sz = (z - lbm_cz[q]) & LBM_MASK;
        const unsigned int source = (sx << LBM_LOG2_PLANE) | (sy << LBM_LOG2_N) | sz;
        const float fq = input[(unsigned long long)q * LBM_CELLS + source];
        f[q] = fq;
        rho += fq;
        mx += lbm_cx[q] * fq;
        my += lbm_cy[q] * fq;
        mz += lbm_cz[q] * fq;
    }
");
    reveal_strlit("void ");
    reveal_strlit("cuda_lbm_step");
    reveal_strlit("(");
    lemma_stands(KERNEL_PULL@, "void "@ + KERNEL_ENTRY@ + "("@, 52);
}

/// The BGK collision of the kernel; the rest population takes the residual mass.
pub const KERNEL_COLLIDE: &'static str = "
    const float inv_rho = 1.0f / rho;
    const float ux = mx * inv_rho, uy = my * inv_rho, uz = mz * inv_rho;
    const float u2 = ux * ux + uy * uy + uz * uz;
    float moving_sum = 0.0f;
#pragma unroll
    for (int q = 1; q < LBM_Q; ++q) {
        const float cu = 3.0f * (lbm_cx[q] * ux + lbm_cy[q] * uy + lbm_cz[q] * uz);
        const float feq = lbm_weight(q) * rho * (1.0f + cu + 0.5f * cu * cu - 1.5f * u2);
        const float value = f[q] - omega * (f[q] - feq);
        output[(unsigned long long)q * LBM_CELLS + cell] = value;
        moving_sum += value;
    }
    output[cell] = rho - moving_sum;
}
";

proof fn lemma_collide_plain()
    ensures
        plain(KERNEL_COLLIDE@),
{
    reveal_strlit("
    const float inv_rho = 1.0f / rho;
    const float ux = mx * inv_rho, uy = my * inv_rho, uz = mz * inv_rho;
    const float u2 = ux * ux + uy * uy + uz * uz;
    float moving_sum = 0.0f;
#pragma unroll
    for (int q = 1; q < LBM_Q; ++q) {
        const float cu = 3.0f * (lbm_cx[q] * ux + lbm_cy[q] * uy + lbm_cz[q] * uz);
        const float feq = lbm_weight(q) * rho * (1.0f + cu + 0.5f * cu * cu - 1.5f * u2);
        const float value = f[q] - omega * (f[q] - feq);
        output[(unsigned long long)q * LBM_CELLS + cell] = value;
        moving_sum += value;
    }
    output[cell] = rho - moving_sum;
}
");
}

/// The placeholders, in the order in which they are filled.
pub open spec fn placeholders() -> Seq<Seq<char>> {
    seq![
        "{{N}}"@,
        "{{MASK}}"@,
        "{{LOG2_N}}"@,
        "{{LOG2_PLANE}}"@,
        "{{CELLS}}"@,
        "{{BLOCK}}"@,
    ]
}

/// The definition that stands before each placeholder.
pub open spec fn definitions() -> Seq<Seq<char>> {
    seq![
        "#define LBM_N "@,
        "#define LBM_MASK "@,
        "#define LBM_LOG2_N "@,
        "#define LBM_LOG2_PLANE "@,
        "#define LBM_CELLS "@,
        "#define LBM_BLOCK "@,
    ]
}

proof fn lemma_stands(s: Seq<char>, part: Seq<char>, at: int)
    requires
        0 <= at <= s.len(),
        part.len() <= s.len() - at,
        forall|j: int| 0 <= j < part.len() ==> part[j] == s[at + j],
    ensures
        part.is_prefix_of(s.skip(at)),
        contains_text(s, part),
{
    assert(part =~= s.skip(at).subrange(0, part.len() as int));
    assert(part.is_prefix_of(s.skip(at)));
}

/// The placeholders are placeholders, no two of them can be confused, and the
/// definitions are definitions.
pub proof fn lemma_names()
    ensures
        placeholders().len() == 6,
        definitions().len() == 6,
        forall|k: int| 0 <= k < 6 ==> is_placeholder(#[trigger] placeholders()[k]),
        forall|k: int| 0 <= k < 6 ==> is_definition(#[trigger] definitions()[k]),
        forall|i: int, j: int|
            0 <= i < 6 && 0 <= j < 6 && i != j ==> differ(
                #[trigger] placeholders()[i],
                #[trigger] placeholders()[j],
            ),
{
    reveal_strlit("{{N}}");
    reveal_strlit("{{MASK}}");
    reveal_strlit("{{LOG2_N}}");
    reveal_strlit("{{LOG2_PLANE}}");
    reveal_strlit("{{CELLS}}");
    reveal_strlit("{{BLOCK}}");
    reveal_strlit("#define LBM_N ");
    reveal_strlit("#define LBM_MASK ");
    reveal_strlit("#define LBM_LOG2_N ");
    reveal_strlit("#define LBM_LOG2_PLANE ");
    reveal_strlit("#define LBM_CELLS ");
    reveal_strlit("#define LBM_BLOCK ");
    let p = placeholders();
    assert forall|i: int, j: int| 0 <= i < 6 && 0 <= j < 6 && i != j implies differ(
        #[trigger] p[i],
        #[trigger] p[j],
    ) by {
        assert(p[i][2] != p[j][2] || p[i][7] != p[j][7]);
    }
}

/// The whole kernel text.
pub open spec fn kernel_template() -> Seq<char> {
    KERNEL_PARAMETERS@ + KERNEL_TABLES@ + KERNEL_PULL@ + KERNEL_COLLIDE@
}

/// The kernel text, with its placeholders.
pub fn kernel_template_text() -> (r: String)
    ensures
        r@ == kernel_template(),
{
    let mut r = KERNEL_PARAMETERS.to_owned();
    r.append(KERNEL_TABLES);
    r.append(KERNEL_PULL);
    r.append(KERNEL_COLLIDE);
    r
}

proof fn lemma_plain_after(s: Seq<char>, t: Seq<char>, tokens: Seq<Seq<char>>)
    requires
        s.len() > 0,
        s.last() != '{',
        opens_only(s, tokens),
        plain(t),
    ensures
        (s + t).last() != '{',
        opens_only(s + t, tokens),
{
    let r = s + t;
    assert forall|i: int| #[trigger] opens(r, i) implies exists|k: int|
        0 <= k < tokens.len() && #[trigger] tokens[k].is_prefix_of(r.skip(i)) by {
        if i >= s.len() {
            assert(opens(t, i - s.len()));
        } else {
            assert(opens(s, i));
            let k = choose|k: int|
                0 <= k < tokens.len() && #[trigger] tokens[k].is_prefix_of(s.skip(i));
            let n = tokens[k].len() as int;
            assert(tokens[k] == s.skip(i).subrange(0, n));
            assert(tokens[k] =~= r.skip(i).subrange(0, n));
            assert(tokens[k].is_prefix_of(r.skip(i)));
        }
    }
}

/// Only the first part of the kernel text opens placeholders; the others are plain.
pub proof fn lemma_kernel_parts()
    ensures
        KERNEL_PARAMETERS@.len() > 0,
        KERNEL_PARAMETERS@.last() != '{',
        opens_only(KERNEL_PARAMETERS@, placeholders()),
        opens_only(KERNEL_PARAMETERS@ + KERNEL_TABLES@, placeholders()),
        opens_only(KERNEL_PARAMETERS@ + KERNEL_TABLES@ + KERNEL_PULL@, placeholders()),
        plain(KERNEL_TABLES@),
        plain(KERNEL_PULL@),
        plain(KERNEL_COLLIDE@),
{
    lemma_parameters();
    lemma_tables_plain();
    lemma_pull_plain();
    lemma_collide_plain();
    lemma_plain_after(KERNEL_PARAMETERS@, KERNEL_TABLES@, placeholders());
    lemma_plain_after(KERNEL_PARAMETERS@ + KERNEL_TABLES@, KERNEL_PULL@, placeholders());
}

/// Each pair of braces in the kernel text opens one of the placeholders, and each
/// placeholder stands in a definition of its own.
pub proof fn lemma_kernel_template()
    ensures
        opens_only(kernel_template(), placeholders()),
        forall|k: int|
            0 <= k < 6 ==> contains_text(
                kernel_template(),
                #[trigger] definitions()[k] + placeholders()[k],
            ),
{
    lemma_parameters();
    lemma_kernel_parts();
    let s1 = KERNEL_PARAMETERS@ + KERNEL_TABLES@;
    let s2 = s1 + KERNEL_PULL@;
    lemma_plain_after(s2, KERNEL_COLLIDE@, placeholders());
    assert forall|k: int| 0 <= k < 6 implies contains_text(
        kernel_template(),
        #[trigger] definitions()[k] + placeholders()[k],
    ) by {
        let part = definitions()[k] + placeholders()[k];
        lemma_contained_before(KERNEL_PARAMETERS@, KERNEL_TABLES@, part);
        lemma_contained_before(s1, KERNEL_PULL@, part);
        lemma_contained_before(s2, KERNEL_COLLIDE@, part);
    }
}

/// Each parameter has a line of its own.
pub proof fn lemma_parameter_lines()
    ensures
        forall|k: int|
            0 <= k < 6 ==> contains_text(
                kernel_template(),
                #[trigger] definitions()[k] + placeholders()[k] + "\n"@,
            ),
{
    reveal_strlit("#define LBM_N {{N}}
#define LBM_MASK {{MASK}}
#define LBM_LOG2_N {{LOG2_N}}
#define LBM_LOG2_PLANE {{LOG2_PLANE}}
#define LBM_CELLS {{CELLS}}
#define LBM_BLOCK {{BLOCK}}
#define LBM_Q 19

static_assert(LBM_CELLS == LBM_N * LBM_N * LBM_N, \"cells must be the cube of the edge\");
");
    reveal_strlit("{{N}}");
    reveal_strlit("{{MASK}}");
    reveal_strlit("{{LOG2_N}}");
    reveal_strlit("{{LOG2_PLANE}}");
    reveal_strlit("{{CELLS}}");
    reveal_strlit("{{BLOCK}}");
    reveal_strlit("#define LBM_N ");
    reveal_strlit("#define LBM_MASK ");
    reveal_strlit("#define LBM_LOG2_N ");
    reveal_strlit("#define LBM_LOG2_PLANE ");
    reveal_strlit("#define LBM_CELLS ");
    reveal_strlit("#define LBM_BLOCK ");
    reveal_strlit("\n");
    let s = KERNEL_PARAMETERS@;
    lemma_stands(s, definitions()[0] + placeholders()[0] + "\n"@, 0);
    lemma_stands(s, definitions()[1] + placeholders()[1] + "\n"@, 20);
    lemma_stands(s, definitions()[2] + placeholders()[2] + "\n"@, 46);
    lemma_stands(s, definitions()[3] + placeholders()[3] + "\n"@, 76);
    lemma_stands(s, definitions()[4] + placeholders()[4] + "\n"@, 114);
    lemma_stands(s, definitions()[5] + placeholders()[5] + "\n"@, 142);
    let s1 = s + KERNEL_TABLES@;
    let s2 = s1 + KERNEL_PULL@;
    assert forall|k: int| 0 <= k < 6 implies contains_text(
        kernel_template(),
        #[trigger] definitions()[k] + placeholders()[k] + "\n"@,
    ) by {
        let part = definitions()[k] + placeholders()[k] + "\n"@;
        assert(contains_text(s, part));
        lemma_contained_before(s, KERNEL_TABLES@, part);
        lemma_contained_before(s1, KERNEL_PULL@, part);
        lemma_contained_before(s2, KERNEL_COLLIDE@, part);
    }
}

/// The pull of the kernel, line by line: a thread takes the cell of its number, leaves if
/// there is none, decodes its coordinates, and reads in each direction the cell one step
/// against it, masked onto the lattice; it sums up the mass and the momentum.
pub proof fn law_kernel_pulls_line_by_line()
    ensures
        "extern \"C\" __global__ __launch_bounds__(LBM_BLOCK) void cuda_lbm_step(\n"@.is_prefix_of(KERNEL_PULL@.skip(1)),
        "    const float* __restrict__ input, float* __restrict__ output, const float omega) {\n"@.is_prefix_of(KERNEL_PULL@.skip(72)),
        "    const unsigned int cell = blockIdx.x * LBM_BLOCK + threadIdx.x;\n"@.is_prefix_of(KERNEL_PULL@.skip(158)),
        "    if (cell >= LBM_CELLS) return;\n"@.is_prefix_of(KERNEL_PULL@.skip(226)),
        "    const unsigned int x = cell >> LBM_LOG2_PLANE;\n"@.is_prefix_of(KERNEL_PULL@.skip(261)),
        "    const unsigned int y = (cell >> LBM_LOG2_N) & LBM_MASK;\n"@.is_prefix_of(KERNEL_PULL@.skip(312)),
        "    const unsigned int z = cell & LBM_MASK;\n"@.is_prefix_of(KERNEL_PULL@.skip(372)),
        "    float f[LBM_Q];\n"@.is_prefix_of(KERNEL_PULL@.skip(417)),
        "    float rho = 0.0f, mx = 0.0f, my = 0.0f, mz = 0.0f;\n"@.is_prefix_of(KERNEL_PULL@.skip(437)),
        "#pragma unroll\n"@.is_prefix_of(KERNEL_PULL@.skip(492)),
        "    for (int q = 0; q < LBM_Q; ++q) {\n"@.is_prefix_of(KERNEL_PULL@.skip(507)),
        "        const unsigned int sx = (x - lbm_cx[q]) & LBM_MASK;\n"@.is_prefix_of(KERNEL_PULL@.skip(545)),
        "        const unsigned int sy = (y - lbm_cy[q]) & LBM_MASK;\n"@.is_prefix_of(KERNEL_PULL@.skip(605)),
        "        const unsigned int sz = (z - lbm_cz[q]) & LBM_MASK;\n"@.is_prefix_of(KERNEL_PULL@.skip(665)),
        "        const unsigned int source = (sx << LBM_LOG2_PLANE) | (sy << LBM_LOG2_N) | sz;\n"@.is_prefix_of(KERNEL_PULL@.skip(725)),
        "        const float fq = input[(unsigned long long)q * LBM_CELLS + source];\n"@.is_prefix_of(KERNEL_PULL@.skip(811)),
        "        f[q] = fq;\n"@.is_prefix_of(KERNEL_PULL@.skip(887)),
        "        rho += fq;\n"@.is_prefix_of(KERNEL_PULL@.skip(906)),
        "        mx += lbm_cx[q] * fq;\n"@.is_prefix_of(KERNEL_PULL@.skip(925)),
        "        my += lbm_cy[q] * fq;\n"@.is_prefix_of(KERNEL_PULL@.skip(955)),
        "        mz += lbm_cz[q] * fq;\n"@.is_prefix_of(KERNEL_PULL@.skip(985)),
        "    }\n"@.is_prefix_of(KERNEL_PULL@.skip(1015)),
        KERNEL_PULL@.len() == 1021,
{
    reveal_strlit("
extern \"C\" __global__ __launch_bounds__(LBM_BLOCK) void cuda_lbm_step(
    const float* __restrict__ input, float* __restrict__ output, const float omega) {
    const unsigned int cell = blockIdx.x * LBM_BLOCK + threadIdx.x;
    if (cell >= LBM_CELLS) return;
    const unsigned int x = cell >> LBM_LOG2_PLANE;
    const unsigned int y = (cell >> LBM_LOG2_N) & LBM_MASK;
    const unsigned int z = cell & LBM_MASK;

    float f[LBM_Q];
    float rho = 0.0f, mx = 0.0f, my = 0.0f, mz = 0.0f;
#pragma unroll
    for (int q = 0; q < LBM_Q; ++q) {
        const unsigned int sx = (x - lbm_cx[q]) & LBM_MASK;
        const unsigned int sy = (y - lbm_cy[q]) & LBM_MASK;
        const unsigned int sz = (z - lbm_cz[q]) & LBM_MASK;
        const unsigned int source = (sx << LBM_LOG2_PLANE) | (sy << LBM_LOG2_N) | sz;
        const float fq = input[(unsigned long long)q * LBM_CELLS + source];
        f[q] = fq;
        rho += fq;
        mx += lbm_cx[q] * fq;
        my += lbm_cy[q] * fq;
        mz += lbm_cz[q] * fq;
    }
");
    reveal_strlit("extern \"C\" __global__ __launch_bounds__(LBM_BLOCK) void cuda_lbm_step(\n");
    reveal_strlit("    const float* __restrict__ input, float* __restrict__ output, const float omega) {\n");
    reveal_strlit("    const unsigned int cell = blockIdx.x * LBM_BLOCK + threadIdx.x;\n");
    reveal_strlit("    if (cell >= LBM_CELLS) return;\n");
    reveal_strlit("    const unsigned int x = cell >> LBM_LOG2_PLANE;\n");
    reveal_strlit("    const unsigned int y = (cell >> LBM_LOG2_N) & LBM_MASK;\n");
    reveal_strlit("    const unsigned int z = cell & LBM_MASK;\n");
    reveal_strlit("    float f[LBM_Q];\n");
    reveal_strlit("    float rho = 0.0f, mx = 0.0f, my = 0.0f, mz = 0.0f;\n");
    reveal_strlit("#pragma unroll\n");
    reveal_strlit("    for (int q = 0; q < LBM_Q; ++q) {\n");
    reveal_strlit("        const unsigned int sx = (x - lbm_cx[q]) & LBM_MASK;\n");
    reveal_strlit("        const unsigned int sy = (y - lbm_cy[q]) & LBM_MASK;\n");
    reveal_strlit("        const unsigned int sz = (z - lbm_cz[q]) & LBM_MASK;\n");
    reveal_strlit("        const unsigned int source = (sx << LBM_LOG2_PLANE) | (sy << LBM_LOG2_N) | sz;\n");
    reveal_strlit("        const float fq = input[(unsigned long long)q * LBM_CELLS + source];\n");
    reveal_strlit("        f[q] = fq;\n");
    reveal_strlit("        rho += fq;\n");
    reveal_strlit("        mx += lbm_cx[q] * fq;\n");
    reveal_strlit("        my += lbm_cy[q] * fq;\n");
    reveal_strlit("        mz += lbm_cz[q] * fq;\n");
    reveal_strlit("    }\n");
    let s = KERNEL_PULL@;
    lemma_stands(s, "extern \"C\" __global__ __launch_bounds__(LBM_BLOCK) void cuda_lbm_step(\n"@, 1);
    lemma_stands(s, "    const float* __restrict__ input, float* __restrict__ output, const float omega) {\n"@, 72);
    lemma_stands(s, "    const unsigned int cell = blockIdx.x * LBM_BLOCK + threadIdx.x;\n"@, 158);
    lemma_stands(s, "    if (cell >= LBM_CELLS) return;\n"@, 226);
    lemma_stands(s, "    const unsigned int x = cell >> LBM_LOG2_PLANE;\n"@, 261);
    lemma_stands(s, "    const unsigned int y = (cell >> LBM_LOG2_N) & LBM_MASK;\n"@, 312);
    lemma_stands(s, "    const unsigned int z = cell & LBM_MASK;\n"@, 372);
    lemma_stands(s, "    float f[LBM_Q];\n"@, 417);
    lemma_stands(s, "    float rho = 0.0f, mx = 0.0f, my = 0.0f, mz = 0.0f;\n"@, 437);
    lemma_stands(s, "#pragma unroll\n"@, 492);
    lemma_stands(s, "    for (int q = 0; q < LBM_Q; ++q) {\n"@, 507);
    lemma_stands(s, "        const unsigned int sx = (x - lbm_cx[q]) & LBM_MASK;\n"@, 545);
    lemma_stands(s, "        const unsigned int sy = (y - lbm_cy[q]) & LBM_MASK;\n"@, 605);
    lemma_stands(s, "        const unsigned int sz = (z - lbm_cz[q]) & LBM_MASK;\n"@, 665);
    lemma_stands(s, "        const unsigned int source = (sx << LBM_LOG2_PLANE) | (sy << LBM_LOG2_N) | sz;\n"@, 725);
    lemma_stands(s, "        const float fq = input[(unsigned long long)q * LBM_CELLS + source];\n"@, 811);
    lemma_stands(s, "        f[q] = fq;\n"@, 887);
    lemma_stands(s, "        rho += fq;\n"@, 906);
    lemma_stands(s, "        mx += lbm_cx[q] * fq;\n"@, 925);
    lemma_stands(s, "        my += lbm_cy[q] * fq;\n"@, 955);
    lemma_stands(s, "        mz += lbm_cz[q] * fq;\n"@, 985);
    lemma_stands(s, "    }\n"@, 1015);
}

/// The collision of the kernel, line by line: each moving population relaxes at the rate that
/// is handed over towards its equilibrium, weight times density times the second-order
/// expansion in the velocity, and the rest population takes what is left of the mass.
pub proof fn law_kernel_collides_line_by_line()
    ensures
        "    const float inv_rho = 1.0f / rho;\n"@.is_prefix_of(KERNEL_COLLIDE@.skip(1)),
        "    const float ux = mx * inv_rho, uy = my * inv_rho, uz = mz * inv_rho;\n"@.is_prefix_of(KERNEL_COLLIDE@.skip(39)),
        "    const float u2 = ux * ux + uy * uy + uz * uz;\n"@.is_prefix_of(KERNEL_COLLIDE@.skip(112)),
        "    float moving_sum = 0.0f;\n"@.is_prefix_of(KERNEL_COLLIDE@.skip(162)),
        "#pragma unroll\n"@.is_prefix_of(KERNEL_COLLIDE@.skip(191)),
        "    for (int q = 1; q < LBM_Q; ++q) {\n"@.is_prefix_of(KERNEL_COLLIDE@.skip(206)),
        "        const float cu = 3.0f * (lbm_cx[q] * ux + lbm_cy[q] * uy + lbm_cz[q] * uz);\n"@.is_prefix_of(KERNEL_COLLIDE@.skip(244)),
        "        const float feq = lbm_weight(q) * rho * (1.0f + cu + 0.5f * cu * cu - 1.5f * u2);\n"@.is_prefix_of(KERNEL_COLLIDE@.skip(328)),
        "        const float value = f[q] - omega * (f[q] - feq);\n"@.is_prefix_of(KERNEL_COLLIDE@.skip(418)),
        "        output[(unsigned long long)q * LBM_CELLS + cell] = value;\n"@.is_prefix_of(KERNEL_COLLIDE@.skip(475)),
        "        moving_sum += value;\n"@.is_prefix_of(KERNEL_COLLIDE@.skip(541)),
        "    }\n"@.is_prefix_of(KERNEL_COLLIDE@.skip(570)),
        "    output[cell] = rho - moving_sum;\n"@.is_prefix_of(KERNEL_COLLIDE@.skip(576)),
        "}\n"@.is_prefix_of(KERNEL_COLLIDE@.skip(613)),
        KERNEL_COLLIDE@.len() == 615,
{
    reveal_strlit("
    const float inv_rho = 1.0f / rho;
    const float ux = mx * inv_rho, uy = my * inv_rho, uz = mz * inv_rho;
    const float u2 = ux * ux + uy * uy + uz * uz;
    float moving_sum = 0.0f;
#pragma unroll
    for (int q = 1; q < LBM_Q; ++q) {
        const float cu = 3.0f * (lbm_cx[q] * ux + lbm_cy[q] * uy + lbm_cz[q] * uz);
        const float feq = lbm_weight(q) * rho * (1.0f + cu + 0.5f * cu * cu - 1.5f * u2);
        const float value = f[q] - omega * (f[q] - feq);
        output[(unsigned long long)q * LBM_CELLS + cell] = value;
        moving_sum += value;
    }
    output[cell] = rho - moving_sum;
}
");
    reveal_strlit("    const float inv_rho = 1.0f / rho;\n");
    reveal_strlit("    const float ux = mx * inv_rho, uy = my * inv_rho, uz = mz * inv_rho;\n");
    reveal_strlit("    const float u2 = ux * ux + uy * uy + uz * uz;\n");
    reveal_strlit("    float moving_sum = 0.0f;\n");
    reveal_strlit("#pragma unroll\n");
    reveal_strlit("    for (int q = 1; q < LBM_Q; ++q) {\n");
    reveal_strlit("        const float cu = 3.0f * (lbm_cx[q] * ux + lbm_cy[q] * uy + lbm_cz[q] * uz);\n");
    reveal_strlit("        const float feq = lbm_weight(q) * rho * (1.0f + cu + 0.5f * cu * cu - 1.5f * u2);\n");
    reveal_strlit("        const float value = f[q] - omega * (f[q] - feq);\n");
    reveal_strlit("        output[(unsigned long long)q * LBM_CELLS + cell] = value;\n");
    reveal_strlit("        moving_sum += value;\n");
    reveal_strlit("    }\n");
    reveal_strlit("    output[cell] = rho - moving_sum;\n");
    reveal_strlit("}\n");
    let s = KERNEL_COLLIDE@;
    lemma_stands(s, "    const float inv_rho = 1.0f / rho;\n"@, 1);
    lemma_stands(s, "    const float ux = mx * inv_rho, uy = my * inv_rho, uz = mz * inv_rho;\n"@, 39);
    lemma_stands(s, "    const float u2 = ux * ux + uy * uy + uz * uz;\n"@, 112);
    lemma_stands(s, "    float moving_sum = 0.0f;\n"@, 162);
    lemma_stands(s, "#pragma unroll\n"@, 191);
    lemma_stands(s, "    for (int q = 1; q < LBM_Q; ++q) {\n"@, 206);
    lemma_stands(s, "        const float cu = 3.0f * (lbm_cx[q] * ux + lbm_cy[q] * uy + lbm_cz[q] * uz);\n"@, 244);
    lemma_stands(s, "        const float feq = lbm_weight(q) * rho * (1.0f + cu + 0.5f * cu * cu - 1.5f * u2);\n"@, 328);
    lemma_stands(s, "        const float value = f[q] - omega * (f[q] - feq);\n"@, 418);
    lemma_stands(s, "        output[(unsigned long long)q * LBM_CELLS + cell] = value;\n"@, 475);
    lemma_stands(s, "        moving_sum += value;\n"@, 541);
    lemma_stands(s, "    }\n"@, 570);
    lemma_stands(s, "    output[cell] = rho - moving_sum;\n"@, 576);
    lemma_stands(s, "}\n"@, 613);
}

/// The parameters of the kernel, line by line: six that are left open, the number of
/// directions, and a guard that the cells are the cube of the edge.
pub proof fn law_kernel_parameters_line_by_line()
    ensures
        "#define LBM_N {{N}}\n"@.is_prefix_of(KERNEL_PARAMETERS@.skip(0)),
        "#define LBM_MASK {{MASK}}\n"@.is_prefix_of(KERNEL_PARAMETERS@.skip(20)),
        "#define LBM_LOG2_N {{LOG2_N}}\n"@.is_prefix_of(KERNEL_PARAMETERS@.skip(46)),
        "#define LBM_LOG2_PLANE {{LOG2_PLANE}}\n"@.is_prefix_of(KERNEL_PARAMETERS@.skip(76)),
        "#define LBM_CELLS {{CELLS}}\n"@.is_prefix_of(KERNEL_PARAMETERS@.skip(114)),
        "#define LBM_BLOCK {{BLOCK}}\n"@.is_prefix_of(KERNEL_PARAMETERS@.skip(142)),
        "#define LBM_Q 19\n"@.is_prefix_of(KERNEL_PARAMETERS@.skip(170)),
        "static_assert(LBM_CELLS == LBM_N * LBM_N * LBM_N, \"cells must be the cube of the edge\");\n"@.is_prefix_of(KERNEL_PARAMETERS@.skip(188)),
        KERNEL_PARAMETERS@.len() == 277,
{
    reveal_strlit("#define LBM_N {{N}}
#define LBM_MASK {{MASK}}
#define LBM_LOG2_N {{LOG2_N}}
#define LBM_LOG2_PLANE {{LOG2_PLANE}}
#define LBM_CELLS {{CELLS}}
#define LBM_BLOCK {{BLOCK}}
#define LBM_Q 19

static_assert(LBM_CELLS == LBM_N * LBM_N * LBM_N, \"cells must be the cube of the edge\");
");
    reveal_strlit("#define LBM_N {{N}}\n");
    reveal_strlit("#define LBM_MASK {{MASK}}\n");
    reveal_strlit("#define LBM_LOG2_N {{LOG2_N}}\n");
    reveal_strlit("#define LBM_LOG2_PLANE {{LOG2_PLANE}}\n");
    reveal_strlit("#define LBM_CELLS {{CELLS}}\n");
    reveal_strlit("#define LBM_BLOCK {{BLOCK}}\n");
    reveal_strlit("#define LBM_Q 19\n");
    reveal_strlit("static_assert(LBM_CELLS == LBM_N * LBM_N * LBM_N, \"cells must be the cube of the edge\");\n");
    let s = KERNEL_PARAMETERS@;
    lemma_stands(s, "#define LBM_N {{N}}\n"@, 0);
    lemma_stands(s, "#define LBM_MASK {{MASK}}\n"@, 20);
    lemma_stands(s, "#define LBM_LOG2_N {{LOG2_N}}\n"@, 46);
    lemma_stands(s, "#define LBM_LOG2_PLANE {{LOG2_PLANE}}\n"@, 76);
    lemma_stands(s, "#define LBM_CELLS {{CELLS}}\n"@, 114);
    lemma_stands(s, "#define LBM_BLOCK {{BLOCK}}\n"@, 142);
    lemma_stands(s, "#define LBM_Q 19\n"@, 170);
    lemma_stands(s, "static_assert(LBM_CELLS == LBM_N * LBM_N * LBM_N, \"cells must be the cube of the edge\");\n"@, 188);
}

} // verus!
