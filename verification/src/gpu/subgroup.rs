//! Shader with one subgroup per surviving path.

use crate::gpu::scalar;
use crate::gpu::scalar::push_needle_bytes;
use crate::gpu::text;
use crate::gpu::text::{push_named, push_text};
use vstd::prelude::*;

verus! {

pub const HEADER: &'static str = r#"struct Params {
    needle_len: u32,
    item_count: u32,
    match_score: u32,
    mismatch_penalty: u32,
    gap_open: u32,
    gap_extend: u32,
    prefix_bonus: u32,
    delimiter_bonus: u32,
    capitalization_bonus: u32,
    matching_case_bonus: u32,
    exact_match_bonus: u32,
    thread_count: u32,
    _reserved: u32,
    _pad0: u32,
    _pad1: u32,
};

@group(0) @binding(0) var<uniform> params: Params;
@group(0) @binding(1) var<storage, read> needle: array<u32>;
@group(0) @binding(2) var<storage, read> hay: array<u32>;
@group(0) @binding(3) var<storage, read> items: array<vec2<u32>>;
@group(0) @binding(4) var<storage, read_write> scores: array<u32>;
@group(0) @binding(5) var<storage, read> survivors: array<vec4<u32>>;
@group(0) @binding(6) var<storage, read> survivor_count: u32;

fn hay_byte(idx: u32) -> u32 {
    return (hay[idx >> 2u] >> ((idx & 3u) * 8u)) & 0xffu;
}

fn needle_byte(idx: u32) -> u32 {
    return (needle[idx >> 2u] >> ((idx & 3u) * 8u)) & 0xffu;
}

fn flip_case(c: u32) -> u32 {
    if (c >= 97u && c <= 122u) { return c - 32u; }
    if (c >= 65u && c <= 90u) { return c + 32u; }
    return c;
}

fn is_delim(c: u32) -> bool {
    let is_upper = c >= 65u && c <= 90u;
    let is_lower = c >= 97u && c <= 122u;
    let is_digit = c >= 48u && c <= 57u;
    return !(is_upper || is_lower || is_digit || c > 127u);
}

// 16 lanes per haystack inside one subgroup; needle length is baked in so the
// row loop unrolls and previous-chunk state stays in registers.
@compute @workgroup_size(LANES)
fn main(
    @builtin(workgroup_id) wg: vec3<u32>,
    @builtin(num_workgroups) nwg: vec3<u32>,
    @builtin(subgroup_invocation_id) lane: u32,
    @builtin(subgroup_size) subgroup_size: u32,
) {
    let sidx = wg.y * nwg.x + wg.x;
    if (sidx >= survivor_count) { return; }
    let sv = survivors[sidx];
    let id = sv.x;
    if (subgroup_size < LANES) {
        if (lane == 0u) { scores[id] = 0xffffffffu; }
        return;
    }
    let win_start = sv.y;
    let win_end = sv.z;
    let start = items[id].x;
    let len = items[id].y;
    let chunks = (win_end - win_start + LANES - 1u) / LANES;

    let match_score = i32(params.match_score + params.mismatch_penalty);
    let mismatch = i32(params.mismatch_penalty);
    let gap_open = i32(params.gap_open - params.gap_extend);
    let gap_extend = i32(params.gap_extend);
    let mcb = i32(params.matching_case_bonus);
    var best = 0;
"#;

pub const CHUNK_LOOP: &'static str = r#"
    for (var ci = 0u; ci < chunks; ci++) {
        let pos = win_start + ci * LANES + lane;
        var c = 0u;
        if (pos < win_end) { c = hay_byte(start + pos); }
        var bonus = match_score;
        if (pos > win_start) {
            let prev_c = hay_byte(start + pos - 1u);
            if (c >= 65u && c <= 90u && prev_c >= 97u && prev_c <= 122u) { bonus += i32(params.capitalization_bonus); }
            if (is_delim(prev_c) && !is_delim(c)) { bonus += i32(params.delimiter_bonus); }
        }
        if (pos == 0u) { bonus += i32(params.prefix_bonus); }

        var prev_row = 0;
        var up_mm = false;
        var prev_mask = 0u;
        var s = 0;
"#;

/// How a row starts; its index, the packed cells and the lane mask go between
/// the pieces.
pub const ROW_EXACT: &'static str = r#"
        {
            let exact = c == nc"#;

pub const ROW_MATCH: &'static str = r#";
            let m = exact || c == fc"#;

pub const ROW_DIAGONAL: &'static str = r#";
            let left = subgroupShuffleUp(prev_row, 1u);
            let diag_adj = i32(subgroupShuffle("#;

pub const ROW_CELL: &'static str = r#", LANES - 1u));
            var d = select(left, diag_adj, lane == 0u);
            if (m) { d += bonus; }
            d = max(d - mismatch, 0);
            if (exact) { d += mcb; }
            var u = prev_row - gap_extend;
            if (up_mm) { u -= gap_open; }
            s = max(d, max(u, 0));
            let row_mask = subgroupBallot(m).x & "#;

pub const ROW_MASK_END: &'static str = r#";
"#;

/// How gaps of one width are closed; the width, the packed cells and the packed
/// masks go between the pieces.
pub const GAP_UP: &'static str = r#"            {
                let up_v = subgroupShuffleUp(s, "#;

pub const GAP_NEIGHBOUR: &'static str = r#"u);
                let adj_v = i32(subgroupShuffle("#;

pub const GAP_LANES: &'static str = r#", LANES - "#;

pub const GAP_SELECT: &'static str = r#"u + lane));
                let src = select(up_v, adj_v, lane < "#;

pub const GAP_ROW_MASK: &'static str = r#"u);
                let up_mm_bit = (row_mask >> ((lane - "#;

pub const GAP_MASK: &'static str = r#"u) & 31u)) & 1u;
                let adj_mm_bit = ("#;

pub const GAP_MASK_LANES: &'static str = r#" >> (LANES - "#;

pub const GAP_MASK_SELECT: &'static str = r#"u + lane)) & 1u;
                let src_mm = select(up_mm_bit, adj_mm_bit, lane < "#;

pub const GAP_MAX: &'static str = r#"u);
                s = max(s, max(src - "#;

pub const GAP_END: &'static str = r#" * gap_extend - i32(src_mm) * gap_open, 0));
            }
"#;

pub const ROW_END: &'static str = r#"
            prev_row = s;
            up_mm = m;
            prev_mask = row_mask;
        }
"#;

pub const TAIL: &'static str = r#"
        best = max(best, s);
    }

    best = subgroupMax(best);
    if (lane == 0u) {
        if (sv.w != 0u && best > 0) { best += i32(params.exact_match_bonus); }
        scores[id] = u32(best);
    }
}
"#;

/// Lanes whose masks share a register with those of another row.
pub const PACKED_LANES: u32 = 16;

pub open spec fn lane_mask(packed: bool) -> Seq<char> {
    if packed {
        "0xffffu"@
    } else {
        "0xffffffffu"@
    }
}

/// Reads what row `i` left in registers that two rows share, or in its own.
pub open spec fn unpack(i: nat, reg: Seq<char>, shared: bool) -> Seq<char> {
    if !shared {
        reg + text::decimal(i)
    } else if i % 2 == 0 {
        "("@ + reg + text::decimal(i / 2) + " & 0xffffu)"@
    } else {
        "("@ + reg + text::decimal(i / 2) + " >> 16u)"@
    }
}

/// Keeps a value of row `i` in a register that two rows share, or in its own.
pub open spec fn store(i: nat, reg: Seq<char>, val: Seq<char>, shared: bool) -> Seq<char> {
    if !shared {
        reg + text::decimal(i) + " = "@ + val + ";"@
    } else if i % 2 == 0 {
        reg + text::decimal(i / 2) + " = ("@ + reg + text::decimal(i / 2)
            + " & 0xffff0000u) | u32("@ + val + ");"@
    } else {
        reg + text::decimal(i / 2) + " = ("@ + reg + text::decimal(i / 2)
            + " & 0xffffu) | (u32("@ + val + ") << 16u);"@
    }
}

/// Keeps the cells and the mask of row `i`.
pub open spec fn store_row(i: nat, indent: Seq<char>, packed: bool) -> Seq<char> {
    indent + store(i, "pa"@, "prev_row"@, true) + "\n"@ + indent + store(
        i,
        "pmm"@,
        "prev_mask"@,
        packed,
    )
}

/// Registers `reg0`, `reg1` and so on.
pub open spec fn registers(reg: Seq<char>, n: nat) -> Seq<char>
    decreases n,
{
    if n == 0 {
        Seq::empty()
    } else {
        registers(reg, (n - 1) as nat) + ("    var "@ + reg + text::decimal((n - 1) as nat)
            + " = 0u;\n"@)
    }
}

/// Closes gaps of one width in row `i`.
pub open spec fn gap_step(i: nat, shift: nat, packed: bool) -> Seq<char> {
    GAP_UP@ + text::decimal(shift) + GAP_NEIGHBOUR@ + unpack(i, "pa"@, true) + GAP_LANES@
        + text::decimal(shift) + GAP_SELECT@ + text::decimal(shift) + GAP_ROW_MASK@
        + text::decimal(shift) + GAP_MASK@ + unpack(i, "pmm"@, packed) + GAP_MASK_LANES@
        + text::decimal(shift) + GAP_MASK_SELECT@ + text::decimal(shift) + GAP_MAX@
        + text::decimal(shift) + GAP_END@
}

/// Closes gaps of `shift`, twice `shift` and so on, below the number of lanes.
pub open spec fn gap_steps(i: nat, shift: nat, lanes: nat, packed: bool) -> Seq<char>
    decreases if shift < lanes { lanes - shift } else { 0 },
{
    if shift == 0 || shift >= lanes {
        Seq::empty()
    } else {
        gap_step(i, shift, packed) + gap_steps(i, 2 * shift, lanes, packed)
    }
}

/// How the row below row `p` starts.
pub open spec fn row_start(p: nat, packed: bool) -> Seq<char> {
    ROW_EXACT@ + text::decimal(p) + ROW_MATCH@ + text::decimal(p) + ROW_DIAGONAL@ + unpack(
        p,
        "pa"@,
        true,
    ) + ROW_CELL@ + lane_mask(packed) + ROW_MASK_END@
}

/// What row `i` does with a chunk.
pub open spec fn row_step(i: nat, lanes: nat, packed: bool) -> Seq<char> {
    let p = (i - 1) as nat;
    row_start(p, packed) + gap_steps(i, 1, lanes, packed) + store_row(
        p,
        "            "@,
        packed,
    ) + ROW_END@
}

pub open spec fn row_steps(n: nat, lanes: nat, packed: bool) -> Seq<char>
    decreases n,
{
    if n == 0 {
        Seq::empty()
    } else {
        row_steps((n - 1) as nat, lanes, packed) + row_step(n, lanes, packed)
    }
}

/// Registers that masks take.
pub open spec fn mask_registers(n: nat, packed: bool) -> nat {
    if packed {
        n / 2 + 1
    } else {
        n + 1
    }
}

proof fn lemma_joined(a: Seq<char>, b: Seq<char>, c: Seq<char>)
    ensures
        a + b + c == a + (b + c),
{
    assert(a + b + c =~= a + (b + c));
}

fn push_rows(out: &mut String, n: usize, lanes: u32, packed: bool)
    requires
        n < usize::MAX,
    ensures
        final(out)@ == old(out)@ + row_steps(n as nat, lanes as nat, packed),
{
    let ghost front = out@;
    let mut i: usize = 0;
    assert(out@ =~= front + row_steps(0, lanes as nat, packed));
    while i < n
        invariant
            i <= n < usize::MAX,
            out@ == front + row_steps(i as nat, lanes as nat, packed),
        decreases n - i,
    {
        let ghost held = row_steps(i as nat, lanes as nat, packed);
        let ghost row = row_step((i + 1) as nat, lanes as nat, packed);
        push_row(out, i + 1, lanes, packed);
        proof {
            lemma_joined(front, held, row);
            assert(row_steps((i + 1) as nat, lanes as nat, packed) == held + row);
        }
        i += 1;
    }
}

/// The shader for needles of `n` bytes and subgroups of `lanes` lanes.
pub open spec fn source(n: nat, lanes: nat) -> Seq<char> {
    let packed = lanes == PACKED_LANES;
    "const LANES: u32 = "@ + text::decimal(lanes) + "u;\n"@ + HEADER@ + registers("pa"@, n / 2 + 1)
        + registers("pmm"@, mask_registers(n, packed)) + scalar::needle_bytes(n) + CHUNK_LOOP@
        + row_steps(n, lanes, packed) + store_row(n, "        "@, packed) + TAIL@
}

fn push_unpack(out: &mut String, i: usize, reg: &str, shared: bool)
    ensures
        final(out)@ == old(out)@ + unpack(i as nat, reg@, shared),
{
    let ghost before = out@;
    if !shared {
        push_named(out, reg, i);
        return;
    }
    push_text(out, "(");
    push_named(out, reg, i / 2);
    if i % 2 == 0 {
        push_text(out, " & 0xffffu)");
    } else {
        push_text(out, " >> 16u)");
    }
    assert(out@ =~= before + unpack(i as nat, reg@, shared));
}

fn push_store(out: &mut String, i: usize, reg: &str, val: &str, shared: bool)
    ensures
        final(out)@ == old(out)@ + store(i as nat, reg@, val@, shared),
{
    let ghost before = out@;
    if !shared {
        push_named(out, reg, i);
        push_text(out, " = ");
        push_text(out, val);
        push_text(out, ";");
        assert(out@ =~= before + store(i as nat, reg@, val@, shared));
        return;
    }
    push_named(out, reg, i / 2);
    push_text(out, " = (");
    push_named(out, reg, i / 2);
    if i % 2 == 0 {
        push_text(out, " & 0xffff0000u) | u32(");
        push_text(out, val);
        push_text(out, ");");
    } else {
        push_text(out, " & 0xffffu) | (u32(");
        push_text(out, val);
        push_text(out, ") << 16u);");
    }
    assert(out@ =~= before + store(i as nat, reg@, val@, shared));
}

fn push_store_row(out: &mut String, i: usize, indent: &str, packed: bool)
    ensures
        final(out)@ == old(out)@ + store_row(i as nat, indent@, packed),
{
    let ghost before = out@;
    push_text(out, indent);
    push_store(out, i, "pa", "prev_row", true);
    push_text(out, "\n");
    push_text(out, indent);
    push_store(out, i, "pmm", "prev_mask", packed);
    assert(out@ =~= before + store_row(i as nat, indent@, packed));
}

fn push_registers(out: &mut String, reg: &str, n: usize)
    ensures
        final(out)@ == old(out)@ + registers(reg@, n as nat),
{
    let ghost before = out@;
    let mut k: usize = 0;
    assert(out@ =~= before + registers(reg@, 0));
    while k < n
        invariant
            k <= n,
            out@ == before + registers(reg@, k as nat),
        decreases n - k,
    {
        push_text(out, "    var ");
        push_named(out, reg, k);
        push_text(out, " = 0u;\n");
        assert(out@ =~= before + registers(reg@, (k + 1) as nat));
        k += 1;
    }
}

fn push_gap_step(out: &mut String, i: usize, shift: usize, packed: bool)
    ensures
        final(out)@ == old(out)@ + gap_step(i as nat, shift as nat, packed),
{
    let ghost before = out@;
    push_named(out, GAP_UP, shift);
    push_text(out, GAP_NEIGHBOUR);
    push_unpack(out, i, "pa", true);
    push_named(out, GAP_LANES, shift);
    push_named(out, GAP_SELECT, shift);
    push_named(out, GAP_ROW_MASK, shift);
    push_text(out, GAP_MASK);
    push_unpack(out, i, "pmm", packed);
    push_named(out, GAP_MASK_LANES, shift);
    push_named(out, GAP_MASK_SELECT, shift);
    push_named(out, GAP_MAX, shift);
    push_text(out, GAP_END);
    assert(out@ =~= before + gap_step(i as nat, shift as nat, packed));
}

fn push_gap_steps(out: &mut String, i: usize, lanes: u32, packed: bool)
    ensures
        final(out)@ == old(out)@ + gap_steps(i as nat, 1, lanes as nat, packed),
{
    let ghost before = out@;
    let ghost all = gap_steps(i as nat, 1, lanes as nat, packed);
    let mut shift: u64 = 1;
    while shift < lanes as u64
        invariant
            1 <= shift <= 2 * u32::MAX,
            out@ + gap_steps(i as nat, shift as nat, lanes as nat, packed) == before + all,
        decreases if shift < lanes { lanes - shift } else { 0 },
    {
        let ghost held = out@;
        push_gap_step(out, i, shift as usize, packed);
        proof {
            let step = gap_step(i as nat, shift as nat, packed);
            let rest = gap_steps(i as nat, (2 * shift) as nat, lanes as nat, packed);
            assert(held + (step + rest) =~= held + step + rest);
        }
        shift = shift * 2;
    }
    assert(out@ =~= before + all);
}

fn push_row_start(out: &mut String, p: usize, packed: bool)
    ensures
        final(out)@ == old(out)@ + row_start(p as nat, packed),
{
    let ghost before = out@;
    push_named(out, ROW_EXACT, p);
    push_named(out, ROW_MATCH, p);
    push_text(out, ROW_DIAGONAL);
    push_unpack(out, p, "pa", true);
    push_text(out, ROW_CELL);
    let mask = if packed {
        "0xffffu"
    } else {
        "0xffffffffu"
    };
    push_text(out, mask);
    push_text(out, ROW_MASK_END);
    assert(mask@ == lane_mask(packed));
    assert(out@ =~= before + row_start(p as nat, packed));
}

fn push_row(out: &mut String, i: usize, lanes: u32, packed: bool)
    requires
        i > 0,
    ensures
        final(out)@ == old(out)@ + row_step(i as nat, lanes as nat, packed),
{
    let ghost before = out@;
    push_row_start(out, i - 1, packed);
    push_gap_steps(out, i, lanes, packed);
    push_store_row(out, i - 1, "            ", packed);
    push_text(out, ROW_END);
    assert(out@ =~= before + row_step(i as nat, lanes as nat, packed));
}

/// The shader for needles of `n` bytes and subgroups of `lanes` lanes. The
/// length is baked in so that rows unroll; sixteen lanes pack the masks of two
/// rows into one register.
pub fn generate(n: usize, lanes: u32) -> (s: String)
    requires
        n < usize::MAX,
    ensures
        s@ == source(n as nat, lanes as nat),
{
    let packed: bool = lanes == PACKED_LANES;
    let mut s = String::new();
    push_named(&mut s, "const LANES: u32 = ", lanes as usize);
    push_text(&mut s, "u;\n");
    push_text(&mut s, HEADER);
    push_registers(&mut s, "pa", n / 2 + 1);
    let masks: usize = if packed {
        n / 2 + 1
    } else {
        n + 1
    };
    push_registers(&mut s, "pmm", masks);
    push_needle_bytes(&mut s, n);
    push_text(&mut s, CHUNK_LOOP);
    push_rows(&mut s, n, lanes, packed);
    push_store_row(&mut s, n, "        ", packed);
    push_text(&mut s, TAIL);
    assert(s@ =~= source(n as nat, lanes as nat));
    s
}

} // verus!
