//! The memory report of the buffer allocator: how much memory its records
//! take and how much of the GPU buffer is in use, in megabytes, kilobytes and
//! bytes, laid out in aligned columns.
use vstd::prelude::*;
use crate::text::{decimal, push_decimal};
use crate::server::repeated;

verus! {

/// `n` in decimal, right-aligned in a column `width` characters wide.
pub open spec fn padded(n: nat, width: nat) -> Seq<char> {
    if decimal(n).len() < width {
        repeated(' ', (width - decimal(n).len()) as nat) + decimal(n)
    } else {
        decimal(n)
    }
}

/// Appends `n` in decimal, right-aligned in a column `width` characters wide.
pub fn push_padded(s: &mut String, n: u64, width: usize)
    ensures
        final(s)@ == old(s)@ + padded(n as nat, width as nat),
{
    let mut digits_text = String::new();
    push_decimal(&mut digits_text, n);
    proof {
        assert(digits_text@ =~= decimal(n as nat));
    }
    let digits: usize = digits_text.as_str().unicode_len();
    let mut i: usize = digits;
    while i < width
        invariant
            digits <= i,
            digits == decimal(n as nat).len(),
            i <= width || digits >= width,
            digits >= width ==> i == digits,
            s@ == old(s)@ + repeated(' ', (i - digits) as nat),
        decreases width - i,
    {
        s.append(" ");
        proof {
            reveal_strlit(" ");
            assert(s@ =~= old(s)@ + repeated(' ', (i + 1 - digits) as nat));
        }
        i = i + 1;
    }
    s.append(digits_text.as_str());
    proof {
        if digits < width {
            assert(i == width);
        } else {
            assert(repeated(' ', (i - digits) as nat) =~= Seq::<char>::empty());
        }
        assert(final(s)@ =~= old(s)@ + padded(n as nat, width as nat));
    }
}

/// `bytes` as whole megabytes, whole kilobytes, and bytes.
pub open spec fn units(bytes: u32) -> (u32, u32, u32) {
    ((bytes / 1024 / 1024) as u32, (bytes / 1024) as u32, bytes)
}

/// `bytes` as whole megabytes, whole kilobytes, and bytes.
pub fn size_units(bytes: u32) -> (r: (u32, u32, u32))
    ensures
        r == units(bytes),
{
    let kb = bytes / 1024;
    let mb = kb / 1024;
    (mb, kb, bytes)
}

/// A row of the report: the label, then megabytes, kilobytes and bytes in
/// columns 3, 6 and 9 wide.
pub open spec fn row_text(label: Seq<char>, u: (u32, u32, u32)) -> Seq<char> {
    label + padded(u.0 as nat, 3) + "Mb | "@ + padded(u.1 as nat, 6) + "Kb | "@ + padded(u.2 as nat, 9) + "b"@
}

/// A row of the report.
pub fn memory_row(label: &str, u: (u32, u32, u32)) -> (r: String)
    ensures
        r@ == row_text(label@, u),
{
    let mut s = String::from_str(label);
    push_padded(&mut s, u.0 as u64, 3);
    s.append("Mb | ");
    push_padded(&mut s, u.1 as u64, 6);
    s.append("Kb | ");
    push_padded(&mut s, u.2 as u64, 9);
    s.append("b");
    proof {
        assert(s@ =~= row_text(label@, u));
    }
    s
}

/// The difference of two amounts, unit by unit.
pub open spec fn units_minus(a: (u32, u32, u32), b: (u32, u32, u32)) -> (u32, u32, u32) {
    ((a.0 - b.0) as u32, (a.1 - b.1) as u32, (a.2 - b.2) as u32)
}

/// The lines of the report: the number of meshes, then the memory the
/// records take (allocated, free, used) and the GPU buffer (allocated, free,
/// used).
pub open spec fn report_text(mesh_count: usize, used_cpu: u32, alloc_cpu: u32, data_len: u32, alloc_gpu: u32) -> Seq<
    Seq<char>,
> {
    seq![
        "Mesh count: "@ + decimal(mesh_count as nat),
        row_text("Allocated Memory (CPU) "@, units(alloc_cpu)),
        row_text("└─ Free                "@, units_minus(units(alloc_cpu), units(used_cpu))),
        row_text("└─ Used                "@, units(used_cpu)),
        row_text("Allocated Memory (GPU) "@, units(alloc_gpu)),
        row_text("└─ Free                "@, units_minus(units(alloc_gpu), units(data_len))),
        row_text("└─ Used                "@, units(data_len)),
    ]
}

/// Whole units keep the order of the amounts they come from.
proof fn lemma_units_monotone(a: u32, b: u32)
    requires
        b <= a,
    ensures
        units(b).0 <= units(a).0,
        units(b).1 <= units(a).1,
{
    assert(b / 1024 <= a / 1024) by (nonlinear_arith)
        requires
            b <= a,
    ;
    assert(b / 1024 / 1024 <= a / 1024 / 1024) by (nonlinear_arith)
        requires
            b / 1024 <= a / 1024,
    ;
}

/// The memory report of the allocator, one line each.
pub fn allocator_report(mesh_count: usize, used_cpu: u32, alloc_cpu: u32, data_len: u32, alloc_gpu: u32) -> (r: Vec<String>)
    requires
        used_cpu <= alloc_cpu,
        data_len <= alloc_gpu,
    ensures
        r@.len() == 7,
        forall|i: int|
            0 <= i < 7 ==> (#[trigger] r@[i])@ == report_text(mesh_count, used_cpu, alloc_cpu, data_len, alloc_gpu)[i],
{
    proof {
        lemma_units_monotone(alloc_cpu, used_cpu);
        lemma_units_monotone(alloc_gpu, data_len);
    }
    let used_c = size_units(used_cpu);
    let alloc_c = size_units(alloc_cpu);
    let data_g = size_units(data_len);
    let alloc_g = size_units(alloc_gpu);
    let mut lines: Vec<String> = Vec::new();
    let mut first = String::from_str("Mesh count: ");
    push_decimal(&mut first, mesh_count as u64);
    lines.push(first);
    lines.push(memory_row("Allocated Memory (CPU) ", alloc_c));
    lines.push(memory_row("└─ Free                ", (alloc_c.0 - used_c.0, alloc_c.1 - used_c.1, alloc_c.2 - used_c.2)));
    lines.push(memory_row("└─ Used                ", used_c));
    lines.push(memory_row("Allocated Memory (GPU) ", alloc_g));
    lines.push(memory_row("└─ Free                ", (alloc_g.0 - data_g.0, alloc_g.1 - data_g.1, alloc_g.2 - data_g.2)));
    lines.push(memory_row("└─ Used                ", data_g));
    proof {
        let t = report_text(mesh_count, used_cpu, alloc_cpu, data_len, alloc_gpu);
        assert(lines@[0]@ =~= t[0]);
    }
    lines
}

/// The sum of the products of the pairs of the first `n` of `parts`.
pub open spec fn products_sum(parts: Seq<(usize, usize)>, n: int) -> int
    decreases n,
{
    if n <= 0 {
        0
    } else {
        products_sum(parts, n - 1) + parts[n - 1].0 * parts[n - 1].1
    }
}

/// The footprint of some records and one more kind of record is the
/// footprint of the first ones plus the count times the size of the last:
/// every pair counts, once.
pub proof fn lemma_footprint_adds_each_part(parts: Seq<(usize, usize)>, p: (usize, usize))
    ensures
        products_sum(parts.push(p), parts.len() + 1int) == products_sum(parts, parts.len() as int) + p.0 * p.1,
{
    lemma_products_sum_push(parts, p, parts.len() as int);
    assert(parts.push(p)[parts.len() as int] == p);
}

/// The sum over the first `n` pairs does not look past them.
proof fn lemma_products_sum_push(parts: Seq<(usize, usize)>, p: (usize, usize), n: int)
    requires
        0 <= n <= parts.len(),
    ensures
        products_sum(parts.push(p), n) == products_sum(parts, n),
    decreases n,
{
    if n > 0 {
        lemma_products_sum_push(parts, p, n - 1);
        assert(parts.push(p)[n - 1] == parts[n - 1]);
    }
}

/// A sum of products of naturals grows with the number of terms.
proof fn lemma_products_sum_grows(parts: Seq<(usize, usize)>, n: int, m: int)
    requires
        0 <= n <= m <= parts.len(),
    ensures
        products_sum(parts, n) <= products_sum(parts, m),
    decreases m - n,
{
    if n < m {
        lemma_products_sum_grows(parts, n, m - 1);
        assert(parts[m - 1].0 * parts[m - 1].1 >= 0) by (nonlinear_arith);
    }
}

/// The memory taken by some records: the sum, for each pair, of a count of
/// records and the size of one, cut down to 32 bits.
pub fn footprint_bytes(parts: &[(usize, usize)]) -> (r: u32)
    requires
        products_sum(parts@, parts@.len() as int) <= usize::MAX,
    ensures
        r == (products_sum(parts@, parts@.len() as int) as u32),
{
    let mut total: usize = 0;
    let mut i: usize = 0;
    while i < parts.len()
        invariant
            i <= parts@.len(),
            total == products_sum(parts@, i as int),
            products_sum(parts@, parts@.len() as int) <= usize::MAX,
        decreases parts@.len() - i,
    {
        let (count, size) = parts[i];
        proof {
            lemma_products_sum_grows(parts@, i + 1, parts@.len() as int);
            assert(count * size >= 0) by (nonlinear_arith);
        }
        total = total + count * size;
        i = i + 1;
    }
    total as u32
}

} // verus!
