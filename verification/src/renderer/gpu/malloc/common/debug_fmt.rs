use core::cmp::Ordering;
use vstd::prelude::*;
use vstd::std_specs::cmp::PartialOrdSpecImpl;
use vstd::string::StrSliceExecFns;

verus! {

/// A free block as the debug view of an allocator shows it, ordered by offset.
#[derive(Debug, Copy, Clone, PartialEq, Eq, Structural)]
pub struct DebugFmtMemSlot {
    pub offset: usize,
    pub size: usize,
}

impl PartialOrd for DebugFmtMemSlot {
    fn partial_cmp(&self, other: &Self) -> (r: Option<Ordering>) {
        if self.offset < other.offset {
            Some(Ordering::Less)
        } else if self.offset == other.offset {
            Some(Ordering::Equal)
        } else {
            Some(Ordering::Greater)
        }
    }
}

impl PartialOrdSpecImpl for DebugFmtMemSlot {
    open spec fn obeys_partial_cmp_spec() -> bool {
        true
    }

    open spec fn partial_cmp_spec(&self, other: &Self) -> Option<Ordering> {
        if self.offset < other.offset {
            Some(Ordering::Less)
        } else if self.offset == other.offset {
            Some(Ordering::Equal)
        } else {
            Some(Ordering::Greater)
        }
    }
}

/// A kibibyte.
pub const KIB: usize = 1024;

/// The rows of the memory bar.
pub const ROWS: usize = 10;

// ---------------------------------------------------------------------------
// Text
// ---------------------------------------------------------------------------
/// The digit `d`.
pub open spec fn digit_char(d: nat) -> char {
    ((48 + d) as u8) as char
}

/// `n` in decimal.
pub open spec fn decimal(n: nat) -> Seq<char>
    decreases n,
{
    if n < 10 {
        seq![digit_char(n)]
    } else {
        decimal(n / 10).push(digit_char(n % 10))
    }
}

/// `n` in decimal, right-aligned on `width` characters.
pub open spec fn padded_decimal(n: nat, width: nat) -> Seq<char> {
    let d = decimal(n);
    if d.len() >= width {
        d
    } else {
        Seq::new((width - d.len()) as nat, |i: int| ' ') + d
    }
}

/// `n` in decimal, right-aligned on six characters.
pub open spec fn num6(n: nat) -> Seq<char> {
    padded_decimal(n, 6)
}

/// Appends `s`.
pub(crate) fn push_str(out: &mut Vec<char>, s: &str)
    ensures
        final(out)@ == old(out)@ + s@,
{
    let n = s.unicode_len();
    for i in 0..n
        invariant
            n == s@.len(),
            out@ == old(out)@ + s@.take(i as int),
    {
        out.push(s.get_char(i));
        proof {
            assert(s@.take(i + 1) =~= s@.take(i as int).push(s@[i as int]));
        }
    }
    proof {
        assert(s@.take(n as int) =~= s@);
    }
}

fn digit(d: usize) -> (c: char)
    requires
        d < 10,
    ensures
        c == digit_char(d as nat),
{
    ((48 + d) as u8) as char
}

/// The number of decimal digits of `n`.
fn decimal_len(n: usize) -> (r: usize)
    ensures
        r == decimal(n as nat).len(),
        1 <= r <= n + 1,
    decreases n,
{
    if n < 10 {
        1
    } else {
        decimal_len(n / 10) + 1
    }
}

/// Appends `n` in decimal.
fn push_decimal(out: &mut Vec<char>, n: usize)
    ensures
        final(out)@ == old(out)@ + decimal(n as nat),
    decreases n,
{
    if n >= 10 {
        push_decimal(out, n / 10);
    }
    out.push(digit(n % 10));
}

/// Appends `n` in decimal, right-aligned on `width` characters.
pub(crate) fn push_padded(out: &mut Vec<char>, n: usize, width: usize)
    ensures
        final(out)@ == old(out)@ + padded_decimal(n as nat, width as nat),
{
    let len = decimal_len(n);
    let ghost start = out@;
    if len < width {
        let mut i = len;
        while i < width
            invariant
                len <= i <= width,
                out@ == start + Seq::new((i - len) as nat, |j: int| ' '),
            decreases width - i,
        {
            out.push(' ');
            i += 1;
            proof {
                assert(Seq::new((i - len) as nat, |j: int| ' ') =~= Seq::new(
                    (i - 1 - len) as nat,
                    |j: int| ' ',
                ).push(' '));
            }
        }
    }
    push_decimal(out, n);
    proof {
        assert(out@ =~= start + padded_decimal(n as nat, width as nat));
    }
}

/// Appends `n` in decimal, right-aligned on six characters.
pub(crate) fn push_num6(out: &mut Vec<char>, n: usize)
    ensures
        final(out)@ == old(out)@ + num6(n as nat),
{
    push_padded(out, n, 6);
}

/// Collects characters into a `String` with `Iterator::collect`. Trusted: the
/// `FromIterator<&char>` impl of `String` pushes each character in turn, so
/// the string holds exactly these characters, in order.
#[verifier::external_body]
pub(crate) fn string_from_chars(chars: &Vec<char>) -> (s: String)
    ensures
        s@ == chars@,
{
    chars.iter().collect()
}

// ---------------------------------------------------------------------------
// The memory bar
// ---------------------------------------------------------------------------
/// `n` characters `c` of the bar, the first at position `pos`; a line break
/// comes before every position that starts a row.
pub open spec fn bar_run(pos: nat, c: char, n: nat, row_size: nat) -> Seq<char>
    decreases n,
{
    if n == 0 {
        Seq::empty()
    } else {
        let p: int = pos + n - 1;
        bar_run(pos, c, (n - 1) as nat, row_size) + if p % (row_size as int) == 0 {
            seq!['\n', c]
        } else {
            seq![c]
        }
    }
}

/// Where the bar ends after the free blocks `slots`, each character standing
/// for `res` bytes: each block moves it to the block's start, then over the
/// block.
pub open spec fn bar_end(slots: Seq<DebugFmtMemSlot>, res: nat) -> nat
    decreases slots.len(),
{
    if slots.len() == 0 {
        0
    } else {
        let s = slots.last();
        let pos = bar_end(slots.drop_last(), res);
        let gap = (s.offset as nat / res - pos) as nat;
        pos + gap + s.size as nat / res
    }
}

/// The bar drawn for the free blocks `slots`, sorted by offset: `#` up to the
/// start of each free block, then `free_char` over it.
pub open spec fn bar_chars(slots: Seq<DebugFmtMemSlot>, res: nat, row_size: nat, free_char: char) -> Seq<
    char,
>
    decreases slots.len(),
{
    if slots.len() == 0 {
        Seq::empty()
    } else {
        let s = slots.last();
        let pos = bar_end(slots.drop_last(), res);
        let gap = (s.offset as nat / res - pos) as nat;
        bar_chars(slots.drop_last(), res, row_size, free_char) + bar_run(pos, '#', gap, row_size)
            + bar_run(pos + gap, free_char, s.size as nat / res, row_size)
    }
}

/// Every free block starts no earlier than where the bar has got to.
pub open spec fn bar_walk_ok(slots: Seq<DebugFmtMemSlot>, res: nat) -> bool
    decreases slots.len(),
{
    slots.len() == 0 || (bar_walk_ok(slots.drop_last(), res) && slots.last().offset as nat / res
        >= bar_end(slots.drop_last(), res))
}

/// The sum of the sizes of `slots`.
pub open spec fn sizes_sum(slots: Seq<DebugFmtMemSlot>) -> nat
    decreases slots.len(),
{
    if slots.len() == 0 {
        0
    } else {
        sizes_sum(slots.drop_last()) + slots.last().size as nat
    }
}

/// Blocks that end within the address space.
pub open spec fn slots_in_range(slots: Seq<DebugFmtMemSlot>) -> bool {
    forall|i: int| 0 <= i < slots.len() ==> #[trigger] slots[i].offset + slots[i].size <= usize::MAX
}

/// Bytes per bar character for an arena of `total_size` bytes.
pub open spec fn bar_resolution(total_size: usize) -> nat {
    total_size as nat / (KIB as nat / 2)
}

/// Bar characters per row.
pub open spec fn bar_row_size(total_size: usize) -> nat {
    (total_size as nat / bar_resolution(total_size)) / ROWS as nat
}

/// What `malloc_fmt` can draw: an arena of at least half a kibibyte, free
/// blocks in order and within reach, their sizes adding up to no more than the
/// arena.
pub open spec fn malloc_fmt_accepts(total_size: usize, slots: Seq<DebugFmtMemSlot>) -> bool {
    &&& total_size >= KIB / 2
    &&& bar_walk_ok(slots, bar_resolution(total_size))
    &&& sizes_sum(slots) <= total_size
    &&& slots_in_range(slots)
}

/// The summary `malloc_fmt` writes.
pub open spec fn malloc_text(
    total_size: usize,
    num_allocated: usize,
    num_free: usize,
    slots: Seq<DebugFmtMemSlot>,
) -> Seq<char> {
    let used = (total_size - sizes_sum(slots)) as nat;
    let alloc_div = if num_allocated > 1 { num_allocated as nat } else { 1 };
    let free_div = if num_free > 1 { num_free as nat } else { 1 };
    "~used: "@ + num6(used) + " / "@ + num6(total_size as nat) + "\nalloc: "@ + num6(
        num_allocated as nat,
    ) + " ~avg: "@ + num6(used / alloc_div) + "\nfree:  "@ + num6(num_free as nat)
        + " ~avg: "@ + num6(total_size as nat / free_div) + "\n"@ + bar_chars(
        slots,
        bar_resolution(total_size),
        bar_row_size(total_size),
        '-',
    )
}

/// Appends `c` to the bar at position `*size`, after a line break when a row
/// starts there.
fn push_bar_char(s: &mut Vec<char>, c: char, size: &mut usize, row_size: usize)
    requires
        row_size > 0,
        *old(size) < usize::MAX,
    ensures
        final(s)@ == old(s)@ + if *old(size) % row_size == 0 {
            seq!['\n', c]
        } else {
            seq![c]
        },
        *final(size) == *old(size) + 1,
{
    if *size % row_size == 0 {
        s.push('\n');
    }
    s.push(c);
    *size += 1;
}

/// Appends `n` characters `c` to the bar from position `*pos`.
fn push_bar_run(bar: &mut Vec<char>, c: char, n: usize, pos: &mut usize, row_size: usize)
    requires
        row_size > 0,
        *old(pos) + n <= usize::MAX,
    ensures
        final(bar)@ == old(bar)@ + bar_run(*old(pos) as nat, c, n as nat, row_size as nat),
        *final(pos) == *old(pos) + n,
{
    let ghost start = *pos;
    let ghost before = bar@;
    for i in 0..n
        invariant
            row_size > 0,
            start + n <= usize::MAX,
            *pos == start + i,
            bar@ == before + bar_run(start as nat, c, i as nat, row_size as nat),
    {
        push_bar_char(bar, c, pos, row_size);
    }
}

proof fn lemma_walk_prefix(slots: Seq<DebugFmtMemSlot>, res: nat, i: int)
    requires
        bar_walk_ok(slots, res),
        0 <= i <= slots.len(),
    ensures
        bar_walk_ok(slots.take(i), res),
    decreases slots.len(),
{
    if i < slots.len() {
        assert(slots.drop_last().take(i) =~= slots.take(i));
        lemma_walk_prefix(slots.drop_last(), res, i);
    } else {
        assert(slots.take(i) =~= slots);
    }
}

/// Where a block ends, in bar characters, bounds where the bar gets to.
proof fn lemma_end_bound(slots: Seq<DebugFmtMemSlot>, res: nat)
    requires
        bar_walk_ok(slots, res),
        res > 0,
        slots.len() > 0,
    ensures
        bar_end(slots, res) <= (slots.last().offset + slots.last().size) as nat / res,
{
    let s = slots.last();
    let a = s.offset as nat;
    let b = s.size as nat;
    assert(a / res + b / res <= (a + b) / res) by (nonlinear_arith)
        requires
            res > 0,
    ;
}

proof fn lemma_div_le(a: nat, b: nat, res: nat)
    requires
        res > 0,
        a <= b,
    ensures
        a / res <= b / res,
{
    assert(a / res <= b / res) by (nonlinear_arith)
        requires
            res > 0,
            a <= b,
    ;
}

/// Draws the bar for `sorted_free`; returns it with the position reached.
pub(crate) fn draw_bar(
    sorted_free: &[DebugFmtMemSlot],
    resolution: usize,
    row_size: usize,
    free_char: char,
) -> (r: (Vec<char>, usize))
    requires
        resolution > 0,
        row_size > 0,
        bar_walk_ok(sorted_free@, resolution as nat),
        slots_in_range(sorted_free@),
    ensures
        r.0@ == bar_chars(sorted_free@, resolution as nat, row_size as nat, free_char),
        r.1 == bar_end(sorted_free@, resolution as nat),
{
    let ghost res = resolution as nat;
    let ghost row = row_size as nat;
    let ghost slots = sorted_free@;
    let mut bar: Vec<char> = Vec::new();
    let mut bar_i: usize = 0;
    for k in 0..sorted_free.len()
        invariant
            res == resolution,
            row == row_size,
            resolution > 0,
            row_size > 0,
            slots == sorted_free@,
            bar_walk_ok(slots, res),
            slots_in_range(slots),
            bar@ == bar_chars(slots.take(k as int), res, row, free_char),
            bar_i == bar_end(slots.take(k as int), res),
    {
        let free_slot = sorted_free[k];
        proof {
            let t = slots.take(k + 1);
            assert(t.drop_last() =~= slots.take(k as int));
            assert(t.last() == free_slot);
            lemma_walk_prefix(slots, res, k + 1);
            lemma_end_bound(t, res);
            lemma_div_le((free_slot.offset + free_slot.size) as nat, usize::MAX as nat, res);
            assert(usize::MAX as nat / res <= usize::MAX) by (nonlinear_arith)
                requires
                    res > 0,
            ;
        }
        if free_slot.offset / resolution != bar_i {
            let gap = (free_slot.offset / resolution) - bar_i;
            push_bar_run(&mut bar, '#', gap, &mut bar_i, row_size);
        }
        push_bar_run(&mut bar, free_char, free_slot.size / resolution, &mut bar_i, row_size);
        proof {
            assert(bar_run(bar_end(slots.take(k as int), res), '#', 0, row) =~= Seq::<
                char,
            >::empty());
        }
    }
    proof {
        assert(slots.take(sorted_free.len() as int) =~= slots);
    }
    (bar, bar_i)
}

/// Where the bar for `sorted_free` gets to, or `None` where a block starts
/// before that or ends outside the address space.
pub(crate) fn bar_reach(sorted_free: &[DebugFmtMemSlot], resolution: usize) -> (r: Option<usize>)
    requires
        resolution > 0,
    ensures
        r is Some <==> bar_walk_ok(sorted_free@, resolution as nat) && slots_in_range(sorted_free@),
        r matches Some(e) ==> e == bar_end(sorted_free@, resolution as nat),
{
    let ghost res = resolution as nat;
    let ghost slots = sorted_free@;
    let mut pos: usize = 0;
    for k in 0..sorted_free.len()
        invariant
            res == resolution,
            resolution > 0,
            slots == sorted_free@,
            bar_walk_ok(slots.take(k as int), res),
            slots_in_range(slots.take(k as int)),
            pos == bar_end(slots.take(k as int), res),
    {
        let s = sorted_free[k];
        let t = Ghost(slots.take(k + 1));
        proof {
            assert(t@.drop_last() =~= slots.take(k as int));
            assert(t@.last() == s);
        }
        if s.offset > usize::MAX - s.size {
            proof {
                assert(!slots_in_range(slots)) by {
                    assert(slots[k as int] == s);
                }
            }
            return None;
        }
        if s.offset / resolution < pos {
            proof {
                assert(!bar_walk_ok(t@, res));
                assert(!bar_walk_ok(slots, res)) by {
                    if bar_walk_ok(slots, res) {
                        lemma_walk_prefix(slots, res, k + 1);
                    }
                }
            }
            return None;
        }
        proof {
            assert(bar_walk_ok(t@, res));
            lemma_end_bound(t@, res);
            lemma_div_le((s.offset + s.size) as nat, usize::MAX as nat, res);
            assert(usize::MAX as nat / res <= usize::MAX) by (nonlinear_arith)
                requires
                    res > 0,
            ;
            assert forall|i: int| 0 <= i < t@.len() implies #[trigger] t@[i].offset + t@[i].size
                <= usize::MAX by {
                if i < k {
                    assert(t@[i] == slots.take(k as int)[i]);
                }
            }
        }
        pos = s.offset / resolution + s.size / resolution;
    }
    proof {
        assert(slots.take(sorted_free.len() as int) =~= slots);
    }
    Some(pos)
}

/// The sum of the sizes of `slots`.
fn sum_sizes(slots: &[DebugFmtMemSlot]) -> (r: usize)
    requires
        sizes_sum(slots@) <= usize::MAX,
    ensures
        r == sizes_sum(slots@),
{
    let mut total: usize = 0;
    for k in 0..slots.len()
        invariant
            sizes_sum(slots@) <= usize::MAX,
            total == sizes_sum(slots@.take(k as int)),
    {
        proof {
            assert(slots@.take(k + 1).drop_last() =~= slots@.take(k as int));
            lemma_sizes_prefix(slots@, k + 1);
        }
        total = total + slots[k].size;
    }
    proof {
        assert(slots@.take(slots.len() as int) =~= slots@);
    }
    total
}

/// Whether `malloc_fmt` can draw `sorted_free` in an arena of `total_size`.
fn malloc_fmt_fits(total_size: usize, sorted_free: &[DebugFmtMemSlot]) -> (r: bool)
    ensures
        r == malloc_fmt_accepts(total_size, sorted_free@),
{
    if total_size < KIB / 2 {
        return false;
    }
    let resolution = total_size / (KIB / 2);
    let ghost res = resolution as nat;
    let ghost slots = sorted_free@;
    let mut pos: usize = 0;
    let mut total_free: usize = 0;
    for k in 0..sorted_free.len()
        invariant
            res == resolution,
            resolution > 0,
            res == bar_resolution(total_size),
            slots == sorted_free@,
            bar_walk_ok(slots.take(k as int), res),
            slots_in_range(slots.take(k as int)),
            sizes_sum(slots.take(k as int)) <= total_size,
            pos == bar_end(slots.take(k as int), res),
            total_free == sizes_sum(slots.take(k as int)),
    {
        let s = sorted_free[k];
        let t = Ghost(slots.take(k + 1));
        proof {
            assert(t@.drop_last() =~= slots.take(k as int));
            assert(t@.last() == s);
        }
        if s.offset > usize::MAX - s.size {
            proof {
                assert(!slots_in_range(slots)) by {
                    assert(slots[k as int] == s);
                }
            }
            return false;
        }
        if s.offset / resolution < pos {
            proof {
                assert(!bar_walk_ok(t@, res));
                assert(!bar_walk_ok(slots, res)) by {
                    if bar_walk_ok(slots, res) {
                        lemma_walk_prefix(slots, res, k + 1);
                    }
                }
            }
            return false;
        }
        if s.size > total_size - total_free {
            proof {
                assert(sizes_sum(t@) > total_size);
                lemma_sizes_prefix(slots, k + 1);
            }
            return false;
        }
        proof {
            assert(bar_walk_ok(t@, res));
            lemma_end_bound(t@, res);
            lemma_div_le((s.offset + s.size) as nat, usize::MAX as nat, res);
            assert(usize::MAX as nat / res <= usize::MAX) by (nonlinear_arith)
                requires
                    res > 0,
            ;
            assert forall|i: int| 0 <= i < t@.len() implies #[trigger] t@[i].offset + t@[i].size
                <= usize::MAX by {
                if i < k {
                    assert(t@[i] == slots.take(k as int)[i]);
                }
            }
        }
        pos = s.offset / resolution + s.size / resolution;
        total_free = total_free + s.size;
    }
    proof {
        assert(slots.take(sorted_free.len() as int) =~= slots);
    }
    true
}

/// The usage summary of an arena of `total_size` bytes, with `num_allocated`
/// used and `num_free` free blocks, followed by a bar of ten rows that draws
/// the free blocks `sorted_free` (sorted by offset) as `-` and the space
/// before them as `#`.
pub fn malloc_fmt(
    total_size: usize,
    num_allocated: usize,
    num_free: usize,
    sorted_free: &[DebugFmtMemSlot],
) -> (text: String)
    requires
        malloc_fmt_accepts(total_size, sorted_free@),
    ensures
        text@ == malloc_text(total_size, num_allocated, num_free, sorted_free@),
{
    proof {
        assert(1024usize >> 1usize == 512usize) by (bit_vector);
    }
    let resolution = total_size / (KIB >> 1);
    proof {
        assert(total_size / resolution >= 512) by (nonlinear_arith)
            requires
                resolution == total_size / 512,
                total_size >= 512,
        ;
    }
    let row_size = (total_size / resolution) / ROWS;
    let (debug_bar, _end) = draw_bar(sorted_free, resolution, row_size, '-');
    let total_free = sum_sizes(sorted_free);
    let used = total_size - total_free;
    let alloc_div = if num_allocated > 1 {
        num_allocated
    } else {
        1
    };
    let free_div = if num_free > 1 {
        num_free
    } else {
        1
    };
    let mut out: Vec<char> = Vec::new();
    push_str(&mut out, "~used: ");
    push_num6(&mut out, used);
    push_str(&mut out, " / ");
    push_num6(&mut out, total_size);
    push_str(&mut out, "\nalloc: ");
    push_num6(&mut out, num_allocated);
    push_str(&mut out, " ~avg: ");
    push_num6(&mut out, used / alloc_div);
    push_str(&mut out, "\nfree:  ");
    push_num6(&mut out, num_free);
    push_str(&mut out, " ~avg: ");
    push_num6(&mut out, total_size / free_div);
    push_str(&mut out, "\n");
    let ghost head = out@;
    for i in 0..debug_bar.len()
        invariant
            out@ == head + debug_bar@.take(i as int),
    {
        out.push(debug_bar[i]);
        proof {
            assert(debug_bar@.take(i + 1) =~= debug_bar@.take(i as int).push(debug_bar@[i as int]));
        }
    }
    proof {
        assert(debug_bar@.take(debug_bar.len() as int) =~= debug_bar@);
        assert(out@ =~= malloc_text(total_size, num_allocated, num_free, sorted_free@));
    }
    string_from_chars(&out)
}

/// `malloc_fmt`, or `None` where it cannot draw the blocks.
pub fn malloc_fmt_checked(
    total_size: usize,
    num_allocated: usize,
    num_free: usize,
    sorted_free: &[DebugFmtMemSlot],
) -> (text: Option<String>)
    ensures
        text is Some <==> malloc_fmt_accepts(total_size, sorted_free@),
        text matches Some(t) ==> t@ == malloc_text(total_size, num_allocated, num_free, sorted_free@),
{
    if malloc_fmt_fits(total_size, sorted_free) {
        Some(malloc_fmt(total_size, num_allocated, num_free, sorted_free))
    } else {
        None
    }
}

proof fn lemma_sizes_prefix(slots: Seq<DebugFmtMemSlot>, i: int)
    requires
        0 <= i <= slots.len(),
    ensures
        sizes_sum(slots.take(i)) <= sizes_sum(slots),
    decreases slots.len(),
{
    if i < slots.len() {
        assert(slots.drop_last().take(i) =~= slots.take(i));
        lemma_sizes_prefix(slots.drop_last(), i);
    } else {
        assert(slots.take(i) =~= slots);
    }
}

// ---------------------------------------------------------------------------
// Listing the free blocks of an allocator
// ---------------------------------------------------------------------------
/// `slots` lists the blocks of `sizes` (offset to size) once each, by offset.
pub open spec fn lists_sizes(slots: Seq<DebugFmtMemSlot>, sizes: Map<usize, usize>) -> bool {
    &&& forall|i: int|
        0 <= i < slots.len() ==> sizes.contains_key(#[trigger] slots[i].offset) && sizes[slots[i].offset]
            == slots[i].size
    &&& forall|i: int, j: int| 0 <= i < j < slots.len() ==> #[trigger] slots[i].offset < #[trigger] slots[j].offset
    &&& forall|k: usize| #[trigger] sizes.contains_key(k) ==> exists|i: int| 0 <= i < slots.len() && slots[i].offset == k
}

/// Sorts by offset with `slice::sort_by_key`. Trusted: std documents that it
/// sorts by the key in ascending order, so the result is a permutation of the
/// input (same multiset) with non-decreasing offsets. Its stability is not
/// stated.
#[verifier::external_body]
pub(crate) fn sort_by_offset(v: &mut Vec<DebugFmtMemSlot>)
    ensures
        final(v)@.to_multiset() == old(v)@.to_multiset(),
        forall|i: int, j: int| 0 <= i <= j < final(v)@.len() ==> final(v)@[i].offset <= final(v)@[j].offset,
{
    v.sort_by_key(|s| s.offset);
}

/// A sorted permutation of a list that names each block of `sizes` once
/// lists them.
pub(crate) proof fn lemma_sorted_listing(
    before: Seq<DebugFmtMemSlot>,
    after: Seq<DebugFmtMemSlot>,
    sizes: Map<usize, usize>,
)
    requires
        after.to_multiset() == before.to_multiset(),
        forall|i: int, j: int| 0 <= i <= j < after.len() ==> after[i].offset <= after[j].offset,
        forall|i: int|
            0 <= i < before.len() ==> sizes.contains_key(#[trigger] before[i].offset) && sizes[before[i].offset]
                == before[i].size,
        forall|i: int, j: int|
            0 <= i < j < before.len() ==> #[trigger] before[i].offset != #[trigger] before[j].offset,
        forall|k: usize| #[trigger] sizes.contains_key(k) ==> exists|i: int| 0 <= i < before.len() && before[i].offset == k,
    ensures
        lists_sizes(after, sizes),
{
    broadcast use vstd::seq_lib::group_to_multiset_ensures;

    assert(before.no_duplicates()) by {
        assert forall|i: int, j: int| 0 <= i < before.len() && 0 <= j < before.len() && i != j implies before[i]
            != before[j] by {
            if i < j {
                assert(before[i].offset != before[j].offset);
            } else {
                assert(before[j].offset != before[i].offset);
            }
        }
    }
    before.lemma_multiset_has_no_duplicates();
    after.lemma_multiset_has_no_duplicates_conv();
    assert forall|i: int| 0 <= i < after.len() implies sizes.contains_key(#[trigger] after[i].offset)
        && sizes[after[i].offset] == after[i].size by {
        assert(after.to_multiset().count(after[i]) > 0);
        assert(before.contains(after[i]));
        let i2 = choose|i2: int| 0 <= i2 < before.len() && before[i2] == after[i];
        assert(sizes.contains_key(before[i2].offset));
    }
    assert forall|i: int, j: int| 0 <= i < j < after.len() implies #[trigger] after[i].offset
        < #[trigger] after[j].offset by {
        assert(after.to_multiset().count(after[i]) > 0);
        assert(after.to_multiset().count(after[j]) > 0);
        assert(before.contains(after[i]));
        assert(before.contains(after[j]));
        let i2 = choose|i2: int| 0 <= i2 < before.len() && before[i2] == after[i];
        let j2 = choose|j2: int| 0 <= j2 < before.len() && before[j2] == after[j];
        assert(after[i] != after[j]);
        if after[i].offset == after[j].offset {
            assert(i2 != j2);
            if i2 < j2 {
                assert(before[i2].offset != before[j2].offset);
            } else {
                assert(before[j2].offset != before[i2].offset);
            }
        }
    }
    assert forall|k: usize| #[trigger] sizes.contains_key(k) implies exists|i: int|
        0 <= i < after.len() && after[i].offset == k by {
        let i2 = choose|i2: int| 0 <= i2 < before.len() && before[i2].offset == k;
        assert(before.to_multiset().count(before[i2]) > 0);
        assert(after.contains(before[i2]));
    }
}

} // verus!
