//! The initializer table: a densely packed region of equally sized slots.
use vstd::prelude::*;

verus! {

/// A region of memory, from `start` up to but not including `end`.
#[derive(Clone, Copy, Debug, PartialEq, Eq, Structural)]
pub struct Region {
    pub start: usize,
    pub end: usize,
}

impl Region {
    /// A region is well formed when it does not end before it starts.
    pub open spec fn wf(self) -> bool {
        self.start <= self.end
    }

    /// Number of bytes the region spans.
    pub open spec fn len(self) -> int {
        self.end - self.start
    }
}

/// The addresses of the slots of width `width` that fit in `region`, in order.
pub open spec fn slots(region: Region, width: nat) -> Seq<int>
    recommends
        width > 0,
{
    Seq::new((region.len() / (width as int)) as nat, |i: int| region.start + i * width)
}

/// The stride of one entry: the byte length of a region that holds exactly one.
pub fn stride(reference: Region) -> (r: usize)
    requires
        reference.wf(),
    ensures
        r == reference.len(),
{
    reference.end - reference.start
}

/// Walks `table` at steps of `width`, giving the address of every slot that
/// lies wholly inside it, from the first to the last.
pub fn slot_offsets(table: Region, width: usize) -> (r: Vec<usize>)
    requires
        table.wf(),
        width > 0,
    ensures
        r@.len() == slots(table, width as nat).len(),
        forall|i: int| 0 <= i < r@.len() ==> r@[i] == #[trigger] slots(table, width as nat)[i],
{
    let mut r: Vec<usize> = Vec::new();
    let mut current: usize = table.start;
    let ghost n = table.len() / (width as int);
    proof {
        lemma_slot_count(table.len(), width as int, 0);
    }
    while current <= table.end && width <= table.end - current
        invariant
            width > 0,
            table.wf(),
            n == table.len() / (width as int),
            r@.len() <= n,
            current == table.start + r@.len() * width,
            current <= table.end,
            r@.len() < n ==> width <= table.end - current,
            r@.len() == n ==> table.end - current < width,
            forall|i: int| 0 <= i < r@.len() ==> r@[i] == table.start + i * width,
        decreases table.end - current,
    {
        proof {
            let k = r@.len() as int;
            assert(k < n) by {
                if k == n {
                    assert(false);
                }
            }
        }
        proof {
            lemma_slot_count(table.len(), width as int, r@.len() as int + 1);
        }
        r.push(current);
        current = current + width;
    }
    r
}

/// Distinct slots of a table lie at distinct addresses, so no two entries
/// found by one walk share an identity.
pub proof fn lemma_slots_distinct(table: Region, width: nat)
    requires
        width > 0,
    ensures
        slots(table, width).no_duplicates(),
{
    let s = slots(table, width);
    assert forall|i: int, j: int| 0 <= i < s.len() && 0 <= j < s.len() && i != j implies s[i]
        != s[j] by {
        if i < j {
            assert(i * width < j * width) by (nonlinear_arith)
                requires i < j, width > 0;
        } else {
            assert(j * width < i * width) by (nonlinear_arith)
                requires j < i, width > 0;
        }
    }
}

proof fn lemma_slot_count(len: int, width: int, k: int)
    requires
        width > 0,
        0 <= len,
        0 <= k <= len / width,
    ensures
        k * width == (k - 1) * width + width,
        k * width <= len,
        k < len / width ==> width <= len - k * width,
        k == len / width ==> len - k * width < width,
{
    assert(k * width == (k - 1) * width + width) by (nonlinear_arith);
    assert(k * width <= len) by (nonlinear_arith)
        requires width > 0, k <= len / width, 0 <= len;
    assert(k < len / width ==> width <= len - k * width) by (nonlinear_arith)
        requires width > 0, 0 <= len;
    assert(k == len / width ==> len - k * width < width) by (nonlinear_arith)
        requires width > 0, 0 <= len;
}

} // verus!
