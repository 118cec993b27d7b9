//! Addressing of a virtual page file. The file is a sequence of data pages
//! found through inode pages that each hold `F` page numbers: the root inode
//! lists the first `F` data pages, a single-indirect inode the next `F^2`,
//! and a double-indirect inode the next `F^3`.
use vstd::prelude::*;

verus! {

/// Where the page number of a data page is kept.
#[derive(Clone, Copy, Debug, PartialEq, Eq, Structural)]
pub enum InodePath {
    /// Slot of the root inode.
    Direct(u32),
    /// Slot of the single-indirect inode, then slot of that page.
    Indirect1(u32, u32),
    /// Slot of the double-indirect inode, then of the two pages below it.
    Indirect2(u32, u32, u32),
}

/// The data page that a path leads to.
pub open spec fn path_page(path: InodePath, fanout: nat) -> nat {
    match path {
        InodePath::Direct(i) => i as nat,
        InodePath::Indirect1(i, j) => (fanout + i * fanout + j) as nat,
        InodePath::Indirect2(i, j, k) => (fanout + fanout * fanout + (i * fanout + j) * fanout
            + k) as nat,
    }
}

/// Every slot of the path is within an inode of `fanout` slots.
pub open spec fn path_in_range(path: InodePath, fanout: nat) -> bool {
    match path {
        InodePath::Direct(i) => i < fanout,
        InodePath::Indirect1(i, j) => i < fanout && j < fanout,
        InodePath::Indirect2(i, j, k) => i < fanout && j < fanout && k < fanout,
    }
}

/// The number of data pages a file with inodes of `fanout` slots can hold.
pub open spec fn capacity(fanout: nat) -> nat {
    fanout + fanout * fanout + fanout * fanout * fanout
}

/// The inode slots that lead to data page `virtual_id`, or `None` past the
/// last page that the tree can hold.
pub fn inode_path(virtual_id: u32, fanout: u32) -> (r: Option<InodePath>)
    requires
        0 < fanout <= 0x10000,
    ensures
        r is None <==> virtual_id >= capacity(fanout as nat),
        r matches Some(p) ==> path_in_range(p, fanout as nat) && path_page(p, fanout as nat)
            == virtual_id,
{
    let v = virtual_id as u64;
    let f = fanout as u64;
    proof {
        assert(f * f <= 0x1_0000_0000) by (nonlinear_arith)
            requires
                f <= 0x10000,
        ;
        assert(f * f * f <= 0x1_0000_0000_0000) by (nonlinear_arith)
            requires
                f <= 0x10000,
                f * f <= 0x1_0000_0000,
        ;
    }
    let f2 = f * f;
    let f3 = f2 * f;
    if v < f {
        return Some(InodePath::Direct(virtual_id));
    }
    let v1 = v - f;
    if v1 < f2 {
        let i = v1 / f;
        let j = v1 % f;
        proof {
            assert(v1 == i * f + j && i < f) by (nonlinear_arith)
                requires
                    i == v1 / f,
                    j == v1 % f,
                    v1 < f * f,
                    f > 0,
            ;
        }
        return Some(InodePath::Indirect1(i as u32, j as u32));
    }
    let v2 = v1 - f2;
    if v2 < f3 {
        let i = v2 / f2;
        let rest = v2 % f2;
        let j = rest / f;
        let k = rest % f;
        proof {
            assert(v2 == i * f2 + rest && i < f && rest < f2) by (nonlinear_arith)
                requires
                    i == v2 / f2,
                    rest == v2 % f2,
                    v2 < f2 * f,
                    f2 == f * f,
                    f > 0,
            ;
            assert(rest == j * f + k && j < f) by (nonlinear_arith)
                requires
                    j == rest / f,
                    k == rest % f,
                    rest < f * f,
                    f > 0,
            ;
            assert(v2 == (i * f + j) * f + k) by (nonlinear_arith)
                requires
                    v2 == i * f2 + rest,
                    rest == j * f + k,
                    f2 == f * f,
            ;
        }
        return Some(InodePath::Indirect2(i as u32, j as u32, k as u32));
    }
    None
}

/// The data page that holds byte `offset` of the file, and the position
/// of that byte within the page.
pub fn page_of_offset(offset: u32, page_size: u32) -> (r: (u32, u32))
    requires
        page_size > 0,
    ensures
        r.1 < page_size,
        r.0 * page_size + r.1 == offset,
{
    let id = offset / page_size;
    let at = offset % page_size;
    proof {
        assert(id * page_size + at == offset) by (nonlinear_arith)
            requires
                id == offset / page_size,
                at == offset % page_size,
                page_size > 0,
        ;
    }
    (id, at)
}

}
