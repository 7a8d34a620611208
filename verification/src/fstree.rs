//! An in-memory model of the template tree copy.
//!
//! A layout is a tree of named directories and byte files.  Copying it into
//! a parent directory refuses to touch an existing destination name and
//! otherwise duplicates the whole tree, byte for byte and name for name.
//! The caller mirrors this model onto the real filesystem; the refusal to
//! overwrite and the shape of the duplicate are what is proved here.

use vstd::prelude::*;

verus! {

broadcast use vstd::std_specs::vec::axiom_vec_index_decreases;

/// A named node of a layout tree.
#[derive(Debug)]
pub struct FsEntry {
    pub name: String,
    pub node: FsNode,
}

/// A layout tree: a byte file or a directory of named children.
#[derive(Debug)]
pub enum FsNode {
    File { bytes: Vec<u8> },
    Dir { entries: Vec<FsEntry> },
}

/// Errors of the tree copy.
#[derive(Debug)]
pub enum CopyError {
    /// The destination name already exists; nothing was copied or merged.
    DestinationExists,
}

/// Deep structural agreement of two trees: the same shape, the same child
/// names in the same order, byte-identical file contents.
pub open spec fn node_matches(a: FsNode, b: FsNode) -> bool
    decreases a,
{
    match (a, b) {
        (FsNode::File { bytes: x }, FsNode::File { bytes: y }) => x@ == y@,
        (FsNode::Dir { entries: ea }, FsNode::Dir { entries: eb }) => {
            &&& ea@.len() == eb@.len()
            &&& forall|i: int|
                0 <= i < ea@.len() ==> (#[trigger] ea@[i]).name@ == eb@[i].name@ && node_matches(
                    ea@[i].node,
                    eb@[i].node,
                )
        },
        _ => false,
    }
}

/// Whether a directory's entry list already holds `name`.
pub open spec fn dir_has_name(entries: Seq<FsEntry>, name: Seq<char>) -> bool {
    exists|i: int| 0 <= i < entries.len() && (#[trigger] entries[i]).name@ == name
}

/// A byte-for-byte copy of a file's contents.
fn copy_bytes(bytes: &Vec<u8>) -> (r: Vec<u8>)
    ensures
        r@ == bytes@,
{
    let mut r: Vec<u8> = Vec::new();
    let mut i: usize = 0;
    while i < bytes.len()
        invariant
            i <= bytes@.len(),
            r@ =~= bytes@.subrange(0, i as int),
        decreases bytes@.len() - i,
    {
        r.push(bytes[i]);
        i += 1;
    }
    proof {
        assert(r@ =~= bytes@);
    }
    r
}

/// Duplicates a whole tree.
pub fn copy_node(src: &FsNode) -> (r: FsNode)
    ensures
        node_matches(*src, r),
    decreases *src,
{
    match src {
        FsNode::File { bytes } => FsNode::File { bytes: copy_bytes(bytes) },
        FsNode::Dir { entries } => {
            let mut out: Vec<FsEntry> = Vec::new();
            let mut i: usize = 0;
            while i < entries.len()
                invariant
                    i <= entries@.len(),
                    out@.len() == i,
                    forall|k: int|
                        0 <= k < i ==> (#[trigger] out@[k]).name@ == entries@[k].name@
                            && node_matches(entries@[k].node, out@[k].node),
                    *src == (FsNode::Dir { entries: *entries }),
                decreases entries@.len() - i,
            {
                proof {
                    assert(decreases_to!(*src => src->Dir_entries));
                    assert(decreases_to!(*entries => entries@));
                    assert(decreases_to!(entries@ => entries@[i as int]));
                }
                let child = copy_node(&entries[i].node);
                out.push(FsEntry { name: entries[i].name.clone(), node: child });
                i += 1;
            }
            FsNode::Dir { entries: out }
        },
    }
}

/// Copies the tree `src` into the directory `dest` under `name`, refusing
/// to overwrite: with `name` already present the directory is left exactly
/// as it was, otherwise the duplicate is appended as a new child.
pub fn copy_into(dest: &mut Vec<FsEntry>, name: String, src: &FsNode) -> (r: Result<
    (),
    CopyError,
>)
    ensures
        match r {
            Ok(_) => {
                &&& !dir_has_name(old(dest)@, name@)
                &&& final(dest)@.len() == old(dest)@.len() + 1
                &&& final(dest)@.subrange(0, old(dest)@.len() as int) == old(dest)@
                &&& final(dest)@.last().name@ == name@
                &&& node_matches(*src, final(dest)@.last().node)
            },
            Err(CopyError::DestinationExists) => {
                &&& dir_has_name(old(dest)@, name@)
                &&& final(dest)@ == old(dest)@
            },
        },
{
    let mut i: usize = 0;
    while i < dest.len()
        invariant
            i <= dest@.len(),
            dest@ == old(dest)@,
            forall|k: int| 0 <= k < i ==> (#[trigger] dest@[k]).name@ != name@,
        decreases dest@.len() - i,
    {
        if dest[i].name.eq(&name) {
            return Err(CopyError::DestinationExists);
        }
        i += 1;
    }
    let copy = copy_node(src);
    let ghost before = dest@;
    dest.push(FsEntry { name, node: copy });
    proof {
        assert(dest@.subrange(0, before.len() as int) =~= before);
    }
    Ok(())
}

/// Finds the child of a directory carrying `name`.
pub fn find_child<'a>(entries: &'a Vec<FsEntry>, name: &String) -> (r: Option<&'a FsNode>)
    ensures
        match r {
            Some(node) => exists|i: int|
                0 <= i < entries@.len() && (#[trigger] entries@[i]).name@ == name@ && *node
                    == entries@[i].node,
            None => !dir_has_name(entries@, name@),
        },
{
    let mut i: usize = 0;
    while i < entries.len()
        invariant
            i <= entries@.len(),
            forall|k: int| 0 <= k < i ==> (#[trigger] entries@[k]).name@ != name@,
        decreases entries@.len() - i,
    {
        if entries[i].name.eq(name) {
            return Some(&entries[i].node);
        }
        i += 1;
    }
    None
}

/// Decides deep structural agreement of two trees.
pub fn node_equal(a: &FsNode, b: &FsNode) -> (r: bool)
    ensures
        r == node_matches(*a, *b),
    decreases *a,
{
    match (a, b) {
        (FsNode::File { bytes: x }, FsNode::File { bytes: y }) => {
            if x.len() != y.len() {
                return false;
            }
            let mut i: usize = 0;
            while i < x.len()
                invariant
                    i <= x@.len(),
                    x@.len() == y@.len(),
                    forall|k: int| 0 <= k < i ==> x@[k] == y@[k],
                    *a == (FsNode::File { bytes: *x }),
                    *b == (FsNode::File { bytes: *y }),
                decreases x@.len() - i,
            {
                if x[i] != y[i] {
                    return false;
                }
                i += 1;
            }
            proof {
                assert(x@ =~= y@);
            }
            true
        },
        (FsNode::Dir { entries: ea }, FsNode::Dir { entries: eb }) => {
            if ea.len() != eb.len() {
                return false;
            }
            let mut i: usize = 0;
            while i < ea.len()
                invariant
                    i <= ea@.len(),
                    ea@.len() == eb@.len(),
                    forall|k: int|
                        0 <= k < i ==> (#[trigger] ea@[k]).name@ == eb@[k].name@ && node_matches(
                            ea@[k].node,
                            eb@[k].node,
                        ),
                    *a == (FsNode::Dir { entries: *ea }),
                    *b == (FsNode::Dir { entries: *eb }),
                decreases ea@.len() - i,
            {
                if !ea[i].name.eq(&eb[i].name) {
                    return false;
                }
                proof {
                    assert(decreases_to!(*a => a->Dir_entries));
                    assert(decreases_to!(*ea => ea@));
                    assert(decreases_to!(ea@ => ea@[i as int]));
                }
                if !node_equal(&ea[i].node, &eb[i].node) {
                    return false;
                }
                i += 1;
            }
            true
        },
        _ => false,
    }
}

} // verus!
