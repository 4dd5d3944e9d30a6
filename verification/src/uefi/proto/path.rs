//! Device paths: the chain of nodes that locates a device, as the firmware lays it out.
use vstd::prelude::*;
use crate::uefi::types::{le_u16, read_u16_le};

verus! {

/// Nodes that describe hardware.
pub const TYPE_HARDWARE: u8 = 0x1;
/// Nodes that describe ACPI devices.
pub const TYPE_ACPI: u8 = 0x2;
/// Nodes that describe messaging devices.
pub const TYPE_MESSAGING: u8 = 0x3;
/// Nodes that describe media.
pub const TYPE_MEDIA: u8 = 0x4;
/// Nodes that describe BIOS boot devices.
pub const TYPE_BIOS: u8 = 0x5;
/// Nodes that end a path or one of its instances.
pub const TYPE_END: u8 = 0x7f;
/// The sub-type of the node that ends the whole path.
pub const SUB_TYPE_END_ENTIRE: u8 = 0xff;
/// The sub-type of the node that ends one instance of the path.
pub const SUB_TYPE_END_DEVICE: u8 = 0x1;
/// The size of a node's header: its type, sub-type and length.
pub const NODE_HEADER_SIZE: usize = 4;

/// A node of a device path: its type, its sub-type and the data that follows its header.
pub struct DeviceNode {
    node_type: u8,
    sub_type: u8,
    data: Vec<u8>,
}

impl DeviceNode {
    /// The node's type, sub-type and data.
    pub closed spec fn view(&self) -> (u8, u8, Seq<u8>) {
        (self.node_type, self.sub_type, self.data@)
    }

    /// The node's type.
    pub fn node_type(&self) -> (r: u8)
        ensures
            r == self@.0,
    {
        self.node_type
    }

    /// The node's sub-type.
    pub fn sub_type(&self) -> (r: u8)
        ensures
            r == self@.1,
    {
        self.sub_type
    }

    /// The data that follows the node's header.
    pub fn data(&self) -> (r: &[u8])
        ensures
            r@ == self@.2,
    {
        self.data.as_slice()
    }
}

/// The nodes of the device path laid out in `b` from `off` up to and including the node that
/// ends the whole path, or `None` when a node's header or length does not fit in `b`, or its
/// length is shorter than its header.
pub open spec fn spec_device_path(b: Seq<u8>, off: int) -> Option<Seq<(u8, u8, Seq<u8>)>>
    decreases b.len() - off,
{
    if off < 0 || off + 4 > b.len() {
        None
    } else {
        let len = le_u16(b, off + 2);
        if len < 4 || off + len > b.len() {
            None
        } else {
            let node = (b[off], b[off + 1], b.subrange(off + 4, off + len));
            if b[off] == TYPE_END && b[off + 1] == SUB_TYPE_END_ENTIRE {
                Some(seq![node])
            } else {
                match spec_device_path(b, off + len) {
                    Some(rest) => Some(seq![node] + rest),
                    None => None,
                }
            }
        }
    }
}

/// `nodes` followed by those of `rest`, when there is a rest.
pub open spec fn prepend_nodes(nodes: Seq<(u8, u8, Seq<u8>)>, rest: Option<Seq<(u8, u8, Seq<u8>)>>) -> Option<
    Seq<(u8, u8, Seq<u8>)>,
> {
    match rest {
        Some(r) => Some(nodes + r),
        None => None,
    }
}

/// The views of `nodes`.
pub open spec fn node_views(nodes: Seq<DeviceNode>) -> Seq<(u8, u8, Seq<u8>)> {
    nodes.map_values(|n: DeviceNode| n@)
}

/// Copies `b[start..end]`.
fn copy_range(b: &[u8], start: usize, end: usize) -> (r: Vec<u8>)
    requires
        start <= end <= b@.len(),
    ensures
        r@ == b@.subrange(start as int, end as int),
{
    let mut v: Vec<u8> = Vec::new();
    let mut i = start;
    while i < end
        invariant
            start <= i <= end <= b@.len(),
            v@ == b@.subrange(start as int, i as int),
        decreases end - i,
    {
        v.push(b[i]);
        proof {
            assert(v@ =~= b@.subrange(start as int, i + 1));
        }
        i = i + 1;
    }
    v
}

/// Decodes the device path laid out in `b`: its nodes, in order, up to and including the node
/// that ends the whole path.
///
/// Returns `None` when a node's header or length does not fit in `b`, or its length is shorter
/// than its header.
pub fn parse_device_path(b: &[u8]) -> (r: Option<Vec<DeviceNode>>)
    ensures
        spec_device_path(b@, 0) is None <==> r is None,
        r matches Some(nodes) ==> spec_device_path(b@, 0) == Some(node_views(nodes@)),
{
    let len = b.len();
    let mut nodes: Vec<DeviceNode> = Vec::new();
    let mut off: usize = 0;
    proof {
        assert(node_views(nodes@) =~= Seq::empty());
        if spec_device_path(b@, 0) is Some {
            assert(Seq::<(u8, u8, Seq<u8>)>::empty() + spec_device_path(b@, 0).unwrap() =~= spec_device_path(b@, 0).unwrap());
        }
    }
    loop
        invariant
            len == b@.len(),
            off <= len,
            spec_device_path(b@, 0) == prepend_nodes(node_views(nodes@), spec_device_path(b@, off as int)),
        decreases len - off,
    {
        if len - off < NODE_HEADER_SIZE {
            return None;
        }
        let node_len = read_u16_le(b, off + 2) as usize;
        if node_len < NODE_HEADER_SIZE || node_len > len - off {
            return None;
        }
        let node = DeviceNode {
            node_type: b[off],
            sub_type: b[off + 1],
            data: copy_range(b, off + NODE_HEADER_SIZE, off + node_len),
        };
        let end = node.node_type == TYPE_END && node.sub_type == SUB_TYPE_END_ENTIRE;
        let ghost before = nodes@;
        nodes.push(node);
        proof {
            assert(node_views(nodes@) =~= node_views(before) + seq![node@]);
        }
        if end {
            proof {
                assert(node_views(nodes@) =~= node_views(before) + seq![node@]);
            }
            return Some(nodes);
        }
        proof {
            let rest = spec_device_path(b@, off + node_len);
            assert(prepend_nodes(node_views(before), prepend_nodes(seq![node@], rest)) == prepend_nodes(
                node_views(nodes@),
                rest,
            )) by {
                if rest is Some {
                    assert(node_views(before) + (seq![node@] + rest.unwrap()) =~= node_views(nodes@)
                        + rest.unwrap());
                }
            }
        }
        off = off + node_len;
    }
}

/// A decoded device path ends with the node that ends the whole path, and holds no such node
/// before it.
pub proof fn law_device_path_ends_once(b: Seq<u8>, off: int)
    requires
        spec_device_path(b, off) is Some,
    ensures
        ({
            let s = spec_device_path(b, off).unwrap();
            &&& s.len() >= 1
            &&& s.last().0 == TYPE_END && s.last().1 == SUB_TYPE_END_ENTIRE
            &&& forall|i: int| 0 <= i < s.len() - 1 ==> !(s[i].0 == TYPE_END && s[i].1 == SUB_TYPE_END_ENTIRE)
        }),
    decreases b.len() - off,
{
    let len = le_u16(b, off + 2);
    if !(b[off] == TYPE_END && b[off + 1] == SUB_TYPE_END_ENTIRE) {
        law_device_path_ends_once(b, off + len);
        let node = (b[off], b[off + 1], b.subrange(off + 4, off + len));
        let rest = spec_device_path(b, off + len).unwrap();
        let s = seq![node] + rest;
        assert forall|i: int| 0 <= i < s.len() - 1 implies !(s[i].0 == TYPE_END && s[i].1 == SUB_TYPE_END_ENTIRE) by {
            if i > 0 {
                assert(s[i] == rest[i - 1]);
            }
        }
        assert(s.last() == rest.last());
    }
}

} // verus!
