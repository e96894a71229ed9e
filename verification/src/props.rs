//! The attribute dictionary that the border router attaches to each node.

use vstd::prelude::*;
use vstd::string::*;
use crate::directory::{NodeRecord, NodeView};
use crate::order::copy_bytes;

verus! {

/// The attributes of one node as the bus delivers them: a dictionary from
/// names to values of any bus type. Verified code does not look inside; it
/// reads a dictionary through [`byte_props`] and [`flag_props`].
#[verifier::external_body]
pub struct Properties {
    pub map: dbus::arg::PropMap,
}

/// The attributes of a dictionary whose value is held as a `Vec<u8>`, by
/// name.
pub uninterp spec fn byte_props(props: Properties) -> Map<Seq<char>, Seq<u8>>;

/// The attributes of a dictionary whose value is held as a `bool`, by name.
pub uninterp spec fn flag_props(props: Properties) -> Map<Seq<char>, bool>;

/// The value under `key` in `m`, if there is one.
pub open spec fn lookup<V>(m: Map<Seq<char>, V>, key: Seq<char>) -> Option<V> {
    if m.contains_key(key) {
        Some(m[key])
    } else {
        None
    }
}

/// Calls `dbus::arg::prop_cast` at the type `Vec<u8>`, which looks `key` up
/// and downcasts what it finds. Not proved: that the result is a copy of
/// the value under `key` where the dictionary holds one as a `Vec<u8>`,
/// and `None` where the name is absent or its value is of another type.
#[verifier::external_body]
fn bytes_attribute(props: &Properties, key: &str) -> (value: Option<Vec<u8>>)
    ensures
        match value {
            Some(v) => lookup(byte_props(*props), key@) == Some(v@),
            None => lookup(byte_props(*props), key@) is None,
        },
{
    dbus::arg::prop_cast::<Vec<u8>>(&props.map, key).cloned()
}

/// Calls `dbus::arg::prop_cast` at the type `bool`, which looks `key` up and
/// downcasts what it finds. Not proved: that the result is the value under
/// `key` where the dictionary holds one as a `bool`, and `None` where the
/// name is absent or its value is of another type.
#[verifier::external_body]
fn flag_attribute(props: &Properties, key: &str) -> (value: Option<bool>)
    ensures
        value == lookup(flag_props(*props), key@),
{
    dbus::arg::prop_cast::<bool>(&props.map, key).copied()
}

/// The record that a node's identifier and dictionary stand for.
pub open spec fn record_of(id: Seq<u8>, props: Properties) -> NodeView {
    NodeView {
        id,
        parent: lookup(byte_props(props), "parent"@),
        is_border_router: lookup(flag_props(props), "is_border_router"@),
    }
}

/// Reads from a node's dictionary what the tree is built from: the
/// attribute `parent`, a byte array, and the attribute `is_border_router`,
/// a boolean. An attribute that is absent or of another type makes no
/// claim.
pub fn node_record(id: &[u8], props: &Properties) -> (node: NodeRecord)
    ensures
        node@ == record_of(id@, *props),
{
    NodeRecord {
        id: copy_bytes(id),
        parent: bytes_attribute(props, "parent"),
        is_border_router: flag_attribute(props, "is_border_router"),
    }
}

} // verus!
