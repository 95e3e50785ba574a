//! The mount points of removable storage in the JSON output of `lsblk`.

use crate::text::{same_text, texts};
use vstd::prelude::*;

verus! {

/// A JSON document.
pub enum JsonTree {
    Null,
    Bool(bool),
    Number,
    Text(Seq<char>),
    Array(Seq<JsonTree>),
    Object(Map<Seq<char>, JsonTree>),
}

/// A JSON document of the crate `serde_json`.
#[verifier::external_type_specification]
#[verifier::external_body]
pub struct ExValue(serde_json::Value);

/// The document that a `serde_json::Value` holds.
pub uninterp spec fn json_tree(value: serde_json::Value) -> JsonTree;

/// The document that `serde_json::from_str` reads in a text; nothing where the text is no JSON.
pub uninterp spec fn json_text(text: Seq<char>) -> Option<JsonTree>;

/// `serde_json::from_str` for a `serde_json::Value`: the document in a text.
#[verifier::external_body]
fn parse_json(text: &str) -> (value: Option<serde_json::Value>)
    ensures
        json_text(text@) == (match value {
            Some(v) => Some(json_tree(v)),
            None => None,
        }),
{
    serde_json::from_str(text).ok()
}

/// The member of an object with this name; null where there is none or the document is no object.
pub open spec fn member(tree: JsonTree, name: Seq<char>) -> JsonTree {
    match tree {
        JsonTree::Object(members) => if members.dom().contains(name) {
            members[name]
        } else {
            JsonTree::Null
        },
        _ => JsonTree::Null,
    }
}

/// The index operator of `serde_json::Value` with a string: the member with this name, or null.
#[verifier::external_body]
fn json_member<'a>(value: &'a serde_json::Value, name: &str) -> (found: &'a serde_json::Value)
    ensures
        json_tree(*found) == member(json_tree(*value), name@),
{
    &value[name]
}

/// The documents that some values hold.
pub open spec fn json_trees(values: Seq<serde_json::Value>) -> Seq<JsonTree> {
    Seq::new(values.len(), |i: int| json_tree(values[i]))
}

/// `serde_json::Value::as_array`: the items of an array, and nothing of another document.
pub assume_specification[ serde_json::Value::as_array ](value: &serde_json::Value) -> (items: Option<
    &Vec<serde_json::Value>,
>)
    ensures
        match items {
            Some(list) => json_tree(*value) == JsonTree::Array(json_trees(list@)),
            None => !(json_tree(*value) is Array),
        },
;

/// `serde_json::Value::as_str`: the text of a string, and nothing of another document.
pub assume_specification[ serde_json::Value::as_str ](value: &serde_json::Value) -> (text: Option<
    &str,
>)
    ensures
        match text {
            Some(s) => json_tree(*value) == JsonTree::Text(s@),
            None => !(json_tree(*value) is Text),
        },
;

/// `serde_json::Value::as_bool`: the value of a boolean, and nothing of another document.
pub assume_specification[ serde_json::Value::as_bool ](value: &serde_json::Value) -> (b: Option<
    bool,
>)
    ensures
        match b {
            Some(x) => json_tree(*value) == JsonTree::Bool(x),
            None => !(json_tree(*value) is Bool),
        },
;

/// The items of an array; none of another document.
pub open spec fn items_of(tree: JsonTree) -> Seq<JsonTree> {
    match tree {
        JsonTree::Array(items) => items,
        _ => seq![],
    }
}

/// The mount points of some partitions: those that have one that is not empty.
pub open spec fn mounts_of(partitions: Seq<JsonTree>) -> Seq<Seq<char>>
    decreases partitions.len(),
{
    if partitions.len() == 0 {
        seq![]
    } else {
        let before = mounts_of(partitions.drop_last());
        match member(partitions.last(), "mountpoint"@) {
            JsonTree::Text(path) => if path.len() > 0 {
                before.push(path)
            } else {
                before
            },
            _ => before,
        }
    }
}

/// What a mark of a device says: `lsblk` writes it as a boolean, and older ones as a digit in a
/// text. Nothing where there is no such mark.
pub open spec fn mark_of(tree: JsonTree) -> Option<bool> {
    match tree {
        JsonTree::Bool(b) => Some(b),
        JsonTree::Text(s) => if s == "1"@ {
            Some(true)
        } else if s == "0"@ {
            Some(false)
        } else {
            None
        },
        _ => None,
    }
}

/// Whether a transport is a bus inside a computer.
pub open spec fn is_inner_bus(transport: JsonTree) -> bool {
    transport matches JsonTree::Text(s) && (s == "ata"@ || s == "sata"@ || s == "nvme"@ || s
        == "sas"@ || s == "virtio"@)
}

/// Whether a device is removable storage: it is attached by USB, or `lsblk` marks it as removable
/// or as one that can be plugged in. One that has neither mark is taken for removable unless it
/// is on a bus inside the computer.
pub open spec fn is_removable_device(device: JsonTree) -> bool {
    let transport = member(device, "tran"@);
    let removable = mark_of(member(device, "rm"@));
    let hotplug = mark_of(member(device, "hotplug"@));
    ||| transport == JsonTree::Text("usb"@)
    ||| removable == Some(true)
    ||| hotplug == Some(true)
    ||| (removable is None && hotplug is None && !is_inner_bus(transport))
}

/// The mount points of the partitions of those of some devices that are removable storage.
pub open spec fn device_mounts(devices: Seq<JsonTree>) -> Seq<Seq<char>>
    decreases devices.len(),
{
    if devices.len() == 0 {
        seq![]
    } else {
        let before = device_mounts(devices.drop_last());
        if is_removable_device(devices.last()) {
            before + mounts_of(items_of(member(devices.last(), "children"@)))
        } else {
            before
        }
    }
}

/// The mount points of all partitions on removable storage that `lsblk` lists.
pub open spec fn mounted(tree: JsonTree) -> Seq<Seq<char>> {
    device_mounts(items_of(member(tree, "blockdevices"@)))
}

/// Appends the mount points of some partitions.
fn push_mounts(found: &mut Vec<String>, partitions: &[serde_json::Value])
    ensures
        texts(final(found)@) == texts(old(found)@) + mounts_of(json_trees(partitions@)),
{
    let ghost start = texts(found@);
    let ghost all = json_trees(partitions@);
    let mut i: usize = 0;
    assert(start + mounts_of(all.take(0)) =~= start);
    while i < partitions.len()
        invariant
            i <= partitions.len(),
            all == json_trees(partitions@),
            texts(found@) == start + mounts_of(all.take(i as int)),
        decreases partitions.len() - i,
    {
        let ghost before = texts(found@);
        assert(all.take(i + 1).drop_last() =~= all.take(i as int));
        assert(all.take(i + 1).last() == json_tree(partitions@[i as int]));
        match json_member(&partitions[i], "mountpoint").as_str() {
            Some(path) => {
                if !path.is_empty() {
                    found.push(path.to_owned());
                    assert(texts(found@) =~= before.push(path@));
                    assert(texts(found@) =~= start + mounts_of(all.take(i + 1)));
                }
            },
            None => {},
        }
        i += 1;
    }
    assert(all.take(i as int) =~= all);
}

/// What a mark of a device says.
fn read_mark(value: &serde_json::Value) -> (mark: Option<bool>)
    ensures
        mark == mark_of(json_tree(*value)),
{
    proof {
        reveal_strlit("0");
        reveal_strlit("1");
        assert("0"@[0] != "1"@[0]);
    }
    match value.as_bool() {
        Some(b) => Some(b),
        None => match value.as_str() {
            Some(s) => if same_text(s, "1") {
                Some(true)
            } else if same_text(s, "0") {
                Some(false)
            } else {
                None
            },
            None => None,
        },
    }
}

/// Whether a device is removable storage.
fn holds_removable_storage(device: &serde_json::Value) -> (b: bool)
    ensures
        b == is_removable_device(json_tree(*device)),
{
    let removable = read_mark(json_member(device, "rm"));
    let hotplug = read_mark(json_member(device, "hotplug"));
    let marked = match (removable, hotplug) {
        (Some(true), _) => true,
        (_, Some(true)) => true,
        _ => false,
    };
    let unmarked = removable.is_none() && hotplug.is_none();
    match json_member(device, "tran").as_str() {
        Some(s) => {
            let inner = same_text(s, "ata") || same_text(s, "sata") || same_text(s, "nvme")
                || same_text(s, "sas") || same_text(s, "virtio");
            same_text(s, "usb") || marked || (unmarked && !inner)
        },
        None => marked || unmarked,
    }
}

/// The mount points of all partitions on removable storage in a document of `lsblk`.
pub fn mount_points_in(json: &serde_json::Value) -> (found: Vec<String>)
    ensures
        texts(found@) == mounted(json_tree(*json)),
{
    let mut found: Vec<String> = Vec::new();
    let empty: Vec<serde_json::Value> = Vec::new();
    assert(json_trees(empty@) =~= seq![]);
    let devices: &Vec<serde_json::Value> = match json_member(json, "blockdevices").as_array() {
        Some(list) => list,
        None => &empty,
    };
    let ghost all = json_trees(devices@);
    let mut i: usize = 0;
    assert(texts(found@) =~= device_mounts(all.take(0)));
    while i < devices.len()
        invariant
            i <= devices.len(),
            all == json_trees(devices@),
            texts(found@) == device_mounts(all.take(i as int)),
        decreases devices.len() - i,
    {
        assert(all.take(i + 1).drop_last() =~= all.take(i as int));
        assert(all.take(i + 1).last() == json_tree(devices@[i as int]));
        if holds_removable_storage(&devices[i]) {
            match json_member(&devices[i], "children").as_array() {
                Some(list) => {
                    push_mounts(&mut found, list.as_slice());
                },
                None => {
                    assert(mounts_of(seq![]) =~= seq![]);
                    assert(texts(found@) + mounts_of(seq![]) =~= texts(found@));
                },
            }
        }
        i += 1;
    }
    assert(all.take(i as int) =~= all);
    found
}

/// The mount points of all partitions on removable storage in the output of `lsblk`; none where
/// it is no JSON.
pub fn mount_points(output: &str) -> (found: Vec<String>)
    ensures
        texts(found@) == (match json_text(output@) {
            Some(tree) => mounted(tree),
            None => seq![],
        }),
{
    match parse_json(output) {
        Some(json) => mount_points_in(&json),
        None => {
            let found: Vec<String> = Vec::new();
            assert(texts(found@) =~= seq![]);
            found
        },
    }
}

/// A mount point is offered exactly where a partition of removable storage has it.
pub proof fn law_removable_storage_is_offered(devices: Seq<JsonTree>, path: Seq<char>)
    ensures
        device_mounts(devices).contains(path) <==> exists|i: int|
            0 <= i < devices.len() && is_removable_device(#[trigger] devices[i]) && mounts_of(
                items_of(member(devices[i], "children"@)),
            ).contains(path),
    decreases devices.len(),
{
    if devices.len() > 0 {
        let rest = devices.drop_last();
        let n = devices.len() - 1;
        let last = devices[n];
        let before = device_mounts(rest);
        let all = device_mounts(devices);
        let here = mounts_of(items_of(member(last, "children"@)));
        law_removable_storage_is_offered(rest, path);
        if all.contains(path) {
            let k = choose|k: int| 0 <= k < all.len() && all[k] == path;
            if k < before.len() {
                assert(before[k] == path);
                let i = choose|i: int|
                    0 <= i < rest.len() && is_removable_device(#[trigger] rest[i]) && mounts_of(
                        items_of(member(rest[i], "children"@)),
                    ).contains(path);
                assert(devices[i] == rest[i]);
            } else {
                assert(here[k - before.len()] == path);
                assert(is_removable_device(devices[n]));
            }
        }
        if exists|i: int|
            0 <= i < devices.len() && is_removable_device(#[trigger] devices[i]) && mounts_of(
                items_of(member(devices[i], "children"@)),
            ).contains(path) {
            let i = choose|i: int|
                0 <= i < devices.len() && is_removable_device(#[trigger] devices[i]) && mounts_of(
                    items_of(member(devices[i], "children"@)),
                ).contains(path);
            if i < n {
                assert(rest[i] == devices[i]);
                let k = choose|k: int| 0 <= k < before.len() && before[k] == path;
                assert(all[k] == path);
            } else {
                let k = choose|k: int| 0 <= k < here.len() && here[k] == path;
                assert(all[before.len() + k] == path);
            }
        }
    }
}

/// Partitions are looked at in their order, each of them: one that has a mount point gives it, any
/// other gives nothing.
pub proof fn law_mounts(a: Seq<JsonTree>, b: Seq<JsonTree>, partition: JsonTree, path: Seq<char>)
    ensures
        mounts_of(a + b) == mounts_of(a) + mounts_of(b),
        mounts_of(Seq::empty()).len() == 0,
        path.len() > 0 && member(partition, "mountpoint"@) == JsonTree::Text(path) ==> mounts_of(
            seq![partition],
        ) == seq![path],
        !(member(partition, "mountpoint"@) is Text) || member(partition, "mountpoint"@)
            == JsonTree::Text(Seq::empty()) ==> mounts_of(seq![partition]).len() == 0,
    decreases b.len(),
{
    if b.len() == 0 {
        assert(a + b =~= a);
        assert(mounts_of(a) + mounts_of(b) =~= mounts_of(a));
        reveal_with_fuel(mounts_of, 2);
        let none = Seq::<JsonTree>::empty();
        assert(seq![partition].drop_last() =~= none && seq![partition].last() == partition);
        if path.len() > 0 && member(partition, "mountpoint"@) == JsonTree::Text(path) {
            assert(mounts_of(seq![partition]) =~= seq![path]);
        }
    } else {
        assert((a + b).drop_last() =~= a + b.drop_last());
        assert((a + b).last() == b.last());
        law_mounts(a, b.drop_last(), partition, path);
        assert(mounts_of(a + b) =~= mounts_of(a) + mounts_of(b));
    }
}

/// Devices are looked at in their order, each of them: removable storage gives the mount points of
/// its partitions, any other gives nothing.
pub proof fn law_device_mounts(a: Seq<JsonTree>, b: Seq<JsonTree>, device: JsonTree)
    ensures
        device_mounts(a + b) == device_mounts(a) + device_mounts(b),
        device_mounts(Seq::empty()).len() == 0,
        !is_removable_device(device) ==> device_mounts(seq![device]).len() == 0,
        is_removable_device(device) && member(device, "children"@) is Array ==> device_mounts(
            seq![device],
        ) == mounts_of(member(device, "children"@)->Array_0),
        is_removable_device(device) && !(member(device, "children"@) is Array) ==> device_mounts(
            seq![device],
        ).len() == 0,
    decreases b.len(),
{
    if b.len() == 0 {
        assert(a + b =~= a);
        assert(device_mounts(a) + device_mounts(b) =~= device_mounts(a));
        reveal_with_fuel(device_mounts, 2);
        let none = Seq::<JsonTree>::empty();
        assert(seq![device].drop_last() =~= none && seq![device].last() == device);
        if is_removable_device(device) {
            let here = mounts_of(items_of(member(device, "children"@)));
            assert(device_mounts(seq![device]) =~= here);
        }
    } else {
        assert((a + b).drop_last() =~= a + b.drop_last());
        assert((a + b).last() == b.last());
        law_device_mounts(a, b.drop_last(), device);
        assert(device_mounts(a + b) =~= device_mounts(a) + device_mounts(b));
    }
}

/// Whether a mark of `lsblk` is set, in either form in which it is written.
pub open spec fn is_set(mark: JsonTree) -> bool {
    mark == JsonTree::Bool(true) || mark == JsonTree::Text("1"@)
}

/// Whether a mark of `lsblk` is not set, in either form in which it is written.
pub open spec fn is_clear(mark: JsonTree) -> bool {
    mark == JsonTree::Bool(false) || mark == JsonTree::Text("0"@)
}

/// Storage is removable where it is on USB or marked as removable or as pluggable; where it has no
/// such mark at all, unless it is on a bus inside the machine.
pub proof fn law_removable_device(device: JsonTree)
    ensures
        member(device, "tran"@) == JsonTree::Text("usb"@) ==> is_removable_device(device),
        is_set(member(device, "rm"@)) ==> is_removable_device(device),
        is_set(member(device, "hotplug"@)) ==> is_removable_device(device),
        member(device, "tran"@) != JsonTree::Text("usb"@) && !is_set(member(device, "rm"@))
            && !is_set(member(device, "hotplug"@)) && (is_clear(member(device, "rm"@)) || is_clear(
            member(device, "hotplug"@),
        )) ==> !is_removable_device(device),
        !is_set(member(device, "rm"@)) && !is_set(member(device, "hotplug"@)) && (member(
            device,
            "tran"@,
        ) == JsonTree::Text("ata"@) || member(device, "tran"@) == JsonTree::Text("sata"@) || member(
            device,
            "tran"@,
        ) == JsonTree::Text("nvme"@) || member(device, "tran"@) == JsonTree::Text("sas"@) || member(
            device,
            "tran"@,
        ) == JsonTree::Text("virtio"@)) ==> !is_removable_device(device),
        !is_set(member(device, "rm"@)) && !is_set(member(device, "hotplug"@)) && !is_clear(
            member(device, "rm"@),
        ) && !is_clear(member(device, "hotplug"@)) && member(device, "tran"@) != JsonTree::Text(
            "ata"@,
        ) && member(device, "tran"@) != JsonTree::Text("sata"@) && member(device, "tran"@)
            != JsonTree::Text("nvme"@) && member(device, "tran"@) != JsonTree::Text("sas"@)
            && member(device, "tran"@) != JsonTree::Text("virtio"@) ==> is_removable_device(device),
{
    reveal_strlit("0");
    reveal_strlit("1");
    reveal_strlit("usb");
    reveal_strlit("ata");
    reveal_strlit("sata");
    reveal_strlit("nvme");
    reveal_strlit("sas");
    reveal_strlit("virtio");
    assert("0"@[0] == '0' && "1"@[0] == '1');
    assert("usb"@[0] == 'u' && "ata"@[0] == 'a' && "sas"@[0] == 's');
    assert("usb"@.len() == 3 && "sata"@.len() == 4 && "nvme"@.len() == 4 && "virtio"@.len() == 6);
}

/// The devices of a document are the items of its member `blockdevices`.
pub proof fn law_mounted(tree: JsonTree)
    ensures
        member(tree, "blockdevices"@) is Array ==> mounted(tree) == device_mounts(
            member(tree, "blockdevices"@)->Array_0,
        ),
        !(member(tree, "blockdevices"@) is Array) ==> mounted(tree).len() == 0,
{
}

} // verus!
