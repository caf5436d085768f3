//! What the conflict and device screens pick out of the daemon's lists:
//! one "keep all newest" row per run of conflicts in the same folder, the
//! local device, the other devices, and how each other device is shown as
//! online, last seen or never connected.

use vstd::prelude::*;
use crate::display::{age_text, relative_time_label};
use crate::templates::str_eq;

verus! {

/// A conflict, by the folder it is in.
pub struct ConflictFolder {
    pub folder_id: String,
    pub folder_name: String,
}

/// A device as the device screen lists it.
pub struct DeviceRow {
    pub device_id: String,
    pub name: String,
    pub role: String,
}

/// Whether a device is connected, and when it last was (0 for never).
pub struct Presence {
    pub device_id: String,
    pub online: bool,
    pub last_seen_unix: u64,
}

/// The folder ids of `cs`, in order.
pub open spec fn folder_ids(cs: Seq<ConflictFolder>) -> Seq<Seq<char>> {
    cs.map_values(|c: ConflictFolder| c.folder_id@)
}

/// `ids` with each run of equal neighbours kept once (`Vec::dedup`).
pub open spec fn runs(ids: Seq<Seq<char>>) -> Seq<Seq<char>>
    decreases ids.len(),
{
    if ids.len() == 0 {
        Seq::empty()
    } else if ids.len() >= 2 && ids[ids.len() - 2] == ids.last() {
        runs(ids.drop_last())
    } else {
        runs(ids.drop_last()).push(ids.last())
    }
}

/// The name of the first conflict of `cs` in folder `id`, "unknown" when
/// there is none.
pub open spec fn first_folder_name(cs: Seq<ConflictFolder>, id: Seq<char>) -> Seq<char>
    decreases cs.len(),
{
    if cs.len() == 0 {
        "unknown"@
    } else if cs[0].folder_id@ == id {
        cs[0].folder_name@
    } else {
        first_folder_name(cs.drop_first(), id)
    }
}

/// The folders of the conflict screen's "keep all newest" rows, by id and
/// name: one per run of conflicts in the same folder, named after the first
/// conflict in that folder.
pub fn conflict_folders(cs: &Vec<ConflictFolder>) -> (res: Vec<(String, String)>)
    ensures
        res@.len() == runs(folder_ids(cs@)).len(),
        forall|k: int|
            0 <= k < res@.len() ==> (#[trigger] res@[k]).0@ == runs(folder_ids(cs@))[k] && res@[k].1@
                == first_folder_name(cs@, res@[k].0@),
{
    let ghost ids = folder_ids(cs@);
    let mut out: Vec<(String, String)> = Vec::new();
    let mut i: usize = 0;
    while i < cs.len()
        invariant
            i <= cs@.len(),
            ids == folder_ids(cs@),
            out@.len() == runs(ids.take(i as int)).len(),
            forall|k: int|
                0 <= k < out@.len() ==> (#[trigger] out@[k]).0@ == runs(ids.take(i as int))[k] && out@[k].1@
                    == first_folder_name(cs@, out@[k].0@),
        decreases cs@.len() - i,
    {
        let ghost t = ids.take(i + 1);
        assert(t.drop_last() =~= ids.take(i as int));
        assert(t.last() == cs@[i as int].folder_id@);
        let repeat = i > 0 && str_eq(cs[i - 1].folder_id.as_str(), cs[i].folder_id.as_str());
        proof {
            if i > 0 {
                assert(t[t.len() - 2] == cs@[i - 1].folder_id@);
            }
        }
        if !repeat {
            let id = cs[i].folder_id.clone();
            let name = first_name(cs, id.as_str());
            out.push((id, name));
        }
        i = i + 1;
    }
    assert(ids.take(cs@.len() as int) =~= ids);
    out
}

/// The name of the first conflict in folder `id`.
fn first_name(cs: &Vec<ConflictFolder>, id: &str) -> (res: String)
    ensures
        res@ == first_folder_name(cs@, id@),
{
    let mut i: usize = 0;
    assert(cs@.skip(0) =~= cs@);
    while i < cs.len()
        invariant
            i <= cs@.len(),
            first_folder_name(cs@, id@) == first_folder_name(cs@.skip(i as int), id@),
        decreases cs@.len() - i,
    {
        assert(cs@.skip(i as int)[0] == cs@[i as int]);
        if str_eq(cs[i].folder_id.as_str(), id) {
            return cs[i].folder_name.clone();
        }
        assert(cs@.skip(i as int).drop_first() =~= cs@.skip(i + 1));
        i = i + 1;
    }
    assert(cs@.skip(i as int) =~= Seq::<ConflictFolder>::empty());
    String::from_str("unknown")
}

/// The device listed as this device: the first whose id is `local_id`.
pub fn local_device(devices: &Vec<DeviceRow>, local_id: &str) -> (res: Option<usize>)
    ensures
        match res {
            Some(k) => k < devices@.len() && devices@[k as int].device_id@ == local_id@ && forall|j: int|
                0 <= j < k ==> devices@[j].device_id@ != local_id@,
            None => forall|j: int| 0 <= j < devices@.len() ==> devices@[j].device_id@ != local_id@,
        },
{
    let mut i: usize = 0;
    while i < devices.len()
        invariant
            i <= devices@.len(),
            forall|j: int| 0 <= j < i ==> devices@[j].device_id@ != local_id@,
        decreases devices@.len() - i,
    {
        if str_eq(devices[i].device_id.as_str(), local_id) {
            return Some(i);
        }
        i = i + 1;
    }
    None
}

/// The positions, in order, of the devices other than `local_id`.
pub fn other_devices(devices: &Vec<DeviceRow>, local_id: &str) -> (res: Vec<usize>)
    ensures
        forall|k: int| 0 <= k < res@.len() ==> #[trigger] res@[k] < devices@.len(),
        forall|a: int, b: int| 0 <= a < b < res@.len() ==> res@[a] < res@[b],
        forall|j: int|
            0 <= j < devices@.len() ==> (devices@[j].device_id@ != local_id@ <==> res@.contains(j as usize)),
{
    let mut out: Vec<usize> = Vec::new();
    let mut i: usize = 0;
    while i < devices.len()
        invariant
            i <= devices@.len(),
            forall|k: int| 0 <= k < out@.len() ==> #[trigger] out@[k] < i,
            forall|a: int, b: int| 0 <= a < b < out@.len() ==> out@[a] < out@[b],
            forall|j: int| 0 <= j < i ==> (devices@[j].device_id@ != local_id@ <==> out@.contains(j as usize)),
        decreases devices@.len() - i,
    {
        let ghost before = out@;
        if !str_eq(devices[i].device_id.as_str(), local_id) {
            out.push(i);
        }
        proof {
            assert forall|j: int| 0 <= j < i + 1 implies (devices@[j].device_id@ != local_id@ <==> out@.contains(
                j as usize,
            )) by {
                if out@.contains(j as usize) && j < i {
                    let m = choose|m: int| 0 <= m < out@.len() && out@[m] == j as usize;
                    if m < before.len() {
                        assert(before[m] == j as usize);
                    }
                }
                if j < i && before.contains(j as usize) {
                    let m = choose|m: int| 0 <= m < before.len() && before[m] == j as usize;
                    assert(out@[m] == j as usize);
                }
                if j == i && devices@[j].device_id@ != local_id@ {
                    assert(out@[out@.len() - 1] == i);
                }
                if j == i && out@.contains(j as usize) {
                    let m = choose|m: int| 0 <= m < out@.len() && out@[m] == j as usize;
                    if m < before.len() {
                        assert(before[m] < i);
                    }
                }
            }
        }
        i = i + 1;
    }
    out
}

/// How a device is shown at time `now`, from the first presence record
/// for it: "Online", how long ago it was last seen, or "Never connected".
pub open spec fn presence_text(ps: Seq<Presence>, device_id: Seq<char>, now: u64) -> Seq<char>
    decreases ps.len(),
{
    if ps.len() == 0 {
        "Never connected"@
    } else if ps[0].device_id@ == device_id {
        if ps[0].online {
            "Online"@
        } else if ps[0].last_seen_unix > 0 {
            age_text(now, ps[0].last_seen_unix)
        } else {
            "Never connected"@
        }
    } else {
        presence_text(ps.drop_first(), device_id, now)
    }
}

/// The status shown for device `device_id` at time `now_secs`.
pub fn presence_label(ps: &Vec<Presence>, device_id: &str, now_secs: u64) -> (res: String)
    ensures
        res@ == presence_text(ps@, device_id@, now_secs),
{
    let mut i: usize = 0;
    assert(ps@.skip(0) =~= ps@);
    while i < ps.len()
        invariant
            i <= ps@.len(),
            presence_text(ps@, device_id@, now_secs) == presence_text(ps@.skip(i as int), device_id@, now_secs),
        decreases ps@.len() - i,
    {
        assert(ps@.skip(i as int)[0] == ps@[i as int]);
        if str_eq(ps[i].device_id.as_str(), device_id) {
            if ps[i].online {
                return String::from_str("Online");
            } else if ps[i].last_seen_unix > 0 {
                return relative_time_label(now_secs, ps[i].last_seen_unix);
            } else {
                return String::from_str("Never connected");
            }
        }
        assert(ps@.skip(i as int).drop_first() =~= ps@.skip(i + 1));
        i = i + 1;
    }
    assert(ps@.skip(i as int) =~= Seq::<Presence>::empty());
    String::from_str("Never connected")
}

} // verus!
