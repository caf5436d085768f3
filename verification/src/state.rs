//! The materialized state: devices, files and access grants, derived by
//! replaying DAG entries, and the hybrid logical clock.

use vstd::prelude::*;
use vstd::string::StringExecFns;
use crate::primitives::unix_time_millis;
use crate::types::{
    DeviceId, BlobHash, DeviceRole, AccessGrant, FileMetadata, FileMetadataV, Action, ActionV,
    bytes_lt, bytes32_eq, bytes32_lt, opt_text_view, copy_string, copy_meta,
};

verus! {

/// What the state knows of one device.
#[derive(Clone, Debug)]
pub struct DeviceInfo {
    pub device_id: DeviceId,
    pub name: String,
    pub role: DeviceRole,
    pub approved: bool,
    /// Clock value and author of the write that set `name`, if any.
    pub name_stamp: Option<(u64, DeviceId)>,
}

pub struct DeviceInfoV {
    pub device_id: DeviceId,
    pub name: Seq<char>,
    pub role: DeviceRole,
    pub approved: bool,
    pub name_stamp: Option<(u64, DeviceId)>,
}

impl View for DeviceInfo {
    type V = DeviceInfoV;

    open spec fn view(&self) -> DeviceInfoV {
        DeviceInfoV {
            device_id: self.device_id,
            name: self.name@,
            role: self.role,
            approved: self.approved,
            name_stamp: self.name_stamp,
        }
    }
}

/// State derived from the DAG. Devices are keyed by id and files by blob
/// hash; neither key occurs twice.
pub struct MaterializedState {
    pub devices: Vec<DeviceInfo>,
    pub files: Vec<FileMetadata>,
    pub grants: Vec<AccessGrant>,
}

pub struct StateV {
    pub devices: Seq<DeviceInfoV>,
    pub files: Seq<FileMetadataV>,
    pub grants: Seq<AccessGrant>,
}

impl View for MaterializedState {
    type V = StateV;

    open spec fn view(&self) -> StateV {
        StateV {
            devices: self.devices@.map_values(|d: DeviceInfo| d@),
            files: self.files@.map_values(|f: FileMetadata| f@),
            grants: self.grants@,
        }
    }
}

impl StateV {
    pub open spec fn wf(self) -> bool {
        &&& forall|i: int, j: int|
            0 <= i < j < self.devices.len() ==> self.devices[i].device_id != self.devices[j].device_id
        &&& forall|i: int, j: int|
            0 <= i < j < self.files.len() ==> self.files[i].blob_hash != self.files[j].blob_hash
    }

    pub open spec fn has_device(self, id: DeviceId) -> bool {
        exists|i: int| 0 <= i < self.devices.len() && self.devices[i].device_id == id
    }

    pub open spec fn device_pos(self, id: DeviceId) -> int {
        choose|i: int| 0 <= i < self.devices.len() && self.devices[i].device_id == id
    }

    pub open spec fn has_file(self, h: BlobHash) -> bool {
        exists|i: int| 0 <= i < self.files.len() && self.files[i].blob_hash == h
    }

    pub open spec fn file_pos(self, h: BlobHash) -> int {
        choose|i: int| 0 <= i < self.files.len() && self.files[i].blob_hash == h
    }
}

/// The empty state.
pub open spec fn empty_state() -> StateV {
    StateV { devices: Seq::empty(), files: Seq::empty(), grants: Seq::empty() }
}

/// Last-writer-wins: a write stamped `(hlc, author)` replaces a value
/// stamped `prev` when its clock value is higher, or equal with a higher
/// author id.
pub open spec fn stamp_newer(hlc: u64, author: DeviceId, prev: Option<(u64, DeviceId)>) -> bool {
    match prev {
        None => true,
        Some((h, a)) => hlc > h || (hlc == h && bytes_lt(a.0@, author.0@)),
    }
}

/// Grants that are not to `to`, in order.
pub open spec fn grants_without(g: Seq<AccessGrant>, to: DeviceId) -> Seq<AccessGrant>
    decreases g.len(),
{
    if g.len() == 0 {
        Seq::empty()
    } else if g.last().to == to {
        grants_without(g.drop_last(), to)
    } else {
        grants_without(g.drop_last(), to).push(g.last())
    }
}

/// A device's record after a name write stamped `(hlc, author)`.
pub open spec fn renamed(d: DeviceInfoV, name: Seq<char>, hlc: u64, author: DeviceId) -> DeviceInfoV {
    if stamp_newer(hlc, author, d.name_stamp) {
        DeviceInfoV { name, name_stamp: Some((hlc, author)), ..d }
    } else {
        d
    }
}

/// The state after an action, stamped `(hlc, author)`, is applied.
pub open spec fn apply_action(st: StateV, hlc: u64, author: DeviceId, a: ActionV) -> StateV {
    match a {
        ActionV::DeviceJoinRequest { device_id, name } => {
            if st.has_device(device_id) {
                let i = st.device_pos(device_id);
                StateV { devices: st.devices.update(i, renamed(st.devices[i], name, hlc, author)), ..st }
            } else {
                StateV {
                    devices: st.devices.push(
                        DeviceInfoV {
                            device_id,
                            name,
                            role: DeviceRole::Source,
                            approved: false,
                            name_stamp: Some((hlc, author)),
                        },
                    ),
                    ..st
                }
            }
        },
        ActionV::DeviceApproved { device_id, role } => {
            if st.has_device(device_id) {
                let i = st.device_pos(device_id);
                StateV {
                    devices: st.devices.update(i, DeviceInfoV { role, approved: true, ..st.devices[i] }),
                    ..st
                }
            } else {
                StateV {
                    devices: st.devices.push(
                        DeviceInfoV {
                            device_id,
                            name: Seq::empty(),
                            role,
                            approved: true,
                            name_stamp: None,
                        },
                    ),
                    ..st
                }
            }
        },
        ActionV::DeviceRevoked { device_id } => {
            if st.has_device(device_id) {
                let i = st.device_pos(device_id);
                StateV {
                    devices: st.devices.update(i, DeviceInfoV { approved: false, ..st.devices[i] }),
                    ..st
                }
            } else {
                st
            }
        },
        ActionV::DeviceNameChanged { device_id, name } => {
            if st.has_device(device_id) {
                let i = st.device_pos(device_id);
                StateV { devices: st.devices.update(i, renamed(st.devices[i], name, hlc, author)), ..st }
            } else {
                st
            }
        },
        ActionV::FileAdded { metadata } => {
            if st.has_file(metadata.blob_hash) {
                StateV { files: st.files.update(st.file_pos(metadata.blob_hash), metadata), ..st }
            } else {
                StateV { files: st.files.push(metadata), ..st }
            }
        },
        ActionV::FileDeleted { blob_hash } => {
            if st.has_file(blob_hash) {
                StateV { files: st.files.remove(st.file_pos(blob_hash)), ..st }
            } else {
                st
            }
        },
        ActionV::AccessGranted { grant } => StateV { grants: st.grants.push(grant), ..st },
        ActionV::AccessRevoked { to } => StateV { grants: grants_without(st.grants, to), ..st },
        ActionV::Merge => st,
        ActionV::Snapshot { .. } => st,
    }
}

/// Two different 32-byte ids are ordered one way or the other.
proof fn lemma_bytes_lt_total(a: [u8; 32], b: [u8; 32], i: int)
    requires
        0 <= i <= 32,
        forall|j: int| 0 <= j < i ==> a@[j] == b@[j],
        a != b,
    ensures
        bytes_lt(a@, b@) || bytes_lt(b@, a@),
    decreases 32 - i,
{
    if i == 32 {
        assert(a@ =~= b@);
        assert(a == b);
    } else if a@[i] != b@[i] {
        if a@[i] < b@[i] {
            assert(bytes_lt(a@, b@));
        } else {
            assert(bytes_lt(b@, a@));
        }
    } else {
        lemma_bytes_lt_total(a, b, i + 1);
    }
}

proof fn lemma_bytes_lt_asym(a: Seq<u8>, b: Seq<u8>)
    requires
        bytes_lt(a, b),
    ensures
        !bytes_lt(b, a),
{
    let k = choose|k: int| 0 <= k < a.len() && k < b.len() && a[k] < b[k] && forall|j: int| 0 <= j < k ==> a[j] == b[j];
    if bytes_lt(b, a) {
        let m = choose|m: int| 0 <= m < b.len() && m < a.len() && b[m] < a[m] && forall|j: int| 0 <= j < m ==> b[j] == a[j];
        if m < k {
            assert(a[m] == b[m]);
        } else if k < m {
            assert(b[k] == a[k]);
        }
    }
}

/// The order of write stamps: clock value, then author id.
pub open spec fn stamp_lt(a: (u64, DeviceId), b: (u64, DeviceId)) -> bool {
    a.0 < b.0 || (a.0 == b.0 && bytes_lt(a.1.0@, b.1.0@))
}

proof fn lemma_stamp_order(x: (u64, DeviceId), y: (u64, DeviceId), z: (u64, DeviceId))
    ensures
        x != y ==> stamp_lt(x, y) || stamp_lt(y, x),
        stamp_lt(x, y) ==> !stamp_lt(y, x),
        stamp_lt(x, y) && stamp_lt(y, z) ==> stamp_lt(x, z),
{
    if x != y && x.0 == y.0 {
        assert(x.1 != y.1);
        assert(x.1.0 != y.1.0);
        lemma_bytes_lt_total(x.1.0, y.1.0, 0);
    }
    if stamp_lt(x, y) && x.0 == y.0 {
        lemma_bytes_lt_asym(x.1.0@, y.1.0@);
    }
    if stamp_lt(x, y) && stamp_lt(y, z) && x.0 == y.0 && y.0 == z.0 {
        crate::topo::lemma_bytes_lt_trans(x.1.0@, y.1.0@, z.1.0@);
    }
}

/// Two name writes with different stamps leave a device's record the same
/// whichever is applied first: the write with the higher stamp wins.
pub proof fn lemma_name_writes_commute(
    d: DeviceInfoV,
    n1: Seq<char>,
    h1: u64,
    a1: DeviceId,
    n2: Seq<char>,
    h2: u64,
    a2: DeviceId,
)
    requires
        (h1, a1) != (h2, a2),
    ensures
        renamed(renamed(d, n1, h1, a1), n2, h2, a2) == renamed(renamed(d, n2, h2, a2), n1, h1, a1),
{
    let w1 = (h1, a1);
    let w2 = (h2, a2);
    lemma_stamp_order(w1, w2, w1);
    lemma_stamp_order(w2, w1, w2);
    match d.name_stamp {
        None => {},
        Some(s0) => {
            lemma_stamp_order(s0, w1, w2);
            lemma_stamp_order(s0, w2, w1);
        },
    }
}

/// Two name changes of one device with different stamps give the same
/// state in either order, so replicas that see them in different orders
/// agree.
pub proof fn lemma_name_changes_commute(
    st: StateV,
    id: DeviceId,
    n1: Seq<char>,
    h1: u64,
    a1: DeviceId,
    n2: Seq<char>,
    h2: u64,
    a2: DeviceId,
)
    requires
        st.wf(),
        (h1, a1) != (h2, a2),
    ensures
        apply_action(
            apply_action(st, h1, a1, ActionV::DeviceNameChanged { device_id: id, name: n1 }),
            h2,
            a2,
            ActionV::DeviceNameChanged { device_id: id, name: n2 },
        ) == apply_action(
            apply_action(st, h2, a2, ActionV::DeviceNameChanged { device_id: id, name: n2 }),
            h1,
            a1,
            ActionV::DeviceNameChanged { device_id: id, name: n1 },
        ),
{
    if st.has_device(id) {
        let i = st.device_pos(id);
        let d = st.devices[i];
        let s1 = StateV { devices: st.devices.update(i, renamed(d, n1, h1, a1)), ..st };
        let s2 = StateV { devices: st.devices.update(i, renamed(d, n2, h2, a2)), ..st };
        assert(s1.has_device(id)) by {
            assert(s1.devices[i].device_id == id);
        }
        assert(s1.device_pos(id) == i) by {
            let k = s1.device_pos(id);
            if k != i {
                if k < i {
                    assert(st.devices[k].device_id != st.devices[i].device_id);
                } else {
                    assert(st.devices[i].device_id != st.devices[k].device_id);
                }
            }
        }
        assert(s2.has_device(id)) by {
            assert(s2.devices[i].device_id == id);
        }
        assert(s2.device_pos(id) == i) by {
            let k = s2.device_pos(id);
            if k != i {
                if k < i {
                    assert(st.devices[k].device_id != st.devices[i].device_id);
                } else {
                    assert(st.devices[i].device_id != st.devices[k].device_id);
                }
            }
        }
        lemma_name_writes_commute(d, n1, h1, a1, n2, h2, a2);
        assert(s1.devices.update(i, renamed(s1.devices[i], n2, h2, a2)) =~= s2.devices.update(
            i,
            renamed(s2.devices[i], n1, h1, a1),
        ));
    }
}

/// In a well-formed state, the records with id `id` are exactly the one at
/// `device_pos(id)`.
proof fn lemma_device_pos(st: StateV, id: DeviceId)
    requires
        st.wf(),
        st.has_device(id),
    ensures
        0 <= st.device_pos(id) < st.devices.len(),
        st.devices[st.device_pos(id)].device_id == id,
        forall|j: int| 0 <= j < st.devices.len() && st.devices[j].device_id == id ==> j == st.device_pos(id),
{
    let i = st.device_pos(id);
    assert forall|j: int| 0 <= j < st.devices.len() && st.devices[j].device_id == id implies j == i by {
        if j < i {
            assert(st.devices[j].device_id != st.devices[i].device_id);
        } else if i < j {
            assert(st.devices[i].device_id != st.devices[j].device_id);
        }
    }
}

/// Every record of `t` with id `id` satisfies `p`, and `t` has one.
pub open spec fn device_has(t: StateV, id: DeviceId, p: spec_fn(DeviceInfoV) -> bool) -> bool {
    &&& exists|i: int| 0 <= i < t.devices.len() && t.devices[i].device_id == id
    &&& forall|i: int| 0 <= i < t.devices.len() && t.devices[i].device_id == id ==> p(#[trigger] t.devices[i])
}

/// The records of `t` with ids other than `id` are those of `s`.
pub open spec fn others_kept(s: StateV, t: StateV, id: DeviceId) -> bool {
    &&& forall|i: int|
        0 <= i < s.devices.len() && s.devices[i].device_id != id ==> t.devices.contains(#[trigger] s.devices[i])
    &&& forall|i: int|
        0 <= i < t.devices.len() && t.devices[i].device_id != id ==> s.devices.contains(#[trigger] t.devices[i])
}

proof fn lemma_update_keeps_others(st: StateV, i: int, d: DeviceInfoV, id: DeviceId)
    requires
        st.wf(),
        st.has_device(id),
        i == st.device_pos(id),
        d.device_id == id,
    ensures
        others_kept(st, StateV { devices: st.devices.update(i, d), ..st }, id),
        (StateV { devices: st.devices.update(i, d), ..st }).wf(),
        device_has(StateV { devices: st.devices.update(i, d), ..st }, id, |x: DeviceInfoV| x == d),
{
    lemma_device_pos(st, id);
    let t = StateV { devices: st.devices.update(i, d), ..st };
    assert forall|j: int| 0 <= j < st.devices.len() && st.devices[j].device_id != id implies t.devices.contains(
        #[trigger] st.devices[j],
    ) by {
        assert(t.devices[j] == st.devices[j]);
    }
    assert forall|j: int| 0 <= j < t.devices.len() && t.devices[j].device_id != id implies st.devices.contains(
        #[trigger] t.devices[j],
    ) by {
        assert(t.devices[j] == st.devices[j]);
    }
    assert(t.devices[i].device_id == id);
    assert forall|a: int, b: int| 0 <= a < b < t.devices.len() implies t.devices[a].device_id
        != t.devices[b].device_id by {
        if a == i {
            assert(st.devices[b].device_id != id);
        } else if b == i {
            assert(st.devices[a].device_id != id);
        }
    }
}

proof fn lemma_push_keeps_others(st: StateV, d: DeviceInfoV, id: DeviceId)
    requires
        st.wf(),
        !st.has_device(id),
        d.device_id == id,
    ensures
        others_kept(st, StateV { devices: st.devices.push(d), ..st }, id),
        (StateV { devices: st.devices.push(d), ..st }).wf(),
        device_has(StateV { devices: st.devices.push(d), ..st }, id, |x: DeviceInfoV| x == d),
{
    let t = StateV { devices: st.devices.push(d), ..st };
    assert(t.devices[st.devices.len() as int].device_id == id);
    assert forall|j: int| 0 <= j < st.devices.len() && st.devices[j].device_id != id implies t.devices.contains(
        #[trigger] st.devices[j],
    ) by {
        assert(t.devices[j] == st.devices[j]);
    }
    assert forall|j: int| 0 <= j < t.devices.len() && t.devices[j].device_id != id implies st.devices.contains(
        #[trigger] t.devices[j],
    ) by {
        assert(t.devices[j] == st.devices[j]);
    }
    assert forall|j: int| 0 <= j < t.devices.len() && t.devices[j].device_id == id implies t.devices[j] == d by {
        if j < st.devices.len() {
            assert(st.devices[j].device_id == id);
        }
    }
}

/// Approving a device, known or not, leaves exactly one record for it,
/// approved and with the role given; a known device keeps its name; every
/// other device, the files and the grants stay as they were.
pub proof fn lemma_approve_sets_role(st: StateV, hlc: u64, author: DeviceId, id: DeviceId, role: DeviceRole)
    requires
        st.wf(),
    ensures
        ({
            let t = apply_action(st, hlc, author, ActionV::DeviceApproved { device_id: id, role });
            &&& t.wf()
            &&& device_has(t, id, |x: DeviceInfoV| x.approved && x.role == role)
            &&& st.has_device(id) ==> device_has(
                t,
                id,
                |x: DeviceInfoV| x.name == st.devices[st.device_pos(id)].name,
            )
            &&& others_kept(st, t, id)
            &&& t.files == st.files
            &&& t.grants == st.grants
        }),
{
    if st.has_device(id) {
        let i = st.device_pos(id);
        lemma_device_pos(st, id);
        lemma_update_keeps_others(st, i, DeviceInfoV { role, approved: true, ..st.devices[i] }, id);
    } else {
        lemma_push_keeps_others(
            st,
            DeviceInfoV { device_id: id, name: Seq::empty(), role, approved: true, name_stamp: None },
            id,
        );
    }
}

/// Revoking a known device leaves it unapproved with its role and name;
/// revoking an unknown one changes nothing; other devices, files and grants
/// stay as they were.
pub proof fn lemma_revoke_clears_approval(st: StateV, hlc: u64, author: DeviceId, id: DeviceId)
    requires
        st.wf(),
    ensures
        ({
            let t = apply_action(st, hlc, author, ActionV::DeviceRevoked { device_id: id });
            &&& t.wf()
            &&& st.has_device(id) ==> device_has(
                t,
                id,
                |x: DeviceInfoV|
                    !x.approved && x.role == st.devices[st.device_pos(id)].role && x.name == st.devices[st.device_pos(
                        id,
                    )].name,
            )
            &&& !st.has_device(id) ==> t == st
            &&& others_kept(st, t, id)
            &&& t.files == st.files
            &&& t.grants == st.grants
        }),
{
    if st.has_device(id) {
        let i = st.device_pos(id);
        lemma_device_pos(st, id);
        lemma_update_keeps_others(st, i, DeviceInfoV { approved: false, ..st.devices[i] }, id);
    } else {
        assert forall|j: int| 0 <= j < st.devices.len() && st.devices[j].device_id != id implies st.devices.contains(
            #[trigger] st.devices[j],
        ) by {}
    }
}

/// A join request from an unknown device records it unapproved, as a
/// source, under the name it gives; from a known device it only renames it,
/// by last-writer-wins. Other devices, files and grants stay as they were.
pub proof fn lemma_join_request(st: StateV, hlc: u64, author: DeviceId, id: DeviceId, name: Seq<char>)
    requires
        st.wf(),
    ensures
        ({
            let t = apply_action(st, hlc, author, ActionV::DeviceJoinRequest { device_id: id, name });
            &&& t.wf()
            &&& !st.has_device(id) ==> device_has(
                t,
                id,
                |x: DeviceInfoV| !x.approved && x.role == DeviceRole::Source && x.name == name,
            )
            &&& st.has_device(id) ==> device_has(
                t,
                id,
                |x: DeviceInfoV|
                    x.approved == st.devices[st.device_pos(id)].approved && x.role == st.devices[st.device_pos(
                        id,
                    )].role,
            )
            &&& others_kept(st, t, id)
            &&& t.files == st.files
            &&& t.grants == st.grants
        }),
{
    if st.has_device(id) {
        let i = st.device_pos(id);
        lemma_device_pos(st, id);
        lemma_update_keeps_others(st, i, renamed(st.devices[i], name, hlc, author), id);
    } else {
        lemma_push_keeps_others(
            st,
            DeviceInfoV {
                device_id: id,
                name,
                role: DeviceRole::Source,
                approved: false,
                name_stamp: Some((hlc, author)),
            },
            id,
        );
    }
}

/// Renaming a known device sets its name when the write's stamp is newer
/// than the name's, and keeps the old name otherwise; its approval and role
/// are kept. Renaming an unknown device changes nothing.
pub proof fn lemma_rename_last_writer_wins(
    st: StateV,
    hlc: u64,
    author: DeviceId,
    id: DeviceId,
    name: Seq<char>,
)
    requires
        st.wf(),
    ensures
        ({
            let t = apply_action(st, hlc, author, ActionV::DeviceNameChanged { device_id: id, name });
            let old = st.devices[st.device_pos(id)];
            &&& t.wf()
            &&& !st.has_device(id) ==> t == st
            &&& st.has_device(id) ==> device_has(
                t,
                id,
                |x: DeviceInfoV|
                    x.approved == old.approved && x.role == old.role && x.name == (if stamp_newer(
                        hlc,
                        author,
                        old.name_stamp,
                    ) {
                        name
                    } else {
                        old.name
                    }),
            )
            &&& others_kept(st, t, id)
        }),
{
    if st.has_device(id) {
        let i = st.device_pos(id);
        lemma_device_pos(st, id);
        lemma_update_keeps_others(st, i, renamed(st.devices[i], name, hlc, author), id);
    } else {
        assert forall|j: int| 0 <= j < st.devices.len() && st.devices[j].device_id != id implies st.devices.contains(
            #[trigger] st.devices[j],
        ) by {}
    }
}

/// Adding a file leaves exactly one file with its hash, the metadata
/// given, and keeps every other file; devices and grants stay as they were.
pub proof fn lemma_file_added(st: StateV, hlc: u64, author: DeviceId, m: FileMetadataV)
    requires
        st.wf(),
    ensures
        ({
            let t = apply_action(st, hlc, author, ActionV::FileAdded { metadata: m });
            &&& t.wf()
            &&& t.files.contains(m)
            &&& forall|i: int| 0 <= i < t.files.len() && t.files[i].blob_hash == m.blob_hash ==> t.files[i] == m
            &&& forall|i: int|
                0 <= i < st.files.len() && st.files[i].blob_hash != m.blob_hash ==> t.files.contains(
                    #[trigger] st.files[i],
                )
            &&& forall|i: int|
                0 <= i < t.files.len() && t.files[i].blob_hash != m.blob_hash ==> st.files.contains(
                    #[trigger] t.files[i],
                )
            &&& t.devices == st.devices
            &&& t.grants == st.grants
        }),
{
    let t = apply_action(st, hlc, author, ActionV::FileAdded { metadata: m });
    if st.has_file(m.blob_hash) {
        let k = st.file_pos(m.blob_hash);
        assert forall|j: int| 0 <= j < st.files.len() && st.files[j].blob_hash == m.blob_hash implies j == k by {
            if j < k {
                assert(st.files[j].blob_hash != st.files[k].blob_hash);
            } else if k < j {
                assert(st.files[k].blob_hash != st.files[j].blob_hash);
            }
        }
        assert(t.files[k] == m);
        assert forall|j: int| 0 <= j < st.files.len() && st.files[j].blob_hash != m.blob_hash implies t.files.contains(
            #[trigger] st.files[j],
        ) by {
            assert(t.files[j] == st.files[j]);
        }
        assert forall|j: int| 0 <= j < t.files.len() && t.files[j].blob_hash != m.blob_hash implies st.files.contains(
            #[trigger] t.files[j],
        ) by {
            assert(t.files[j] == st.files[j]);
        }
    } else {
        let n = st.files.len() as int;
        assert(t.files[n] == m);
        assert forall|j: int| 0 <= j < t.files.len() && t.files[j].blob_hash == m.blob_hash implies t.files[j] == m by {
            if j < n {
                assert(st.files[j].blob_hash == m.blob_hash);
            }
        }
        assert forall|j: int| 0 <= j < st.files.len() && st.files[j].blob_hash != m.blob_hash implies t.files.contains(
            #[trigger] st.files[j],
        ) by {
            assert(t.files[j] == st.files[j]);
        }
        assert forall|j: int| 0 <= j < t.files.len() && t.files[j].blob_hash != m.blob_hash implies st.files.contains(
            #[trigger] t.files[j],
        ) by {
            assert(t.files[j] == st.files[j]);
        }
    }
}

/// Deleting a file leaves no file with its hash and keeps every other
/// file; devices and grants stay as they were.
pub proof fn lemma_file_deleted(st: StateV, hlc: u64, author: DeviceId, h: BlobHash)
    requires
        st.wf(),
    ensures
        ({
            let t = apply_action(st, hlc, author, ActionV::FileDeleted { blob_hash: h });
            &&& t.wf()
            &&& forall|i: int| 0 <= i < t.files.len() ==> (#[trigger] t.files[i]).blob_hash != h
            &&& forall|i: int|
                0 <= i < st.files.len() && st.files[i].blob_hash != h ==> t.files.contains(#[trigger] st.files[i])
            &&& forall|i: int| 0 <= i < t.files.len() ==> st.files.contains(#[trigger] t.files[i])
            &&& t.devices == st.devices
            &&& t.grants == st.grants
        }),
{
    let t = apply_action(st, hlc, author, ActionV::FileDeleted { blob_hash: h });
    if st.has_file(h) {
        let k = st.file_pos(h);
        assert forall|i: int| 0 <= i < t.files.len() implies (#[trigger] t.files[i]).blob_hash != h by {
            if i < k {
                assert(t.files[i] == st.files[i]);
                assert(st.files[i].blob_hash != st.files[k].blob_hash);
            } else {
                assert(t.files[i] == st.files[i + 1]);
                assert(st.files[k].blob_hash != st.files[i + 1].blob_hash);
            }
        }
        assert forall|i: int| 0 <= i < st.files.len() && st.files[i].blob_hash != h implies t.files.contains(
            #[trigger] st.files[i],
        ) by {
            if i < k {
                assert(t.files[i] == st.files[i]);
            } else {
                assert(i != k);
                assert(t.files[i - 1] == st.files[i]);
            }
        }
        assert forall|i: int| 0 <= i < t.files.len() implies st.files.contains(#[trigger] t.files[i]) by {
            if i < k {
                assert(t.files[i] == st.files[i]);
            } else {
                assert(t.files[i] == st.files[i + 1]);
            }
        }
    } else {
        assert forall|i: int| 0 <= i < t.files.len() implies st.files.contains(#[trigger] t.files[i]) by {}
    }
}

proof fn lemma_grants_without(g: Seq<AccessGrant>, to: DeviceId)
    ensures
        forall|x: AccessGrant| grants_without(g, to).contains(x) <==> (g.contains(x) && x.to != to),
    decreases g.len(),
{
    if g.len() > 0 {
        let r = g.drop_last();
        lemma_grants_without(r, to);
        assert forall|x: AccessGrant| g.contains(x) <==> (r.contains(x) || x == g.last()) by {
            if g.contains(x) {
                let i = choose|i: int| 0 <= i < g.len() && g[i] == x;
                if i < r.len() {
                    assert(r[i] == x);
                }
            }
            if r.contains(x) {
                let i = choose|i: int| 0 <= i < r.len() && r[i] == x;
                assert(g[i] == x);
            }
            if x == g.last() {
                assert(g[g.len() - 1] == x);
            }
        }
        let w = grants_without(r, to);
        assert forall|x: AccessGrant| w.push(g.last()).contains(x) <==> (w.contains(x) || x == g.last()) by {
            if w.push(g.last()).contains(x) {
                let i = choose|i: int| 0 <= i < w.len() + 1 && w.push(g.last())[i] == x;
                if i < w.len() {
                    assert(w[i] == x);
                }
            }
            if w.contains(x) {
                let i = choose|i: int| 0 <= i < w.len() && w[i] == x;
                assert(w.push(g.last())[i] == x);
            }
            if x == g.last() {
                assert(w.push(g.last())[w.len() as int] == x);
            }
        }
    }
}

/// Granting access adds the grant and keeps every earlier grant;
/// revoking access to a device leaves no grant to it and keeps every grant
/// to another device. Devices and files stay as they were.
pub proof fn lemma_grants(st: StateV, hlc: u64, author: DeviceId, grant: AccessGrant, to: DeviceId)
    ensures
        ({
            let t = apply_action(st, hlc, author, ActionV::AccessGranted { grant });
            &&& t.grants.contains(grant)
            &&& forall|x: AccessGrant| t.grants.contains(x) <==> (st.grants.contains(x) || x == grant)
            &&& t.grants.len() == st.grants.len() + 1
            &&& t.devices == st.devices && t.files == st.files
        }),
        ({
            let t = apply_action(st, hlc, author, ActionV::AccessRevoked { to });
            &&& forall|x: AccessGrant| t.grants.contains(x) <==> (st.grants.contains(x) && x.to != to)
            &&& t.devices == st.devices && t.files == st.files
        }),
{
    let g = st.grants;
    let t = apply_action(st, hlc, author, ActionV::AccessGranted { grant });
    assert(t.grants[g.len() as int] == grant);
    assert forall|x: AccessGrant| t.grants.contains(x) <==> (g.contains(x) || x == grant) by {
        if t.grants.contains(x) {
            let i = choose|i: int| 0 <= i < t.grants.len() && t.grants[i] == x;
            if i < g.len() {
                assert(g[i] == x);
            }
        }
        if g.contains(x) {
            let i = choose|i: int| 0 <= i < g.len() && g[i] == x;
            assert(t.grants[i] == x);
        }
    }
    lemma_grants_without(g, to);
}

fn stamp_is_newer(hlc: u64, author: &DeviceId, prev: &Option<(u64, DeviceId)>) -> (res: bool)
    ensures
        res == stamp_newer(hlc, *author, *prev),
{
    match prev {
        None => true,
        Some((h, a)) => hlc > *h || (hlc == *h && bytes32_lt(&a.0, &author.0)),
    }
}

impl MaterializedState {
    /// The empty state.
    pub fn new() -> (res: MaterializedState)
        ensures
            res@ == empty_state(),
    {
        let res = MaterializedState { devices: Vec::new(), files: Vec::new(), grants: Vec::new() };
        assert(res@.devices =~= Seq::<DeviceInfoV>::empty());
        assert(res@.files =~= Seq::<FileMetadataV>::empty());
        res
    }

    fn find_device(&self, id: &DeviceId) -> (res: Option<usize>)
        ensures
            match res {
                Some(i) => i < self@.devices.len() && self@.devices[i as int].device_id == *id,
                None => !self@.has_device(*id),
            },
    {
        let mut i: usize = 0;
        while i < self.devices.len()
            invariant
                i <= self.devices@.len(),
                forall|j: int| 0 <= j < i ==> self@.devices[j].device_id != *id,
            decreases self.devices@.len() - i,
        {
            if bytes32_eq(&self.devices[i].device_id.0, &id.0) {
                assert(self@.devices[i as int].device_id.0 == id.0);
                return Some(i);
            }
            proof {
                if self@.devices[i as int].device_id == *id {
                    assert(self@.devices[i as int].device_id.0 == id.0);
                }
            }
            i = i + 1;
        }
        None
    }

    fn find_file(&self, h: &BlobHash) -> (res: Option<usize>)
        ensures
            match res {
                Some(i) => i < self@.files.len() && self@.files[i as int].blob_hash == *h,
                None => !self@.has_file(*h),
            },
    {
        let mut i: usize = 0;
        while i < self.files.len()
            invariant
                i <= self.files@.len(),
                forall|j: int| 0 <= j < i ==> self@.files[j].blob_hash != *h,
            decreases self.files@.len() - i,
        {
            if bytes32_eq(&self.files[i].blob_hash.0, &h.0) {
                assert(self@.files[i as int].blob_hash.0 == h.0);
                return Some(i);
            }
            proof {
                if self@.files[i as int].blob_hash == *h {
                    assert(self@.files[i as int].blob_hash.0 == h.0);
                }
            }
            i = i + 1;
        }
        None
    }

    /// The record of a device, if the state knows it.
    pub fn device(&self, id: &DeviceId) -> (res: Option<&DeviceInfo>)
        requires
            self@.wf(),
        ensures
            res is Some <==> self@.has_device(*id),
            res matches Some(d) ==> d@ == self@.devices[self@.device_pos(*id)],
    {
        match self.find_device(id) {
            Some(i) => Some(&self.devices[i]),
            None => None,
        }
    }

    /// Whether a file with this blob hash is present.
    pub fn has_file(&self, h: &BlobHash) -> (res: bool)
        ensures
            res == self@.has_file(*h),
    {
        self.find_file(h).is_some()
    }

    /// Applies an action stamped with clock value `hlc` and author `author`.
    pub fn apply(&mut self, hlc: u64, author: &DeviceId, action: &Action)
        requires
            old(self)@.wf(),
        ensures
            final(self)@ == apply_action(old(self)@, hlc, *author, action@),
            final(self)@.wf(),
    {
        let ghost st = self@;
        match action {
            Action::DeviceJoinRequest { device_id, name } => {
                match self.find_device(device_id) {
                    Some(i) => {
                        if stamp_is_newer(hlc, author, &self.devices[i].name_stamp) {
                            let d = DeviceInfo {
                                device_id: self.devices[i].device_id,
                                name: copy_string(name),
                                role: self.devices[i].role,
                                approved: self.devices[i].approved,
                                name_stamp: Some((hlc, *author)),
                            };
                            self.devices[i] = d;
                        }
                        assert(self@.devices =~= apply_action(st, hlc, *author, action@).devices);
                    },
                    None => {
                        let d = DeviceInfo {
                            device_id: *device_id,
                            name: copy_string(name),
                            role: DeviceRole::Source,
                            approved: false,
                            name_stamp: Some((hlc, *author)),
                        };
                        self.devices.push(d);
                        assert(self@.devices =~= apply_action(st, hlc, *author, action@).devices);
                    },
                }
            },
            Action::DeviceApproved { device_id, role } => {
                match self.find_device(device_id) {
                    Some(i) => {
                        let d = DeviceInfo {
                            device_id: self.devices[i].device_id,
                            name: copy_string(&self.devices[i].name),
                            role: *role,
                            approved: true,
                            name_stamp: self.devices[i].name_stamp,
                        };
                        self.devices[i] = d;
                        assert(self@.devices =~= apply_action(st, hlc, *author, action@).devices);
                    },
                    None => {
                        let d = DeviceInfo {
                            device_id: *device_id,
                            name: String::new(),
                            role: *role,
                            approved: true,
                            name_stamp: None,
                        };
                        self.devices.push(d);
                        assert(self@.devices =~= apply_action(st, hlc, *author, action@).devices);
                    },
                }
            },
            Action::DeviceRevoked { device_id } => {
                match self.find_device(device_id) {
                    Some(i) => {
                        let d = DeviceInfo {
                            device_id: self.devices[i].device_id,
                            name: copy_string(&self.devices[i].name),
                            role: self.devices[i].role,
                            approved: false,
                            name_stamp: self.devices[i].name_stamp,
                        };
                        self.devices[i] = d;
                        assert(self@.devices =~= apply_action(st, hlc, *author, action@).devices);
                    },
                    None => {},
                }
            },
            Action::DeviceNameChanged { device_id, name } => {
                match self.find_device(device_id) {
                    Some(i) => {
                        if stamp_is_newer(hlc, author, &self.devices[i].name_stamp) {
                            let d = DeviceInfo {
                                device_id: self.devices[i].device_id,
                                name: copy_string(name),
                                role: self.devices[i].role,
                                approved: self.devices[i].approved,
                                name_stamp: Some((hlc, *author)),
                            };
                            self.devices[i] = d;
                        }
                        assert(self@.devices =~= apply_action(st, hlc, *author, action@).devices);
                    },
                    None => {},
                }
            },
            Action::FileAdded { metadata } => {
                match self.find_file(&metadata.blob_hash) {
                    Some(i) => {
                        self.files[i] = copy_meta(metadata);
                        assert(self@.files =~= apply_action(st, hlc, *author, action@).files);
                    },
                    None => {
                        self.files.push(copy_meta(metadata));
                        assert(self@.files =~= apply_action(st, hlc, *author, action@).files);
                    },
                }
            },
            Action::FileDeleted { blob_hash } => {
                match self.find_file(blob_hash) {
                    Some(i) => {
                        self.files.remove(i);
                        assert(self@.files =~= apply_action(st, hlc, *author, action@).files);
                    },
                    None => {},
                }
            },
            Action::AccessGranted { grant } => {
                self.grants.push(*grant);
            },
            Action::AccessRevoked { to } => {
                let mut kept: Vec<AccessGrant> = Vec::new();
                let mut i: usize = 0;
                while i < self.grants.len()
                    invariant
                        i <= self.grants@.len(),
                        kept@ == grants_without(self.grants@.subrange(0, i as int), *to),
                    decreases self.grants@.len() - i,
                {
                    let g = self.grants[i];
                    proof {
                        assert(self.grants@.subrange(0, i + 1).drop_last() =~= self.grants@.subrange(
                            0,
                            i as int,
                        ));
                    }
                    if !bytes32_eq(&g.to.0, &to.0) {
                        kept.push(g);
                    } else {
                        assert(g.to.0 == to.0);
                    }
                    i = i + 1;
                }
                assert(self.grants@.subrange(0, self.grants@.len() as int) =~= self.grants@);
                self.grants = kept;
            },
            Action::Merge => {},
            Action::Snapshot { .. } => {},
        }
        assert(self@ == apply_action(st, hlc, *author, action@));
    }
}

} // verus!
